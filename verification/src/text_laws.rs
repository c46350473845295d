//! What holds of the operations on text.

use crate::text;
use crate::text_map::TextMap;
use vstd::prelude::*;

verus! {

/// Making a text lower-case changes its ASCII capitals, by their distance of 32,
/// and nothing else.
pub proof fn law_lower_case(s: Seq<char>, i: int)
    requires
        0 <= i < s.len(),
    ensures
        text::lower(s).len() == s.len(),
        65 <= s[i] as u32 <= 90 ==> text::lower(s)[i] as u32 == s[i] as u32 + 32,
        !(65 <= s[i] as u32 <= 90) ==> text::lower(s)[i] == s[i],
{
}

/// Lower-case text stays as it is.
pub proof fn law_lower_case_twice(s: Seq<char>)
    ensures
        text::lower(text::lower(s)) == text::lower(s),
{
    assert(text::lower(text::lower(s)) =~= text::lower(s));
}

/// A text occurs in another just when the other is made of it with something
/// before and after.
pub proof fn law_occurrence(needle: Seq<char>, hay: Seq<char>)
    ensures
        text::occurs(needle, hay) <==> exists|before: Seq<char>, after: Seq<char>|
            hay == #[trigger] (before + needle + after),
{
    if text::occurs(needle, hay) {
        let i = choose|i: int|
            0 <= i <= hay.len() - needle.len() && #[trigger] hay.subrange(i, i + needle.len())
                == needle;
        assert(hay =~= hay.take(i) + hay.subrange(i, i + needle.len()) + hay.skip(
            i + needle.len(),
        ));
        assert(hay == hay.take(i) + needle + hay.skip(i + needle.len()));
    }
    if exists|before: Seq<char>, after: Seq<char>| hay == #[trigger] (before + needle + after) {
        let (before, after) = choose|before: Seq<char>, after: Seq<char>|
            hay == #[trigger] (before + needle + after);
        let i = before.len() as int;
        assert(hay.subrange(i, i + needle.len()) =~= needle);
    }
}

/// The white-space characters by their numbers.
pub proof fn law_white_space(c: char)
    ensures
        text::is_white(c) <==> {
            let n = c as u32;
            ||| 9 <= n <= 13
            ||| n == 32
            ||| n == 133
            ||| n == 160
            ||| n == 5760
            ||| 8192 <= n <= 8202
            ||| n == 8232
            ||| n == 8233
            ||| n == 8239
            ||| n == 8287
            ||| n == 12288
        },
{
}

/// Whether a text is all white space.
pub open spec fn all_white(s: Seq<char>) -> bool {
    forall|i: int| 0 <= i < s.len() ==> text::is_white(#[trigger] s[i])
}

/// Trimming takes white space off both ends and leaves none there; what is left
/// stands in the text as it was.
pub proof fn law_trim(s: Seq<char>) -> (r: (Seq<char>, Seq<char>))
    ensures
        s == r.0 + text::trim(s) + r.1,
        all_white(r.0),
        all_white(r.1),
        text::trim(s).len() > 0 ==> !text::is_white(text::trim(s).first()) && !text::is_white(
            text::trim(s).last(),
        ),
{
    let a = lemma_trim_start(s);
    let rest = text::trim_start(s);
    let b = lemma_trim_end(rest);
    assert(s =~= a + text::trim(s) + b);
    if text::trim(s).len() > 0 {
        assert(text::trim(s).first() == rest.first());
    }
    (a, b)
}

proof fn lemma_trim_start(s: Seq<char>) -> (a: Seq<char>)
    ensures
        s == a + text::trim_start(s),
        all_white(a),
        text::trim_start(s).len() > 0 ==> !text::is_white(text::trim_start(s).first()),
    decreases s.len(),
{
    if s.len() > 0 && text::is_white(s.first()) {
        let rest = lemma_trim_start(s.drop_first());
        let a = seq![s.first()] + rest;
        assert(s =~= seq![s.first()] + s.drop_first());
        assert(seq![s.first()] + (rest + text::trim_start(s)) =~= a + text::trim_start(s));
        assert forall|i: int| 0 <= i < a.len() implies text::is_white(#[trigger] a[i]) by {
            if i > 0 {
                assert(a[i] == rest[i - 1]);
            }
        }
        a
    } else {
        assert(s =~= Seq::<char>::empty() + s);
        Seq::empty()
    }
}

proof fn lemma_trim_end(s: Seq<char>) -> (b: Seq<char>)
    ensures
        s == text::trim_end(s) + b,
        all_white(b),
        text::trim_end(s).len() > 0 ==> !text::is_white(text::trim_end(s).last())
            && text::trim_end(s).first() == s.first(),
    decreases s.len(),
{
    if s.len() > 0 && text::is_white(s.last()) {
        let rest = lemma_trim_end(s.drop_last());
        let b = rest.push(s.last());
        assert(s =~= s.drop_last().push(s.last()));
        assert((text::trim_end(s) + rest).push(s.last()) =~= text::trim_end(s) + b);
        assert forall|i: int| 0 <= i < b.len() implies text::is_white(#[trigger] b[i]) by {
            if i < rest.len() {
                assert(b[i] == rest[i]);
            }
        }
        b
    } else {
        assert(s =~= s + Seq::<char>::empty());
        Seq::empty()
    }
}

/// Stripping takes a run of one character off the start, all of it and nothing
/// else.
pub proof fn law_strip_leading(s: Seq<char>, c: char) -> (a: Seq<char>)
    ensures
        s == a + text::strip_leading(s, c),
        forall|i: int| 0 <= i < a.len() ==> #[trigger] a[i] == c,
        text::strip_leading(s, c).len() > 0 ==> text::strip_leading(s, c).first() != c,
    decreases s.len(),
{
    if s.len() > 0 && s.first() == c {
        let rest = law_strip_leading(s.drop_first(), c);
        let a = seq![c] + rest;
        assert(s =~= seq![c] + s.drop_first());
        assert(seq![c] + (rest + text::strip_leading(s, c)) =~= a + text::strip_leading(s, c));
        assert forall|i: int| 0 <= i < a.len() implies #[trigger] a[i] == c by {
            if i > 0 {
                assert(a[i] == rest[i - 1]);
            }
        }
        a
    } else {
        assert(s =~= Seq::<char>::empty() + s);
        Seq::empty()
    }
}

/// Joining the pieces of a text with the separator gives the text back, and no
/// piece holds the separator.
pub proof fn law_split_and_join(s: Seq<char>, sep: char)
    ensures
        text::join(text::split(s, sep), seq![sep]) == s,
        text::split(s, sep).len() > 0,
        forall|i: int|
            0 <= i < text::split(s, sep).len() ==> !(#[trigger] text::split(s, sep)[i]).contains(
                sep,
            ),
    decreases s.len(),
{
    crate::user_agent_laws::lemma_pieces_are_separated(s, sep);
    let after = text::split(s, sep);
    if s.len() == 0 {
        assert(text::join(after, seq![sep]) =~= s);
    } else {
        let rest = s.drop_last();
        let before = text::split(rest, sep);
        law_split_and_join(rest, sep);
        if s.last() == sep {
            assert(after.drop_last() =~= before);
            assert(text::join(after, seq![sep]) =~= rest + seq![sep]);
            assert(rest + seq![sep] =~= s);
        } else {
            assert(after.drop_last() =~= before.drop_last());
            if before.len() == 1 {
                assert(text::join(before, seq![sep]) == before[0]);
                assert(text::join(after, seq![sep]) =~= rest.push(s.last()));
            } else {
                let front = text::join(before.drop_last(), seq![sep]);
                assert(text::join(after, seq![sep]) =~= (front + seq![sep] + before.last()).push(
                    s.last(),
                ));
            }
            assert(rest.push(s.last()) =~= s);
        }
    }
}

/// Joining puts the separator between two neighbours, and nothing else.
pub proof fn law_join(parts: Seq<Seq<char>>, last: Seq<char>, sep: Seq<char>)
    ensures
        text::join(Seq::empty(), sep).len() == 0,
        text::join(seq![last], sep) == last,
        parts.len() > 0 ==> text::join(parts.push(last), sep) == text::join(parts, sep) + sep + last,
{
    assert(parts.push(last).drop_last() =~= parts);
}

/// The number that decimal digits stand for.
pub open spec fn worth(digits: Seq<char>) -> int
    decreases digits.len(),
{
    if digits.len() == 0 {
        0
    } else {
        10 * worth(digits.drop_last()) + (digits.last() as u32 - 48)
    }
}

/// A count in decimal notation is worth the count, is made of digits, and has no
/// zero at its start but for the count of zero.
pub proof fn law_decimal(n: nat)
    ensures
        worth(text::decimal(n)) == n,
        text::decimal(n).len() > 0,
        forall|i: int|
            0 <= i < text::decimal(n).len() ==> 48 <= (#[trigger] text::decimal(n)[i]) as u32 <= 57,
        n > 0 ==> text::decimal(n).first() != '0',
    decreases n,
{
    let d = text::decimal(n);
    if n < 10 {
        assert(d.drop_last() =~= Seq::empty());
        assert(worth(Seq::<char>::empty()) == 0);
    } else {
        law_decimal(n / 10);
        let front = text::decimal(n / 10);
        assert(d.drop_last() =~= front);
        assert(d.first() == front.first());
        assert forall|i: int| 0 <= i < d.len() implies 48 <= (#[trigger] d[i]) as u32 <= 57 by {
            if i < front.len() {
                assert(d[i] == front[i]);
            }
        }
    }
}

/// The views of a list are those of its strings, one by one.
pub proof fn law_views(list: Seq<String>, i: int)
    ensures
        text::views(list).len() == list.len(),
        0 <= i < list.len() ==> text::views(list)[i] == list[i]@,
{
}

/// A map of strings has the same keys as the texts it holds, and under each the
/// text of its string.
pub proof fn law_texts(map: TextMap<String>, key: Seq<char>)
    ensures
        map.texts().contains_key(key) == map@.contains_key(key),
        map@.contains_key(key) ==> map.texts()[key] == map@[key]@,
{
}

/// Two maps of strings count as equal just when they have the same keys, with the
/// same text under each.
pub proof fn law_equal_maps(a: TextMap<String>, b: TextMap<String>)
    ensures
        vstd::std_specs::cmp::PartialEqSpec::eq_spec(&a, &b) <==> forall|k: Seq<char>|
            (#[trigger] a@.contains_key(k) <==> b@.contains_key(k)) && (a@.contains_key(k)
                ==> a@[k]@ == b@[k]@),
{
    if forall|k: Seq<char>|
        (#[trigger] a@.contains_key(k) <==> b@.contains_key(k)) && (a@.contains_key(k) ==> a@[k]@
            == b@[k]@) {
        assert(a.texts() =~= b.texts());
    }
    if a.texts() == b.texts() {
        assert forall|k: Seq<char>|
            (#[trigger] a@.contains_key(k) <==> b@.contains_key(k)) && (a@.contains_key(k)
                ==> a@[k]@ == b@[k]@) by {
            law_texts(a, k);
            law_texts(b, k);
        }
    }
}

} // verus!
