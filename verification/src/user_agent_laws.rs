//! What holds of user-agent profiles as a whole.

use crate::text;
use crate::text_map;
use crate::text_map::TextMap;
use crate::user_agents;
use crate::user_agents::{
    CandidatePath, DeviceKind, HeaderProfile, LoadEvent, LoadStage, Loading, UserAgentData,
    UserAgentError, UserAgentManager, UserAgentOptions, UserAgentProfile,
};
use vstd::prelude::*;

verus! {

/// Whether a text has no comma in it and no white space at its ends.
pub open spec fn is_plain(s: Seq<char>) -> bool {
    &&& !s.contains(',')
    &&& s.len() > 0 ==> !text::is_white(s.first()) && !text::is_white(s.last())
}

proof fn lemma_trim_start(s: Seq<char>)
    ensures
        ({
            let r = text::trim_start(s);
            &&& r.len() == 0 || !text::is_white(r.first())
            &&& forall|c: char| r.contains(c) ==> s.contains(c)
        }),
    decreases s.len(),
{
    if s.len() > 0 && text::is_white(s.first()) {
        let rest = s.drop_first();
        lemma_trim_start(rest);
        assert forall|c: char| rest.contains(c) implies s.contains(c) by {
            let i = choose|i: int| 0 <= i < rest.len() && rest[i] == c;
            assert(s[i + 1] == c);
        }
    }
}

proof fn lemma_trim_end(s: Seq<char>)
    ensures
        ({
            let r = text::trim_end(s);
            &&& r.len() == 0 || !text::is_white(r.last())
            &&& r.len() > 0 ==> r.first() == s.first()
            &&& forall|c: char| r.contains(c) ==> s.contains(c)
        }),
    decreases s.len(),
{
    if s.len() > 0 && text::is_white(s.last()) {
        let rest = s.drop_last();
        lemma_trim_end(rest);
        assert forall|c: char| rest.contains(c) implies s.contains(c) by {
            let i = choose|i: int| 0 <= i < rest.len() && rest[i] == c;
            assert(s[i] == c);
        }
    }
}

/// Trimming a text without commas gives a plain one.
proof fn lemma_trimmed_is_plain(s: Seq<char>)
    requires
        !s.contains(','),
    ensures
        is_plain(text::trim(s)),
{
    lemma_trim_start(s);
    lemma_trim_end(text::trim_start(s));
}

/// Trimming changes no plain text, with or without a space before it.
proof fn lemma_plain_stays(s: Seq<char>)
    requires
        is_plain(s),
    ensures
        text::trim(s) == s,
        text::trim(seq![' '] + s) == s,
{
    let spaced = seq![' '] + s;
    assert(spaced.first() == ' ');
    assert(spaced.drop_first() =~= s);
    assert(text::trim_start(spaced) == text::trim_start(s));
}

/// No piece holds the separator.
pub(crate) proof fn lemma_pieces_are_separated(s: Seq<char>, sep: char)
    ensures
        text::split(s, sep).len() > 0,
        forall|i: int|
            0 <= i < text::split(s, sep).len() ==> !(#[trigger] text::split(s, sep)[i]).contains(sep),
    decreases s.len(),
{
    if s.len() > 0 {
        let before = text::split(s.drop_last(), sep);
        lemma_pieces_are_separated(s.drop_last(), sep);
        let after = text::split(s, sep);
        assert forall|i: int| 0 <= i < after.len() implies !(#[trigger] after[i]).contains(sep) by {
            if i < before.len() - 1 {
                assert(after[i] == before[i]);
            } else if s.last() == sep {
                if i < before.len() {
                    assert(after[i] == before[i]);
                }
            } else {
                let piece = before.last();
                assert(!before[before.len() - 1].contains(sep));
                assert(after[i] == piece.push(s.last()));
                if after[i].contains(sep) {
                    let k = choose|k: int| 0 <= k < after[i].len() && after[i][k] == sep;
                    assert(piece[k] == sep);
                }
            }
        }
    }
}

/// Text without the separator goes to the last piece.
proof fn lemma_split_more(s: Seq<char>, more: Seq<char>, sep: char)
    requires
        !more.contains(sep),
    ensures
        text::split(s + more, sep) == text::split(s, sep).drop_last().push(
            text::split(s, sep).last() + more,
        ),
    decreases more.len(),
{
    lemma_pieces_are_separated(s, sep);
    let whole = text::split(s, sep);
    if more.len() == 0 {
        assert(s + more =~= s);
        assert(whole.last() + more =~= whole.last());
        assert(whole.drop_last().push(whole.last()) =~= whole);
    } else {
        let c = more.last();
        let rest = more.drop_last();
        assert(more.contains(c));
        assert(!rest.contains(sep)) by {
            if rest.contains(sep) {
                let i = choose|i: int| 0 <= i < rest.len() && rest[i] == sep;
                assert(more[i] == sep);
            }
        }
        lemma_split_more(s, rest, sep);
        assert((s + more).drop_last() =~= s + rest);
        assert((s + more).last() == c);
        let before = text::split(s + rest, sep);
        assert(before.drop_last() =~= whole.drop_last());
        assert((whole.last() + rest).push(c) =~= whole.last() + more);
    }
}

/// What splits a joined list: its first part, and the others each behind a
/// space.
proof fn lemma_split_joined(parts: Seq<Seq<char>>)
    requires
        parts.len() > 0,
        forall|i: int| 0 <= i < parts.len() ==> is_plain(#[trigger] parts[i]),
    ensures
        user_agents::encodings(text::join(parts, ", "@)) == parts,
    decreases parts.len(),
{
    reveal_strlit(", ");
    let sep = ", "@;
    let last = parts.last();
    assert(is_plain(parts[parts.len() - 1]));
    lemma_plain_stays(last);
    if parts.len() == 1 {
        assert(parts[0] == Seq::<char>::empty() + parts[0]);
        lemma_split_more(Seq::empty(), parts[0], ',');
        assert(text::split(Seq::<char>::empty(), ',') =~= seq![Seq::<char>::empty()]);
        assert(text::split(parts[0], ',') =~= seq![parts[0]]);
        assert(user_agents::encodings(parts[0]) =~= parts);
    } else {
        let rest = parts.drop_last();
        assert forall|i: int| 0 <= i < rest.len() implies is_plain(#[trigger] rest[i]) by {
            assert(rest[i] == parts[i]);
        }
        lemma_split_joined(rest);
        let front = text::join(rest, sep);
        let tail = seq![' '] + last;
        let all = text::join(parts, sep);
        assert(all =~= front.push(',') + tail);
        assert(front.push(',').drop_last() =~= front);
        assert(!tail.contains(',')) by {
            if tail.contains(',') {
                let i = choose|i: int| 0 <= i < tail.len() && tail[i] == ',';
                assert(last[i - 1] == ',');
            }
        }
        lemma_split_more(front.push(','), tail, ',');
        let before = text::split(front, ',');
        let pushed = text::split(front.push(','), ',');
        assert(pushed =~= before.push(Seq::empty()));
        assert(pushed.drop_last() =~= before);
        assert(Seq::<char>::empty() + tail =~= tail);
        assert(text::split(all, ',') =~= before.push(tail));
        assert(user_agents::encodings(all) =~= user_agents::encodings(front).push(last));
        assert(rest.push(last) =~= parts);
    }
}

/// The encodings that a value lists are plain.
proof fn lemma_encodings_are_plain(value: Seq<char>)
    ensures
        forall|i: int|
            0 <= i < user_agents::encodings(value).len() ==> is_plain(
                #[trigger] user_agents::encodings(value)[i],
            ),
{
    lemma_pieces_are_separated(value, ',');
    let all = user_agents::encodings(value);
    assert forall|i: int| 0 <= i < all.len() implies is_plain(#[trigger] all[i]) by {
        lemma_trimmed_is_plain(text::split(value, ',')[i]);
    }
}

/// The encodings of a value but Brotli.
pub open spec fn kept_encodings(value: Seq<char>) -> Seq<Seq<char>> {
    user_agents::encodings(value).filter(|e: Seq<char>| user_agents::is_kept(e))
}

/// Stripping takes Brotli out of the list of encodings and nothing else. Where
/// nothing is left, the value is empty.
pub proof fn law_stripping_takes_only_brotli(value: Seq<char>)
    ensures
        kept_encodings(value).len() > 0 ==> user_agents::encodings(
            user_agents::without_brotli(value),
        ) == kept_encodings(value),
        kept_encodings(value).len() == 0 ==> user_agents::without_brotli(value).len() == 0,
{
    let all = user_agents::encodings(value);
    let kept = kept_encodings(value);
    lemma_encodings_are_plain(value);
    let pred = |e: Seq<char>| user_agents::is_kept(e);
    if kept.len() > 0 {
        assert forall|i: int| 0 <= i < kept.len() implies is_plain(#[trigger] kept[i]) by {
            assert(all.filter(pred).contains(kept[i]));
            all.lemma_filter_contains_rev(pred, kept[i]);
            let k = choose|k: int| 0 <= k < all.len() && all[k] == kept[i];
            assert(is_plain(all[k]));
        }
        lemma_split_joined(kept);
    }
}

/// No value has Brotli among its encodings after stripping.
pub proof fn law_stripped_of_brotli(value: Seq<char>, i: int)
    requires
        0 <= i < user_agents::encodings(user_agents::without_brotli(value)).len(),
    ensures
        user_agents::is_kept(user_agents::encodings(user_agents::without_brotli(value))[i]),
{
    let kept = kept_encodings(value);
    let stripped = user_agents::without_brotli(value);
    law_stripping_takes_only_brotli(value);
    if kept.len() > 0 {
        user_agents::encodings(value).lemma_filter_pred(
            |e: Seq<char>| user_agents::is_kept(e),
            i,
        );
    } else {
        lemma_nothing_is_kept();
        assert(stripped =~= Seq::empty());
    }
}

/// The empty value lists one encoding, the empty one, which is not Brotli.
proof fn lemma_nothing_is_kept()
    ensures
        user_agents::encodings(Seq::empty()) == seq![Seq::<char>::empty()],
        user_agents::is_kept(Seq::empty()),
{
    reveal_strlit("br");
    assert(text::split(Seq::<char>::empty(), ',') =~= seq![Seq::<char>::empty()]);
    assert(user_agents::encodings(Seq::empty()) =~= seq![Seq::<char>::empty()]);
    assert(text::lower("br"@).len() == 2);
    assert(text::lower(Seq::empty()).len() == 0);
}

/// Stripping twice is the same as stripping once.
pub proof fn law_stripping_twice(value: Seq<char>)
    ensures
        user_agents::without_brotli(user_agents::without_brotli(value))
            == user_agents::without_brotli(value),
{
    let stripped = user_agents::without_brotli(value);
    let kept = kept_encodings(value);
    let again = user_agents::encodings(stripped);
    let pred = |e: Seq<char>| user_agents::is_kept(e);
    law_stripping_takes_only_brotli(value);
    assert forall|i: int| 0 <= i < again.len() implies pred(#[trigger] again[i]) by {
        law_stripped_of_brotli(value, i);
    }
    text::lemma_filter_all(again, pred);
    if kept.len() == 0 {
        lemma_nothing_is_kept();
        assert(stripped =~= Seq::empty());
    }
}

/// The names of the headers are four different ones.
proof fn lemma_names_differ()
    ensures
        "User-Agent"@ != "Accept"@,
        "User-Agent"@ != "Accept-Language"@,
        "User-Agent"@ != "Accept-Encoding"@,
        "Accept"@ != "Accept-Language"@,
        "Accept"@ != "Accept-Encoding"@,
        "Accept-Language"@ != "Accept-Encoding"@,
{
    reveal_strlit("User-Agent");
    reveal_strlit("Accept");
    reveal_strlit("Accept-Language");
    reveal_strlit("Accept-Encoding");
    assert("Accept"@.len() == 6);
    assert("Accept-Language"@.len() == 15);
    assert("User-Agent"@[0] == 'U');
    assert("Accept-Language"@[7] == 'L');
    assert("Accept-Encoding"@[7] == 'E');
}

/// A custom user agent is taken as it is, whatever else is asked for.
pub proof fn law_custom_agent_is_verbatim(
    data: UserAgentData,
    opts: UserAgentOptions,
    r: Result<UserAgentProfile, UserAgentError>,
)
    requires
        opts.desktop || opts.mobile,
        opts.custom is Some,
        data.selects(opts, r),
    ensures
        r is Ok,
        r->Ok_0@.headers.contains_key("User-Agent"@),
        r->Ok_0@.headers["User-Agent"@] == opts.custom->0@,
{
    lemma_names_differ();
}

/// With a custom user agent a selection is the profile for that agent, which
/// depends on the dataset and the agent alone: the platform, the browser and the
/// Brotli flag make no difference, nor which kind of device is permitted.
pub proof fn law_custom_profile_is_determined(
    data: UserAgentData,
    opts: UserAgentOptions,
    other: UserAgentOptions,
    r: Result<UserAgentProfile, UserAgentError>,
    q: Result<UserAgentProfile, UserAgentError>,
)
    requires
        opts.desktop || opts.mobile,
        other.desktop || other.mobile,
        opts.custom matches Some(c) && other.custom matches Some(d) && c@ == d@,
        data.selects(opts, r),
        data.selects(other, q),
    ensures
        r is Ok,
        q is Ok,
        r->Ok_0@ == data.customised(opts.custom->0@),
        q->Ok_0@ == r->Ok_0@,
{
}

/// A custom user agent is taken for a browser if and only if one with known
/// headers has a user agent that holds it, and then for such a one.
pub proof fn law_recognised_is_known(data: UserAgentData, custom: Seq<char>)
    ensures
        data.recognises(custom) matches Some(browser) ==> data.knows(custom, browser),
        data.recognises(custom) is None ==> forall|browser: Seq<char>|
            !#[trigger] data.knows(custom, browser),
{
    lemma_first_of_kind(data, DeviceKind::Desktop, custom);
    lemma_first_of_kind(data, DeviceKind::Mobile, custom);
    if data.recognises(custom) is None {
        assert forall|browser: Seq<char>| !#[trigger] data.knows(custom, browser) by {
            if data.knows(custom, browser) {
                let (kind, platform, i) = choose|kind: DeviceKind, platform: Seq<char>, i: int|
                    0 <= i < data.listed(kind, platform, browser).len() && text::occurs(
                        custom,
                        #[trigger] data.listed(kind, platform, browser)[i]@,
                    );
                assert(data.fits(browser, data.listed(kind, platform, browser), custom));
                assert(kind == DeviceKind::Desktop || kind == DeviceKind::Mobile);
            }
        }
    }
}

proof fn lemma_first_of_kind(data: UserAgentData, kind: DeviceKind, custom: Seq<char>)
    ensures
        data.first_of_kind(kind, custom) matches Some(browser) ==> data.knows(custom, browser),
        data.first_of_kind(kind, custom) is None ==> forall|platform: Seq<char>, browser: Seq<char>|
            !#[trigger] data.fits(browser, data.listed(kind, platform, browser), custom),
{
    if let Some(platforms) = data.device(kind) {
        lemma_first_platform(data, kind, platforms, custom, 0);
        if data.first_of_kind(kind, custom) is None {
            assert forall|platform: Seq<char>, browser: Seq<char>|
                !#[trigger] data.fits(browser, data.listed(kind, platform, browser), custom) by {
                if data.fits(browser, data.listed(kind, platform, browser), custom) {
                    text_map::law_keys(&platforms);
                    assert(platforms.keys().contains(platform));
                    let j = platforms.keys().index_of(platform);
                    assert(platforms.keys()[j] == platform);
                    assert(!data.fits(
                        browser,
                        data.listed(kind, platforms.keys()[j], browser),
                        custom,
                    ));
                }
            }
        }
    }
}

proof fn lemma_first_platform(
    data: UserAgentData,
    kind: DeviceKind,
    platforms: TextMap<TextMap<Vec<String>>>,
    custom: Seq<char>,
    from: nat,
)
    requires
        data.device(kind) == Some(platforms),
    ensures
        data.first_platform(platforms, custom, from) matches Some(browser) ==> data.knows(
            custom,
            browser,
        ),
        data.first_platform(platforms, custom, from) is None ==> forall|j: int, browser: Seq<char>|
            from <= j < platforms.keys().len() ==> !#[trigger] data.fits(
                browser,
                data.listed(kind, platforms.keys()[j], browser),
                custom,
            ),
    decreases platforms.keys().len() - from,
{
    if from < platforms.keys().len() {
        let platform = platforms.keys()[from as int];
        text_map::law_keys(&platforms);
        assert(platforms.keys().contains(platform));
        let browsers = platforms@[platform];
        lemma_first_browser(data, kind, platform, browsers, custom, 0);
        lemma_first_platform(data, kind, platforms, custom, from + 1);
        if data.first_platform(platforms, custom, from) is None {
            assert forall|j: int, browser: Seq<char>|
                from <= j < platforms.keys().len() implies !#[trigger] data.fits(
                browser,
                data.listed(kind, platforms.keys()[j], browser),
                custom,
            ) by {
                if j == from && data.fits(browser, data.listed(kind, platform, browser), custom) {
                    text_map::law_keys(&browsers);
                    assert(browsers.keys().contains(browser));
                    let k = browsers.keys().index_of(browser);
                    assert(browsers.keys()[k] == browser);
                    assert(!data.fits(
                        browsers.keys()[k],
                        data.listed(kind, platform, browsers.keys()[k]),
                        custom,
                    ));
                }
            }
        }
    }
}

proof fn lemma_first_browser(
    data: UserAgentData,
    kind: DeviceKind,
    platform: Seq<char>,
    browsers: TextMap<Vec<String>>,
    custom: Seq<char>,
    from: nat,
)
    requires
        data.browsers(kind, platform) == browsers@,
    ensures
        data.first_browser(browsers, custom, from) matches Some(browser) ==> data.knows(
            custom,
            browser,
        ),
        data.first_browser(browsers, custom, from) is None ==> forall|j: int|
            from <= j < browsers.keys().len() ==> !data.fits(
                #[trigger] browsers.keys()[j],
                data.listed(kind, platform, browsers.keys()[j]),
                custom,
            ),
    decreases browsers.keys().len() - from,
{
    if from < browsers.keys().len() {
        let browser = browsers.keys()[from as int];
        text_map::law_keys(&browsers);
        assert(browsers.keys().contains(browser));
        let agents = browsers@[browser]@;
        assert(data.listed(kind, platform, browser) == agents);
        if data.fits(browser, agents, custom) {
            let i = choose|i: int| 0 <= i < agents.len() && text::occurs(custom, #[trigger] agents[i]@);
            assert(text::occurs(custom, data.listed(kind, platform, browser)[i]@));
        }
        lemma_first_browser(data, kind, platform, browsers, custom, from + 1);
    }
}

/// A profile has the four core headers.
pub proof fn law_profile_has_core_headers(
    data: UserAgentData,
    opts: UserAgentOptions,
    profile: UserAgentProfile,
)
    requires
        data.selects(opts, Ok(profile)),
    ensures
        profile@.headers.contains_key("User-Agent"@),
        profile@.headers.contains_key("Accept"@),
        profile@.headers.contains_key("Accept-Language"@),
        profile@.headers.contains_key("Accept-Encoding"@),
{
    lemma_names_differ();
    if opts.custom is None {
        let _ = lemma_selected(data, opts, profile);
    }
}

/// What a profile that was selected without a custom user agent was put
/// together from.
proof fn lemma_selected(
    data: UserAgentData,
    opts: UserAgentOptions,
    profile: UserAgentProfile,
) -> (r: (Seq<char>, Seq<char>, int))
    requires
        opts.custom is None,
        data.selects(opts, Ok(profile)),
    ensures
        ({
            let (platform, browser, i) = r;
            let agents = data.offered(opts.kinds(), platform, browser);
            &&& data.usable(opts.kinds(), opts.wanted(), platform)
            &&& opts.browser matches Some(b) ==> b@ == browser
            &&& 0 <= i < agents.len()
            &&& data.headers@.contains_key(browser)
            &&& profile@ == data.assembled(browser, agents[i]@, opts.allow_brotli)
        }),
{
    let r: Result<UserAgentProfile, UserAgentError> = Ok(profile);
    let platform = choose|platform: Seq<char>| #[trigger]
        data.usable(opts.kinds(), opts.wanted(), platform) && data.equips(opts, platform, r);
    let browser = match opts.browser {
        Some(b) => b@,
        None => choose|b: Seq<char>| #[trigger] data.outfits(opts, platform, b, r),
    };
    assert(data.outfits(opts, platform, browser, r));
    let i = choose|i: int|
        0 <= i < data.offered(opts.kinds(), platform, browser).len() && #[trigger] data.completes(
            browser,
            data.offered(opts.kinds(), platform, browser)[i]@,
            opts.allow_brotli,
            r,
        );
    (platform, browser, i)
}

/// Unless it is allowed or the user agent is a custom one, no profile accepts
/// Brotli.
pub proof fn law_brotli_is_stripped(
    data: UserAgentData,
    opts: UserAgentOptions,
    profile: UserAgentProfile,
    i: int,
)
    requires
        opts.custom is None,
        !opts.allow_brotli,
        data.selects(opts, Ok(profile)),
        0 <= i < user_agents::encodings(profile@.headers["Accept-Encoding"@]).len(),
    ensures
        user_agents::is_kept(user_agents::encodings(profile@.headers["Accept-Encoding"@])[i]),
{
    lemma_names_differ();
    let (_, browser, k) = lemma_selected(data, opts, profile);
    let value = data.headers@[browser].accept_encoding@;
    assert(profile@.headers["Accept-Encoding"@] == user_agents::without_brotli(value));
    law_stripped_of_brotli(value, i);
}

/// The user agent of a profile, if it is no custom one, is listed in the
/// dataset for a permitted kind of device, and for the platform and the
/// browser asked for.
pub proof fn law_selected_agent_is_listed(
    data: UserAgentData,
    opts: UserAgentOptions,
    profile: UserAgentProfile,
) -> (r: (DeviceKind, Seq<char>, Seq<char>, int))
    requires
        opts.custom is None,
        data.selects(opts, Ok(profile)),
    ensures
        ({
            let (kind, platform, browser, i) = r;
            &&& opts.kinds().contains(kind)
            &&& opts.platform matches Some(p) ==> p@ == platform
            &&& opts.browser matches Some(b) ==> b@ == browser
            &&& 0 <= i < data.listed(kind, platform, browser).len()
            &&& profile@.headers["User-Agent"@] == data.listed(kind, platform, browser)[i]@
        }),
{
    lemma_names_differ();
    let (platform, browser, k) = lemma_selected(data, opts, profile);
    let (kind, i) = lemma_offered_is_listed(data, opts.kinds(), platform, browser, k);
    (kind, platform, browser, i)
}

proof fn lemma_offered_is_listed(
    data: UserAgentData,
    kinds: Seq<DeviceKind>,
    platform: Seq<char>,
    browser: Seq<char>,
    k: int,
) -> (r: (DeviceKind, int))
    requires
        0 <= k < data.offered(kinds, platform, browser).len(),
    ensures
        kinds.contains(r.0),
        0 <= r.1 < data.listed(r.0, platform, browser).len(),
        data.offered(kinds, platform, browser)[k] == data.listed(r.0, platform, browser)[r.1],
    decreases kinds.len(),
{
    let earlier = data.offered(kinds.drop_last(), platform, browser);
    if k < earlier.len() {
        let r = lemma_offered_is_listed(data, kinds.drop_last(), platform, browser, k);
        let j = choose|j: int| 0 <= j < kinds.drop_last().len() && kinds.drop_last()[j] == r.0;
        assert(kinds[j] == r.0);
        r
    } else {
        assert(kinds.contains(kinds.last()));
        (kinds.last(), k - earlier.len())
    }
}

/// Without a custom user agent a platform that is not among the valid ones is
/// refused, and only a valid one gets a profile.
pub proof fn law_unknown_platform_is_refused(
    data: UserAgentData,
    opts: UserAgentOptions,
    r: Result<UserAgentProfile, UserAgentError>,
)
    requires
        opts.desktop || opts.mobile,
        opts.custom is None,
        opts.platform is Some,
        data.selects(opts, r),
    ensures
        !user_agents::valid_platforms().contains(opts.platform->0@) ==> (r matches Err(e)
            && e.refuses(user_agents::platform_message(opts.platform->0@))),
        r is Ok ==> user_agents::valid_platforms().contains(opts.platform->0@),
{
}

/// The states that loading goes through from its start, with the events between
/// them.
pub open spec fn is_load(
    candidates: Vec<CandidatePath>,
    loads: Seq<Loading>,
    events: Seq<LoadEvent>,
) -> bool {
    &&& loads.len() == events.len() + 1
    &&& loads[0].candidates == candidates
    &&& loads[0].stage == loads[0].turn(0)
    &&& forall|i: int|
        0 <= i < events.len() ==> {
            &&& loads[i + 1].candidates == loads[i].candidates
            &&& loads[i].follows(#[trigger] events[i], loads[i + 1].stage)
        }
}

/// Whether a candidate was found missing among the first `n` events.
pub open spec fn found_missing(
    loads: Seq<Loading>,
    events: Seq<LoadEvent>,
    n: int,
    candidate: int,
) -> bool {
    exists|i: int|
        0 <= i < n && loads[i].stage == LoadStage::Read(candidate as usize)
            && #[trigger] events[i] == LoadEvent::Missing
}

/// A dataset on disk takes precedence: loading comes to a candidate only when
/// all before it are missing, and to the embedded dataset only when all are.
pub proof fn law_disk_takes_precedence(
    candidates: Vec<CandidatePath>,
    loads: Seq<Loading>,
    events: Seq<LoadEvent>,
    candidate: int,
)
    requires
        is_load(candidates, loads, events),
        0 <= candidate < candidates@.len(),
        loads.last().stage matches LoadStage::Read(n) && candidate < n
            || loads.last().stage is ParseEmbedded,
    ensures
        found_missing(loads, events, events.len() as int, candidate),
{
    lemma_missing_so_far(candidates, loads, events, events.len() as int, candidate);
}

proof fn lemma_missing_so_far(
    candidates: Vec<CandidatePath>,
    loads: Seq<Loading>,
    events: Seq<LoadEvent>,
    n: int,
    candidate: int,
)
    requires
        is_load(candidates, loads, events),
        0 <= n <= events.len(),
        0 <= candidate < candidates@.len(),
    ensures
        loads[n].candidates == candidates,
        match loads[n].stage {
            LoadStage::Read(k) => {
                &&& k < candidates@.len()
                &&& candidate < k ==> found_missing(loads, events, n, candidate)
            },
            LoadStage::ParseEmbedded => found_missing(loads, events, n, candidate),
            _ => true,
        },
    decreases n,
{
    if n > 0 {
        let k = n - 1;
        lemma_missing_so_far(candidates, loads, events, k, candidate);
        assert(loads[k].follows(events[k], loads[k + 1].stage));
        if found_missing(loads, events, k, candidate) {
            let i = choose|i: int|
                0 <= i < k && loads[i].stage == LoadStage::Read(candidate as usize)
                    && #[trigger] events[i] == LoadEvent::Missing;
            assert(events[i] == LoadEvent::Missing);
            assert(found_missing(loads, events, n, candidate));
        }
        if loads[k].stage == LoadStage::Read(candidate as usize) && events[k]
            == LoadEvent::Missing {
            assert(found_missing(loads, events, n, candidate));
        }
    }
}

/// The headers of a browser by name: its own values, and the user agent only
/// where it has one.
pub proof fn law_headers_by_name(profile: HeaderProfile)
    ensures
        ({
            let named = profile.named();
            &&& named.contains_key("Accept"@)
            &&& named["Accept"@] == profile.accept@
            &&& named.contains_key("Accept-Language"@)
            &&& named["Accept-Language"@] == profile.accept_language@
            &&& named.contains_key("Accept-Encoding"@)
            &&& named["Accept-Encoding"@] == profile.accept_encoding@
            &&& profile.user_agent matches Some(ua) ==> named.contains_key("User-Agent"@)
                && named["User-Agent"@] == ua@
            &&& profile.user_agent is None ==> !named.contains_key("User-Agent"@)
            &&& forall|k: Seq<char>| #[trigger]
                named.contains_key(k) ==> k == "User-Agent"@ || k == "Accept"@ || k
                    == "Accept-Language"@ || k == "Accept-Encoding"@
        }),
{
    lemma_names_differ();
}

/// Whether some headers are those that the dataset lists for a browser, with a
/// given user agent and without regard to the accepted encodings.
pub open spec fn wears(
    data: UserAgentData,
    browser: Seq<char>,
    user_agent: Seq<char>,
    headers: Map<Seq<char>, Seq<char>>,
) -> bool {
    &&& data.headers@.contains_key(browser)
    &&& headers.contains_key("User-Agent"@)
    &&& headers["User-Agent"@] == user_agent
    &&& headers.contains_key("Accept"@)
    &&& headers["Accept"@] == data.headers@[browser].accept@
    &&& headers.contains_key("Accept-Language"@)
    &&& headers["Accept-Language"@] == data.headers@[browser].accept_language@
    &&& headers.contains_key("Accept-Encoding"@)
    &&& forall|k: Seq<char>| #[trigger]
        headers.contains_key(k) ==> k == "User-Agent"@ || k == "Accept"@ || k
            == "Accept-Language"@ || k == "Accept-Encoding"@
}

/// Whether some cipher suites are those that the dataset lists for a browser,
/// `otherwise` where it lists none.
pub open spec fn ciphers(
    data: UserAgentData,
    browser: Seq<char>,
    otherwise: Seq<Seq<char>>,
    suites: Seq<Seq<char>>,
) -> bool {
    if data.cipher_suites@.contains_key(browser) {
        let listed = data.cipher_suites@[browser]@;
        &&& suites.len() == listed.len()
        &&& forall|i: int| 0 <= i < listed.len() ==> #[trigger] suites[i] == listed[i]@
    } else {
        suites == otherwise
    }
}

/// A profile selected without a custom user agent is that of one browser, the
/// one asked for if any is, all through: its user agent is listed for it on a
/// valid platform, the one asked for if any is, and for a permitted kind of
/// device; its headers and cipher suites are those that the dataset lists for
/// it. Accepted encodings are the listed ones where Brotli is allowed, and else
/// those without it.
pub proof fn law_profile_is_that_of_a_browser(
    data: UserAgentData,
    opts: UserAgentOptions,
    profile: UserAgentProfile,
) -> (r: (DeviceKind, Seq<char>, Seq<char>, int))
    requires
        opts.custom is None,
        data.selects(opts, Ok(profile)),
    ensures
        ({
            let (kind, platform, browser, i) = r;
            let agents = data.listed(kind, platform, browser);
            &&& kind == DeviceKind::Desktop ==> opts.desktop
            &&& kind == DeviceKind::Mobile ==> opts.mobile
            &&& opts.platform matches Some(p) ==> p@ == platform
            &&& is_platform(platform)
            &&& opts.browser matches Some(b) ==> b@ == browser
            &&& 0 <= i < agents.len()
            &&& wears(data, browser, agents[i]@, profile@.headers)
            &&& ciphers(data, browser, Seq::empty(), profile@.cipher_suites)
            &&& opts.allow_brotli ==> profile@.headers["Accept-Encoding"@]
                == data.headers@[browser].accept_encoding@
            &&& !opts.allow_brotli ==> profile@.headers["Accept-Encoding"@]
                == user_agents::without_brotli(data.headers@[browser].accept_encoding@)
        }),
{
    lemma_names_differ();
    law_valid_platforms();
    let (platform, browser, k) = lemma_selected(data, opts, profile);
    let (kind, i) = lemma_offered_is_listed(data, opts.kinds(), platform, browser, k);
    law_permitted_kinds(opts);
    law_headers_by_name(data.headers@[browser]);
    let listed = if data.cipher_suites@.contains_key(browser) {
        text::views(data.cipher_suites@[browser]@)
    } else {
        Seq::empty()
    };
    assert(profile@.cipher_suites == listed);
    (kind, platform, browser, i)
}

/// Any user agent that the dataset lists for the permitted kinds of device, the
/// platform and the browser asked for may be the one selected.
pub proof fn law_any_listed_agent_may_be_selected(
    data: UserAgentData,
    opts: UserAgentOptions,
    kind: DeviceKind,
    platform: Seq<char>,
    browser: Seq<char>,
    i: int,
    profile: UserAgentProfile,
)
    requires
        opts.custom is None,
        kind == DeviceKind::Desktop ==> opts.desktop,
        kind == DeviceKind::Mobile ==> opts.mobile,
        opts.platform matches Some(p) ==> p@ == platform,
        is_platform(platform),
        opts.browser matches Some(b) ==> b@ == browser,
        data.headers@.contains_key(browser),
        0 <= i < data.listed(kind, platform, browser).len(),
        profile@ == data.assembled(
            browser,
            data.listed(kind, platform, browser)[i]@,
            opts.allow_brotli,
        ),
    ensures
        data.selects(opts, Ok(profile)),
{
    let r: Result<UserAgentProfile, UserAgentError> = Ok(profile);
    let k = lemma_listed_is_offered(data, opts, kind, platform, browser, i);
    let offered = data.offered(opts.kinds(), platform, browser);
    law_valid_platforms();
    assert(offered.len() > 0);
    assert(data.available(opts.kinds(), platform));
    assert(data.usable(opts.kinds(), opts.wanted(), platform));
    assert(data.completes(browser, offered[k]@, opts.allow_brotli, r));
    assert(data.outfits(opts, platform, browser, r));
    assert(data.equips(opts, platform, r));
}

/// A user agent listed for a permitted kind of device is among those offered.
proof fn lemma_listed_is_offered(
    data: UserAgentData,
    opts: UserAgentOptions,
    kind: DeviceKind,
    platform: Seq<char>,
    browser: Seq<char>,
    i: int,
) -> (k: int)
    requires
        kind == DeviceKind::Desktop ==> opts.desktop,
        kind == DeviceKind::Mobile ==> opts.mobile,
        0 <= i < data.listed(kind, platform, browser).len(),
    ensures
        0 <= k < data.offered(opts.kinds(), platform, browser).len(),
        data.offered(opts.kinds(), platform, browser)[k] == data.listed(kind, platform, browser)[i],
{
    law_offered(data, opts, platform, browser);
    let desktop = if opts.desktop {
        data.listed(DeviceKind::Desktop, platform, browser)
    } else {
        Seq::empty()
    };
    if kind == DeviceKind::Desktop {
        i
    } else {
        desktop.len() + i
    }
}

/// The user agents offered are those listed for desktops, then those listed for
/// mobiles, each where the options permit the kind.
pub proof fn law_offered(
    data: UserAgentData,
    opts: UserAgentOptions,
    platform: Seq<char>,
    browser: Seq<char>,
)
    ensures
        data.offered(opts.kinds(), platform, browser) == (if opts.desktop {
            data.listed(DeviceKind::Desktop, platform, browser)
        } else {
            Seq::empty()
        }) + (if opts.mobile {
            data.listed(DeviceKind::Mobile, platform, browser)
        } else {
            Seq::empty()
        }),
{
    let kinds = opts.kinds();
    reveal_with_fuel(UserAgentData::offered, 3);
    let none = Seq::<DeviceKind>::empty();
    if opts.desktop && opts.mobile {
        assert(kinds.drop_last() =~= none.push(DeviceKind::Desktop));
        assert(kinds.drop_last().drop_last() =~= none);
    } else if opts.desktop || opts.mobile {
        assert(kinds.drop_last() =~= none);
    }
    assert(data.offered(kinds, platform, browser) =~= (if opts.desktop {
        data.listed(DeviceKind::Desktop, platform, browser)
    } else {
        Seq::empty()
    }) + (if opts.mobile {
        data.listed(DeviceKind::Mobile, platform, browser)
    } else {
        Seq::empty()
    }));
}

/// The user agents listed for a kind of device, a platform and a browser are
/// those that the dataset holds there.
pub proof fn law_listed(data: UserAgentData, platform: Seq<char>, browser: Seq<char>)
    ensures
        data.listed(DeviceKind::Desktop, platform, browser) == held_there(
            data.desktop,
            platform,
            browser,
        ),
        data.listed(DeviceKind::Mobile, platform, browser) == held_there(
            data.mobile,
            platform,
            browser,
        ),
{
}

/// What a part of the dataset holds for a platform and a browser.
pub open spec fn held_there(
    part: Option<TextMap<TextMap<Vec<String>>>>,
    platform: Seq<char>,
    browser: Seq<char>,
) -> Seq<String> {
    if part is Some && part->0@.contains_key(platform) && part->0@[platform]@.contains_key(browser) {
        part->0@[platform]@[browser]@
    } else {
        Seq::empty()
    }
}

/// A kind of device is permitted just when its flag is set.
pub proof fn law_permitted_kinds(opts: UserAgentOptions)
    ensures
        opts.kinds().contains(DeviceKind::Desktop) == opts.desktop,
        opts.kinds().contains(DeviceKind::Mobile) == opts.mobile,
        opts.kinds().no_duplicates(),
{
    let kinds = opts.kinds();
    if opts.desktop {
        assert(kinds[0] == DeviceKind::Desktop);
    }
    if opts.mobile {
        assert(kinds[kinds.len() - 1] == DeviceKind::Mobile);
    }
}

/// Whether a text names a platform.
pub open spec fn is_platform(platform: Seq<char>) -> bool {
    ||| platform == "linux"@
    ||| platform == "windows"@
    ||| platform == "darwin"@
    ||| platform == "android"@
    ||| platform == "ios"@
}

/// The valid platforms are five.
pub proof fn law_valid_platforms()
    ensures
        forall|p: Seq<char>| #[trigger]
            user_agents::valid_platforms().contains(p) <==> is_platform(p),
{
    let all = user_agents::valid_platforms();
    assert(all[0] == "linux"@ && all[1] == "windows"@ && all[2] == "darwin"@ && all[3]
        == "android"@ && all[4] == "ios"@);
    assert forall|p: Seq<char>| #[trigger] all.contains(p) <==> is_platform(p) by {
        if all.contains(p) {
            let i = choose|i: int| 0 <= i < all.len() && all[i] == p;
        }
    }
}

/// Without a device that is permitted there is no profile, whatever else is
/// asked for.
pub proof fn law_some_device_is_needed(
    data: UserAgentData,
    opts: UserAgentOptions,
    r: Result<UserAgentProfile, UserAgentError>,
)
    requires
        !opts.desktop,
        !opts.mobile,
        data.selects(opts, r),
    ensures
        r matches Err(UserAgentError::InvalidOptions(m)) && m@
            == "Desktop and mobile cannot both be disabled"@,
{
}

/// A platform that is no valid one is refused by its name, with a list of the
/// valid ones.
pub proof fn law_unknown_platform_is_named(
    data: UserAgentData,
    opts: UserAgentOptions,
    r: Result<UserAgentProfile, UserAgentError>,
)
    requires
        opts.desktop || opts.mobile,
        opts.custom is None,
        opts.platform is Some,
        !is_platform(opts.platform->0@),
        data.selects(opts, r),
    ensures
        r matches Err(UserAgentError::InvalidOptions(m)) && m@ == "Invalid platform '"@
            + opts.platform->0@ + "'; valid: "@ + ("linux"@ + ", "@ + "windows"@ + ", "@
            + "darwin"@ + ", "@ + "android"@ + ", "@ + "ios"@),
{
    law_valid_platforms();
    let all = user_agents::valid_platforms();
    reveal_with_fuel(text::join, 6);
    assert(all.drop_last() =~= seq!["linux"@, "windows"@, "darwin"@, "android"@]);
    assert(all.drop_last().drop_last() =~= seq!["linux"@, "windows"@, "darwin"@]);
    assert(all.drop_last().drop_last().drop_last() =~= seq!["linux"@, "windows"@]);
    assert(all.drop_last().drop_last().drop_last().drop_last() =~= seq!["linux"@]);
    assert(text::join(all, ", "@) =~= "linux"@ + ", "@ + "windows"@ + ", "@ + "darwin"@ + ", "@
        + "android"@ + ", "@ + "ios"@);
}

/// Whether the dataset lists a user agent for a platform and a browser, for a
/// permitted kind of device.
pub open spec fn has_agent(
    data: UserAgentData,
    opts: UserAgentOptions,
    platform: Seq<char>,
    browser: Seq<char>,
) -> bool {
    ||| opts.desktop && data.listed(DeviceKind::Desktop, platform, browser).len() > 0
    ||| opts.mobile && data.listed(DeviceKind::Mobile, platform, browser).len() > 0
}

/// What is owed for a platform and a browser that are asked for: a profile just
/// where the dataset lists a user agent and headers. A platform without any user
/// agent has no profile, and one without the browser refuses it by name.
pub proof fn law_asked_for(
    data: UserAgentData,
    opts: UserAgentOptions,
    r: Result<UserAgentProfile, UserAgentError>,
)
    requires
        opts.desktop || opts.mobile,
        opts.custom is None,
        opts.platform is Some,
        opts.browser is Some,
        is_platform(opts.platform->0@),
        data.selects(opts, r),
    ensures
        ({
            let platform = opts.platform->0@;
            let browser = opts.browser->0@;
            if has_agent(data, opts, platform, browser) {
                if data.headers@.contains_key(browser) {
                    r is Ok
                } else {
                    r matches Err(UserAgentError::ProfileNotFound)
                }
            } else if exists|b: Seq<char>| has_agent(data, opts, platform, b) {
                r matches Err(UserAgentError::InvalidOptions(m)) && m@ == "Browser '"@ + browser
                    + "' not available for platform '"@ + platform + "'"@
            } else {
                r matches Err(UserAgentError::ProfileNotFound)
            }
        }),
{
    let platform = opts.platform->0@;
    let browser = opts.browser->0@;
    law_valid_platforms();
    lemma_available(data, opts, platform);
    law_offered(data, opts, platform, browser);
    if exists|b: Seq<char>| has_agent(data, opts, platform, b) {
        assert(data.usable(opts.kinds(), opts.wanted(), platform));
    } else {
        assert forall|p: Seq<char>| !#[trigger] data.usable(opts.kinds(), opts.wanted(), p) by {
            if data.usable(opts.kinds(), opts.wanted(), p) {
                assert(p == platform);
            }
        }
        assert(!has_agent(data, opts, platform, browser));
    }
}

/// A platform is available just when it has a user agent for some browser.
proof fn lemma_available(data: UserAgentData, opts: UserAgentOptions, platform: Seq<char>)
    ensures
        data.available(opts.kinds(), platform) <==> exists|b: Seq<char>|
            has_agent(data, opts, platform, b),
{
    if data.available(opts.kinds(), platform) {
        let b = choose|b: Seq<char>| #[trigger]
            data.offered(opts.kinds(), platform, b).len() > 0;
        law_offered(data, opts, platform, b);
        assert(has_agent(data, opts, platform, b));
    }
    if exists|b: Seq<char>| has_agent(data, opts, platform, b) {
        let b = choose|b: Seq<char>| has_agent(data, opts, platform, b);
        law_offered(data, opts, platform, b);
        assert(data.offered(opts.kinds(), platform, b).len() > 0);
    }
}

/// Where no browser is asked for and all browsers have headers, there is a
/// profile just where the dataset lists any user agent, for a permitted kind of
/// device, on the platform asked for or on any valid one.
pub proof fn law_any_browser_will_do(
    data: UserAgentData,
    opts: UserAgentOptions,
    r: Result<UserAgentProfile, UserAgentError>,
)
    requires
        opts.desktop || opts.mobile,
        opts.custom is None,
        opts.browser is None,
        opts.platform matches Some(p) ==> is_platform(p@),
        forall|p: Seq<char>, b: Seq<char>| #[trigger]
            has_agent(data, opts, p, b) ==> data.headers@.contains_key(b),
        data.selects(opts, r),
    ensures
        r is Ok <==> exists|p: Seq<char>, b: Seq<char>|
            is_platform(p) && (opts.platform matches Some(q) ==> q@ == p) && #[trigger] has_agent(
                data,
                opts,
                p,
                b,
            ),
        r is Err ==> r matches Err(UserAgentError::ProfileNotFound),
{
    law_valid_platforms();
    if exists|p: Seq<char>, b: Seq<char>|
        is_platform(p) && (opts.platform matches Some(q) ==> q@ == p) && #[trigger] has_agent(
            data,
            opts,
            p,
            b,
        ) {
        let (p, b) = choose|p: Seq<char>, b: Seq<char>|
            is_platform(p) && (opts.platform matches Some(q) ==> q@ == p) && #[trigger] has_agent(
                data,
                opts,
                p,
                b,
            );
        lemma_available(data, opts, p);
        assert(data.usable(opts.kinds(), opts.wanted(), p));
        let platform = choose|platform: Seq<char>| #[trigger]
            data.usable(opts.kinds(), opts.wanted(), platform) && data.equips(opts, platform, r);
        let browser = choose|b: Seq<char>| #[trigger] data.outfits(opts, platform, b, r);
        law_offered(data, opts, platform, browser);
        assert(has_agent(data, opts, platform, browser));
    } else {
        assert forall|p: Seq<char>| !#[trigger] data.usable(opts.kinds(), opts.wanted(), p) by {
            if data.usable(opts.kinds(), opts.wanted(), p) {
                lemma_available(data, opts, p);
                let b = choose|b: Seq<char>| has_agent(data, opts, p, b);
                assert(has_agent(data, opts, p, b));
            }
        }
    }
}

/// A custom user agent gets the headers of a browser that has it, as the dataset
/// lists them, with Brotli, and its cipher suites. One that no browser has gets
/// fixed ones.
pub proof fn law_custom_agent_is_dressed(
    data: UserAgentData,
    opts: UserAgentOptions,
    profile: UserAgentProfile,
)
    requires
        opts.desktop || opts.mobile,
        opts.custom is Some,
        data.selects(opts, Ok(profile)),
    ensures
        ({
            let custom = opts.custom->0@;
            match data.recognises(custom) {
                Some(browser) => {
                    &&& data.knows(custom, browser)
                    &&& wears(data, browser, custom, profile@.headers)
                    &&& profile@.headers["Accept-Encoding"@]
                        == data.headers@[browser].accept_encoding@
                    &&& ciphers(
                        data,
                        browser,
                        user_agents::fallback_cipher_suites(),
                        profile@.cipher_suites,
                    )
                },
                None => {
                    &&& forall|browser: Seq<char>| !#[trigger] data.knows(custom, browser)
                    &&& profile@.headers == user_agents::fallback_headers(custom)
                    &&& profile@.cipher_suites == user_agents::fallback_cipher_suites()
                },
            }
        }),
{
    let custom = opts.custom->0@;
    lemma_names_differ();
    law_recognised_is_known(data, custom);
    if let Some(browser) = data.recognises(custom) {
        law_headers_by_name(data.headers@[browser]);
        let listed = if data.cipher_suites@.contains_key(browser) {
            text::views(data.cipher_suites@[browser]@)
        } else {
            user_agents::fallback_cipher_suites()
        };
        assert(profile@.cipher_suites == listed);
    }
}

/// A browser is known by a custom user agent if one of its user agents, on any
/// kind of device and any platform, has the custom one in it.
pub proof fn law_known_by_a_part(
    data: UserAgentData,
    kind: DeviceKind,
    platform: Seq<char>,
    browser: Seq<char>,
    i: int,
    before: Seq<char>,
    custom: Seq<char>,
    after: Seq<char>,
)
    requires
        data.headers@.contains_key(browser),
        0 <= i < data.listed(kind, platform, browser).len(),
        data.listed(kind, platform, browser)[i]@ == before + custom + after,
    ensures
        data.knows(custom, browser),
        data.recognises(custom) is Some,
{
    let agent = data.listed(kind, platform, browser)[i]@;
    let k = before.len() as int;
    assert(agent.subrange(k, k + custom.len()) =~= custom);
    assert(text::occurs(custom, agent));
    assert(data.knows(custom, browser));
    law_recognised_is_known(data, custom);
}

/// What a custom user agent of no known browser gets.
pub proof fn law_fallback(custom: Seq<char>)
    ensures
        ({
            let h = user_agents::fallback_headers(custom);
            &&& h.contains_key("User-Agent"@) && h["User-Agent"@] == custom
            &&& h.contains_key("Accept"@) && h["Accept"@]
                == "text/html,application/xhtml+xml,application/xml;q=0.9,image/webp,image/apng,*/*;q=0.8"@
            &&& h.contains_key("Accept-Language"@) && h["Accept-Language"@] == "en-US,en;q=0.9"@
            &&& h.contains_key("Accept-Encoding"@) && h["Accept-Encoding"@] == "gzip, deflate"@
            &&& forall|k: Seq<char>| #[trigger]
                h.contains_key(k) ==> k == "User-Agent"@ || k == "Accept"@ || k
                    == "Accept-Language"@ || k == "Accept-Encoding"@
        }),
        ({
            let c = user_agents::fallback_cipher_suites();
            &&& c.len() == 6
            &&& c[0] == "TLS_AES_128_GCM_SHA256"@
            &&& c[1] == "TLS_AES_256_GCM_SHA384"@
            &&& c[2] == "ECDHE-ECDSA-AES128-GCM-SHA256"@
            &&& c[3] == "ECDHE-RSA-AES128-GCM-SHA256"@
            &&& c[4] == "ECDHE-ECDSA-AES256-GCM-SHA384"@
            &&& c[5] == "ECDHE-RSA-AES256-GCM-SHA384"@
        }),
{
    lemma_names_differ();
}

/// Brotli is the encoding of two letters, a `b` and an `r`, in any case; every
/// other encoding is kept.
pub proof fn law_brotli_is_two_letters(encoding: Seq<char>)
    ensures
        !user_agents::is_kept(encoding) <==> encoding.len() == 2 && (encoding[0] == 'b'
            || encoding[0] == 'B') && (encoding[1] == 'r' || encoding[1] == 'R'),
{
    reveal_strlit("br");
    let (a, b) = (text::lower(encoding), text::lower("br"@));
    assert(b =~= seq!['b', 'r']);
    if encoding.len() == 2 {
        assert(a[0] == text::lower_char(encoding[0]) && a[1] == text::lower_char(encoding[1]));
        if (encoding[0] == 'b' || encoding[0] == 'B') && (encoding[1] == 'r' || encoding[1] == 'R') {
            assert(a =~= b);
        }
    }
    if a == b {
        assert(encoding.len() == a.len());
        assert(a[0] == 'b' && a[1] == 'r');
    }
}

/// An encoding is kept as often as it is listed, and none comes in.
pub proof fn law_stripping_keeps_the_rest(value: Seq<char>, encoding: Seq<char>)
    ensures
        kept_encodings(value).to_multiset().count(encoding) == (if user_agents::is_kept(encoding) {
            user_agents::encodings(value).to_multiset().count(encoding)
        } else {
            0
        }),
{
    lemma_kept_count(user_agents::encodings(value), encoding);
}

proof fn lemma_kept_count(list: Seq<Seq<char>>, encoding: Seq<char>)
    ensures
        list.filter(|e: Seq<char>| user_agents::is_kept(e)).to_multiset().count(encoding) == (
        if user_agents::is_kept(encoding) {
            list.to_multiset().count(encoding)
        } else {
            0
        }),
    decreases list.len(),
{
    broadcast use vstd::seq_lib::group_to_multiset_ensures;

    let pred = |e: Seq<char>| user_agents::is_kept(e);
    reveal(Seq::filter);
    if list.len() > 0 {
        let rest = list.drop_last();
        lemma_kept_count(rest, encoding);
        assert(rest.push(list.last()) =~= list);
    } else {
        assert(list.filter(pred) =~= list);
        assert(list =~= Seq::empty());
        Seq::<Seq<char>>::empty().to_multiset_ensures();
    }
}

/// Brotli is stripped of the accepted encodings and no other header is touched.
pub proof fn law_stripping_touches_one_header(headers: Map<Seq<char>, Seq<char>>, name: Seq<char>)
    ensures
        ({
            let stripped = user_agents::headers_without_brotli(headers);
            &&& stripped.dom() == headers.dom()
            &&& name != "Accept-Encoding"@ && headers.contains_key(name) ==> stripped[name]
                == headers[name]
            &&& headers.contains_key("Accept-Encoding"@) ==> stripped["Accept-Encoding"@]
                == user_agents::without_brotli(headers["Accept-Encoding"@])
        }),
{
    assert(user_agents::headers_without_brotli(headers).dom() =~= headers.dom());
}

/// The encodings of a list are those before a comma and those after it.
pub proof fn law_encodings_between_commas(before: Seq<char>, last: Seq<char>)
    requires
        !last.contains(','),
    ensures
        user_agents::encodings(last) == seq![text::trim(last)],
        user_agents::encodings(before.push(',') + last) == user_agents::encodings(before).push(
            text::trim(last),
        ),
{
    assert(Seq::<char>::empty() + last =~= last);
    lemma_split_more(Seq::empty(), last, ',');
    assert(text::split(Seq::<char>::empty(), ',') =~= seq![Seq::<char>::empty()]);
    assert(text::split(last, ',') =~= seq![last]);
    assert(user_agents::encodings(last) =~= seq![text::trim(last)]);
    lemma_split_more(before.push(','), last, ',');
    assert(before.push(',').drop_last() =~= before);
    let pieces = text::split(before, ',');
    assert(text::split(before.push(','), ',') =~= pieces.push(Seq::empty()));
    assert(pieces.push(Seq::empty()).drop_last() =~= pieces);
    assert(text::split(before.push(',') + last, ',') =~= pieces.push(last));
    assert(user_agents::encodings(before.push(',') + last) =~= user_agents::encodings(before).push(
        text::trim(last),
    ));
}

/// What is kept of the encodings is written out with a comma and a space between
/// neighbours.
pub proof fn law_kept_encodings_are_listed(value: Seq<char>)
    ensures
        user_agents::without_brotli(value) == text::join(kept_encodings(value), ", "@),
{
}

/// An error says what went wrong and gives its details in full.
pub proof fn law_errors_give_details(path: String, source: String)
    ensures
        (UserAgentError::FileMissing { path }).described() == "user-agent data file missing: "@
            + path@,
        (UserAgentError::InvalidJson { path, source }).described() == "user-agent JSON invalid at "@
            + path@ + ": "@ + source@,
        (UserAgentError::Io { path, source }).described() == "I/O error reading "@ + path@ + ": "@
            + source@,
        UserAgentError::InvalidEmbedded(source).described()
            == "embedded user-agent dataset is invalid: "@ + source@,
        UserAgentError::InvalidOptions(source).described() == "invalid user-agent options: "@
            + source@,
        UserAgentError::InitializationFailure(source).described()
            == "user-agent manager initialization failed: "@ + source@,
        UserAgentError::NoDataSources.described() == "no user-agent data sources found"@,
        UserAgentError::ProfileNotFound.described() == "no matching user-agent profile found"@,
{
}

/// An explicit path comes first unless it is empty, and the working directory
/// last where it is known. There are no other places.
pub proof fn law_candidates_in_order(custom: Option<String>, has_directory: bool)
    ensures
        ({
            let all = user_agents::candidates(custom, has_directory);
            let explicit = custom is Some && custom->0@.len() > 0;
            &&& all.len() == (if explicit { 1int } else { 0 }) + (if has_directory { 1int } else { 0 })
            &&& explicit ==> all[0] == CandidatePath::Custom(custom->0)
            &&& has_directory ==> all.last() == CandidatePath::WorkingDirectory
        }),
{
}

/// A candidate that could be read is parsed, one that is missing makes way for
/// the next or for the embedded dataset, and one that could not be read ends
/// loading with the reason.
pub proof fn law_reading_decides(load: Loading, n: usize, event: LoadEvent, next: LoadStage)
    requires
        load.stage == LoadStage::Read(n),
        load.follows(event, next),
    ensures
        event matches LoadEvent::Contents { path, contents } ==> next == (LoadStage::Parse {
            path,
            contents,
        }),
        event matches LoadEvent::Failed { path, source } ==> next == LoadStage::Over(
            Err(UserAgentError::Io { path, source }),
        ),
        event is Missing && n + 1 < load.candidates@.len() ==> next == LoadStage::Read(
            (n + 1) as usize,
        ),
        event is Missing && n + 1 >= load.candidates@.len() ==> next == LoadStage::ParseEmbedded,
        event is Parsed || event is Unparsable ==> next == load.stage,
{
}

/// A dataset that parses is the one that the manager gets, and one that does not
/// ends loading with the reason, by its path unless it is the embedded one.
pub proof fn law_parsing_decides(load: Loading, event: LoadEvent, next: LoadStage)
    requires
        load.stage is Parse || load.stage is ParseEmbedded,
        load.follows(event, next),
    ensures
        event matches LoadEvent::Parsed(data) ==> next == LoadStage::Over(
            Ok(UserAgentManager { data }),
        ),
        event matches LoadEvent::Unparsable(source) ==> next == LoadStage::Over(
            Err(
                match load.stage {
                    LoadStage::Parse { path, .. } => UserAgentError::InvalidJson { path, source },
                    _ => UserAgentError::InvalidEmbedded(source),
                },
            ),
        ),
        !(event is Parsed) && !(event is Unparsable) ==> next == load.stage,
{
}

/// Loading that is over stays as it is.
pub proof fn law_loaded_is_final(load: Loading, event: LoadEvent, next: LoadStage)
    requires
        load.stage is Over,
        load.follows(event, next),
    ensures
        next == load.stage,
{
}

/// Loading starts with the first candidate, or with the embedded dataset where
/// there is none.
pub proof fn law_loading_starts(load: Loading)
    ensures
        load.candidates@.len() > 0 ==> load.turn(0) == LoadStage::Read(0),
        load.candidates@.len() == 0 ==> load.turn(0) == LoadStage::ParseEmbedded,
{
}

/// A manager that was loaded holds a dataset that was parsed: that of a
/// candidate, or the embedded one.
pub proof fn law_loaded_was_parsed(
    candidates: Vec<CandidatePath>,
    loads: Seq<Loading>,
    events: Seq<LoadEvent>,
    manager: UserAgentManager,
) -> (i: int)
    requires
        is_load(candidates, loads, events),
        loads.last().stage == LoadStage::Over(Ok(manager)),
    ensures
        0 <= i < events.len(),
        loads[i].stage is Parse || loads[i].stage is ParseEmbedded,
        events[i] == LoadEvent::Parsed(manager.data),
{
    lemma_parsed_by(loads, events, candidates, manager, events.len() as int)
}

proof fn lemma_parsed_by(
    loads: Seq<Loading>,
    events: Seq<LoadEvent>,
    candidates: Vec<CandidatePath>,
    manager: UserAgentManager,
    n: int,
) -> (i: int)
    requires
        is_load(candidates, loads, events),
        0 <= n <= events.len(),
        loads[n].stage == LoadStage::Over(Ok(manager)),
    ensures
        0 <= i < n,
        loads[i].stage is Parse || loads[i].stage is ParseEmbedded,
        events[i] == LoadEvent::Parsed(manager.data),
    decreases n,
{
    let k = n - 1;
    assert(n > 0);
    assert(loads[k].follows(events[k], loads[k + 1].stage));
    if loads[k].stage is Over {
        lemma_parsed_by(loads, events, candidates, manager, k)
    } else {
        k
    }
}

/// What a profile holds is what its fields hold, each of them.
pub proof fn law_profile_holds_its_fields(profile: UserAgentProfile)
    ensures
        profile@.headers.dom() == profile.headers@.dom(),
        forall|k: Seq<char>| #[trigger]
            profile.headers@.contains_key(k) ==> profile@.headers[k] == profile.headers@[k]@,
        profile@.cipher_suites.len() == profile.cipher_suites@.len(),
        forall|i: int|
            0 <= i < profile.cipher_suites@.len() ==> #[trigger] profile@.cipher_suites[i]
                == profile.cipher_suites@[i]@,
{
    assert(profile@.headers.dom() =~= profile.headers@.dom());
}

/// One more kind of device adds what is listed for it to what is offered.
pub proof fn law_offered_by_kind(
    data: UserAgentData,
    kinds: Seq<DeviceKind>,
    kind: DeviceKind,
    platform: Seq<char>,
    browser: Seq<char>,
)
    ensures
        data.offered(Seq::empty(), platform, browser).len() == 0,
        data.offered(kinds.push(kind), platform, browser) == data.offered(kinds, platform, browser)
            + data.listed(kind, platform, browser),
{
    assert(kinds.push(kind).drop_last() =~= kinds);
}

/// A platform is available just when one of the kinds of device lists a user
/// agent for it, for any browser.
pub proof fn law_available(data: UserAgentData, kinds: Seq<DeviceKind>, platform: Seq<char>)
    ensures
        data.available(kinds, platform) <==> exists|kind: DeviceKind, browser: Seq<char>|
            kinds.contains(kind) && (#[trigger] data.listed(kind, platform, browser)).len() > 0,
{
    if data.available(kinds, platform) {
        let browser = choose|browser: Seq<char>| #[trigger]
            data.offered(kinds, platform, browser).len() > 0;
        let (kind, i) = lemma_offered_is_listed(data, kinds, platform, browser, 0);
        assert(kinds.contains(kind) && data.listed(kind, platform, browser).len() > 0);
    }
    if exists|kind: DeviceKind, browser: Seq<char>|
        kinds.contains(kind) && (#[trigger] data.listed(kind, platform, browser)).len() > 0 {
        let (kind, browser) = choose|kind: DeviceKind, browser: Seq<char>|
            kinds.contains(kind) && (#[trigger] data.listed(kind, platform, browser)).len() > 0;
        lemma_listed_is_counted(data, kinds, kind, platform, browser);
        assert(data.offered(kinds, platform, browser).len() > 0);
    }
}

proof fn lemma_listed_is_counted(
    data: UserAgentData,
    kinds: Seq<DeviceKind>,
    kind: DeviceKind,
    platform: Seq<char>,
    browser: Seq<char>,
)
    requires
        kinds.contains(kind),
    ensures
        data.offered(kinds, platform, browser).len() >= data.listed(kind, platform, browser).len(),
    decreases kinds.len(),
{
    let j = choose|j: int| 0 <= j < kinds.len() && kinds[j] == kind;
    if j < kinds.len() - 1 {
        assert(kinds.drop_last()[j] == kind);
        lemma_listed_is_counted(data, kinds.drop_last(), kind, platform, browser);
    }
}

/// Whether some user agent of a list holds `custom`.
pub open spec fn held_by_one(agents: Seq<String>, custom: Seq<char>) -> bool {
    exists|n: int| 0 <= n < agents.len() && text::occurs(custom, #[trigger] agents[n]@)
}

/// Whether the browser at a place of the dataset, by the kind of device, the
/// platform and the browser in the order in which they are kept, has known
/// headers and a user agent that holds `custom`.
pub open spec fn matches_at(
    data: UserAgentData,
    custom: Seq<char>,
    kind: DeviceKind,
    i: int,
    j: int,
) -> bool {
    let device = if kind == DeviceKind::Desktop { data.desktop } else { data.mobile };
    let platforms = device->0;
    let browsers = platforms@[platforms.keys()[i]];
    &&& device is Some
    &&& 0 <= i < platforms.keys().len()
    &&& 0 <= j < browsers.keys().len()
    &&& data.headers@.contains_key(browsers.keys()[j])
    &&& held_by_one(browsers@[browsers.keys()[j]]@, custom)
}

/// Whether a place comes before another: desktop before mobile, then by the
/// platform, then by the browser.
pub open spec fn comes_before(
    kind: DeviceKind,
    i: int,
    j: int,
    other: DeviceKind,
    m: int,
    n: int,
) -> bool {
    if kind != other {
        kind == DeviceKind::Desktop
    } else {
        i < m || (i == m && j < n)
    }
}

/// A custom user agent is taken for the browser at the first place that has it.
pub proof fn law_first_place_wins(
    data: UserAgentData,
    custom: Seq<char>,
    kind: DeviceKind,
    i: int,
    j: int,
)
    requires
        matches_at(data, custom, kind, i, j),
        forall|other: DeviceKind, m: int, n: int| #[trigger]
            matches_at(data, custom, other, m, n) ==> !comes_before(other, m, n, kind, i, j),
    ensures
        ({
            let device = if kind == DeviceKind::Desktop { data.desktop } else { data.mobile };
            data.recognises(custom) == Some(device->0@[device->0.keys()[i]].keys()[j])
        }),
{
    let device = data.device(kind);
    let platforms = device->0;
    if kind == DeviceKind::Mobile && data.desktop is Some {
        assert forall|m: int, n: int| !#[trigger]
            matches_at(data, custom, DeviceKind::Desktop, m, n) by {}
        lemma_no_place(data, custom, DeviceKind::Desktop, 0, data.desktop->0.keys().len() as int);
        lemma_place_reached(data, custom, DeviceKind::Desktop, 0, data.desktop->0.keys().len());
    }
    assert forall|m: int, n: int| 0 <= m < i implies !#[trigger]
        matches_at(data, custom, kind, m, n) by {}
    lemma_no_place(data, custom, kind, 0, i);
    lemma_place_reached(data, custom, kind, 0, i as nat);
    assert forall|n: int| 0 <= n < j implies !#[trigger] matches_at(data, custom, kind, i, n) by {}
    lemma_browser_reached(data, custom, kind, i, 0, j as nat);
}

/// Where no browser of some platforms has it, the search of each comes to nothing.
proof fn lemma_no_place(data: UserAgentData, custom: Seq<char>, kind: DeviceKind, from: int, to: int)
    requires
        data.device(kind) is Some,
        0 <= from <= to <= data.device(kind)->0.keys().len(),
        forall|m: int, n: int|
            from <= m < to ==> !#[trigger] matches_at(data, custom, kind, m, n),
    ensures
        ({
            let platforms = data.device(kind)->0;
            forall|m: int|
                from <= m < to ==> data.first_browser(
                    platforms@[#[trigger] platforms.keys()[m]],
                    custom,
                    0,
                ) is None
        }),
{
    let platforms = data.device(kind)->0;
    assert forall|m: int| from <= m < to implies data.first_browser(
        platforms@[#[trigger] platforms.keys()[m]],
        custom,
        0,
    ) is None by {
        lemma_browser_reached(
            data,
            custom,
            kind,
            m,
            0,
            platforms@[platforms.keys()[m]].keys().len(),
        );
    }
}

/// The search of a kind of device passes over the platforms without a match.
proof fn lemma_place_reached(
    data: UserAgentData,
    custom: Seq<char>,
    kind: DeviceKind,
    from: nat,
    to: nat,
)
    requires
        data.device(kind) is Some,
        from <= to <= data.device(kind)->0.keys().len(),
        ({
            let platforms = data.device(kind)->0;
            forall|m: int|
                from <= m < to ==> data.first_browser(
                    platforms@[#[trigger] platforms.keys()[m]],
                    custom,
                    0,
                ) is None
        }),
    ensures
        data.first_platform(data.device(kind)->0, custom, from) == data.first_platform(
            data.device(kind)->0,
            custom,
            to,
        ),
    decreases to - from,
{
    if from < to {
        let platforms = data.device(kind)->0;
        assert(data.first_browser(platforms@[platforms.keys()[from as int]], custom, 0) is None);
        lemma_place_reached(data, custom, kind, from + 1, to);
    }
}

/// The search of a platform passes over the browsers without a match.
proof fn lemma_browser_reached(
    data: UserAgentData,
    custom: Seq<char>,
    kind: DeviceKind,
    i: int,
    from: nat,
    to: nat,
)
    requires
        data.device(kind) is Some,
        0 <= i < data.device(kind)->0.keys().len(),
        from <= to <= data.device(kind)->0@[data.device(kind)->0.keys()[i]].keys().len(),
        forall|n: int| from <= n < to ==> !#[trigger] matches_at(data, custom, kind, i, n),
    ensures
        ({
            let browsers = data.device(kind)->0@[data.device(kind)->0.keys()[i]];
            data.first_browser(browsers, custom, from) == data.first_browser(browsers, custom, to)
        }),
    decreases to - from,
{
    if from < to {
        let browsers = data.device(kind)->0@[data.device(kind)->0.keys()[i]];
        let browser = browsers.keys()[from as int];
        let agents = browsers@[browser]@;
        assert(!matches_at(data, custom, kind, i, from as int));
        assert(data.fits(browser, agents, custom) ==> held_by_one(agents, custom));
        lemma_browser_reached(data, custom, kind, i, from + 1, to);
    }
}

} // verus!
