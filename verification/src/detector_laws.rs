//! What holds of detection as a whole.

use crate::detectors;
use crate::detectors::{
    ChallengeDetection, ChallengeResponse, ChallengeType, DetectionLogEntry, DetectionView, DetectorView, LogView, PatternStats,
    PatternView, ResponseStrategy, MAX_HISTORY,
};
use crate::ieee;
use crate::ieee::{Float, Format};
use crate::pattern_search;
use crate::rounding;
use crate::text;
use vstd::prelude::*;

verus! {

/// The least score.
pub open spec fn half() -> Float {
    Float::of_ratio(Format::Single, 1, 2)
}

/// The greatest score.
pub open spec fn one() -> Float {
    Float::of_count(Format::Single, 1)
}

proof fn lemma_half_and_one()
    ensures
        rounding::is_amount(Format::Single, half()),
        rounding::is_amount(Format::Single, one()),
        half() is Finite,
        one() is Finite,
        half().rank(Format::Single) <= one().rank(Format::Single),
{
    let f = Format::Single;
    let z = f.lowest();
    let x = rounding::lemma_count_value(f, 1);
    rounding::law_rounded_is_number(f, false, 1, 2, 0);
    let t = ieee::two(-z);
    assert(1 * t * 1 <= 1 * t * 2) by (nonlinear_arith);
    rounding::lemma_rounded_ordered(f, false, 1, 2, 0, false, 1, 1, 0, z);
    rounding::lemma_bits_bounded(f, x);
    rounding::lemma_bits_bounded(f, half());
}

/// A score is a number of single precision from one half to one.
pub proof fn law_score_range(p: PatternView, found: nat, stats: Option<PatternStats>)
    requires
        p.base_confidence.wf(Format::Single),
    ensures
        p.score(found, stats) matches Some(c) ==> {
            &&& c.wf(Format::Single)
            &&& !(c is NotANumber)
            &&& !c.below(half())
            &&& !one().below(c)
        },
{
    let f = Format::Single;
    lemma_half_and_one();
    let n = Float::of_count(f, p.indicators.len());
    let m = Float::of_count(f, found);
    rounding::law_rounded_is_number(f, false, p.indicators.len(), 1, 0);
    rounding::law_rounded_is_number(f, false, found, 1, 0);
    rounding::law_results_belong(f, m, n);
    let share = m.over(f, n);
    rounding::law_results_belong(f, share, p.base_confidence);
    let weighted = share.times(f, p.base_confidence);
    if let Some(s) = stats {
        lemma_rate_belongs(s);
        let tenth = Float::of_ratio(f, 1, 10);
        rounding::law_rounded_is_number(f, false, 1, 10, 0);
        rounding::law_results_belong(f, s.rate(), tenth);
        rounding::law_results_belong(f, weighted, s.rate().times(f, tenth));
    }
    ieee::law_order(f, one(), one());
}

proof fn lemma_rate_belongs(s: PatternStats)
    ensures
        s.rate().wf(Format::Single),
{
    let f = Format::Single;
    rounding::law_rounded_is_number(f, false, 0, 1, 0);
    rounding::law_rounded_is_number(f, false, s.successes as nat, 1, 0);
    rounding::law_rounded_is_number(f, false, s.attempts as nat, 1, 0);
    rounding::law_results_belong(
        f,
        Float::of_count(f, s.successes as nat),
        Float::of_count(f, s.attempts as nat),
    );
}

/// No two patterns lead at once, so a response has one detection at most.
pub proof fn law_leader_is_unique(
    d: DetectorView,
    patterns: Seq<PatternView>,
    body: Seq<char>,
    i: int,
    j: int,
)
    requires
        d.leads(patterns, body, i),
        d.leads(patterns, body, j),
    ensures
        i == j,
{
    if i < j {
        assert(d.trails(patterns[i], patterns[j], body, true));
        assert(d.trails(patterns[j], patterns[i], body, false));
    } else if j < i {
        assert(d.trails(patterns[j], patterns[i], body, true));
        assert(d.trails(patterns[i], patterns[j], body, false));
    }
}

/// The same detector makes the same detection of the same response.
pub proof fn law_detection_is_determined(
    d: DetectorView,
    response: ChallengeResponse,
    a: Option<DetectionView>,
    b: Option<DetectionView>,
)
    requires
        d.picks(d.candidates(response), response, a),
        d.picks(d.candidates(response), response, b),
    ensures
        a == b,
{
    let patterns = d.candidates(response);
    let body = response.body@;
    if let Some(v) = a {
        let i = choose|i: int| #[trigger]
            d.leads(patterns, body, i) && v == d.detection(patterns[i], response);
        assert(d.score(patterns[i], body) is Some);
        if let Some(w) = b {
            let j = choose|j: int| #[trigger]
                d.leads(patterns, body, j) && w == d.detection(patterns[j], response);
            law_leader_is_unique(d, patterns, body, i, j);
        }
    } else if let Some(w) = b {
        let j = choose|j: int| #[trigger]
            d.leads(patterns, body, j) && w == d.detection(patterns[j], response);
        assert(d.score(patterns[j], body) is Some);
    }
}

/// What comes out of the history limit: never more than the limit, the new
/// record last, before it the latest of the earlier ones in their order.
pub proof fn law_history_keeps_the_latest(history: Seq<LogView>, entry: LogView)
    requires
        history.len() <= MAX_HISTORY,
    ensures
        detectors::logged(history, entry).len() <= MAX_HISTORY,
        detectors::logged(history, entry).last() == entry,
        detectors::logged(history, entry).drop_last() == (if history.len() == MAX_HISTORY {
            history.skip(1)
        } else {
            history
        }),
{
    assert(detectors::logged(history, entry).drop_last() =~= if history.len() == MAX_HISTORY {
        history.skip(1)
    } else {
        history
    });
}

/// A history after several records, one after the other.
pub open spec fn logged_all(history: Seq<LogView>, entries: Seq<LogView>) -> Seq<LogView>
    decreases entries.len(),
{
    if entries.len() == 0 {
        history
    } else {
        detectors::logged(logged_all(history, entries.drop_last()), entries.last())
    }
}

/// However many records are made, the history holds the latest of all up to
/// the limit, in their order.
pub proof fn law_history_of_many(history: Seq<LogView>, entries: Seq<LogView>)
    requires
        history.len() <= MAX_HISTORY,
    ensures
        logged_all(history, entries) == (if history.len() + entries.len() > MAX_HISTORY {
            (history + entries).skip(history.len() + entries.len() - MAX_HISTORY)
        } else {
            history + entries
        }),
    decreases entries.len(),
{
    if entries.len() == 0 {
        assert(history + entries =~= history);
    } else {
        let rest = entries.drop_last();
        law_history_of_many(history, rest);
        let n = history.len() + entries.len();
        assert(history + entries =~= (history + rest).push(entries.last()));
        if n > MAX_HISTORY {
            assert(logged_all(history, entries) =~= (history + entries).skip(n - MAX_HISTORY));
        } else {
            assert(logged_all(history, entries) =~= history + entries);
        }
    }
}

/// A record after several outcomes, one after the other.
pub open spec fn recorded_all(s: PatternStats, outcomes: Seq<bool>) -> PatternStats
    decreases outcomes.len(),
{
    if outcomes.len() == 0 {
        s
    } else {
        recorded_all(s, outcomes.drop_last()).recorded(outcomes.last())
    }
}

/// How many of some outcomes are successes.
pub open spec fn successes(outcomes: Seq<bool>) -> nat
    decreases outcomes.len(),
{
    if outcomes.len() == 0 {
        0
    } else {
        successes(outcomes.drop_last()) + if outcomes.last() { 1nat } else { 0 }
    }
}

/// However many outcomes are recorded, a record counts them and the successes
/// among them, up to the largest `u32`.
pub proof fn law_record_counts(s: PatternStats, outcomes: Seq<bool>)
    ensures
        recorded_all(s, outcomes).attempts == (if s.attempts + outcomes.len() > u32::MAX {
            u32::MAX as int
        } else {
            s.attempts + outcomes.len()
        }),
        recorded_all(s, outcomes).successes == (if s.successes + successes(outcomes) > u32::MAX {
            u32::MAX as int
        } else {
            s.successes + successes(outcomes)
        }),
    decreases outcomes.len(),
{
    if outcomes.len() > 0 {
        law_record_counts(s, outcomes.drop_last());
    }
}

/// Whether no record counts more successes than attempts.
pub open spec fn balanced(d: DetectorView) -> bool {
    forall|id: Seq<char>|
        #![trigger d.stats[id]]
        d.stats.contains_key(id) ==> d.stats[id].successes <= d.stats[id].attempts
}

/// Learning keeps the records balanced.
pub proof fn law_learning_keeps_balance(d: DetectorView, id: Seq<char>, success: bool)
    requires
        balanced(d),
    ensures
        balanced(d.with_outcome(id, success)),
{
    let after = d.with_outcome(id, success);
    assert forall|other: Seq<char>|
        #![trigger after.stats[other]]
        after.stats.contains_key(other) implies after.stats[other].successes
        <= after.stats[other].attempts by {
        if other != id {
            assert(after.stats[other] == d.stats[other]);
        }
    }
}

/// Learning about one pattern changes no score of a pattern with another
/// identifier.
pub proof fn law_learning_is_local(
    d: DetectorView,
    id: Seq<char>,
    success: bool,
    p: PatternView,
    body: Seq<char>,
)
    requires
        p.id != id,
    ensures
        d.with_outcome(id, success).score(p, body) == d.score(p, body),
{
}

/// A pattern discovered for one domain is the last that responses of that
/// domain are held against, and makes no difference to responses of others.
pub proof fn law_discovery_is_local(
    d: DetectorView,
    domain: Seq<char>,
    name: Seq<char>,
    indicators: Seq<Seq<char>>,
    challenge_type: ChallengeType,
    response_strategy: ResponseStrategy,
    response: ChallengeResponse,
)
    ensures
        ({
            let after = d.with_adaptive(domain, name, indicators, challenge_type, response_strategy);
            if response.domain() == Some(detectors::lowercase(domain)) {
                &&& after.candidates(response).drop_last() == d.candidates(response)
                &&& after.candidates(response).last().name == name
                &&& after.candidates(response).last().indicators == indicators
                &&& after.candidates(response).last().challenge_type == challenge_type
                &&& after.candidates(response).last().response_strategy == response_strategy
                &&& after.candidates(response).last().adaptive
            } else {
                after.candidates(response) == d.candidates(response)
            }
        }),
{
    let after = d.with_adaptive(domain, name, indicators, challenge_type, response_strategy);
    let key = detectors::lowercase(domain);
    if response.domain() == Some(key) {
        let earlier = d.discovered(Some(key));
        let later = after.discovered(Some(key));
        assert(later.drop_last() =~= earlier);
        assert(after.candidates(response).drop_last() =~= d.candidates(response));
    } else {
        assert(after.discovered(response.domain()) == d.discovered(response.domain()));
    }
}

/// The rate of a balanced record is an amount from zero to one.
pub proof fn law_rate_is_a_share(s: PatternStats)
    requires
        s.successes <= s.attempts,
    ensures
        rounding::is_amount(Format::Single, s.rate()),
        s.rate() is Finite,
        !one().below(s.rate()),
{
    let f = Format::Single;
    lemma_rate_is_amount(s);
    lemma_half_and_one();
    if s.attempts > 0 {
        let x = Float::of_count(f, s.successes as nat);
        let y = rounding::lemma_count_bounded(f, s.attempts as u64);
        lemma_count_is_amount(s.successes);
        rounding::law_counts_keep_order(f, s.successes as u64, s.attempts as u64);
        ieee::law_order(f, y, x);
        lemma_positive(y);
        rounding::lemma_quotient_at_most_one(f, x, y);
    } else {
        let x = rounding::lemma_count_value(f, 0);
        let z = f.lowest();
        ieee::lemma_two_pos(-z);
        rounding::lemma_count_value(f, 1);
        rounding::lemma_below_at(one(), x, z);
    }
    ieee::law_order(f, one(), s.rate());
}

proof fn lemma_positive(y: Float)
    requires
        y is Finite,
        y.counted(Format::Single.lowest()) >= ieee::two(-Format::Single.lowest()),
    ensures
        y->units > 0,
{
    let z = Format::Single.lowest();
    ieee::lemma_two_pos(-z);
    let w = ieee::two(y->place - z);
    assert(y->units as nat * w > 0);
    if y->units == 0 {
        assert(0 * w == 0);
    }
}

proof fn lemma_count_is_amount(n: u32)
    ensures
        rounding::is_amount(Format::Single, Float::of_count(Format::Single, n as nat)),
        Float::of_count(Format::Single, n as nat) is Finite,
{
    let f = Format::Single;
    if n == 0 {
        let x = rounding::lemma_count_value(f, 0);
    } else {
        let x = rounding::lemma_count_bounded(f, n as u64);
    }
}

/// The rate of any record is a finite amount.
proof fn lemma_rate_is_amount(s: PatternStats)
    ensures
        rounding::is_amount(Format::Single, s.rate()),
        s.rate() is Finite,
{
    let f = Format::Single;
    lemma_count_is_amount(0);
    if s.attempts > 0 {
        lemma_count_is_amount(s.successes);
        let y = rounding::lemma_count_bounded(f, s.attempts as u64);
        rounding::lemma_quotient_bounded(f, Float::of_count(f, s.successes as nat), y);
        lemma_rate_belongs(s);
    }
}

/// Holding to one keeps order.
proof fn lemma_capped_ordered(x: Float, y: Float)
    requires
        rounding::is_amount(Format::Single, x),
        rounding::is_amount(Format::Single, y),
        x.rank(Format::Single) <= y.rank(Format::Single),
    ensures
        rounding::is_amount(Format::Single, detectors::at_most_one(x)),
        rounding::is_amount(Format::Single, detectors::at_most_one(y)),
        detectors::at_most_one(x).rank(Format::Single) <= detectors::at_most_one(y).rank(
            Format::Single,
        ),
{
    let f = Format::Single;
    lemma_half_and_one();
    ieee::law_order(f, one(), x);
    ieee::law_order(f, one(), y);
}

/// A higher confidence gives no lower score.
proof fn lemma_scores_ordered(
    p: PatternView,
    found: nat,
    a: Option<PatternStats>,
    b: Option<PatternStats>,
)
    requires
        rounding::is_amount(Format::Single, p.confidence(found, a)),
        rounding::is_amount(Format::Single, p.confidence(found, b)),
        p.confidence(found, a).rank(Format::Single) <= p.confidence(found, b).rank(Format::Single),
    ensures
        never_lower(p.score(found, a), p.score(found, b)),
{
    let f = Format::Single;
    lemma_half_and_one();
    let x = detectors::at_most_one(p.confidence(found, a));
    let y = detectors::at_most_one(p.confidence(found, b));
    lemma_capped_ordered(p.confidence(found, a), p.confidence(found, b));
    ieee::law_order(f, x, half());
    ieee::law_order(f, y, half());
    ieee::law_order(f, y, x);
}

/// Whether a score is at least as good as an earlier one: it is there where
/// the earlier one is, and not below it.
pub open spec fn never_lower(before: Option<Float>, after: Option<Float>) -> bool {
    before matches Some(b) ==> (after matches Some(a) && !a.below(b))
}

/// Whether a pattern can be scored: it has indicators, and a base confidence
/// from one half to one.
pub open spec fn sound(p: PatternView) -> bool {
    &&& 0 < p.indicators.len() <= u64::MAX
    &&& rounding::is_amount(Format::Single, p.base_confidence)
    &&& !p.base_confidence.below(half())
    &&& !one().below(p.base_confidence)
}

proof fn lemma_sound(p: PatternView)
    requires
        sound(p),
    ensures
        p.base_confidence is Finite,
        half().rank(Format::Single) <= p.base_confidence.rank(Format::Single) <= one().rank(
            Format::Single,
        ),
{
    let f = Format::Single;
    lemma_half_and_one();
    ieee::law_order(f, p.base_confidence, half());
    ieee::law_order(f, one(), p.base_confidence);
    rounding::lemma_bits_bounded(f, one());
    rounding::lemma_bits_bounded(f, p.base_confidence);
}

/// The share of indicators found, weighted, is a finite amount.
proof fn lemma_weighted(p: PatternView, found: nat)
    requires
        sound(p),
        found <= p.indicators.len(),
    ensures
        rounding::is_amount(Format::Single, p.confidence(found, None)),
        p.confidence(found, None) is Finite,
{
    let f = Format::Single;
    lemma_sound(p);
    lemma_half_and_one();
    let n = rounding::lemma_count_bounded(f, p.indicators.len() as u64);
    let m = Float::of_count(f, found);
    if found == 0 {
        rounding::lemma_count_value(f, 0);
    } else {
        rounding::lemma_count_bounded(f, found as u64);
    }
    lemma_positive(n);
    rounding::law_counts_keep_order(f, found as u64, p.indicators.len() as u64);
    ieee::law_order(f, n, m);
    rounding::lemma_quotient_at_most_one(f, m, n);
    let share = m.over(f, n);
    rounding::lemma_bits_bounded(f, share);
    rounding::lemma_bits_bounded(f, one());
    rounding::lemma_times_ordered(f, share, one(), p.base_confidence);
    rounding::lemma_times_one(f, p.base_confidence);
    rounding::lemma_bits_bounded(f, p.base_confidence);
    rounding::lemma_bits_bounded(f, share.times(f, p.base_confidence));
}

/// What a record adds to the confidence is an amount.
proof fn lemma_bonus(s: PatternStats)
    ensures
        rounding::is_amount(
            Format::Single,
            s.rate().times(Format::Single, Float::of_ratio(Format::Single, 1, 10)),
        ),
        rounding::is_amount(Format::Single, Float::of_ratio(Format::Single, 1, 10)),
        Float::of_ratio(Format::Single, 1, 10) is Finite,
{
    let f = Format::Single;
    let tenth = Float::of_ratio(f, 1, 10);
    lemma_rate_is_amount(s);
    lemma_half_and_one();
    rounding::law_rounded_is_number(f, false, 1, 10, 0);
    let t = ieee::two(-f.lowest());
    assert(1 * t * 1 <= 1 * t * 10) by (nonlinear_arith);
    rounding::lemma_rounded_ordered(f, false, 1, 10, 0, false, 1, 1, 0, f.lowest());
    rounding::lemma_bits_bounded(f, tenth);
    rounding::lemma_bits_bounded(f, one());
    rounding::lemma_times_ordered(f, s.rate(), s.rate(), tenth);
}

/// Having a record never lowers a score.
pub proof fn law_record_never_hurts(p: PatternView, found: nat, s: PatternStats)
    requires
        sound(p),
        found <= p.indicators.len(),
    ensures
        never_lower(p.score(found, None), p.score(found, Some(s))),
{
    let f = Format::Single;
    lemma_weighted(p, found);
    lemma_bonus(s);
    let bonus = s.rate().times(f, Float::of_ratio(f, 1, 10));
    rounding::lemma_plus_grows(f, p.confidence(found, None), bonus);
    lemma_scores_ordered(p, found, None, Some(s));
}

/// A higher rate of successes gives no lower score.
pub proof fn law_score_follows_rate(p: PatternView, found: nat, s: PatternStats, t: PatternStats)
    requires
        sound(p),
        found <= p.indicators.len(),
        !t.rate().below(s.rate()),
    ensures
        never_lower(p.score(found, Some(s)), p.score(found, Some(t))),
{
    let f = Format::Single;
    let tenth = Float::of_ratio(f, 1, 10);
    lemma_weighted(p, found);
    lemma_rate_is_amount(s);
    lemma_rate_is_amount(t);
    lemma_bonus(s);
    lemma_bonus(t);
    ieee::law_order(f, t.rate(), s.rate());
    rounding::lemma_times_ordered(f, s.rate(), t.rate(), tenth);
    rounding::lemma_plus_ordered(
        f,
        p.confidence(found, None),
        s.rate().times(f, tenth),
        t.rate().times(f, tenth),
    );
    lemma_scores_ordered(p, found, Some(s), Some(t));
}

/// Up to how many attempts each count is a number of its own.
pub const EXACT_ATTEMPTS: u32 = 0x100_0000;

/// A success never lowers the score of a pattern, and a failure never raises
/// it, while the attempts can be told apart in single precision.
pub proof fn law_learning_direction(p: PatternView, found: nat, s: PatternStats)
    requires
        sound(p),
        found <= p.indicators.len(),
        s.successes <= s.attempts < EXACT_ATTEMPTS,
    ensures
        never_lower(p.score(found, Some(s)), p.score(found, Some(s.recorded(true)))),
        never_lower(p.score(found, Some(s.recorded(false))), p.score(found, Some(s))),
{
    lemma_rate_direction(s);
    law_score_follows_rate(p, found, s, s.recorded(true));
    law_score_follows_rate(p, found, s.recorded(false), s);
}

proof fn lemma_rate_direction(s: PatternStats)
    requires
        s.successes <= s.attempts < EXACT_ATTEMPTS,
    ensures
        !s.recorded(true).rate().below(s.rate()),
        !s.rate().below(s.recorded(false).rate()),
{
    let f = Format::Single;
    let z = f.lowest();
    let t = ieee::two(-z);
    let (m, n) = (s.successes as nat, s.attempts as nat);
    lemma_rate_is_amount(s);
    lemma_rate_is_amount(s.recorded(true));
    lemma_rate_is_amount(s.recorded(false));
    rounding::lemma_quotient_of_counts(f, m + 1, n + 1);
    rounding::lemma_quotient_of_counts(f, m, n + 1);
    if n == 0 {
        // Without attempts the rate is zero over one.
        rounding::lemma_count_value(f, 0);
        rounding::lemma_rounded_ordered(f, false, 0, 1, 0, false, 1, 1, 0, z);
    } else {
        rounding::lemma_quotient_of_counts(f, m, n);
        assert(m * t * (n + 1) <= (m + 1) * t * n) by (nonlinear_arith)
            requires
                m <= n,
        ;
        assert(m * t * n <= m * t * (n + 1)) by (nonlinear_arith);
        rounding::lemma_rounded_ordered(f, false, m, n, 0, false, m + 1, n + 1, 0, z);
        rounding::lemma_rounded_ordered(f, false, m, n + 1, 0, false, m, n, 0, z);
    }
    ieee::law_order(f, s.recorded(true).rate(), s.rate());
    ieee::law_order(f, s.rate(), s.recorded(false).rate());
}

/// A pattern all of whose indicators are found has a score, no lower than its
/// base confidence, whatever its record.
pub proof fn law_full_match_scores(p: PatternView, stats: Option<PatternStats>)
    requires
        sound(p),
    ensures
        p.score(p.indicators.len(), stats) matches Some(c) && !c.below(p.base_confidence),
{
    let f = Format::Single;
    let n = p.indicators.len();
    lemma_sound(p);
    lemma_half_and_one();
    rounding::lemma_over_itself(f, n as u64);
    rounding::lemma_times_one(f, p.base_confidence);
    assert(p.confidence(n, None) == p.base_confidence);
    ieee::law_order(f, one(), p.base_confidence);
    ieee::law_order(f, p.base_confidence, half());
    ieee::law_order(f, p.base_confidence, p.base_confidence);
    if let Some(s) = stats {
        law_record_never_hurts(p, n, s);
    }
}

/// Whether a body shows all indicators of a pattern.
pub open spec fn shows_all(p: PatternView, body: Seq<char>) -> bool {
    forall|i: int|
        0 <= i < p.indicators.len() ==> pattern_search::indicates(#[trigger] p.indicators[i], body)
}

/// A response that shows all indicators of a pattern it is held against is
/// detected, with a confidence no lower than the base confidence of that
/// pattern.
pub proof fn law_full_match_is_detected(
    d: DetectorView,
    response: ChallengeResponse,
    i: int,
    r: Option<DetectionView>,
)
    requires
        0 <= i < d.candidates(response).len(),
        sound(d.candidates(response)[i]),
        shows_all(d.candidates(response)[i], response.body@),
        d.picks(d.candidates(response), response, r),
        r matches Some(v) ==> v.confidence.wf(Format::Single),
    ensures
        r matches Some(v) && !v.confidence.below(d.candidates(response)[i].base_confidence),
{
    let f = Format::Single;
    let patterns = d.candidates(response);
    let body = response.body@;
    let p = patterns[i];
    text::lemma_filter_all(p.indicators, |i: Seq<char>| pattern_search::indicates(i, body));
    law_full_match_scores(p, detectors::at(d.stats, p.id));
    law_score_range(p, p.indicators.len(), detectors::at(d.stats, p.id));
    assert(d.score(p, body) is Some);
    let c = d.score(p, body)->0;
    let v = r->0;
    let k = choose|k: int| #[trigger]
        d.leads(patterns, body, k) && v == d.detection(patterns[k], response);
    if i != k {
        assert(d.trails(patterns[i], patterns[k], body, i < k));
    }
    ieee::law_order(f, c, p.base_confidence);
    ieee::law_order(f, c, v.confidence);
    ieee::law_order(f, v.confidence, c);
    ieee::law_order(f, v.confidence, p.base_confidence);
}

/// A base confidence in hundredths from 50 to 100 is one that a sound pattern
/// can have.
pub proof fn law_hundredths_are_sound(n: nat)
    requires
        50 <= n <= 100,
    ensures
        rounding::is_amount(Format::Single, detectors::hundredths(n)),
        !detectors::hundredths(n).below(half()),
        !one().below(detectors::hundredths(n)),
{
    let f = Format::Single;
    let z = f.lowest();
    let t = ieee::two(-z);
    lemma_half_and_one();
    rounding::law_rounded_is_number(f, false, n, 100, 0);
    assert(1 * t * 100 <= n * t * 2 && n * t * 1 <= 1 * t * 100) by (nonlinear_arith)
        requires
            50 <= n <= 100,
    ;
    rounding::lemma_rounded_ordered(f, false, 1, 2, 0, false, n, 100, 0, z);
    rounding::lemma_rounded_ordered(f, false, n, 100, 0, false, 1, 1, 0, z);
    ieee::law_order(f, detectors::hundredths(n), half());
    ieee::law_order(f, one(), detectors::hundredths(n));
}

/// All built-in patterns are sound.
pub proof fn law_known_patterns_are_sound(i: int)
    requires
        0 <= i < detectors::known_patterns().len(),
    ensures
        sound(detectors::known_patterns()[i]),
{
    law_hundredths_are_sound(90);
    law_hundredths_are_sound(92);
    law_hundredths_are_sound(93);
    law_hundredths_are_sound(95);
    law_hundredths_are_sound(98);
    law_hundredths_are_sound(99);
}

/// A response that shows all indicators of a built-in pattern is detected, with
/// a confidence no lower than the base confidence of that pattern.
pub proof fn law_known_pattern_is_detected(
    d: DetectorView,
    response: ChallengeResponse,
    i: int,
    r: Option<DetectionView>,
)
    requires
        d.known == detectors::known_patterns(),
        0 <= i < detectors::known_patterns().len(),
        shows_all(detectors::known_patterns()[i], response.body@),
        d.picks(d.candidates(response), response, r),
        r matches Some(v) ==> v.confidence.wf(Format::Single),
    ensures
        r matches Some(v) && !v.confidence.below(detectors::known_patterns()[i].base_confidence),
{
    law_known_patterns_are_sound(i);
    assert(d.candidates(response)[i] == detectors::known_patterns()[i]);
    law_full_match_is_detected(d, response, i, r);
}

/// A discovered pattern is sound if it has an indicator.
pub proof fn law_discovered_patterns_are_sound(
    d: DetectorView,
    domain: Seq<char>,
    name: Seq<char>,
    indicators: Seq<Seq<char>>,
    challenge_type: ChallengeType,
    response_strategy: ResponseStrategy,
)
    requires
        0 < indicators.len() <= u64::MAX,
    ensures
        sound(
            d.with_adaptive(
                domain,
                name,
                indicators,
                challenge_type,
                response_strategy,
            ).adaptive[detectors::lowercase(domain)].last(),
        ),
{
    law_hundredths_are_sound(80);
}

/// The strategy that a kind of challenge calls for.
pub open spec fn called_for(challenge_type: ChallengeType) -> ResponseStrategy {
    match challenge_type {
        ChallengeType::JavaScriptV1 => ResponseStrategy::JsExecution,
        ChallengeType::JavaScriptV2 => ResponseStrategy::AdvancedJsExecution,
        ChallengeType::ManagedV3 => ResponseStrategy::BrowserSimulation,
        ChallengeType::ManagedInteractive => ResponseStrategy::BrowserSimulation,
        ChallengeType::Turnstile => ResponseStrategy::CaptchaSolving,
        ChallengeType::RateLimit => ResponseStrategy::DelayRetry,
        ChallengeType::AccessDenied => ResponseStrategy::ProxyRotation,
        ChallengeType::BotManagement => ResponseStrategy::EnhancedEvasion,
        ChallengeType::Unknown => ResponseStrategy::NoAction,
    }
}

/// The kind of challenge that a built-in identifier stands for.
pub open spec fn stands_for(id: Seq<char>) -> Option<ChallengeType> {
    if id == "cf_iuam_v1"@ {
        Some(ChallengeType::JavaScriptV1)
    } else if id == "cf_iuam_v2"@ {
        Some(ChallengeType::JavaScriptV2)
    } else if id == "cf_managed_v3"@ {
        Some(ChallengeType::ManagedV3)
    } else if id == "cf_managed_chl_page"@ {
        Some(ChallengeType::ManagedInteractive)
    } else if id == "cf_turnstile"@ {
        Some(ChallengeType::Turnstile)
    } else if id == "cf_rate_limit"@ {
        Some(ChallengeType::RateLimit)
    } else if id == "cf_access_denied"@ {
        Some(ChallengeType::AccessDenied)
    } else if id == "cf_bot_management"@ {
        Some(ChallengeType::BotManagement)
    } else {
        None
    }
}

/// The built-in identifiers are eight different ones.
proof fn lemma_ids_differ()
    ensures
        stands_for("cf_iuam_v1"@) == Some(ChallengeType::JavaScriptV1),
        stands_for("cf_iuam_v2"@) == Some(ChallengeType::JavaScriptV2),
        stands_for("cf_managed_v3"@) == Some(ChallengeType::ManagedV3),
        stands_for("cf_managed_chl_page"@) == Some(ChallengeType::ManagedInteractive),
        stands_for("cf_turnstile"@) == Some(ChallengeType::Turnstile),
        stands_for("cf_rate_limit"@) == Some(ChallengeType::RateLimit),
        stands_for("cf_access_denied"@) == Some(ChallengeType::AccessDenied),
        stands_for("cf_bot_management"@) == Some(ChallengeType::BotManagement),
{
    reveal_strlit("cf_iuam_v1");
    reveal_strlit("cf_iuam_v2");
    reveal_strlit("cf_managed_v3");
    reveal_strlit("cf_managed_chl_page");
    reveal_strlit("cf_turnstile");
    reveal_strlit("cf_rate_limit");
    reveal_strlit("cf_access_denied");
    reveal_strlit("cf_bot_management");
    assert("cf_iuam_v1"@[9] == '1' && "cf_iuam_v2"@[9] == '2');
    assert("cf_iuam_v1"@.len() == 10 && "cf_iuam_v2"@.len() == 10);
    assert("cf_managed_v3"@[3] == 'm' && "cf_managed_v3"@.len() == 13);
    assert("cf_managed_chl_page"@.len() == 19);
    assert("cf_turnstile"@.len() == 12);
    assert("cf_rate_limit"@[3] == 'r' && "cf_rate_limit"@.len() == 13);
    assert("cf_access_denied"@.len() == 16);
    assert("cf_bot_management"@.len() == 17);
}

/// What the built-in patterns have in common: each has an identifier that stands
/// for its kind of challenge, and the strategy which that kind calls for. Every
/// kind but the unknown one has one of them.
pub proof fn law_known_patterns_cover_the_kinds()
    ensures
        detectors::known_patterns().len() == 8,
        forall|i: int|
            #![trigger detectors::known_patterns()[i]]
            0 <= i < detectors::known_patterns().len() ==> {
                let p = detectors::known_patterns()[i];
                &&& stands_for(p.id) == Some(p.challenge_type)
                &&& p.response_strategy == called_for(p.challenge_type)
                &&& p.challenge_type != ChallengeType::Unknown
                &&& !p.adaptive
            },
        forall|i: int, j: int|
            #![trigger detectors::known_patterns()[i], detectors::known_patterns()[j]]
            0 <= i < j < detectors::known_patterns().len()
                ==> detectors::known_patterns()[i].challenge_type
                != detectors::known_patterns()[j].challenge_type,
{
    lemma_ids_differ();
}

/// A detection by built-in patterns recommends the strategy that its kind of
/// challenge calls for, under the identifier that stands for the kind.
pub proof fn law_strategy_follows_kind(
    d: DetectorView,
    response: ChallengeResponse,
    v: DetectionView,
)
    requires
        d.known == detectors::known_patterns(),
        !v.is_adaptive,
        d.picks(d.candidates(response), response, Some(v)),
    ensures
        v.challenge_type == ChallengeType::RateLimit ==> v.response_strategy
            == ResponseStrategy::DelayRetry,
        v.challenge_type == ChallengeType::AccessDenied ==> v.response_strategy
            == ResponseStrategy::ProxyRotation,
        v.challenge_type == ChallengeType::BotManagement ==> v.response_strategy
            == ResponseStrategy::EnhancedEvasion,
        v.challenge_type == ChallengeType::JavaScriptV1 ==> v.response_strategy
            == ResponseStrategy::JsExecution,
        v.challenge_type == ChallengeType::JavaScriptV2 ==> v.response_strategy
            == ResponseStrategy::AdvancedJsExecution,
        v.challenge_type == ChallengeType::ManagedV3 ==> v.response_strategy
            == ResponseStrategy::BrowserSimulation,
        v.challenge_type == ChallengeType::ManagedInteractive ==> v.response_strategy
            == ResponseStrategy::BrowserSimulation,
        v.challenge_type == ChallengeType::Turnstile ==> v.response_strategy
            == ResponseStrategy::CaptchaSolving,
        v.challenge_type != ChallengeType::Unknown,
        stands_for(v.pattern_id) == Some(v.challenge_type),
{
    let patterns = d.candidates(response);
    let i = choose|i: int| #[trigger]
        d.leads(patterns, response.body@, i) && v == d.detection(patterns[i], response);
    law_known_patterns_cover_the_kinds();
    if i < d.known.len() {
        assert(patterns[i] == detectors::known_patterns()[i]);
    } else {
        assert(patterns[i].adaptive);
    }
}

/// The strategy of a detection by a detector to which nothing was added.
pub proof fn law_fresh_detector_follows_kind(
    d: DetectorView,
    response: ChallengeResponse,
    v: DetectionView,
)
    requires
        d.known == detectors::known_patterns(),
        d.adaptive == Map::<Seq<char>, Seq<PatternView>>::empty(),
        d.picks(d.candidates(response), response, Some(v)),
    ensures
        !v.is_adaptive,
        v.response_strategy == called_for(v.challenge_type),
        stands_for(v.pattern_id) == Some(v.challenge_type),
{
    let patterns = d.candidates(response);
    let i = choose|i: int| #[trigger]
        d.leads(patterns, response.body@, i) && v == d.detection(patterns[i], response);
    law_known_patterns_cover_the_kinds();
    assert(patterns[i] == detectors::known_patterns()[i]);
}

/// The share of its indicators that makes a built-in pattern sure, in
/// hundredths.
pub open spec fn sureness(challenge_type: ChallengeType) -> nat {
    match challenge_type {
        ChallengeType::JavaScriptV1 => 95,
        ChallengeType::JavaScriptV2 => 90,
        ChallengeType::ManagedV3 => 92,
        ChallengeType::ManagedInteractive => 93,
        ChallengeType::Turnstile => 98,
        ChallengeType::RateLimit => 99,
        ChallengeType::AccessDenied => 99,
        ChallengeType::BotManagement => 95,
        ChallengeType::Unknown => 0,
    }
}

/// What gives a kind of challenge away.
pub open spec fn signs(challenge_type: ChallengeType) -> Seq<Seq<char>> {
    match challenge_type {
        ChallengeType::JavaScriptV1 => seq![
            r#"<title>\s*Just a moment\.\.\.\s*</title>"#@,
            r"var s,t,o,p,b,r,e,a,k,i,n,g,f,u,l,l,y,h,a,r,d,c,o,r,e"@,
            r#"setTimeout\(function\(\)\s*\{\s*var.*?\.submit\(\)"#@,
            r#"<form[^>]*id="challenge-form"[^>]*action="/[^"]*__cf_chl_f_tk="#@,
        ],
        ChallengeType::JavaScriptV2 => seq![
            r#"cpo\.src\s*=\s*['"]/cdn-cgi/challenge-platform/.*?orchestrate/jsch/v1"#@,
            r"window\._cf_chl_opt\s*="@,
            r#"<form[^>]*id="challenge-form"[^>]*action="/[^"]*__cf_chl_rt_tk="#@,
        ],
        ChallengeType::ManagedV3 => seq![
            r#"cpo\.src\s*=\s*['"]/cdn-cgi/challenge-platform/.*?orchestrate/(?:captcha|managed)/v1"#@,
            r"window\._cf_chl_ctx\s*="@,
            r#"data-ray="[A-Fa-f0-9]+""#@,
            r#"<div[^>]*class="cf-browser-verification"#@,
        ],
        ChallengeType::ManagedInteractive => seq![
            r"window\._cf_chl_opt\s*="@,
            r#"/cdn-cgi/challenge-platform/[^'"]*orchestrate/(?:chl_page|managed|captcha|jsch)/v1"#@,
            r#"cType\s*:\s*['"](?:managed|interactive)['"]"#@,
        ],
        ChallengeType::Turnstile => seq![
            r#"class="cf-turnstile""#@,
            r#"data-sitekey="[0-9A-Za-z]{40}""#@,
            r#"src="https://challenges\.cloudflare\.com/turnstile/v0/api\.js"#@,
            r"cf-turnstile-response"@,
        ],
        ChallengeType::RateLimit => seq![
            r#"<span[^>]*class="cf-error-code">1015<"#@,
            r"You are being rate limited"@,
            r#"<title>\s*Rate Limited\s*</title>"#@,
        ],
        ChallengeType::AccessDenied => seq![
            r#"<span[^>]*class="cf-error-code">1020<"#@,
            r"Access denied"@,
            r"The owner of this website has banned your access"@,
        ],
        ChallengeType::BotManagement => seq![
            r#"<span[^>]*class="cf-error-code">1010<"#@,
            r"Bot management"@,
            r"has banned you temporarily"@,
        ],
        ChallengeType::Unknown => Seq::empty(),
    }
}

/// The name of a kind of challenge.
pub open spec fn title(challenge_type: ChallengeType) -> Seq<char> {
    match challenge_type {
        ChallengeType::JavaScriptV1 => "Cloudflare IUAM v1"@,
        ChallengeType::JavaScriptV2 => "Cloudflare IUAM v2"@,
        ChallengeType::ManagedV3 => "Cloudflare Managed Challenge v3"@,
        ChallengeType::ManagedInteractive => "Cloudflare Managed Challenge (chl_page/interactive)"@,
        ChallengeType::Turnstile => "Cloudflare Turnstile"@,
        ChallengeType::RateLimit => "Cloudflare Rate Limit"@,
        ChallengeType::AccessDenied => "Cloudflare Access Denied"@,
        ChallengeType::BotManagement => "Cloudflare Bot Management"@,
        ChallengeType::Unknown => Seq::empty(),
    }
}

/// Each built-in pattern looks for the signs of its kind, under the name of the
/// kind, and is as sure as the kind can make it.
pub proof fn law_known_patterns_look_for_signs(i: int)
    requires
        0 <= i < detectors::known_patterns().len(),
    ensures
        ({
            let p = detectors::known_patterns()[i];
            &&& p.indicators == signs(p.challenge_type)
            &&& p.name == title(p.challenge_type)
            &&& p.base_confidence == Float::of_ratio(
                Format::Single,
                sureness(p.challenge_type),
                100,
            )
        }),
{
    let p = detectors::known_patterns()[i];
    assert(p.indicators =~= signs(p.challenge_type));
}

/// A detection of a fresh detector finds signs of its kind and no others, under
/// the name of the kind. With all signs and no record it is as sure as the kind
/// can make it.
pub proof fn law_detection_shows_signs(
    d: DetectorView,
    response: ChallengeResponse,
    v: DetectionView,
)
    requires
        d.known == detectors::known_patterns(),
        d.adaptive == Map::<Seq<char>, Seq<PatternView>>::empty(),
        d.picks(d.candidates(response), response, Some(v)),
    ensures
        v.pattern_name == title(v.challenge_type),
        forall|sign: Seq<char>| #[trigger]
            v.matched_indicators.contains(sign) <==> signs(v.challenge_type).contains(sign)
                && pattern_search::regex_search(sign, true, true, true, response.body@) == Some(
                true,
            ),
        v.matched_indicators == signs(v.challenge_type) && !d.stats.contains_key(v.pattern_id)
            ==> v.confidence == Float::of_ratio(Format::Single, sureness(v.challenge_type), 100),
{
    let patterns = d.candidates(response);
    let body = response.body@;
    let i = choose|i: int| #[trigger]
        d.leads(patterns, body, i) && v == d.detection(patterns[i], response);
    let p = patterns[i];
    assert(i < d.known.len());
    lemma_known_parts(p, i);
    law_found_are_indicated(p, body);
    if v.matched_indicators == signs(v.challenge_type) && !d.stats.contains_key(v.pattern_id) {
        let f = Format::Single;
        let n = p.indicators.len();
        lemma_sound(p);
        rounding::lemma_over_itself(f, n as u64);
        rounding::lemma_times_one(f, p.base_confidence);
    }
}

proof fn lemma_known_parts(p: PatternView, i: int)
    requires
        0 <= i < detectors::known_patterns().len(),
        p == detectors::known_patterns()[i],
    ensures
        p.indicators == signs(p.challenge_type),
        p.name == title(p.challenge_type),
        p.base_confidence == Float::of_ratio(Format::Single, sureness(p.challenge_type), 100),
        sound(p),
{
    law_known_patterns_look_for_signs(i);
    law_known_patterns_are_sound(i);
}

/// The indicators found in a body are just those of the pattern that match
/// somewhere in it.
pub proof fn law_found_are_indicated(p: PatternView, body: Seq<char>)
    ensures
        p.found(body).len() <= p.indicators.len(),
        forall|x: Seq<char>| #[trigger]
            p.found(body).contains(x) <==> p.indicators.contains(x) && pattern_search::regex_search(
                x,
                true,
                true,
                true,
                body,
            ) == Some(true),
{
    let pred = |i: Seq<char>| pattern_search::indicates(i, body);
    let all = p.indicators;
    all.lemma_filter_len(pred);
    assert forall|x: Seq<char>| #[trigger]
        p.found(body).contains(x) <==> all.contains(x) && pattern_search::regex_search(
            x,
            true,
            true,
            true,
            body,
        ) == Some(true) by {
        if p.found(body).contains(x) {
            let k = choose|k: int| 0 <= k < p.found(body).len() && p.found(body)[k] == x;
            all.lemma_filter_pred(pred, k);
            all.lemma_filter_contains_rev(pred, x);
        }
        if all.contains(x) && pred(x) {
            let k = choose|k: int| 0 <= k < all.len() && all[k] == x;
            all.lemma_filter_contains(pred, k);
        }
    }
}

/// Finding in a body is done indicator by indicator: those of a longer pattern
/// are those of its first part, then those of the rest.
pub proof fn law_found_in_order(p: PatternView, n: int, body: Seq<char>)
    requires
        0 <= n <= p.indicators.len(),
    ensures
        p.found(body) == (PatternView { indicators: p.indicators.take(n), ..p }).found(body) + (
        PatternView { indicators: p.indicators.skip(n), ..p }).found(body),
{
    let pred = |i: Seq<char>| pattern_search::indicates(i, body);
    assert(p.indicators =~= p.indicators.take(n) + p.indicators.skip(n));
    Seq::filter_distributes_over_add(p.indicators.take(n), p.indicators.skip(n), pred);
}

/// A detection is of one of the patterns that the response was held against,
/// with what the pattern and the response say. No pattern scores higher, and of
/// those that score the same it is the first.
pub proof fn law_detection_is_of_the_best(
    d: DetectorView,
    response: ChallengeResponse,
    v: DetectionView,
) -> (i: int)
    requires
        d.picks(d.candidates(response), response, Some(v)),
    ensures
        ({
            let all = d.candidates(response);
            let body = response.body@;
            &&& 0 <= i < all.len()
            &&& v.pattern_id == all[i].id
            &&& v.pattern_name == all[i].name
            &&& v.challenge_type == all[i].challenge_type
            &&& v.response_strategy == all[i].response_strategy
            &&& v.is_adaptive == all[i].adaptive
            &&& v.status_code == response.status
            &&& v.url == response.url.text()
            &&& v.matched_indicators == all[i].found(body)
            &&& v.matched_indicators.len() > 0
            &&& d.score(all[i], body) == Some(v.confidence)
            &&& forall|j: int|
                #![trigger d.score(all[j], body)]
                0 <= j < all.len() ==> (d.score(all[j], body) matches Some(c)
                    ==> !v.confidence.below(c) && (j < i ==> c.below(v.confidence)))
        }),
{
    let all = d.candidates(response);
    let body = response.body@;
    let i = choose|i: int| #[trigger]
        d.leads(all, body, i) && v == d.detection(all[i], response);
    assert forall|j: int|
        #![trigger d.score(all[j], body)]
        0 <= j < all.len() && d.score(all[j], body) is Some implies !v.confidence.below(
        d.score(all[j], body)->0,
    ) && (j < i ==> d.score(all[j], body)->0.below(v.confidence)) by {
        if j != i {
            assert(d.trails(all[j], all[i], body, j < i));
            if j < i {
                lemma_below_is_one_way(d.score(all[j], body)->0, v.confidence);
            }
        } else {
            lemma_below_is_one_way(v.confidence, v.confidence);
        }
    }
    i
}

proof fn lemma_below_is_one_way(x: Float, y: Float)
    ensures
        x.below(y) ==> !y.below(x),
        !x.below(x),
{
}

/// Where there is no detection, no pattern that the response was held against
/// scores.
pub proof fn law_no_detection_without_score(d: DetectorView, response: ChallengeResponse, j: int)
    requires
        d.picks(d.candidates(response), response, None),
        0 <= j < d.candidates(response).len(),
    ensures
        d.score(d.candidates(response)[j], response.body@) is None,
{
}

/// Every response is held against all built-in patterns, and after them against
/// the patterns discovered under its host in lower case, all of which count as
/// adaptive.
pub proof fn law_candidates(d: DetectorView, response: ChallengeResponse)
    ensures
        ({
            let all = d.candidates(response);
            let n = d.known.len() as int;
            &&& all.len() >= n
            &&& forall|i: int| 0 <= i < n ==> #[trigger] all[i] == d.known[i]
            &&& forall|i: int| n <= i < all.len() ==> (#[trigger] all[i]).adaptive
            &&& response.url.host() is None ==> all.len() == n
            &&& response.url.host() matches Some(host) ==> {
                let key = detectors::lowercase(host);
                if d.adaptive.contains_key(key) {
                    &&& all.len() == n + d.adaptive[key].len()
                    &&& forall|i: int|
                        0 <= i < d.adaptive[key].len() ==> {
                            let p = #[trigger] d.adaptive[key][i];
                            all[n + i] == PatternView { adaptive: true, ..p }
                        }
                } else {
                    all.len() == n
                }
            }
        }),
{
}

/// The detector after several outcomes of acting on one pattern.
pub open spec fn after_outcomes(d: DetectorView, id: Seq<char>, outcomes: Seq<bool>) -> DetectorView
    decreases outcomes.len(),
{
    if outcomes.len() == 0 {
        d
    } else {
        after_outcomes(d, id, outcomes.drop_last()).with_outcome(id, outcomes.last())
    }
}

/// After any sequence of outcomes for one pattern, its record has grown by the
/// length of the sequence and by the successes in it, up to the largest `u32`.
/// A pattern without a record starts at nothing. All other records, the
/// patterns and the history are as they were.
pub proof fn law_outcomes_are_counted(d: DetectorView, id: Seq<char>, outcomes: Seq<bool>)
    requires
        outcomes.len() > 0,
    ensures
        ({
            let after = after_outcomes(d, id, outcomes);
            let (a, b) = if d.stats.contains_key(id) {
                (d.stats[id].attempts as nat, d.stats[id].successes as nat)
            } else {
                (0, 0)
            };
            &&& after.stats.contains_key(id)
            &&& after.stats[id].attempts == (if a + outcomes.len() > u32::MAX {
                u32::MAX as nat
            } else {
                a + outcomes.len()
            })
            &&& after.stats[id].successes == (if b + successes(outcomes) > u32::MAX {
                u32::MAX as nat
            } else {
                b + successes(outcomes)
            })
            &&& after.stats.remove(id) == d.stats.remove(id)
            &&& after.known == d.known
            &&& after.adaptive == d.adaptive
            &&& after.history == d.history
        }),
    decreases outcomes.len(),
{
    let rest = outcomes.drop_last();
    let before = after_outcomes(d, id, rest);
    let after = after_outcomes(d, id, outcomes);
    assert(successes(outcomes) == successes(rest) + if outcomes.last() { 1nat } else { 0 });
    if rest.len() > 0 {
        law_outcomes_are_counted(d, id, rest);
    } else {
        assert(before == d);
        assert(successes(rest) == 0);
    }
    assert(after.stats.remove(id) =~= before.stats.remove(id));
}

/// Outcomes for different patterns may come in any order.
pub proof fn law_outcomes_of_two_patterns(
    d: DetectorView,
    id: Seq<char>,
    success: bool,
    other: Seq<char>,
    other_success: bool,
)
    requires
        id != other,
    ensures
        d.with_outcome(id, success).with_outcome(other, other_success) == d.with_outcome(
            other,
            other_success,
        ).with_outcome(id, success),
{
    let a = d.with_outcome(id, success).with_outcome(other, other_success);
    let b = d.with_outcome(other, other_success).with_outcome(id, success);
    assert(a.stats =~= b.stats);
}

/// The rate of a record is the ratio of successes to attempts, rounded once,
/// while the counts are exact; it is zero without attempts.
pub proof fn law_rate_is_the_ratio(s: PatternStats)
    requires
        s.attempts <= EXACT_ATTEMPTS,
        s.successes <= s.attempts,
    ensures
        s.attempts > 0 ==> s.rate() == Float::of_ratio(
            Format::Single,
            s.successes as nat,
            s.attempts as nat,
        ),
        s.attempts == 0 ==> s.rate() == Float::of_ratio(Format::Single, 0, 1),
{
    if s.attempts > 0 {
        rounding::lemma_quotient_of_counts(
            Format::Single,
            s.successes as nat,
            s.attempts as nat,
        );
    }
}

/// Without a record the confidence is the share of indicators found, rounded
/// once, times the base confidence.
pub proof fn law_confidence_weighs_the_share(p: PatternView, found: nat)
    requires
        found <= p.indicators.len() <= 0x100_0000,
        p.indicators.len() > 0,
    ensures
        p.confidence(found, None) == Float::of_ratio(
            Format::Single,
            found,
            p.indicators.len(),
        ).times(Format::Single, p.base_confidence),
{
    rounding::lemma_quotient_of_counts(Format::Single, found, p.indicators.len());
}

/// A record adds a tenth of its rate to the confidence.
pub proof fn law_record_adds_a_tenth(p: PatternView, found: nat, s: PatternStats)
    ensures
        p.confidence(found, Some(s)) == p.confidence(found, None).plus(
            Format::Single,
            s.rate().times(Format::Single, Float::of_ratio(Format::Single, 1, 10)),
        ),
{
}

/// A pattern scores just when an indicator was found and its confidence is not
/// under one half. The score is the confidence, or one where that is more.
pub proof fn law_score_is_the_confidence(p: PatternView, found: nat, stats: Option<PatternStats>)
    requires
        rounding::is_amount(Format::Single, p.confidence(found, stats)),
    ensures
        ({
            let c = p.confidence(found, stats);
            &&& p.score(found, stats) is Some <==> found > 0 && !c.below(
                Float::of_ratio(Format::Single, 1, 2),
            )
            &&& p.score(found, stats) matches Some(x) ==> x == if Float::of_count(
                Format::Single,
                1,
            ).below(c) {
                Float::of_count(Format::Single, 1)
            } else {
                c
            }
        }),
{
    let f = Format::Single;
    let c = p.confidence(found, stats);
    lemma_half_and_one();
    ieee::law_order(f, one(), c);
    ieee::law_order(f, one(), half());
    ieee::law_order(f, c, half());
}

/// More indicators found never give a lower score.
pub proof fn law_more_found_scores_higher(
    p: PatternView,
    found: nat,
    more: nat,
    stats: Option<PatternStats>,
)
    requires
        sound(p),
        found <= more <= p.indicators.len(),
    ensures
        never_lower(p.score(found, stats), p.score(more, stats)),
{
    let f = Format::Single;
    lemma_sound(p);
    lemma_half_and_one();
    lemma_weighted(p, found);
    lemma_weighted(p, more);
    if found > 0 {
        let n = rounding::lemma_count_bounded(f, p.indicators.len() as u64);
        let a = rounding::lemma_count_bounded(f, found as u64);
        let b = rounding::lemma_count_bounded(f, more as u64);
        lemma_positive(n);
        rounding::law_counts_keep_order(f, found as u64, more as u64);
        rounding::law_counts_keep_order(f, found as u64, p.indicators.len() as u64);
        rounding::law_counts_keep_order(f, more as u64, p.indicators.len() as u64);
        ieee::law_order(f, b, a);
        ieee::law_order(f, n, a);
        ieee::law_order(f, n, b);
        rounding::lemma_quotient_at_most_one(f, a, n);
        rounding::lemma_quotient_at_most_one(f, b, n);
        rounding::lemma_quotient_ordered(f, a, b, n);
        let (x, y) = (a.over(f, n), b.over(f, n));
        rounding::lemma_bits_bounded(f, x);
        rounding::lemma_bits_bounded(f, y);
        rounding::lemma_bits_bounded(f, one());
        rounding::lemma_times_ordered(f, x, y, p.base_confidence);
        let (u, w) = (p.confidence(found, None), p.confidence(more, None));
        if let Some(s) = stats {
            lemma_bonus(s);
            let bonus = s.rate().times(f, Float::of_ratio(f, 1, 10));
            lemma_bonus_is_finite(s);
            rounding::lemma_sum_ordered(f, bonus, u, w);
            rounding::lemma_plus_grows(f, u, bonus);
            rounding::lemma_plus_grows(f, w, bonus);
        }
        lemma_scores_ordered_of_two(p, found, more, stats);
    }
}

/// What a record adds is finite.
proof fn lemma_bonus_is_finite(s: PatternStats)
    ensures
        s.rate().times(Format::Single, Float::of_ratio(Format::Single, 1, 10)) is Finite,
{
    let f = Format::Single;
    let tenth = Float::of_ratio(f, 1, 10);
    let rate = s.rate();
    lemma_bonus(s);
    lemma_rate_is_amount(s);
    lemma_half_and_one();
    rounding::law_rounded_is_number(f, false, 1, 10, 0);
    let t = ieee::two(-f.lowest());
    assert(1 * t * 1 <= 1 * t * 10) by (nonlinear_arith);
    rounding::lemma_rounded_ordered(f, false, 1, 10, 0, false, 1, 1, 0, f.lowest());
    rounding::lemma_times_ordered(f, tenth, one(), rate);
    rounding::lemma_times_one(f, rate);
    let (u, v) = (rate->units as nat, tenth->units as nat);
    assert(u * v == v * u) by (nonlinear_arith);
    rounding::lemma_bits_bounded(f, rate);
    rounding::lemma_bits_bounded(f, rate.times(f, tenth));
}

proof fn lemma_scores_ordered_of_two(
    p: PatternView,
    found: nat,
    more: nat,
    stats: Option<PatternStats>,
)
    requires
        0 < found <= more,
        rounding::is_amount(Format::Single, p.confidence(found, stats)),
        rounding::is_amount(Format::Single, p.confidence(more, stats)),
        p.confidence(found, stats).rank(Format::Single) <= p.confidence(more, stats).rank(
            Format::Single,
        ),
    ensures
        never_lower(p.score(found, stats), p.score(more, stats)),
{
    let f = Format::Single;
    lemma_half_and_one();
    let x = detectors::at_most_one(p.confidence(found, stats));
    let y = detectors::at_most_one(p.confidence(more, stats));
    lemma_capped_ordered(p.confidence(found, stats), p.confidence(more, stats));
    ieee::law_order(f, x, half());
    ieee::law_order(f, y, half());
    ieee::law_order(f, y, x);
}

/// The score on a body goes by the indicators found in it and the record kept
/// under the identifier of the pattern.
pub proof fn law_score_uses_the_record(d: DetectorView, p: PatternView, body: Seq<char>)
    ensures
        d.stats.contains_key(p.id) ==> d.score(p, body) == p.score(
            p.found(body).len(),
            Some(d.stats[p.id]),
        ),
        !d.stats.contains_key(p.id) ==> d.score(p, body) == p.score(p.found(body).len(), None),
{
}

/// A discovered pattern: under the host in lower case, after those discovered
/// there before, with an identifier made of the domain as it was given and the
/// number of indicators, and a base confidence of eight tenths. Nothing else
/// changes.
pub proof fn law_discovery_is_kept(
    d: DetectorView,
    domain: Seq<char>,
    name: Seq<char>,
    indicators: Seq<Seq<char>>,
    challenge_type: ChallengeType,
    response_strategy: ResponseStrategy,
)
    ensures
        ({
            let after = d.with_adaptive(domain, name, indicators, challenge_type, response_strategy);
            let key = detectors::lowercase(domain);
            let earlier = if d.adaptive.contains_key(key) {
                d.adaptive[key]
            } else {
                Seq::empty()
            };
            &&& after.adaptive.contains_key(key)
            &&& after.adaptive[key].len() == earlier.len() + 1
            &&& after.adaptive[key].drop_last() == earlier
            &&& after.adaptive[key].last() == (PatternView {
                id: "adaptive_"@ + domain + "_"@ + text::decimal(indicators.len()),
                name,
                challenge_type,
                response_strategy,
                base_confidence: Float::of_ratio(Format::Single, 8, 10),
                indicators,
                adaptive: true,
            })
            &&& after.adaptive.remove(key) == d.adaptive.remove(key)
            &&& after.known == d.known
            &&& after.stats == d.stats
            &&& after.history == d.history
        }),
{
    let after = d.with_adaptive(domain, name, indicators, challenge_type, response_strategy);
    let key = detectors::lowercase(domain);
    let f = Format::Single;
    let t = ieee::two(-f.lowest());
    assert(80 * t * 10 == 8 * t * 100) by (nonlinear_arith);
    rounding::lemma_rounded_same(f, false, 80, 100, 0, 8, 10, 0, f.lowest());
    assert(after.adaptive.remove(key) =~= d.adaptive.remove(key));
    assert(after.adaptive[key].drop_last() =~= if d.adaptive.contains_key(key) {
        d.adaptive[key]
    } else {
        Seq::empty()
    });
}

/// Whether a header has a name, in any case.
pub open spec fn is_named(field: detectors::HeaderField, name: Seq<char>) -> bool {
    text::lower(field.name@) == text::lower(name)
}

/// The value of a header is that of the first one with its name, in any case.
pub proof fn law_first_header_counts(headers: Seq<detectors::HeaderField>, name: Seq<char>, i: int)
    requires
        0 <= i < headers.len(),
        is_named(headers[i], name),
        forall|j: int| 0 <= j < i ==> !is_named(#[trigger] headers[j], name),
    ensures
        detectors::first_value(headers, name) == Some(headers[i].value@),
    decreases headers.len(),
{
    if i > 0 {
        let rest = headers.drop_first();
        assert(!is_named(headers[0], name));
        assert forall|j: int| 0 <= j < i - 1 implies !is_named(#[trigger] rest[j], name) by {
            assert(rest[j] == headers[j + 1]);
        }
        law_first_header_counts(rest, name, i - 1);
    }
}

/// A header that is not there has no value.
pub proof fn law_absent_header_has_no_value(
    headers: Seq<detectors::HeaderField>,
    name: Seq<char>,
)
    requires
        forall|j: int| 0 <= j < headers.len() ==> !is_named(#[trigger] headers[j], name),
    ensures
        detectors::first_value(headers, name) is None,
    decreases headers.len(),
{
    if headers.len() > 0 {
        let rest = headers.drop_first();
        assert(!is_named(headers[0], name));
        assert forall|j: int| 0 <= j < rest.len() implies !is_named(#[trigger] rest[j], name) by {
            assert(rest[j] == headers[j + 1]);
        }
        law_absent_header_has_no_value(rest, name);
    }
}

/// The characters that bytes stand for, one by one.
pub open spec fn as_text(value: Seq<u8>) -> Seq<char> {
    value.map_values(|b: u8| b as char)
}

/// Bytes spell a word just when they are the same text in any case.
pub proof fn law_spelling(value: Seq<u8>, word: Seq<char>)
    ensures
        detectors::spells(value, word) <==> text::lower(as_text(value)) == text::lower(word),
{
    let (a, b) = (text::lower(as_text(value)), text::lower(word));
    if detectors::spells(value, word) {
        assert forall|i: int| 0 <= i < a.len() implies a[i] == b[i] by {
            assert(text::lower_char(value[i] as char) == text::lower_char(word[i]));
        }
        assert(a =~= b);
    }
    if a == b {
        assert(value.len() == a.len() && word.len() == b.len());
        assert forall|i: int|
            0 <= i < value.len() implies text::lower_char(#[trigger] value[i] as char)
            == text::lower_char(word[i]) by {
            assert(a[i] == b[i]);
        }
    }
}

/// A response counts as one from Cloudflare by a `server` header that is just
/// that word in any case, or by a `cf-ray` header, whatever else it holds.
pub proof fn law_cloudflare_by_headers(response: ChallengeResponse)
    ensures
        response.from_cloudflare() <==> ((detectors::first_value(
            response.headers@,
            "server"@,
        ) matches Some(value) && text::lower(as_text(value)) == text::lower("cloudflare"@))
            || detectors::first_value(response.headers@, "cf-ray"@) is Some),
{
    if let Some(value) = detectors::first_value(response.headers@, "server"@) {
        law_spelling(value, "cloudflare"@);
    }
}

/// A response from Cloudflare is a challenge with status 403, 429 or 503, and
/// with any other status just when its `cf-mitigated` header says so. No other
/// response is.
pub proof fn law_challenge_by_status_or_header(response: ChallengeResponse)
    ensures
        !response.from_cloudflare() ==> !response.is_challenge(),
        response.from_cloudflare() && (response.status == 403 || response.status == 429
            || response.status == 503) ==> response.is_challenge(),
        response.from_cloudflare() && response.status != 403 && response.status != 429
            && response.status != 503 ==> (response.is_challenge() <==> (detectors::first_value(
            response.headers@,
            "cf-mitigated"@,
        ) matches Some(value) && text::lower(as_text(value)) == text::lower("challenge"@))),
{
    if let Some(value) = detectors::first_value(response.headers@, "cf-mitigated"@) {
        law_spelling(value, "challenge"@);
    }
}

/// The domain of a response is its host in lower case.
pub proof fn law_domain_is_the_host(response: ChallengeResponse)
    ensures
        response.url.host() matches Some(host) ==> response.domain() == Some(
            detectors::lowercase(host),
        ),
        response.url.host() is None ==> response.domain() is None,
{
}

/// What a detection holds is what its fields hold, each of them.
pub proof fn law_detection_holds_its_fields(d: ChallengeDetection)
    ensures
        detectors::viewed(Some(d)) == Some(d@),
        detectors::viewed(None) is None,
        d@.pattern_id == d.pattern_id@,
        d@.pattern_name == d.pattern_name@,
        d@.challenge_type == d.challenge_type,
        d@.response_strategy == d.response_strategy,
        d@.confidence == d.confidence,
        d@.is_adaptive == d.is_adaptive,
        d@.status_code == d.status_code,
        d@.url == d.url@,
        d@.matched_indicators.len() == d.matched_indicators@.len(),
        forall|i: int|
            0 <= i < d.matched_indicators@.len() ==> #[trigger] d@.matched_indicators[i]
                == d.matched_indicators@[i]@,
{
}

/// What a history holds is what the fields of its records hold, one by one.
pub proof fn law_history_holds_its_records(list: Seq<DetectionLogEntry>, i: int)
    requires
        0 <= i < list.len(),
    ensures
        detectors::log_views(list).len() == list.len(),
        detectors::log_views(list)[i].timestamp == list[i].timestamp,
        detectors::log_views(list)[i].pattern_id == list[i].pattern_id@,
        detectors::log_views(list)[i].confidence == list[i].confidence,
        detectors::log_views(list)[i].url == list[i].url@,
{
}

/// A list of indicators is valid just when each part of it is, and a single one
/// just when it compiles.
pub proof fn law_validity_of_all(a: Seq<Seq<char>>, x: Seq<char>)
    ensures
        detectors::all_valid(Seq::empty()),
        detectors::all_valid(a.push(x)) == (detectors::all_valid(a)
            && pattern_search::regex_compiles(x, true, true, true)),
{
    let all = a.push(x);
    if detectors::all_valid(all) {
        assert forall|i: int| 0 <= i < a.len() implies pattern_search::valid_indicator(
            #[trigger] a[i],
        ) by {
            assert(all[i] == a[i]);
        }
        assert(pattern_search::valid_indicator(all[a.len() as int]));
    }
    if detectors::all_valid(a) && pattern_search::regex_compiles(x, true, true, true) {
        assert forall|i: int| 0 <= i < all.len() implies pattern_search::valid_indicator(
            #[trigger] all[i],
        ) by {
            if i < a.len() {
                assert(all[i] == a[i]);
            }
        }
    }
}

/// The views of a list of slices are those of its slices, one by one.
pub proof fn law_slices(list: Seq<&str>, i: int)
    ensures
        detectors::slices(list).len() == list.len(),
        0 <= i < list.len() ==> detectors::slices(list)[i] == list[i]@,
{
}

/// A new pattern is just what it was made of, and was not discovered at run time.
pub proof fn law_pattern_is_what_it_was_made_of(
    id: Seq<char>,
    name: Seq<char>,
    challenge_type: ChallengeType,
    response_strategy: ResponseStrategy,
    base_confidence: Float,
    indicators: Seq<Seq<char>>,
)
    ensures
        ({
            let p = PatternView::known(
                id,
                name,
                challenge_type,
                response_strategy,
                base_confidence,
                indicators,
            );
            &&& p.id == id
            &&& p.name == name
            &&& p.challenge_type == challenge_type
            &&& p.response_strategy == response_strategy
            &&& p.base_confidence == base_confidence
            &&& p.indicators == indicators
            &&& !p.adaptive
        }),
{
}

/// The order in which the built-in patterns are tried, which decides between
/// those that score the same.
pub proof fn law_known_patterns_in_order()
    ensures
        ({
            let all = detectors::known_patterns();
            &&& all.len() == 8
            &&& all[0].challenge_type == ChallengeType::JavaScriptV1
            &&& all[1].challenge_type == ChallengeType::JavaScriptV2
            &&& all[2].challenge_type == ChallengeType::ManagedV3
            &&& all[3].challenge_type == ChallengeType::ManagedInteractive
            &&& all[4].challenge_type == ChallengeType::Turnstile
            &&& all[5].challenge_type == ChallengeType::RateLimit
            &&& all[6].challenge_type == ChallengeType::AccessDenied
            &&& all[7].challenge_type == ChallengeType::BotManagement
        }),
{
}

/// The rate of any record with attempts is the quotient of its counts.
pub proof fn law_rate_is_the_quotient(s: PatternStats)
    requires
        s.attempts > 0,
    ensures
        s.rate() == Float::of_count(Format::Single, s.successes as nat).over(
            Format::Single,
            Float::of_count(Format::Single, s.attempts as nat),
        ),
{
}

} // verus!
