//! The results analyzer: a pure function from a session snapshot to final
//! statistics.
//!
//! All quantities are exact integers: times in milliseconds, rates in
//! hundredths of a word per minute, percentages in hundredths of a percent.
//! Every metric the executable code returns is pinned to a spec function
//! defined here over the snapshot's model.

use vstd::prelude::*;

use crate::math::{is_sqrt, lemma_cauchy_schwarz, spec_isqrt, sum, sum_sq};
use crate::response::{Level, Response};
use crate::results::{events_view, flat_events, is_zeroed_results, lemma_sort_events_ensures,
    sort_events_by_time, sorted_by_time, words_view, Event, EventV, FinalResults, GraphPoint, Key,
    KeyPresses, RawResults, Word, WordV};

verus! {

/// The limit on event counts, times and text sizes under which the analyzer's
/// exact 128-bit arithmetic cannot overflow.
pub open spec fn size_limit() -> nat {
    0xFFFF_FFFF
}

// ---------------------------------------------------------------------------
// Per-word replay: correctness tallies and the per-character error map.
// ---------------------------------------------------------------------------
/// Running state of the per-word replay.
#[verifier::ext_equal]
pub struct Tally {
    /// Position in the target's scalar values.
    pub cursor: int,
    pub correct: nat,
    pub incorrect: nat,
    /// Mistakes charged to each expected character.
    pub errs: Map<char, nat>,
}

/// The tally everything starts from.
pub open spec fn initial_tally() -> Tally {
    Tally { cursor: 0, correct: 0, incorrect: 0, errs: Map::empty() }
}

/// The count a character is charged with, zero when absent.
pub open spec fn count_of(m: Map<char, nat>, c: char) -> nat {
    if m.dom().contains(c) {
        m[c]
    } else {
        0
    }
}

/// Charge one more mistake to `c`.
pub open spec fn bump(m: Map<char, nat>, c: char) -> Map<char, nat> {
    m.insert(c, count_of(m, c) + 1)
}

/// Replay one event: a scored event advances the cursor and one tally; a
/// scored mistake on a literal key inside the target charges the expected
/// character; an unscored Backspace retreats the cursor, floored at zero.
pub open spec fn tally_event(text: Seq<char>, t: Tally, e: EventV) -> Tally {
    match e.correct {
        Some(true) => Tally { cursor: t.cursor + 1, correct: t.correct + 1, ..t },
        Some(false) => {
            let t2 = Tally { cursor: t.cursor + 1, incorrect: t.incorrect + 1, ..t };
            if e.key is Char && 0 <= t.cursor < text.len() {
                Tally { errs: bump(t2.errs, text[t.cursor]), ..t2 }
            } else {
                t2
            }
        },
        None => {
            if e.key is Backspace && t.cursor > 0 {
                Tally { cursor: t.cursor - 1, ..t }
            } else {
                t
            }
        },
    }
}

/// Replay a word's events in order.
pub open spec fn tally_events(text: Seq<char>, events: Seq<EventV>, t: Tally) -> Tally
    decreases events.len(),
{
    if events.len() == 0 {
        t
    } else {
        tally_event(text, tally_events(text, events.drop_last(), t), events.last())
    }
}

/// Replay every word, resetting the cursor at each word boundary.
pub open spec fn words_tally(words: Seq<WordV>, acc: Tally) -> Tally
    decreases words.len(),
{
    if words.len() == 0 {
        acc
    } else {
        let prev = words_tally(words.drop_last(), acc);
        tally_events(words.last().text, words.last().events, Tally { cursor: 0, ..prev })
    }
}

/// The whole session's replay tally.
pub open spec fn session_tally(words: Seq<WordV>) -> Tally {
    words_tally(words, initial_tally())
}

// ---------------------------------------------------------------------------
// Length reconciliation: extra and missed characters.
// ---------------------------------------------------------------------------
/// Characters typed beyond the word's target length.
pub open spec fn extra_of(w: WordV) -> nat {
    if w.progress.len() > w.text.len() {
        (w.progress.len() - w.text.len()) as nat
    } else {
        0
    }
}

/// Target characters never typed.
pub open spec fn missed_of(w: WordV) -> nat {
    if w.text.len() > w.progress.len() {
        (w.text.len() - w.progress.len()) as nat
    } else {
        0
    }
}

/// Extra characters over all words.
pub open spec fn total_extra(words: Seq<WordV>) -> nat
    decreases words.len(),
{
    if words.len() == 0 {
        0
    } else {
        total_extra(words.drop_last()) + extra_of(words.last())
    }
}

/// Missed characters over all words.
pub open spec fn total_missed(words: Seq<WordV>) -> nat
    decreases words.len(),
{
    if words.len() == 0 {
        0
    } else {
        total_missed(words.drop_last()) + missed_of(words.last())
    }
}

/// Scalar values held by all words, targets and progress together.
pub open spec fn total_chars(words: Seq<WordV>) -> nat
    decreases words.len(),
{
    if words.len() == 0 {
        0
    } else {
        total_chars(words.drop_last()) + words.last().text.len() + words.last().progress.len()
    }
}

/// Events held by all words together.
pub open spec fn total_events(words: Seq<WordV>) -> nat
    decreases words.len(),
{
    if words.len() == 0 {
        0
    } else {
        total_events(words.drop_last()) + words.last().events.len()
    }
}

// ---------------------------------------------------------------------------
// The scored time window.
// ---------------------------------------------------------------------------
/// The earliest time among scored events, if any.
pub open spec fn min_scored(events: Seq<EventV>) -> Option<u64>
    decreases events.len(),
{
    if events.len() == 0 {
        None
    } else {
        let rest = min_scored(events.drop_last());
        let e = events.last();
        if e.correct is Some {
            match rest {
                None => Some(e.time),
                Some(m) => Some(
                    if e.time < m {
                        e.time
                    } else {
                        m
                    },
                ),
            }
        } else {
            rest
        }
    }
}

/// The latest time among scored events, if any.
pub open spec fn max_scored(events: Seq<EventV>) -> Option<u64>
    decreases events.len(),
{
    if events.len() == 0 {
        None
    } else {
        let rest = max_scored(events.drop_last());
        let e = events.last();
        if e.correct is Some {
            match rest {
                None => Some(e.time),
                Some(m) => Some(
                    if e.time > m {
                        e.time
                    } else {
                        m
                    },
                ),
            }
        } else {
            rest
        }
    }
}

/// The start of the scored window (zero when nothing was scored).
pub open spec fn first_time(events: Seq<EventV>) -> u64 {
    match min_scored(events) {
        None => 0,
        Some(t) => t,
    }
}

/// The end of the scored window (zero when nothing was scored).
pub open spec fn last_time(events: Seq<EventV>) -> u64 {
    match max_scored(events) {
        None => 0,
        Some(t) => t,
    }
}

/// The scored window's length in milliseconds, never negative.
pub open spec fn spec_duration(events: Seq<EventV>) -> nat {
    if last_time(events) > first_time(events) {
        (last_time(events) - first_time(events)) as nat
    } else {
        0
    }
}

// ---------------------------------------------------------------------------
// Rates and percentages.
// ---------------------------------------------------------------------------
/// Hundredths of a word per minute: `chars` scalar values over `ms`
/// milliseconds, five characters to the word; zero over an empty window.
pub open spec fn centi_wpm(chars: nat, ms: nat) -> nat {
    if ms > 0 {
        chars * 1_200_000 / ms
    } else {
        0
    }
}

/// Hundredths of a percent of keypresses that were correct; zero when
/// nothing counts.
pub open spec fn centi_accuracy(correct: nat, incorrect: nat, extra: nat) -> nat {
    if correct + incorrect + extra > 0 {
        correct * 10000 / (correct + incorrect + extra)
    } else {
        0
    }
}

// ---------------------------------------------------------------------------
// The time series.
// ---------------------------------------------------------------------------
/// A time-series sample over the model: elapsed milliseconds, the two rates,
/// and the three running tallies.
pub type SampleV = (u64, nat, nat, nat, nat, nat);

/// Running state of the time-series replay.
#[verifier::ext_equal]
pub struct GraphAcc {
    pub correct: nat,
    pub typed: nat,
    pub incorrect: nat,
    pub extra: nat,
    pub missed: nat,
    /// The last whole second a sample was emitted for.
    pub last_secs: nat,
    pub samples: Seq<SampleV>,
}

/// The series starts with nothing counted and nothing emitted.
pub open spec fn graph_init() -> GraphAcc {
    GraphAcc { correct: 0, typed: 0, incorrect: 0, extra: 0, missed: 0, last_secs: 0, samples: Seq::empty() }
}

/// One event of the time series: scored events count, unscored literal keys
/// count as extra, and whenever the whole second strictly grows a sample with
/// the running rates is emitted — at most one per second.
pub open spec fn graph_event(first: u64, acc: GraphAcc, e: EventV) -> GraphAcc {
    let et: nat = if e.time > first {
        (e.time - first) as nat
    } else {
        0
    };
    match e.correct {
        Some(true) => graph_sample(
            GraphAcc { correct: acc.correct + 1, typed: acc.typed + 1, ..acc },
            et,
        ),
        Some(false) => graph_sample(
            GraphAcc { incorrect: acc.incorrect + 1, typed: acc.typed + 1, ..acc },
            et,
        ),
        None => {
            if e.key is Char {
                GraphAcc { extra: acc.extra + 1, typed: acc.typed + 1, ..acc }
            } else {
                acc
            }
        },
    }
}

/// Emit a sample when the elapsed whole second strictly exceeds the last
/// emitted one.
pub open spec fn graph_sample(acc: GraphAcc, et: nat) -> GraphAcc {
    if et / 1000 > acc.last_secs {
        GraphAcc {
            samples: acc.samples.push(
                (
                    et as u64,
                    centi_wpm(acc.correct, et),
                    centi_wpm(acc.typed, et),
                    acc.incorrect,
                    acc.extra,
                    acc.missed,
                ),
            ),
            last_secs: et / 1000,
            ..acc
        }
    } else {
        acc
    }
}

/// The time series of a whole event log.
pub open spec fn graph_fold(events: Seq<EventV>, first: u64) -> GraphAcc
    decreases events.len(),
{
    if events.len() == 0 {
        graph_init()
    } else {
        graph_event(first, graph_fold(events.drop_last(), first), events.last())
    }
}

/// Every emitted sample sits within the last emitted second, and samples
/// land on strictly increasing whole seconds.
proof fn lemma_graph_fold_sparse(events: Seq<EventV>, first: u64)
    ensures
        ({
            let acc = graph_fold(events, first);
            &&& forall|i: int|
                0 <= i < acc.samples.len() ==> (#[trigger] acc.samples[i]).0 / 1000
                    <= acc.last_secs
            &&& forall|i: int, j: int|
                0 <= i < j < acc.samples.len() ==> acc.samples[i].0 / 1000 < acc.samples[j].0
                    / 1000
        }),
    decreases events.len(),
{
    if events.len() > 0 {
        lemma_graph_fold_sparse(events.drop_last(), first);
        let prev = graph_fold(events.drop_last(), first);
        let acc = graph_fold(events, first);
        assert forall|i: int| 0 <= i < acc.samples.len() implies (#[trigger] acc.samples[i]).0
            / 1000 <= acc.last_secs by {
            if i < prev.samples.len() {
                assert(acc.samples[i] == prev.samples[i]);
            }
        }
        assert forall|i: int, j: int| 0 <= i < j < acc.samples.len() implies acc.samples[i].0
            / 1000 < acc.samples[j].0 / 1000 by {
            if j < prev.samples.len() {
                assert(acc.samples[i] == prev.samples[i]);
                assert(acc.samples[j] == prev.samples[j]);
            } else if acc.samples.len() > prev.samples.len() {
                assert(acc.samples[i] == prev.samples[i]);
                assert(acc.samples[i].0 / 1000 <= prev.last_secs);
            }
        }
    }
}

/// The time series is sparse: every two samples fall on different whole
/// seconds, so at most one sample is emitted per second.
pub proof fn lemma_graph_one_sample_per_second(events: Seq<EventV>, first: u64)
    ensures
        forall|i: int, j: int|
            0 <= i < j < graph_fold(events, first).samples.len() ==> graph_fold(
                events,
                first,
            ).samples[i].0 / 1000 < graph_fold(events, first).samples[j].0 / 1000,
{
    lemma_graph_fold_sparse(events, first);
}

/// Whether the returned points carry exactly the model's samples.
pub open spec fn graph_matches(list: Seq<GraphPoint>, samples: Seq<SampleV>) -> bool {
    &&& list.len() == samples.len()
    &&& forall|i: int|
        0 <= i < list.len() ==> {
            &&& (#[trigger] list[i]).0 == samples[i].0
            &&& list[i].1 as nat == samples[i].1
            &&& list[i].2 as nat == samples[i].2
            &&& list[i].3 as nat == samples[i].3
            &&& list[i].4 as nat == samples[i].4
            &&& list[i].5 as nat == samples[i].5
        }
}

// ---------------------------------------------------------------------------
// Consistency.
// ---------------------------------------------------------------------------
/// The times of the scored events, in log order.
pub open spec fn scored_times(events: Seq<EventV>) -> Seq<u64>
    decreases events.len(),
{
    if events.len() == 0 {
        Seq::empty()
    } else {
        let rest = scored_times(events.drop_last());
        if events.last().correct is Some {
            rest.push(events.last().time)
        } else {
            rest
        }
    }
}

/// A time-ordered log scores in time order too, so each consistency gap
/// below is a plain forward difference; `abs_diff` only keeps the spec
/// total.
pub proof fn lemma_scored_times_sorted(events: Seq<EventV>)
    requires
        sorted_by_time(events),
    ensures
        forall|i: int, j: int|
            0 <= i < j < scored_times(events).len() ==> (#[trigger] scored_times(events)[i])
                <= (#[trigger] scored_times(events)[j]),
    decreases events.len(),
{
    if events.len() > 0 {
        let t = events.drop_last();
        assert(sorted_by_time(t));
        lemma_scored_times_sorted(t);
        lemma_scored_times_in_log(t);
        if events.last().correct is Some {
            let st = scored_times(events);
            assert forall|i: int, j: int|
                0 <= i < j < st.len() implies (#[trigger] st[i]) <= (#[trigger] st[j]) by {
                if j == st.len() - 1 {
                    if i < scored_times(t).len() {
                        let k = choose|k: int|
                            0 <= k < t.len() && t[k].time == scored_times(t)[i];
                        assert(events[k].time <= events.last().time);
                    }
                }
            }
        }
    }
}

/// Every scored time is the time of some event of the log.
proof fn lemma_scored_times_in_log(events: Seq<EventV>)
    ensures
        forall|i: int|
            0 <= i < scored_times(events).len() ==> exists|k: int|
                0 <= k < events.len() && (#[trigger] events[k]).time == #[trigger] scored_times(
                    events,
                )[i],
    decreases events.len(),
{
    if events.len() > 0 {
        let t = events.drop_last();
        lemma_scored_times_in_log(t);
        assert forall|i: int| 0 <= i < scored_times(events).len() implies exists|k: int|
            0 <= k < events.len() && (#[trigger] events[k]).time == #[trigger] scored_times(
            events,
        )[i] by {
            if i < scored_times(t).len() {
                let k = choose|k: int| 0 <= k < t.len() && (#[trigger] t[k]).time == scored_times(
                    t,
                )[i];
                assert(events[k].time == scored_times(events)[i]);
            } else {
                assert(events[events.len() - 1].time == scored_times(events)[i]);
            }
        }
    }
}

/// The distance between two times.
pub open spec fn abs_diff(a: u64, b: u64) -> u64 {
    if a >= b {
        (a - b) as u64
    } else {
        (b - a) as u64
    }
}

/// The gaps between consecutive times.
pub open spec fn deltas_of(times: Seq<u64>) -> Seq<u64> {
    if times.len() <= 1 {
        Seq::empty()
    } else {
        Seq::new((times.len() - 1) as nat, |k: int| abs_diff(times[k + 1], times[k]))
    }
}

/// `len^2` times the population variance of the gaps — exact, with no
/// division. Nonnegative by `lemma_cauchy_schwarz`.
pub open spec fn var_num(ds: Seq<u64>) -> int {
    ds.len() * sum_sq(ds) - sum(ds) * sum(ds)
}

/// The consistency score in hundredths of a percent: 100% for perfectly even
/// gaps, falling to 0% once their standard deviation reaches one second; zero
/// outright when there are no gaps to judge.
pub open spec fn consistency_of(ds: Seq<u64>) -> nat {
    if ds.len() == 0 {
        0
    } else {
        let std_ms = spec_isqrt(var_num(ds) as nat) / ds.len();
        if std_ms >= 1000 {
            0
        } else {
            ((1000 - std_ms) * 10) as nat
        }
    }
}

/// The consistency of a whole event log.
pub open spec fn spec_consistency(events: Seq<EventV>) -> nat {
    consistency_of(deltas_of(scored_times(events)))
}

/// Sums of a constant sequence.
pub proof fn lemma_sum_even(ds: Seq<u64>, d: u64)
    requires
        forall|i: int| 0 <= i < ds.len() ==> (#[trigger] ds[i]) == d,
    ensures
        sum(ds) == ds.len() * d,
        sum_sq(ds) == ds.len() * (d * d),
    decreases ds.len(),
{
    if ds.len() == 0 {
        assert(ds.len() * d == 0) by (nonlinear_arith)
            requires
                ds.len() == 0,
        {
        }
        assert(ds.len() * (d * d) == 0) by (nonlinear_arith)
            requires
                ds.len() == 0,
        {
        }
    } else {
        let t = ds.drop_last();
        lemma_sum_even(t, d);
        assert(ds.last() == d);
        assert(sum(ds) == ds.len() * d) by (nonlinear_arith)
            requires
                sum(ds) == sum(t) + d,
                sum(t) == t.len() * d,
                ds.len() == t.len() + 1,
        {
        }
        assert(sum_sq(ds) == ds.len() * (d * d)) by (nonlinear_arith)
            requires
                sum_sq(ds) == sum_sq(t) + d * d,
                sum_sq(t) == t.len() * (d * d),
                ds.len() == t.len() + 1,
        {
        }
    }
}

/// Perfectly even gaps — a standard deviation of zero — give a consistency
/// of exactly 100%.
pub proof fn lemma_consistency_even(ds: Seq<u64>)
    requires
        ds.len() > 0,
        forall|i: int| 0 <= i < ds.len() ==> (#[trigger] ds[i]) == ds[0],
    ensures
        consistency_of(ds) == 10000,
{
    let d = ds[0];
    lemma_sum_even(ds, d);
    assert(var_num(ds) == 0) by (nonlinear_arith)
        requires
            sum(ds) == ds.len() * d,
            sum_sq(ds) == ds.len() * (d * d),
            var_num(ds) == ds.len() * sum_sq(ds) - sum(ds) * sum(ds),
    {
    }
    assert(is_sqrt(0, 0)) by (nonlinear_arith);
    crate::math::lemma_sqrt_is_spec(0, 0);
}

/// With the same number of gaps, consistency never rises as the variance
/// grows.
pub proof fn lemma_consistency_monotone(d1: Seq<u64>, d2: Seq<u64>)
    requires
        d1.len() == d2.len(),
        d1.len() > 0,
        var_num(d1) <= var_num(d2),
    ensures
        consistency_of(d1) >= consistency_of(d2),
{
    lemma_cauchy_schwarz(d1);
    lemma_cauchy_schwarz(d2);
    let v1 = var_num(d1) as nat;
    let v2 = var_num(d2) as nat;
    let r1 = spec_isqrt(v1);
    let r2 = spec_isqrt(v2);
    crate::math::lemma_sqrt_exists(v1);
    crate::math::lemma_sqrt_exists(v2);
    crate::math::lemma_sqrt_monotone(r1, v1, r2, v2);
    assert(r1 / d1.len() <= r2 / d2.len()) by (nonlinear_arith)
        requires
            r1 <= r2,
            d1.len() == d2.len(),
            d1.len() > 0,
    {
    }
}

/// Once the gaps' standard deviation reaches a full second, the score is 0%.
pub proof fn lemma_consistency_floor(ds: Seq<u64>)
    requires
        ds.len() > 0,
        spec_isqrt(var_num(ds) as nat) / ds.len() >= 1000,
    ensures
        consistency_of(ds) == 0,
{
}

// ---------------------------------------------------------------------------
// The error report.
// ---------------------------------------------------------------------------
/// Whether the list carries exactly the error map: distinct keys, each with
/// its charged count, and every charged character present.
pub open spec fn map_matches(list: Seq<(char, usize)>, m: Map<char, nat>) -> bool {
    &&& forall|i: int, j: int| 0 <= i < j < list.len() ==> list[i].0 != list[j].0
    &&& forall|i: int|
        0 <= i < list.len() ==> m.dom().contains((#[trigger] list[i]).0) && m[list[i].0]
            == list[i].1 as nat
    &&& forall|c: char| m.dom().contains(c) ==> exists|i: int|
            0 <= i < list.len() && (#[trigger] list[i]).0 == c
}

/// [`map_matches`], with the counts in descending order.
pub open spec fn errors_match(list: Seq<(char, usize)>, m: Map<char, nat>) -> bool {
    &&& map_matches(list, m)
    &&& forall|i: int, j: int| 0 <= i < j < list.len() ==> list[i].1 >= list[j].1
}

// ---------------------------------------------------------------------------
// Bounds that keep the executable arithmetic exact.
// ---------------------------------------------------------------------------
/// No character is charged more mistakes than there are mistakes.
pub open spec fn errs_ok(t: Tally) -> bool {
    forall|c: char| count_of(t.errs, c) <= t.incorrect
}

/// One replayed event moves each tally by at most one and keeps the cursor
/// and the error counts in bounds.
pub proof fn lemma_tally_event_bounds(text: Seq<char>, t: Tally, e: EventV)
    requires
        t.cursor >= 0,
        errs_ok(t),
    ensures
        ({
            let r = tally_event(text, t, e);
            &&& r.cursor >= 0
            &&& r.correct + r.incorrect <= t.correct + t.incorrect + 1
            &&& r.correct >= t.correct
            &&& r.incorrect >= t.incorrect
            &&& errs_ok(r)
        }),
{
    let r = tally_event(text, t, e);
    if e.correct == Some(false) && e.key is Char && 0 <= t.cursor < text.len() {
        assert forall|c: char| count_of(r.errs, c) <= r.incorrect by {
            assert(count_of(t.errs, c) <= t.incorrect);
        }
    }
}

/// A word's replay moves the tallies by at most its event count.
pub proof fn lemma_tally_events_bounds(text: Seq<char>, events: Seq<EventV>, t: Tally)
    requires
        t.cursor >= 0,
        errs_ok(t),
    ensures
        ({
            let r = tally_events(text, events, t);
            &&& r.cursor >= 0
            &&& r.correct + r.incorrect <= t.correct + t.incorrect + events.len()
            &&& r.correct >= t.correct
            &&& r.incorrect >= t.incorrect
            &&& errs_ok(r)
        }),
    decreases events.len(),
{
    if events.len() > 0 {
        lemma_tally_events_bounds(text, events.drop_last(), t);
        lemma_tally_event_bounds(text, tally_events(text, events.drop_last(), t), events.last());
    }
}

/// The whole replay's tallies stay within the total event count.
pub proof fn lemma_words_tally_bounds(words: Seq<WordV>, acc: Tally)
    requires
        errs_ok(acc),
    ensures
        ({
            let r = words_tally(words, acc);
            &&& r.correct + r.incorrect <= acc.correct + acc.incorrect + total_events(words)
            &&& r.correct >= acc.correct
            &&& r.incorrect >= acc.incorrect
            &&& errs_ok(r)
        }),
    decreases words.len(),
{
    if words.len() > 0 {
        lemma_words_tally_bounds(words.drop_last(), acc);
        let prev = words_tally(words.drop_last(), acc);
        lemma_tally_events_bounds(
            words.last().text,
            words.last().events,
            Tally { cursor: 0, ..prev },
        );
    }
}

/// A prefix holds no more events than the whole.
pub proof fn lemma_total_events_prefix(words: Seq<WordV>, k: int)
    requires
        0 <= k <= words.len(),
    ensures
        total_events(words.take(k)) <= total_events(words),
    decreases words.len(),
{
    if k == words.len() {
        assert(words.take(k) =~= words);
    } else {
        assert(words.drop_last().take(k) =~= words.take(k));
        lemma_total_events_prefix(words.drop_last(), k);
    }
}

/// A prefix holds no more characters than the whole.
pub proof fn lemma_total_chars_prefix(words: Seq<WordV>, k: int)
    requires
        0 <= k <= words.len(),
    ensures
        total_chars(words.take(k)) <= total_chars(words),
    decreases words.len(),
{
    if k == words.len() {
        assert(words.take(k) =~= words);
    } else {
        assert(words.drop_last().take(k) =~= words.take(k));
        lemma_total_chars_prefix(words.drop_last(), k);
    }
}

/// Extra and missed characters together never exceed the characters held.
pub proof fn lemma_extra_missed_bound(words: Seq<WordV>)
    ensures
        total_extra(words) + total_missed(words) <= total_chars(words),
    decreases words.len(),
{
    if words.len() > 0 {
        lemma_extra_missed_bound(words.drop_last());
    }
}

/// The flat log holds exactly the words' events.
pub proof fn lemma_flat_events_len(words: Seq<WordV>)
    ensures
        flat_events(words).len() == total_events(words),
    decreases words.len(),
{
    if words.len() > 0 {
        crate::test::lemma_flat_events_push(words);
        lemma_flat_events_len(words.drop_last());
    }
}

/// Bounded values give bounded sums of values and of squares.
pub proof fn lemma_sum_bounds(s: Seq<u64>, m: u64)
    requires
        forall|k: int| 0 <= k < s.len() ==> (#[trigger] s[k]) <= m,
    ensures
        sum(s) <= s.len() * m,
        sum_sq(s) <= s.len() * (m * m),
    decreases s.len(),
{
    if s.len() == 0 {
        assert(s.len() * m == 0) by (nonlinear_arith)
            requires
                s.len() == 0,
        {
        }
        assert(s.len() * (m * m) == 0) by (nonlinear_arith)
            requires
                s.len() == 0,
        {
        }
    } else {
        let t = s.drop_last();
        assert(forall|k: int| 0 <= k < t.len() ==> (#[trigger] t[k]) <= m);
        lemma_sum_bounds(t, m);
        let d = s.last();
        assert(d * d <= m * m) by (nonlinear_arith)
            requires
                0 <= d <= m,
        {
        }
        assert(sum(s) <= s.len() * m) by (nonlinear_arith)
            requires
                sum(t) <= t.len() * m,
                sum(s) == sum(t) + d,
                d <= m,
                s.len() == t.len() + 1,
        {
        }
        assert(sum_sq(s) <= s.len() * (m * m)) by (nonlinear_arith)
            requires
                sum_sq(t) <= t.len() * (m * m),
                sum_sq(s) == sum_sq(t) + d * d,
                d * d <= m * m,
                s.len() == t.len() + 1,
        {
        }
    }
}

// ---------------------------------------------------------------------------
// The snapshot the analyzer accepts.
// ---------------------------------------------------------------------------
/// A coherent, bounded snapshot: the flat log is the words' events in time
/// order (the stable sort [`RawResults::from_test`] produces), and the
/// counts and times are small enough for the analyzer's exact 128-bit
/// arithmetic.
pub open spec fn results_wf(raw: RawResults) -> bool {
    &&& events_view(raw.events@) == sort_events_by_time(flat_events(words_view(raw.words@)))
    &&& raw.events@.len() <= size_limit()
    &&& forall|k: int| 0 <= k < raw.events@.len() ==> (#[trigger] raw.events@[k]).time
        <= size_limit()
    &&& total_chars(words_view(raw.words@)) <= size_limit()
}

// ---------------------------------------------------------------------------
// The error list.
// ---------------------------------------------------------------------------
/// Charge one more mistake to `c` in the list.
fn bump_err(errs: &mut Vec<(char, usize)>, c: char, Ghost(m): Ghost<Map<char, nat>>)
    requires
        map_matches(old(errs)@, m),
        count_of(m, c) < usize::MAX,
    ensures
        map_matches(final(errs)@, bump(m, c)),
{
    let mut k: usize = 0;
    while k < errs.len()
        invariant
            k <= errs@.len(),
            map_matches(errs@, m),
            count_of(m, c) < usize::MAX,
            forall|i: int| 0 <= i < k ==> (#[trigger] errs@[i]).0 != c,
        decreases errs@.len() - k,
    {
        if errs[k].0 == c {
            let cnt = errs[k].1;
            let ghost pre = errs@;
            errs[k] = (c, cnt + 1);
            proof {
                assert forall|i: int|
                    0 <= i < errs@.len() implies bump(m, c).dom().contains(
                    (#[trigger] errs@[i]).0,
                ) && bump(m, c)[errs@[i].0] == errs@[i].1 as nat by {
                    if i != k {
                        assert(errs@[i] == pre[i]);
                        assert(pre[i].0 != c);
                    }
                }
                assert forall|ch: char| bump(m, c).dom().contains(ch) implies exists|i: int|
                    0 <= i < errs@.len() && (#[trigger] errs@[i]).0 == ch by {
                    if ch == c {
                        assert(errs@[k as int].0 == ch);
                    } else {
                        let i0 = choose|i: int| 0 <= i < pre.len() && (#[trigger] pre[i]).0 == ch;
                        assert(errs@[i0].0 == ch);
                    }
                }
            }
            return;
        }
        k = k + 1;
    }
    let ghost pre = errs@;
    errs.push((c, 1));
    proof {
        assert(!m.dom().contains(c));
        assert forall|ch: char| bump(m, c).dom().contains(ch) implies exists|i: int|
            0 <= i < errs@.len() && (#[trigger] errs@[i]).0 == ch by {
            if ch == c {
                assert(errs@[pre.len() as int].0 == ch);
            } else {
                let i0 = choose|i: int| 0 <= i < pre.len() && (#[trigger] pre[i]).0 == ch;
                assert(errs@[i0].0 == ch);
            }
        }
    }
}

/// The error list ordered by count, most frequent first.
fn sort_errors(errs: Vec<(char, usize)>, Ghost(m): Ghost<Map<char, nat>>) -> (r: Vec<
    (char, usize),
>)
    requires
        map_matches(errs@, m),
    ensures
        errors_match(r@, m),
{
    let mut rest = errs;
    let mut out: Vec<(char, usize)> = Vec::new();
    proof {
        assert(out@ + rest@ =~= rest@);
    }
    while rest.len() > 0
        invariant
            map_matches(out@ + rest@, m),
            forall|i: int, j: int| 0 <= i < j < out@.len() ==> out@[i].1 >= out@[j].1,
            forall|i: int, j: int|
                0 <= i < out@.len() && 0 <= j < rest@.len() ==> (#[trigger] out@[i]).1
                    >= (#[trigger] rest@[j]).1,
        decreases rest@.len(),
    {
        let mut best: usize = 0;
        let mut k: usize = 1;
        while k < rest.len()
            invariant
                rest@.len() > 0,
                best < k <= rest@.len(),
                forall|j: int| 0 <= j < k ==> (#[trigger] rest@[j]).1 <= rest@[best as int].1,
            decreases rest@.len() - k,
        {
            if rest[k].1 > rest[best].1 {
                best = k;
            }
            k = k + 1;
        }
        let ghost old_out = out@;
        let ghost old_rest = rest@;
        let ghost b = best as int;
        let ghost ol = out@.len() as int;
        let item = rest.remove(best);
        out.push(item);
        proof {
            let cat = old_out + old_rest;
            let cat2 = out@ + rest@;
            assert(cat2.len() == cat.len());
            let sigma = |i: int|
                if i < ol {
                    i
                } else if i == ol {
                    ol + b
                } else if i - ol - 1 < b {
                    i - 1
                } else {
                    i
                };
            assert forall|i: int| 0 <= i < cat2.len() implies 0 <= sigma(i) < cat.len() && cat2[i]
                == cat[sigma(i)] by {
                if i < ol {
                } else if i == ol {
                    assert(cat2[i] == old_rest[b]);
                    assert(cat[ol + b] == old_rest[b]);
                } else if i - ol - 1 < b {
                    assert(cat2[i] == rest@[i - ol - 1]);
                    assert(rest@[i - ol - 1] == old_rest[i - ol - 1]);
                    assert(cat[i - 1] == old_rest[i - ol - 1]);
                } else {
                    assert(cat2[i] == rest@[i - ol - 1]);
                    assert(rest@[i - ol - 1] == old_rest[i - ol]);
                    assert(cat[i] == old_rest[i - ol]);
                }
            }
            assert forall|i: int, j: int| 0 <= i < j < cat2.len() implies cat2[i].0 != cat2[j].0 by {
                assert(cat2[i] == cat[sigma(i)]);
                assert(cat2[j] == cat[sigma(j)]);
                assert(sigma(i) != sigma(j));
                if sigma(i) < sigma(j) {
                    assert(cat[sigma(i)].0 != cat[sigma(j)].0);
                } else {
                    assert(cat[sigma(j)].0 != cat[sigma(i)].0);
                }
            }
            assert forall|ch: char| m.dom().contains(ch) implies exists|i: int|
                0 <= i < cat2.len() && (#[trigger] cat2[i]).0 == ch by {
                let i0 = choose|i: int| 0 <= i < cat.len() && (#[trigger] cat[i]).0 == ch;
                let i2 = if i0 < ol {
                    i0
                } else if i0 == ol + b {
                    ol
                } else if i0 < ol + b {
                    i0 + 1
                } else {
                    i0
                };
                assert(cat2[i2] == cat[sigma(i2)]);
                assert(sigma(i2) == i0);
                assert(cat2[i2].0 == ch);
            }
            assert(map_matches(cat2, m));
        }
    }
    proof {
        assert(out@ + rest@ =~= out@);
    }
    out
}

// ---------------------------------------------------------------------------
// The per-word replay, executable.
// ---------------------------------------------------------------------------
/// Replay every word's events: correctness tallies, the error list, and the
/// length reconciliation (extra and missed characters).
fn replay_words(words: &Vec<Word>) -> (out: (usize, usize, usize, usize, Vec<(char, usize)>))
    requires
        total_events(words_view(words@)) <= size_limit(),
        total_chars(words_view(words@)) <= size_limit(),
    ensures
        ({
            let t = session_tally(words_view(words@));
            &&& out.0 == t.correct
            &&& out.1 == t.incorrect
            &&& out.2 == total_extra(words_view(words@))
            &&& out.3 == total_missed(words_view(words@))
            &&& map_matches(out.4@, t.errs)
        }),
{
    let ghost wv = words_view(words@);
    let mut correct: usize = 0;
    let mut incorrect: usize = 0;
    let mut extra: usize = 0;
    let mut missed: usize = 0;
    let mut errs: Vec<(char, usize)> = Vec::new();
    let mut wi: usize = 0;
    proof {
        assert(wv.take(0) =~= Seq::<WordV>::empty());
    }
    while wi < words.len()
        invariant
            wi <= words@.len(),
            wv == words_view(words@),
            total_events(wv) <= size_limit(),
            total_chars(wv) <= size_limit(),
            ({
                let t = words_tally(wv.take(wi as int), initial_tally());
                &&& correct == t.correct
                &&& incorrect == t.incorrect
                &&& map_matches(errs@, t.errs)
            }),
            extra == total_extra(wv.take(wi as int)),
            missed == total_missed(wv.take(wi as int)),
        decreases words@.len() - wi,
    {
        let ghost prev = words_tally(wv.take(wi as int), initial_tally());
        let ghost start = Tally { cursor: 0, ..prev };
        let ghost wview = wv[wi as int];
        proof {
            lemma_words_tally_bounds(wv.take(wi as int), initial_tally());
            lemma_total_events_prefix(wv, wi as int);
            assert(wview == words@[wi as int]@);
            assert(wview.events.take(0) =~= Seq::<EventV>::empty());
            assert(wv.take(wi + 1).drop_last() =~= wv.take(wi as int));
            assert(wv.take(wi + 1).last() == wview);
            assert(total_events(wv.take(wi + 1)) == total_events(wv.take(wi as int))
                + wview.events.len());
            lemma_total_events_prefix(wv, wi + 1);
        }
        let w = &words[wi];
        let mut cursor: usize = 0;
        let mut j: usize = 0;
        while j < w.events.len()
            invariant
                j <= w.events@.len(),
                w@ == wview,
                wview.events.len() == w.events@.len(),
                wview.text.len() == w.text@.len(),
                prev == words_tally(wv.take(wi as int), initial_tally()),
                start == (Tally { cursor: 0, ..prev }),
                errs_ok(prev),
                prev.correct + prev.incorrect <= total_events(wv.take(wi as int)),
                total_events(wv.take(wi as int)) + wview.events.len() <= size_limit(),
                ({
                    let t = tally_events(wview.text, wview.events.take(j as int), start);
                    &&& cursor == t.cursor
                    &&& correct == t.correct
                    &&& incorrect == t.incorrect
                    &&& map_matches(errs@, t.errs)
                }),
                cursor <= j,
            decreases w.events@.len() - j,
        {
            let ghost t_prev = tally_events(wview.text, wview.events.take(j as int), start);
            let ghost ev = wview.events[j as int];
            proof {
                lemma_tally_events_bounds(wview.text, wview.events.take(j as int), start);
                assert(events_view(w.events@)[j as int] == ev);
                assert(w.events@[j as int]@ == ev);
                assert(wview.events.take(j + 1).drop_last() =~= wview.events.take(j as int));
                assert(wview.events.take(j + 1).last() == ev);
            }
            let e = &w.events[j];
            match e.correct {
                Some(true) => {
                    cursor = cursor + 1;
                    correct = correct + 1;
                }
                Some(false) => {
                    let is_char = matches!(e.key, Key::Char(_));
                    if is_char && cursor < w.text.len() {
                        let expected = w.text[cursor];
                        proof {
                            assert(wview.text[t_prev.cursor] == expected);
                            assert(count_of(t_prev.errs, expected) <= t_prev.incorrect);
                        }
                        cursor = cursor + 1;
                        incorrect = incorrect + 1;
                        bump_err(&mut errs, expected, Ghost(t_prev.errs));
                    } else {
                        cursor = cursor + 1;
                        incorrect = incorrect + 1;
                    }
                }
                None => {
                    if matches!(e.key, Key::Backspace) && cursor > 0 {
                        cursor = cursor - 1;
                    }
                }
            }
            j = j + 1;
            proof {
                let t_new = tally_events(wview.text, wview.events.take(j as int), start);
                assert(t_new == tally_event(wview.text, t_prev, ev));
                assert(cursor == t_new.cursor && correct == t_new.correct && incorrect
                    == t_new.incorrect);
                assert(map_matches(errs@, t_new.errs));
            }
        }
        proof {
            assert(wview.events.take(w.events@.len() as int) =~= wview.events);
            assert(words_tally(wv.take(wi + 1), initial_tally()) == tally_events(
                wview.text,
                wview.events,
                start,
            ));
            lemma_extra_missed_bound(wv.take(wi + 1));
            lemma_total_chars_prefix(wv, wi + 1);
            assert(total_extra(wv.take(wi + 1)) == total_extra(wv.take(wi as int)) + extra_of(
                wview,
            ));
            assert(total_missed(wv.take(wi + 1)) == total_missed(wv.take(wi as int)) + missed_of(
                wview,
            ));
        }
        if w.progress.len() > w.text.len() {
            extra = extra + (w.progress.len() - w.text.len());
        }
        if w.text.len() > w.progress.len() {
            missed = missed + (w.text.len() - w.progress.len());
        }
        wi = wi + 1;
    }
    proof {
        assert(wv.take(words@.len() as int) =~= wv);
    }
    (correct, incorrect, extra, missed, errs)
}

// ---------------------------------------------------------------------------
// The scored window, executable.
// ---------------------------------------------------------------------------
/// The earliest and latest scored times, both zero when nothing was scored.
fn scored_window(events: &Vec<Event>) -> (out: (u64, u64))
    ensures
        out.0 == first_time(events_view(events@)),
        out.1 == last_time(events_view(events@)),
{
    let ghost ev = events_view(events@);
    let mut found: bool = false;
    let mut lo: u64 = 0;
    let mut hi: u64 = 0;
    let mut i: usize = 0;
    proof {
        assert(ev.take(0) =~= Seq::<EventV>::empty());
    }
    while i < events.len()
        invariant
            i <= events@.len(),
            ev == events_view(events@),
            found == (min_scored(ev.take(i as int)) is Some),
            found ==> min_scored(ev.take(i as int)) == Some(lo) && max_scored(ev.take(i as int))
                == Some(hi),
            !found ==> lo == 0 && hi == 0 && max_scored(ev.take(i as int)) is None,
        decreases events@.len() - i,
    {
        proof {
            assert(ev.take(i + 1).drop_last() =~= ev.take(i as int));
            assert(ev.take(i + 1).last() == ev[i as int]);
            assert(events_view(events@)[i as int] == events@[i as int]@);
        }
        let e = &events[i];
        if e.correct.is_some() {
            let t = e.time;
            if !found {
                found = true;
                lo = t;
                hi = t;
            } else {
                if t < lo {
                    lo = t;
                }
                if t > hi {
                    hi = t;
                }
            }
        }
        i = i + 1;
    }
    proof {
        assert(ev.take(events@.len() as int) =~= ev);
    }
    (lo, hi)
}

// ---------------------------------------------------------------------------
// Rates, executable.
// ---------------------------------------------------------------------------
/// Hundredths of a word per minute, zero over an empty window.
fn rate_centi(chars: u64, ms: u64) -> (r: u64)
    requires
        chars <= 2 * size_limit(),
    ensures
        r as nat == centi_wpm(chars as nat, ms as nat),
{
    if ms > 0 {
        (chars * 1_200_000) / ms
    } else {
        0
    }
}

// ---------------------------------------------------------------------------
// The time series, executable.
// ---------------------------------------------------------------------------
/// Replay the whole log chronologically and emit at most one sample per
/// whole elapsed second.
fn graph_series(events: &Vec<Event>, first: u64) -> (out: Vec<GraphPoint>)
    requires
        events@.len() <= size_limit(),
    ensures
        graph_matches(out@, graph_fold(events_view(events@), first).samples),
{
    let ghost ev = events_view(events@);
    let mut gc: usize = 0;
    let mut gt: usize = 0;
    let mut ginc: usize = 0;
    let mut gex: usize = 0;
    let gmiss: usize = 0;
    let mut last_secs: u64 = 0;
    let mut out: Vec<GraphPoint> = Vec::new();
    let mut i: usize = 0;
    proof {
        assert(ev.take(0) =~= Seq::<EventV>::empty());
        assert(graph_fold(ev.take(0), first) == graph_init());
    }
    while i < events.len()
        invariant
            i <= events@.len(),
            events@.len() <= size_limit(),
            ev == events_view(events@),
            ({
                let acc = graph_fold(ev.take(i as int), first);
                &&& gc == acc.correct
                &&& gt == acc.typed
                &&& ginc == acc.incorrect
                &&& gex == acc.extra
                &&& gmiss == acc.missed
                &&& last_secs == acc.last_secs
                &&& graph_matches(out@, acc.samples)
            }),
            gc <= gt && ginc <= gt && gex <= gt && gt <= i,
        decreases events@.len() - i,
    {
        let ghost acc_prev = graph_fold(ev.take(i as int), first);
        proof {
            assert(ev.take(i + 1).drop_last() =~= ev.take(i as int));
            assert(ev.take(i + 1).last() == ev[i as int]);
            assert(events_view(events@)[i as int] == events@[i as int]@);
        }
        let e = &events[i];
        let et: u64 = if e.time > first {
            e.time - first
        } else {
            0
        };
        let mut scored: bool = false;
        match e.correct {
            Some(true) => {
                gc = gc + 1;
                gt = gt + 1;
                scored = true;
            }
            Some(false) => {
                ginc = ginc + 1;
                gt = gt + 1;
                scored = true;
            }
            None => {
                if matches!(e.key, Key::Char(_)) {
                    gex = gex + 1;
                    gt = gt + 1;
                }
            }
        }
        if scored && et / 1000 > last_secs {
            let wpm = rate_centi(gc as u64, et);
            let raw_wpm = rate_centi(gt as u64, et);
            let ghost samples_prev = out@;
            out.push((et, wpm, raw_wpm, ginc, gex, gmiss));
            last_secs = et / 1000;
        }
        i = i + 1;
        proof {
            let acc_new = graph_fold(ev.take(i as int), first);
            assert(acc_new == graph_event(first, acc_prev, ev[i - 1]));
            assert(gc == acc_new.correct && gt == acc_new.typed && ginc == acc_new.incorrect
                && gex == acc_new.extra && last_secs == acc_new.last_secs);
            assert(graph_matches(out@, acc_new.samples));
        }
    }
    proof {
        assert(ev.take(events@.len() as int) =~= ev);
    }
    out
}

// ---------------------------------------------------------------------------
// Consistency, executable.
// ---------------------------------------------------------------------------
/// The consistency score of the log's scored keystroke gaps.
fn compute_consistency(events: &Vec<Event>) -> (out: u64)
    requires
        events@.len() <= size_limit(),
        forall|k: int| 0 <= k < events@.len() ==> (#[trigger] events@[k]).time <= size_limit(),
    ensures
        out as nat == spec_consistency(events_view(events@)),
{
    let ghost ev = events_view(events@);
    let mut times: Vec<u64> = Vec::new();
    let mut i: usize = 0;
    proof {
        assert(ev.take(0) =~= Seq::<EventV>::empty());
    }
    while i < events.len()
        invariant
            i <= events@.len(),
            ev == events_view(events@),
            times@ == scored_times(ev.take(i as int)),
            times@.len() <= i,
            forall|k: int| 0 <= k < events@.len() ==> (#[trigger] events@[k]).time <= size_limit(),
            forall|k: int| 0 <= k < times@.len() ==> (#[trigger] times@[k]) <= size_limit(),
        decreases events@.len() - i,
    {
        proof {
            assert(ev.take(i + 1).drop_last() =~= ev.take(i as int));
            assert(ev.take(i + 1).last() == ev[i as int]);
            assert(events_view(events@)[i as int] == events@[i as int]@);
        }
        let e = &events[i];
        if e.correct.is_some() {
            times.push(e.time);
        }
        i = i + 1;
    }
    proof {
        assert(ev.take(events@.len() as int) =~= ev);
    }

    let mut ds: Vec<u64> = Vec::new();
    if times.len() > 1 {
        let mut k: usize = 0;
        while k < times.len() - 1
            invariant
                times@.len() > 1,
                k <= times@.len() - 1,
                ds@ == deltas_of(times@).take(k as int),
                forall|j: int| 0 <= j < times@.len() ==> (#[trigger] times@[j]) <= size_limit(),
                forall|j: int| 0 <= j < ds@.len() ==> (#[trigger] ds@[j]) <= size_limit(),
            decreases times@.len() - k,
        {
            let a = times[k + 1];
            let b = times[k];
            let d = if a >= b {
                a - b
            } else {
                b - a
            };
            ds.push(d);
            k = k + 1;
            proof {
                assert(deltas_of(times@)[k - 1] == abs_diff(times@[k as int], times@[k - 1]));
                assert(ds@ =~= deltas_of(times@).take(k as int));
            }
        }
        proof {
            assert(deltas_of(times@).take(times@.len() - 1) =~= deltas_of(times@));
        }
    } else {
        proof {
            assert(ds@ =~= deltas_of(times@));
        }
    }

    if ds.len() == 0 {
        return 0;
    }

    let mut s1: u128 = 0;
    let mut s2: u128 = 0;
    let mut k: usize = 0;
    proof {
        assert(ds@.take(0) =~= Seq::<u64>::empty());
    }
    while k < ds.len()
        invariant
            k <= ds@.len(),
            ds@.len() <= size_limit(),
            s1 == sum(ds@.take(k as int)),
            s2 == sum_sq(ds@.take(k as int)),
            forall|j: int| 0 <= j < ds@.len() ==> (#[trigger] ds@[j]) <= size_limit(),
        decreases ds@.len() - k,
    {
        proof {
            assert(forall|j: int|
                0 <= j < k ==> (#[trigger] ds@.take(k as int)[j]) <= 0xFFFF_FFFFu64);
            lemma_sum_bounds(ds@.take(k as int), 0xFFFF_FFFF);
            assert(sum(ds@.take(k as int)) <= 0xFFFF_FFFFu128 * 0xFFFF_FFFFu128)
                by (nonlinear_arith)
                requires
                    sum(ds@.take(k as int)) <= k * 0xFFFF_FFFF,
                    0 <= k <= 0xFFFF_FFFF,
            {
            }
            assert(sum_sq(ds@.take(k as int)) <= 0xFFFF_FFFFu128 * 0xFFFF_FFFFu128
                * 0xFFFF_FFFFu128) by (nonlinear_arith)
                requires
                    sum_sq(ds@.take(k as int)) <= k * (0xFFFF_FFFFu64 * 0xFFFF_FFFFu64),
                    0 <= k <= 0xFFFF_FFFF,
            {
            }
            assert(ds@.take(k + 1).drop_last() =~= ds@.take(k as int));
        }
        let d = ds[k];
        proof {
            assert((d as u128) * (d as u128) <= 0xFFFF_FFFFu128 * 0xFFFF_FFFFu128)
                by (nonlinear_arith)
                requires
                    0 <= d <= 0xFFFF_FFFFu64,
            {
            }
        }
        s1 = s1 + d as u128;
        s2 = s2 + (d as u128) * (d as u128);
        k = k + 1;
    }
    proof {
        assert(ds@.take(ds@.len() as int) =~= ds@);
    }
    let n = ds.len();
    proof {
        lemma_cauchy_schwarz(ds@);
        lemma_sum_bounds(ds@, 0xFFFF_FFFF);
        assert(s1 * s1 <= (0xFFFF_FFFFu128 * 0xFFFF_FFFFu128) * (0xFFFF_FFFFu128
            * 0xFFFF_FFFFu128)) by (nonlinear_arith)
            requires
                0 <= s1 <= 0xFFFF_FFFFu128 * 0xFFFF_FFFFu128,
        {
        }
        assert((n as u128) * s2 <= 0xFFFF_FFFFu128 * (0xFFFF_FFFFu128 * 0xFFFF_FFFFu128
            * 0xFFFF_FFFFu128)) by (nonlinear_arith)
            requires
                0 <= s2 <= 0xFFFF_FFFFu128 * 0xFFFF_FFFFu128 * 0xFFFF_FFFFu128,
                0 <= n <= 0xFFFF_FFFF,
        {
        }
        assert((n as u128) * s2 >= s1 * s1) by (nonlinear_arith)
            requires
                n * sum_sq(ds@) >= sum(ds@) * sum(ds@),
                s1 == sum(ds@),
                s2 == sum_sq(ds@),
                n == ds@.len(),
        {
        }
    }
    let var = (n as u128) * s2 - s1 * s1;
    proof {
        assert(var == var_num(ds@));
    }
    let std = crate::math::isqrt_u128(var) / (n as u128);
    proof {
        assert(std == spec_isqrt(var_num(ds@) as nat) / ds@.len());
    }
    if std >= 1000 {
        0
    } else {
        proof {
            assert(std < 1000);
        }
        (1000 - (std as u64)) * 10
    }
}

// ---------------------------------------------------------------------------
// The analyzer's entry point.
// ---------------------------------------------------------------------------
/// Turn a session snapshot into final statistics.
///
/// An empty event log is the one failure: it yields a zeroed report behind
/// an error message. Otherwise every field of the report is the exact value
/// of its spec function over the snapshot's model.
pub fn process_results(raw: RawResults) -> (r: Response<FinalResults>)
    requires
        results_wf(raw),
    ensures
        raw.events@.len() == 0 ==> is_zeroed_results(r.payload) && (r.message matches Some(
            (lvl, text),
        ) && lvl == Level::Error && text@ == "No typing events recorded"@),
        raw.events@.len() > 0 ==> r.message is None && ({
            let words = words_view(raw.words@);
            let events = events_view(raw.events@);
            let t = session_tally(words);
            let dur = spec_duration(events);
            &&& r.payload.key_presses.correct == t.correct
            &&& r.payload.key_presses.incorrect == t.incorrect
            &&& r.payload.key_presses.extra == total_extra(words)
            &&& r.payload.key_presses.missed == total_missed(words)
            &&& r.payload.wpm as nat == centi_wpm(t.correct, dur)
            &&& r.payload.raw_wpm as nat == centi_wpm(t.correct + t.incorrect, dur)
            &&& r.payload.accuracy as nat == centi_accuracy(
                t.correct,
                t.incorrect,
                total_extra(words),
            )
            &&& r.payload.consistency as nat == spec_consistency(events)
            &&& graph_matches(r.payload.graph_data@, graph_fold(events, first_time(events)).samples)
            &&& errors_match(r.payload.errors@, t.errs)
        }),
{
    if raw.events.len() == 0 {
        return Response::with_error(FinalResults::default(), "No typing events recorded");
    }

    let ghost wv = words_view(raw.words@);
    let ghost ev = events_view(raw.events@);
    proof {
        lemma_flat_events_len(wv);
        lemma_sort_events_ensures(flat_events(wv));
        lemma_words_tally_bounds(wv, initial_tally());
        lemma_extra_missed_bound(wv);
    }

    let (first, last) = scored_window(&raw.events);
    let duration: u64 = if last > first {
        last - first
    } else {
        0
    };
    let (correct, incorrect, extra, missed, errs) = replay_words(&raw.words);
    let errors = sort_errors(errs, Ghost(session_tally(wv).errs));
    let wpm = rate_centi(correct as u64, duration);
    let raw_wpm = rate_centi(correct as u64 + incorrect as u64, duration);
    let denom: u64 = correct as u64 + incorrect as u64 + extra as u64;
    let accuracy: u64 = if denom > 0 {
        (correct as u64) * 10000 / denom
    } else {
        0
    };
    let graph_data = graph_series(&raw.events, first);
    let consistency = compute_consistency(&raw.events);

    Response::plain(
        FinalResults {
            wpm,
            raw_wpm,
            key_presses: KeyPresses { correct, incorrect, extra, missed },
            accuracy,
            consistency,
            graph_data,
            errors,
        },
    )
}

} // verus!
