//! Data model of a typing session: classified keys, timestamped events,
//! per-word progress, and the shapes of the final report.
//!
//! All text is held as sequences of Unicode scalar values (`char`), never as
//! raw bytes, and all times are whole milliseconds since the session started.
//! Rates and percentages are fixed-point integers in hundredths of a unit, so
//! no arithmetic path can produce `NaN` or infinity.

use vstd::prelude::*;

verus! {

/// One classified key action.
#[derive(Debug, Clone, PartialEq, Eq)]
pub enum Key {
    Char(char),
    Enter,
    Space,
    Backspace,
    Escape,
    CtrlC,
    Other(String),
}

/// Mathematical model of a [`Key`]: the `Other` payload becomes a `Seq<char>`.
#[verifier::ext_equal]
pub enum KeyV {
    Char(char),
    Enter,
    Space,
    Backspace,
    Escape,
    CtrlC,
    Other(Seq<char>),
}

impl View for Key {
    type V = KeyV;

    open spec fn view(&self) -> KeyV {
        match self {
            Key::Char(c) => KeyV::Char(*c),
            Key::Enter => KeyV::Enter,
            Key::Space => KeyV::Space,
            Key::Backspace => KeyV::Backspace,
            Key::Escape => KeyV::Escape,
            Key::CtrlC => KeyV::CtrlC,
            Key::Other(s) => KeyV::Other(s@),
        }
    }
}

/// One recorded input action.
///
/// `correct` is `Some(true)` for a correct keypress, `Some(false)` for a
/// mistake, and `None` for an unscored or system action.
#[derive(Debug, Clone)]
pub struct Event {
    /// Milliseconds since the session started.
    pub time: u64,
    pub key: Key,
    pub correct: Option<bool>,
}

/// Mathematical model of an [`Event`].
#[verifier::ext_equal]
pub struct EventV {
    pub time: u64,
    pub key: KeyV,
    pub correct: Option<bool>,
}

impl View for Event {
    type V = EventV;

    open spec fn view(&self) -> EventV {
        EventV { time: self.time, key: self.key@, correct: self.correct }
    }
}

/// One unit of target text the session advances through.
#[derive(Debug, Clone)]
pub struct Word {
    /// What has to be entered.
    pub text: Vec<char>,
    /// What has been entered so far.
    pub progress: Vec<char>,
    /// Every event recorded while this word was current.
    pub events: Vec<Event>,
}

/// Mathematical model of a [`Word`].
#[verifier::ext_equal]
pub struct WordV {
    pub text: Seq<char>,
    pub progress: Seq<char>,
    pub events: Seq<EventV>,
}

/// The models of a vector of events, in order.
pub open spec fn events_view(s: Seq<Event>) -> Seq<EventV> {
    s.map_values(|e: Event| e@)
}

/// The models of a vector of words, in order.
pub open spec fn words_view(s: Seq<Word>) -> Seq<WordV> {
    s.map_values(|w: Word| w@)
}

/// Viewing a non-empty event vector is viewing all but its last element,
/// then its last.
pub proof fn lemma_events_view_push(s: Seq<Event>)
    requires
        s.len() > 0,
    ensures
        events_view(s) == events_view(s.drop_last()).push(s.last()@),
{
    assert forall|k: int| 0 <= k < s.len() implies events_view(s)[k] == events_view(
        s.drop_last(),
    ).push(s.last()@)[k] by {
        assert(events_view(s)[k] == s[k]@);
        if k < s.len() - 1 {
            assert(events_view(s.drop_last())[k] == s.drop_last()[k]@);
        }
    }
    assert(events_view(s) =~= events_view(s.drop_last()).push(s.last()@));
}

/// Viewing a non-empty word vector is viewing all but its last element,
/// then its last.
pub proof fn lemma_words_view_push(s: Seq<Word>)
    requires
        s.len() > 0,
    ensures
        words_view(s) == words_view(s.drop_last()).push(s.last()@),
{
    assert forall|k: int| 0 <= k < s.len() implies words_view(s)[k] == words_view(
        s.drop_last(),
    ).push(s.last()@)[k] by {
        assert(words_view(s)[k] == s[k]@);
        if k < s.len() - 1 {
            assert(words_view(s.drop_last())[k] == s.drop_last()[k]@);
        }
    }
    assert(words_view(s) =~= words_view(s.drop_last()).push(s.last()@));
}

impl View for Word {
    type V = WordV;

    open spec fn view(&self) -> WordV {
        WordV { text: self.text@, progress: self.progress@, events: events_view(self.events@) }
    }
}

/// The model of a freshly created word: the given target, nothing typed,
/// nothing recorded.
pub open spec fn fresh_word(text: Seq<char>) -> WordV {
    WordV { text: text, progress: Seq::empty(), events: Seq::empty() }
}

impl Word {
    /// A new word with the given target text, empty progress and no events.
    pub fn new(text: Vec<char>) -> (w: Word)
        ensures
            w@ == fresh_word(text@),
    {
        let w = Word { text, progress: Vec::new(), events: Vec::new() };
        proof {
            assert(w@ =~= fresh_word(w.text@));
        }
        w
    }
}

/// The full snapshot a finished session hands to the analyzer: the word list
/// and the same events merged into one time-ordered log.
#[derive(Debug, Clone)]
pub struct RawResults {
    pub words: Vec<Word>,
    pub events: Vec<Event>,
}

/// The events of all words, concatenated in word order.
pub open spec fn flat_events(words: Seq<WordV>) -> Seq<EventV>
    decreases words.len(),
{
    if words.len() == 0 {
        Seq::empty()
    } else {
        words[0].events + flat_events(words.drop_first())
    }
}

/// Whether the events come in time order.
pub open spec fn sorted_by_time(events: Seq<EventV>) -> bool {
    forall|i: int, j: int|
        0 <= i < j < events.len() ==> (#[trigger] events[i]).time <= (#[trigger] events[j]).time
}

/// `e` placed after every event whose time does not exceed `e.time`:
/// one step of a stable insertion by time.
pub open spec fn insert_by_time(s: Seq<EventV>, e: EventV) -> Seq<EventV>
    decreases s.len(),
{
    if s.len() == 0 {
        seq![e]
    } else if s.last().time <= e.time {
        s.push(e)
    } else {
        insert_by_time(s.drop_last(), e).push(s.last())
    }
}

/// The events rearranged into time order by stable insertion: events with
/// equal times keep their original relative order.
pub open spec fn sort_events_by_time(s: Seq<EventV>) -> Seq<EventV>
    decreases s.len(),
{
    if s.len() == 0 {
        Seq::empty()
    } else {
        insert_by_time(sort_events_by_time(s.drop_last()), s.last())
    }
}

/// Stable insertion into a time-ordered sequence keeps it time-ordered, the
/// same length, and the same events with multiplicity.
pub proof fn lemma_insert_by_time_ensures(s: Seq<EventV>, e: EventV)
    requires
        sorted_by_time(s),
    ensures
        sorted_by_time(insert_by_time(s, e)),
        insert_by_time(s, e).len() == s.len() + 1,
        insert_by_time(s, e).to_multiset() == s.to_multiset().insert(e),
    decreases s.len(),
{
    s.to_multiset_ensures();
    if s.len() == 0 {
        assert(seq![e] =~= Seq::<EventV>::empty().push(e));
        Seq::<EventV>::empty().to_multiset_ensures();
    } else if s.last().time <= e.time {
        assert forall|i: int, j: int|
            0 <= i < j < s.push(e).len() implies (#[trigger] s.push(e)[i]).time <= (#[trigger] s
            .push(e)[j]).time by {
            if j < s.len() {
                assert(s[i].time <= s[j].time);
            } else {
                if i < s.len() - 1 {
                    assert(s[i].time <= s[s.len() - 1].time);
                }
            }
        }
    } else {
        let t = s.drop_last();
        assert(sorted_by_time(t));
        lemma_insert_by_time_ensures(t, e);
        let r0 = insert_by_time(t, e);
        let r = r0.push(s.last());
        // Every event of the inner insertion is one of `t` or `e`, so its
        // time stays at or below the moved-back last event's.
        assert forall|i: int| 0 <= i < r0.len() implies (#[trigger] r0[i]).time
            <= s.last().time by {
            r0.to_multiset_ensures();
            assert(r0.to_multiset().count(r0[i]) > 0);
            if r0[i] != e {
                assert(t.to_multiset().count(r0[i]) > 0);
                t.to_multiset_ensures();
                let k = choose|k: int| 0 <= k < t.len() && t[k] == r0[i];
                assert(s[k].time <= s.last().time);
            }
        }
        assert forall|i: int, j: int|
            0 <= i < j < r.len() implies (#[trigger] r[i]).time <= (#[trigger] r[j]).time by {
            if j < r0.len() {
                assert(r0[i].time <= r0[j].time);
            }
        }
        t.to_multiset_ensures();
        r0.to_multiset_ensures();
        assert(t.push(s.last()) =~= s);
        assert(r0.push(s.last()).to_multiset() =~= s.to_multiset().insert(e)) by {
            assert(r0.to_multiset() == t.to_multiset().insert(e));
            assert(t.push(s.last()).to_multiset() == t.to_multiset().insert(s.last()));
            assert(r0.push(s.last()).to_multiset() == r0.to_multiset().insert(s.last()));
            assert(t.to_multiset().insert(e).insert(s.last()) =~= t.to_multiset().insert(
                s.last(),
            ).insert(e));
        }
    }
}

/// The stable sort yields the same events with multiplicity, in time order.
pub proof fn lemma_sort_events_ensures(s: Seq<EventV>)
    ensures
        sorted_by_time(sort_events_by_time(s)),
        sort_events_by_time(s).len() == s.len(),
        sort_events_by_time(s).to_multiset() == s.to_multiset(),
    decreases s.len(),
{
    if s.len() == 0 {
        assert(s =~= Seq::<EventV>::empty());
    } else {
        let t = s.drop_last();
        lemma_sort_events_ensures(t);
        lemma_insert_by_time_ensures(sort_events_by_time(t), s.last());
        t.to_multiset_ensures();
        assert(t.push(s.last()) =~= s);
        assert(t.push(s.last()).to_multiset() == t.to_multiset().insert(s.last()));
        assert(sort_events_by_time(s).to_multiset() == sort_events_by_time(t).to_multiset().insert(
            s.last(),
        ));
    }
}

/// Sorting an already time-ordered log is the identity: in particular, a
/// sorted log satisfies its own sorted form.
pub proof fn lemma_sort_events_of_sorted(s: Seq<EventV>)
    requires
        sorted_by_time(s),
    ensures
        sort_events_by_time(s) == s,
    decreases s.len(),
{
    if s.len() > 0 {
        let t = s.drop_last();
        assert(sorted_by_time(t));
        lemma_sort_events_of_sorted(t);
        if t.len() > 0 {
            assert(t.last().time <= s.last().time);
        }
        assert(insert_by_time(t, s.last()) =~= s);
    }
}

/// Keypress tallies of a finished session.
#[derive(Debug, Clone, PartialEq, Eq, Structural)]
pub struct KeyPresses {
    pub correct: usize,
    pub incorrect: usize,
    /// Characters typed beyond a word's target length.
    pub extra: usize,
    /// Target characters never typed.
    pub missed: usize,
}

impl Default for KeyPresses {
    /// All four tallies start at zero.
    fn default() -> (r: KeyPresses)
        ensures
            r == (KeyPresses { correct: 0, incorrect: 0, extra: 0, missed: 0 }),
    {
        KeyPresses { correct: 0, incorrect: 0, extra: 0, missed: 0 }
    }
}

/// One point of the performance time series:
/// `(elapsed ms, wpm, raw wpm, incorrect, extra, missed)`, where the two
/// rates are in hundredths of a word per minute and the three tallies are
/// running totals.
pub type GraphPoint = (u64, u64, u64, usize, usize, usize);

/// Aggregate metrics of a finished session.
///
/// `wpm` and `raw_wpm` are in hundredths of a word per minute; `accuracy`
/// and `consistency` are in hundredths of a percent (so `10000` is 100%).
#[derive(Debug, Clone)]
pub struct FinalResults {
    pub wpm: u64,
    pub raw_wpm: u64,
    pub key_presses: KeyPresses,
    pub accuracy: u64,
    pub consistency: u64,
    pub graph_data: Vec<GraphPoint>,
    /// Mistyped target characters with their mistake counts, most frequent
    /// first.
    pub errors: Vec<(char, usize)>,
}

/// Whether a final report is all zeroes with empty series.
pub open spec fn is_zeroed_results(r: FinalResults) -> bool {
    &&& r.wpm == 0
    &&& r.raw_wpm == 0
    &&& r.accuracy == 0
    &&& r.consistency == 0
    &&& r.key_presses == (KeyPresses { correct: 0, incorrect: 0, extra: 0, missed: 0 })
    &&& r.graph_data@ == Seq::<GraphPoint>::empty()
    &&& r.errors@ == Seq::<(char, usize)>::empty()
}

impl Default for FinalResults {
    /// A zeroed report: every rate, percentage and tally is zero and both
    /// series are empty.
    fn default() -> (r: FinalResults)
        ensures
            is_zeroed_results(r),
    {
        let r = FinalResults {
            wpm: 0,
            raw_wpm: 0,
            accuracy: 0,
            consistency: 0,
            key_presses: KeyPresses { correct: 0, incorrect: 0, extra: 0, missed: 0 },
            graph_data: Vec::new(),
            errors: Vec::new(),
        };
        proof {
            assert(r.graph_data@ =~= Seq::<GraphPoint>::empty());
            assert(r.errors@ =~= Seq::<(char, usize)>::empty());
        }
        r
    }
}

} // verus!
