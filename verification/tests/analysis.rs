use typingcore::{process_results, Config, Event, FinalResults, GameMode, Key, Language,
    RawResults, Test, Word, WordsLanguages};

fn config(mode: GameMode, backtrack: bool, death: bool) -> Config {
    Config {
        mode,
        language: Language::Words(WordsLanguages::En),
        file: None,
        word_count: 25,
        time_limit: None,
        punctuation: false,
        numbers: false,
        backtrack,
        death,
    }
}

fn run_session(words: &[&str], input: &str) -> Test {
    let list: Vec<String> = words.iter().map(|w| w.to_string()).collect();
    let mut t = Test::new(list, &config(GameMode::Words, true, false));
    let mut now: u64 = 0;
    for c in input.chars() {
        let key = if c == ' ' { Key::Space } else { Key::Char(c) };
        t.handle_key(key, now);
        now += 100;
    }
    t
}

fn event(time: u64, key: Key, correct: Option<bool>) -> Event {
    Event { time, key, correct }
}

/// A snapshot of one word whose flat log is the word's own event list.
fn one_word_raw(text: &str, progress: &str, events: Vec<Event>) -> RawResults {
    let word = Word {
        text: text.chars().collect(),
        progress: progress.chars().collect(),
        events: events.clone(),
    };
    RawResults { words: vec![word], events }
}

#[test]
fn empty_log_yields_zeroed_report_with_error() {
    let raw = RawResults { words: Vec::new(), events: Vec::new() };
    let r = process_results(raw);
    let p: &FinalResults = &r.payload;
    assert_eq!(p.wpm, 0);
    assert_eq!(p.raw_wpm, 0);
    assert_eq!(p.accuracy, 0);
    assert_eq!(p.consistency, 0);
    assert_eq!(p.key_presses.correct, 0);
    assert_eq!(p.key_presses.incorrect, 0);
    assert_eq!(p.key_presses.extra, 0);
    assert_eq!(p.key_presses.missed, 0);
    assert!(p.graph_data.is_empty());
    assert!(p.errors.is_empty());
    let (_, msg) = r.message.expect("an empty log must carry the no-data marker");
    assert_eq!(msg, "No typing events recorded");
}

#[test]
fn scenario_words_all_correct() {
    let t = run_session(&["cat", "dog", "bird"], "cat dog bird");
    assert!(t.complete);
    for w in &t.words {
        for e in &w.events {
            assert_ne!(e.correct, Some(false));
        }
    }
    let r = process_results(RawResults::from_test(&t));
    assert!(r.message.is_none());
    let p = r.payload;
    assert_eq!(p.accuracy, 10000, "accuracy must be exactly 100%");
    assert_eq!(p.key_presses.missed, 0);
    assert_eq!(p.key_presses.extra, 0);
    assert_eq!(p.key_presses.incorrect, 0);
    assert_eq!(p.key_presses.correct, 10);
}

#[test]
fn scenario_words_one_substitution() {
    let t = run_session(&["cat", "dog", "bird"], "cxt dog bird");
    assert!(t.complete);
    // Exactly one mistake is charged to the substituted position's expected
    // character 'a'.
    let r = process_results(RawResults::from_test(&t));
    let p = r.payload;
    let a_count = p
        .errors
        .iter()
        .find(|(c, _)| *c == 'a')
        .map(|(_, n)| *n)
        .expect("'a' must appear in the error report");
    assert_eq!(a_count, 1);
    assert!(p.accuracy < 10000, "accuracy must drop below 100%");
}

#[test]
fn wpm_is_exact_fixed_point() {
    // Five correct characters over two seconds: 5/5 words over 1/30 minute,
    // 30 wpm, i.e. 3000 hundredths.
    let events = vec![
        event(0, Key::Char('a'), Some(true)),
        event(500, Key::Char('b'), Some(true)),
        event(1000, Key::Char('c'), Some(true)),
        event(1500, Key::Char('d'), Some(true)),
        event(2000, Key::Char('e'), Some(true)),
    ];
    let raw = one_word_raw("abcde", "abcde", events);
    let p = process_results(raw).payload;
    assert_eq!(p.wpm, 3000);
    assert_eq!(p.raw_wpm, 3000);
    assert_eq!(p.accuracy, 10000);
    assert_eq!(p.key_presses.correct, 5);
}

#[test]
fn zero_duration_gives_zero_rates() {
    let events = vec![event(100, Key::Char('a'), Some(true))];
    let raw = one_word_raw("a", "a", events);
    let p = process_results(raw).payload;
    assert_eq!(p.wpm, 0);
    assert_eq!(p.raw_wpm, 0);
    assert_eq!(p.accuracy, 10000);
}

#[test]
fn extra_and_missed_come_from_lengths() {
    // Target "cat", typed "cargo": two extra. Target "dog", typed "d": two
    // missed.
    let w1 = Word {
        text: "cat".chars().collect(),
        progress: "cargo".chars().collect(),
        events: vec![event(0, Key::Char('c'), Some(true))],
    };
    let w2 = Word {
        text: "dog".chars().collect(),
        progress: "d".chars().collect(),
        events: vec![event(500, Key::Char('d'), Some(true))],
    };
    let events: Vec<Event> = w1.events.iter().cloned().chain(w2.events.iter().cloned()).collect();
    let raw = RawResults { words: vec![w1, w2], events };
    let p = process_results(raw).payload;
    assert_eq!(p.key_presses.extra, 2);
    assert_eq!(p.key_presses.missed, 2);
}

#[test]
fn accuracy_counts_extra_in_denominator() {
    // One correct press, one extra character: 1/(1+0+1) = 50%.
    let w = Word {
        text: "a".chars().collect(),
        progress: "ab".chars().collect(),
        events: vec![event(0, Key::Char('a'), Some(true)), event(400, Key::Char('b'), Some(true))],
    };
    let events = w.events.clone();
    let raw = RawResults { words: vec![w], events };
    let p = process_results(raw).payload;
    assert_eq!(p.key_presses.correct, 2);
    assert_eq!(p.key_presses.extra, 1);
    // 2/(2+0+1) in hundredths of a percent, floored.
    assert_eq!(p.accuracy, 6666);
}

#[test]
fn error_report_sorted_descending() {
    // Against "ab": two mistakes at position 0 (expected 'a'), one at
    // position 1 (expected 'b').
    let events = vec![
        event(0, Key::Char('x'), Some(false)),
        event(100, Key::Backspace, None),
        event(200, Key::Char('y'), Some(false)),
        event(300, Key::Char('z'), Some(false)),
    ];
    let raw = one_word_raw("ab", "z", events);
    let p = process_results(raw).payload;
    assert_eq!(p.errors.len(), 2);
    assert_eq!(p.errors[0], ('a', 2));
    assert_eq!(p.errors[1], ('b', 1));
}

#[test]
fn control_key_mistake_is_not_charged() {
    // A scored mistake on Enter is counted but attributed to no character.
    let events = vec![
        event(0, Key::Char('a'), Some(true)),
        event(700, Key::Enter, Some(false)),
    ];
    let raw = one_word_raw("ab", "a", events);
    let p = process_results(raw).payload;
    assert_eq!(p.key_presses.incorrect, 1);
    assert!(p.errors.is_empty());
}

#[test]
fn consistency_is_full_for_even_gaps() {
    let events = vec![
        event(0, Key::Char('a'), Some(true)),
        event(1000, Key::Char('b'), Some(true)),
        event(2000, Key::Char('c'), Some(true)),
        event(3000, Key::Char('d'), Some(true)),
    ];
    let raw = one_word_raw("abcd", "abcd", events);
    let p = process_results(raw).payload;
    assert_eq!(p.consistency, 10000);
}

#[test]
fn consistency_drops_with_variance() {
    // Gaps 500 and 2000 ms: the population standard deviation is 750 ms,
    // so the score is (1000 - 750) * 10 hundredths of a percent.
    let events = vec![
        event(0, Key::Char('a'), Some(true)),
        event(500, Key::Char('b'), Some(true)),
        event(2500, Key::Char('c'), Some(true)),
    ];
    let raw = one_word_raw("abc", "abc", events);
    let p = process_results(raw).payload;
    assert_eq!(p.consistency, 2500);
}

#[test]
fn consistency_floors_at_one_second_deviation() {
    // Gaps 3000 and 100 ms: the standard deviation is 1450 ms, beyond the
    // one-second saturation point.
    let events = vec![
        event(0, Key::Char('a'), Some(true)),
        event(3000, Key::Char('b'), Some(true)),
        event(3100, Key::Char('c'), Some(true)),
    ];
    let raw = one_word_raw("abc", "abc", events);
    let p = process_results(raw).payload;
    assert_eq!(p.consistency, 0);
}

#[test]
fn consistency_zero_without_two_scored_events() {
    let events = vec![event(100, Key::Char('a'), Some(true))];
    let raw = one_word_raw("a", "a", events);
    let p = process_results(raw).payload;
    assert_eq!(p.consistency, 0);
}

#[test]
fn unscored_events_do_not_shape_the_window() {
    // The window runs between scored events only; the late unscored abort
    // does not stretch it.
    let events = vec![
        event(1000, Key::Char('a'), Some(true)),
        event(2000, Key::Char('b'), Some(true)),
        event(90_000, Key::Escape, None),
    ];
    let raw = one_word_raw("ab", "ab", events);
    let p = process_results(raw).payload;
    // Two correct characters over one second: 2/5 words over 1/60 minute.
    assert_eq!(p.wpm, 2400);
}

#[test]
fn graph_emits_at_most_one_sample_per_second() {
    let events = vec![
        event(0, Key::Char('a'), Some(true)),
        event(300, Key::Char('b'), Some(true)),
        event(1500, Key::Char('c'), Some(true)),
        event(1800, Key::Char('d'), Some(true)),
        event(2100, Key::Char('e'), Some(true)),
    ];
    let raw = one_word_raw("abcde", "abcde", events);
    let p = process_results(raw).payload;
    assert_eq!(p.graph_data.len(), 2);
    // At 1500 ms three characters are in: 3 * 1200000 / 1500.
    assert_eq!(p.graph_data[0], (1500, 2400, 2400, 0, 0, 0));
    // At 2100 ms all five are in: 5 * 1200000 / 2100.
    assert_eq!(p.graph_data[1], (2100, 2857, 2857, 0, 0, 0));
}

#[test]
fn graph_counts_incorrect_presses() {
    let events = vec![
        event(0, Key::Char('a'), Some(true)),
        event(1200, Key::Char('x'), Some(false)),
    ];
    let raw = one_word_raw("ab", "ax", events);
    let p = process_results(raw).payload;
    assert_eq!(p.graph_data.len(), 1);
    let (t, _, _, incorrect, _, _) = p.graph_data[0];
    assert_eq!(t, 1200);
    assert_eq!(incorrect, 1);
}

#[test]
fn backtracking_session_analyzes_chronologically() {
    // Erase a mistake on word 1, backtrack into word 0, refinalize it and
    // retype word 1. The backtrack scatters a late event into word 0, so the
    // snapshot's time-ordered log differs from word-order flattening.
    let mut t = {
        let list: Vec<String> = vec!["ab".to_string(), "cd".to_string()];
        Test::new(list, &config(GameMode::Words, true, false))
    };
    let keys = [
        (Key::Char('a'), 0),
        (Key::Char('b'), 100),
        (Key::Space, 200),
        (Key::Char('x'), 300),
        (Key::Backspace, 400),
        (Key::Backspace, 500),
        (Key::Space, 600),
        (Key::Char('c'), 700),
        (Key::Char('d'), 800),
    ];
    for (key, at) in keys {
        t.handle_key(key, at);
    }
    assert!(t.complete);
    let raw = RawResults::from_test(&t);
    for pair in raw.events.windows(2) {
        assert!(pair[0].time <= pair[1].time);
    }
    let p = process_results(raw).payload;
    assert_eq!(p.key_presses.correct, 4);
    assert_eq!(p.key_presses.incorrect, 1);
    assert_eq!(p.key_presses.extra, 0);
    assert_eq!(p.key_presses.missed, 0);
    assert_eq!(p.accuracy, 8000);
    // Four correct characters over the 800 ms scored window.
    assert_eq!(p.wpm, 6000);
    assert_eq!(p.raw_wpm, 7500);
    assert_eq!(p.errors, vec![('c', 1)]);
    // Scored gaps 100, 200, 400, 100 ms: deviation truncates to 122 ms.
    assert_eq!(p.consistency, 8780);
    assert!(p.graph_data.is_empty());
}

#[test]
fn full_pipeline_session_to_report() {
    let t = run_session(&["hello", "world"], "hello world");
    assert!(t.complete);
    let p = process_results(RawResults::from_test(&t)).payload;
    assert_eq!(p.key_presses.correct, 10);
    assert_eq!(p.key_presses.incorrect, 0);
    assert_eq!(p.accuracy, 10000);
    // Ten correct characters over a scored window of 1000 ms.
    assert_eq!(p.wpm, 12000);
    // Nine gaps, eight of 100 ms and one of 200 ms (the unscored space
    // widens one gap): variance numerator 80000, deviation 31 ms.
    assert_eq!(p.consistency, 9690);
}
