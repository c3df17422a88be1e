use cli_text_analyzer::{Flags, Stats, WordCount};

fn all_counters() -> Flags {
    Flags { lines: true, words: true, chars: true, bytes: true, top: None }
}

#[test]
fn new_flags_switch_nothing_on() {
    let flags = Flags::new();
    assert_eq!(flags, Flags { lines: false, words: false, chars: false, bytes: false, top: None });
}

#[test]
fn default_flags_are_lines_words_chars() {
    let flags = Flags::default();
    assert_eq!(flags, Flags { lines: true, words: true, chars: true, bytes: false, top: None });
}

#[test]
fn new_stats_are_zero() {
    let stats = Stats::new();
    assert_eq!((stats.lines, stats.words, stats.chars, stats.bytes), (0, 0, 0, 0));
    assert_eq!(stats.top.len(), 0);
}

#[test]
fn every_counter_grows_by_what_the_line_holds() {
    let mut stats = Stats::new();
    stats.accumulate(&String::from("hello world"), &all_counters());
    assert_eq!((stats.lines, stats.words, stats.chars, stats.bytes), (1, 2, 11, 11));
    stats.accumulate(&String::from(""), &all_counters());
    assert_eq!((stats.lines, stats.words, stats.chars, stats.bytes), (2, 2, 11, 11));
    stats.accumulate(&String::from("  x "), &all_counters());
    assert_eq!((stats.lines, stats.words, stats.chars, stats.bytes), (3, 3, 15, 15));
}

#[test]
fn chars_are_code_points_and_bytes_are_utf8() {
    let mut stats = Stats::new();
    stats.accumulate(&String::from("héllo wörld"), &all_counters());
    assert_eq!((stats.chars, stats.bytes), (11, 13));
    let mut stats = Stats::new();
    stats.accumulate(&String::from("e\u{301}"), &all_counters());
    assert_eq!((stats.chars, stats.bytes), (2, 3));
    let mut stats = Stats::new();
    stats.accumulate(&String::from("\u{1f600}\u{20ac}"), &all_counters());
    assert_eq!((stats.chars, stats.bytes), (2, 7));
}

#[test]
fn disabled_bytes_stay_zero() {
    let flags = Flags { lines: true, words: true, chars: true, bytes: false, top: Some(3) };
    let mut stats = Stats::new();
    for line in ["hello world", "", "héllo", "a b c d e"] {
        stats.accumulate(&String::from(line), &flags);
        assert_eq!(stats.bytes, 0);
    }
}

#[test]
fn each_disabled_counter_keeps_its_value() {
    let line = String::from("one two");
    let mut stats = Stats::new();
    stats.lines = 40;
    stats.words = 41;
    stats.chars = 42;
    stats.bytes = 43;
    stats.accumulate(&line, &Flags::new());
    assert_eq!((stats.lines, stats.words, stats.chars, stats.bytes), (40, 41, 42, 43));
    assert_eq!(stats.top.len(), 0);
    stats.accumulate(&line, &Flags { lines: true, ..Flags::new() });
    assert_eq!((stats.lines, stats.words, stats.chars, stats.bytes), (41, 41, 42, 43));
    stats.accumulate(&line, &Flags { words: true, ..Flags::new() });
    assert_eq!((stats.lines, stats.words, stats.chars, stats.bytes), (41, 43, 42, 43));
    stats.accumulate(&line, &Flags { chars: true, ..Flags::new() });
    assert_eq!((stats.lines, stats.words, stats.chars, stats.bytes), (41, 43, 49, 43));
    stats.accumulate(&line, &Flags { bytes: true, ..Flags::new() });
    assert_eq!((stats.lines, stats.words, stats.chars, stats.bytes), (41, 43, 49, 50));
    assert_eq!(stats.top.len(), 0);
}

#[test]
fn table_is_filled_only_with_a_ranking() {
    let line = String::from("a b a");
    let mut stats = Stats::new();
    stats.accumulate(&line, &all_counters());
    assert_eq!(stats.top.len(), 0);
    stats.accumulate(&line, &Flags { top: Some(0), ..Flags::new() });
    assert_eq!(stats.top.len(), 2);
    assert_eq!(stats.top.count("a"), 2);
    assert_eq!(stats.top.count("b"), 1);
    assert_eq!((stats.lines, stats.words, stats.chars, stats.bytes), (1, 3, 5, 5));
}

#[test]
fn line_order_does_not_matter() {
    let flags = Flags { lines: true, words: true, chars: true, bytes: true, top: Some(2) };
    let lines = ["b a", "héllo a", "", "c c c"];
    let mut forward = Stats::new();
    for line in lines {
        forward.accumulate(&String::from(line), &flags);
    }
    let mut backward = Stats::new();
    for line in lines.iter().rev() {
        backward.accumulate(&String::from(*line), &flags);
    }
    assert_eq!(
        (forward.lines, forward.words, forward.chars, forward.bytes),
        (backward.lines, backward.words, backward.chars, backward.bytes)
    );
    assert_eq!(forward.report(&flags), backward.report(&flags));
}

#[test]
fn has_room_until_a_counter_is_full() {
    let line = String::from("ab cd");
    let mut stats = Stats::new();
    assert!(stats.has_room(&line, &all_counters()));
    stats.lines = usize::MAX;
    assert!(!stats.has_room(&line, &all_counters()));
    assert!(stats.has_room(&line, &Flags { lines: false, ..all_counters() }));
    stats.lines = 0;
    stats.words = usize::MAX - 1;
    assert!(!stats.has_room(&line, &all_counters()));
    stats.words = usize::MAX - 2;
    assert!(stats.has_room(&line, &all_counters()));
    stats.chars = usize::MAX - 4;
    assert!(!stats.has_room(&line, &all_counters()));
    stats.chars = usize::MAX - 5;
    assert!(stats.has_room(&line, &all_counters()));
    stats.bytes = usize::MAX - 4;
    assert!(!stats.has_room(&line, &all_counters()));
    assert!(stats.has_room(&line, &Flags { bytes: false, ..all_counters() }));
    assert!(stats.has_room(&line, &Flags { top: Some(1), ..Flags::new() }));
}

#[test]
fn report_lists_enabled_counters_in_fixed_order() {
    let mut stats = Stats::new();
    stats.accumulate(&String::from("a b"), &all_counters());
    stats.accumulate(&String::from("c"), &all_counters());
    assert_eq!(stats.report(&all_counters()), vec!["Lines: 2", "Words: 3", "Chars: 4", "Bytes: 4"]);
    assert_eq!(
        stats.report(&Flags { lines: false, chars: false, ..all_counters() }),
        vec!["Words: 3", "Bytes: 4"]
    );
    assert_eq!(stats.report(&Flags::new()), Vec::<String>::new());
}

#[test]
fn report_of_default_selection() {
    let flags = Flags::default();
    let mut stats = Stats::new();
    for line in "a b\nc".lines() {
        stats.accumulate(&String::from(line), &flags);
    }
    assert_eq!(stats.report(&flags), vec!["Lines: 2", "Words: 3", "Chars: 4"]);
}

#[test]
fn report_ranks_the_top_words() {
    let flags = Flags { top: Some(1), ..Flags::new() };
    let mut stats = Stats::new();
    stats.accumulate(&String::from("hello world"), &flags);
    stats.accumulate(&String::from("hello"), &flags);
    assert_eq!(stats.report(&flags), vec!["Top 1 words:", "2 hello"]);
    assert_eq!(stats.top.select(1), vec![WordCount { word: String::from("hello"), count: 2 }]);
}

#[test]
fn report_with_counters_and_ranking() {
    let flags = Flags { lines: true, words: false, chars: false, bytes: true, top: Some(5) };
    let mut stats = Stats::new();
    stats.accumulate(&String::from("b a b"), &flags);
    stats.accumulate(&String::from("c a"), &flags);
    assert_eq!(
        stats.report(&flags),
        vec!["Lines: 2", "Bytes: 8", "Top 5 words:", "2 a", "2 b", "1 c"]
    );
}

#[test]
fn report_of_ranking_zero_has_only_the_header() {
    let flags = Flags { top: Some(0), ..Flags::new() };
    let mut stats = Stats::new();
    stats.accumulate(&String::from("hello world"), &flags);
    assert_eq!(stats.report(&flags), vec!["Top 0 words:"]);
}

#[test]
fn report_of_large_counts() {
    let mut stats = Stats::new();
    stats.lines = 1234567890;
    stats.bytes = usize::MAX;
    let flags = Flags { lines: true, words: true, chars: false, bytes: true, top: None };
    assert_eq!(
        stats.report(&flags),
        vec![String::from("Lines: 1234567890"), String::from("Words: 0"), format!("Bytes: {}", usize::MAX)]
    );
}
