use cli_text_analyzer::{Config, Flags, Stats};

fn args(list: &[&str]) -> Vec<String> {
    list.iter().map(|arg| String::from(*arg)).collect()
}

fn built(list: &[&str]) -> (Flags, Vec<String>) {
    match Config::build(args(list)) {
        Ok(config) => (config.flags, config.files),
        Err(message) => panic!("{}", message),
    }
}

fn refused(list: &[&str]) -> &'static str {
    match Config::build(args(list)) {
        Ok(_) => panic!("accepted"),
        Err(message) => message,
    }
}

#[test]
fn files_alone_get_the_default_selection() {
    let (flags, files) = built(&["prog", "a.txt"]);
    assert_eq!(flags, Flags { lines: true, words: true, chars: true, bytes: false, top: None });
    assert_eq!(files, vec!["a.txt"]);
    let (flags, files) = built(&["prog", "a.txt", "b.txt", "c"]);
    assert_eq!(flags, Flags::default());
    assert_eq!(files, vec!["a.txt", "b.txt", "c"]);
}

#[test]
fn program_name_is_passed_over() {
    let (flags, files) = built(&["--bytes", "a.txt"]);
    assert_eq!(flags, Flags::default());
    assert_eq!(files, vec!["a.txt"]);
}

#[test]
fn no_files_is_refused() {
    assert_eq!(refused(&["prog"]), "No files provided");
    assert_eq!(refused(&[]), "No files provided");
    assert_eq!(refused(&["prog", "--lines"]), "No files provided");
    assert_eq!(refused(&["prog", "--top", "3"]), "No files provided");
    assert_eq!(refused(&["prog", "--l", "--w", "--c", "--b", "--t", "1"]), "No files provided");
}

#[test]
fn each_flag_has_two_spellings() {
    let none = Flags::new();
    for (short, long, want) in [
        ("--l", "--lines", Flags { lines: true, ..none }),
        ("--w", "--words", Flags { words: true, ..none }),
        ("--c", "--chars", Flags { chars: true, ..none }),
        ("--b", "--bytes", Flags { bytes: true, ..none }),
    ] {
        assert_eq!(built(&["prog", short, "f"]).0, want);
        assert_eq!(built(&["prog", long, "f"]).0, want);
    }
    let top = Flags { top: Some(4), ..none };
    assert_eq!(built(&["prog", "--t", "4", "f"]).0, top);
    assert_eq!(built(&["prog", "--top", "4", "f"]).0, top);
}

#[test]
fn explicit_selection_is_taken_as_it_is() {
    let (flags, files) = built(&["prog", "--bytes", "a.txt"]);
    assert_eq!(flags, Flags { lines: false, words: false, chars: false, bytes: true, top: None });
    assert_eq!(files, vec!["a.txt"]);
}

#[test]
fn flags_may_stand_anywhere() {
    let want = Flags { lines: false, words: false, chars: false, bytes: true, top: None };
    assert_eq!(built(&["prog", "a.txt", "--bytes"]), (want, vec![String::from("a.txt")]));
    let (flags, files) = built(&["prog", "a", "--w", "b", "--top", "2", "c", "--l"]);
    assert_eq!(flags, Flags { lines: true, words: true, chars: false, bytes: false, top: Some(2) });
    assert_eq!(files, vec!["a", "b", "c"]);
}

#[test]
fn repeated_flags_change_nothing() {
    let (flags, files) = built(&["prog", "--l", "--lines", "--l", "f", "--w", "--w"]);
    assert_eq!(flags, Flags { lines: true, words: true, chars: false, bytes: false, top: None });
    assert_eq!(files, vec!["f"]);
}

#[test]
fn last_top_decides() {
    let (flags, _) = built(&["prog", "--top", "3", "f", "--t", "7"]);
    assert_eq!(flags.top, Some(7));
}

#[test]
fn top_zero_is_legal() {
    let (flags, files) = built(&["prog", "--top", "0", "f"]);
    assert_eq!(flags, Flags { lines: false, words: false, chars: false, bytes: false, top: Some(0) });
    assert_eq!(files, vec!["f"]);
}

#[test]
fn top_takes_the_next_argument() {
    let (flags, files) = built(&["prog", "--top", "5", "5"]);
    assert_eq!(flags.top, Some(5));
    assert_eq!(files, vec!["5"]);
    let (flags, files) = built(&["prog", "--top", "+12", "f"]);
    assert_eq!(flags.top, Some(12));
    assert_eq!(files, vec!["f"]);
}

#[test]
fn top_without_a_count_is_refused() {
    assert_eq!(refused(&["prog", "f", "--top"]), "Missing argument for --top");
    assert_eq!(refused(&["prog", "--t"]), "Missing argument for --top");
}

#[test]
fn top_with_something_else_is_refused() {
    assert_eq!(refused(&["prog", "--top", "many", "f"]), "Invalid argument for --top");
    assert_eq!(refused(&["prog", "--top", "-1", "f"]), "Invalid argument for --top");
    assert_eq!(refused(&["prog", "--top", "", "f"]), "Invalid argument for --top");
    assert_eq!(refused(&["prog", "--top", "--lines", "f"]), "Invalid argument for --top");
    assert_eq!(refused(&["prog", "--top", "f"]), "Invalid argument for --top");
    assert_eq!(
        refused(&["prog", "--top", "99999999999999999999999999", "f"]),
        "Invalid argument for --top"
    );
}

#[test]
fn first_mistake_is_reported() {
    assert_eq!(refused(&["prog", "--top", "x", "--top"]), "Invalid argument for --top");
    assert_eq!(refused(&["prog", "--top", "1", "--top"]), "Missing argument for --top");
    assert_eq!(refused(&["prog", "--top", "x"]), "Invalid argument for --top");
}

#[test]
fn unknown_dashes_are_file_paths() {
    let (flags, files) = built(&["prog", "--x", "-l", "--Lines", "--line", "--"]);
    assert_eq!(flags, Flags::default());
    assert_eq!(files, vec!["--x", "-l", "--Lines", "--line", "--"]);
}

#[test]
fn end_to_end_top_one() {
    let config = Config::build(args(&["prog", "--top", "1", "input.txt"])).unwrap();
    let mut stats = Stats::new();
    for line in ["hello world", "hello"] {
        let line = String::from(line);
        assert!(stats.has_room(&line, &config.flags));
        stats.accumulate(&line, &config.flags);
    }
    let report = stats.report(&config.flags);
    assert_eq!(report, vec!["Top 1 words:", "2 hello"]);
}

#[test]
fn end_to_end_default() {
    let config = Config::build(args(&["prog", "input.txt"])).unwrap();
    let mut stats = Stats::new();
    for line in "a b\nc".lines() {
        let line = String::from(line);
        assert!(stats.has_room(&line, &config.flags));
        stats.accumulate(&line, &config.flags);
    }
    let report = stats.report(&config.flags);
    assert_eq!(report, vec!["Lines: 2", "Words: 3", "Chars: 4"]);
    assert!(!report.iter().any(|line| line.starts_with("Bytes")));
    assert!(!report.iter().any(|line| line.starts_with("Top")));
}

#[test]
fn zero_files_fails_before_any_work() {
    let result = Config::build(args(&["prog"]));
    assert!(matches!(result, Err("No files provided")));
}
