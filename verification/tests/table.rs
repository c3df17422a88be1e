use cli_text_analyzer::{count_words, FrequencyTable, WordCount};

fn entry(word: &str, count: usize) -> WordCount {
    WordCount { word: String::from(word), count }
}

fn table_of(counts: &[(&str, usize)]) -> FrequencyTable {
    let mut table = FrequencyTable::new();
    for (word, count) in counts {
        for _ in 0..*count {
            table.record(String::from(*word));
        }
    }
    table
}

#[test]
fn new_table_is_empty() {
    let table = FrequencyTable::new();
    assert_eq!(table.len(), 0);
    assert_eq!(table.count("a"), 0);
    assert_eq!(table.select(3), Vec::<WordCount>::new());
}

#[test]
fn first_occurrence_counts_one() {
    let mut table = FrequencyTable::new();
    table.record(String::from("a"));
    assert_eq!(table.count("a"), 1);
    assert_eq!(table.len(), 1);
}

#[test]
fn further_occurrences_add_one() {
    let mut table = FrequencyTable::new();
    table.record(String::from("a"));
    table.record(String::from("b"));
    table.record(String::from("a"));
    table.record(String::from("a"));
    assert_eq!(table.count("a"), 3);
    assert_eq!(table.count("b"), 1);
    assert_eq!(table.count("c"), 0);
    assert_eq!(table.len(), 2);
}

#[test]
fn words_are_case_sensitive() {
    let mut table = FrequencyTable::new();
    count_words(&String::from("The the THE the"), &mut table);
    assert_eq!(table.count("the"), 2);
    assert_eq!(table.count("The"), 1);
    assert_eq!(table.count("THE"), 1);
    assert_eq!(table.len(), 3);
}

#[test]
fn count_words_counts_every_word() {
    let mut table = FrequencyTable::new();
    count_words(&String::from("to be or not to be"), &mut table);
    count_words(&String::from("  to   do "), &mut table);
    count_words(&String::from(""), &mut table);
    assert_eq!(table.count("to"), 3);
    assert_eq!(table.count("be"), 2);
    assert_eq!(table.count("or"), 1);
    assert_eq!(table.count("not"), 1);
    assert_eq!(table.count("do"), 1);
    assert_eq!(table.len(), 5);
}

#[test]
fn count_words_does_not_depend_on_line_order() {
    let lines = ["b a", "a c a", "c"];
    let mut forward = FrequencyTable::new();
    for line in lines {
        count_words(&String::from(line), &mut forward);
    }
    let mut backward = FrequencyTable::new();
    for line in lines.iter().rev() {
        count_words(&String::from(*line), &mut backward);
    }
    for word in ["a", "b", "c", "d"] {
        assert_eq!(forward.count(word), backward.count(word));
    }
    assert_eq!(forward.select(3), backward.select(3));
}

#[test]
fn ties_are_broken_by_word() {
    let table = table_of(&[("b", 3), ("a", 3)]);
    assert_eq!(table.select(2), vec![entry("a", 3), entry("b", 3)]);
}

#[test]
fn ties_do_not_depend_on_insertion_order() {
    let one = table_of(&[("a", 3), ("b", 3)]);
    let other = table_of(&[("b", 3), ("a", 3)]);
    assert_eq!(one.select(2), vec![entry("a", 3), entry("b", 3)]);
    assert_eq!(other.select(2), vec![entry("a", 3), entry("b", 3)]);
    assert_eq!(one.select(1), vec![entry("a", 3)]);
    assert_eq!(other.select(1), vec![entry("a", 3)]);
}

#[test]
fn higher_counts_come_first() {
    let table = table_of(&[("x", 5), ("y", 9), ("z", 1)]);
    assert_eq!(table.select(2), vec![entry("y", 9), entry("x", 5)]);
}

#[test]
fn select_zero_is_empty() {
    let table = table_of(&[("x", 5), ("y", 9), ("z", 1)]);
    assert_eq!(table.select(0), Vec::<WordCount>::new());
}

#[test]
fn select_more_than_there_is_returns_all() {
    let table = table_of(&[("x", 5), ("y", 9), ("z", 1)]);
    let all = vec![entry("y", 9), entry("x", 5), entry("z", 1)];
    assert_eq!(table.select(3), all);
    assert_eq!(table.select(4), all);
    assert_eq!(table.select(usize::MAX), all);
}

#[test]
fn select_length_is_the_smaller_of_k_and_words() {
    let table = table_of(&[("a", 1), ("b", 2), ("c", 3), ("d", 4), ("e", 5)]);
    for k in 0..9 {
        assert_eq!(table.select(k).len(), k.min(5));
    }
    assert_eq!(FrequencyTable::new().select(7).len(), 0);
}

#[test]
fn select_leaves_the_table_as_it_is() {
    let table = table_of(&[("x", 5), ("y", 9), ("z", 1)]);
    let first = table.select(2);
    let second = table.select(2);
    assert_eq!(first, second);
    assert_eq!(table.len(), 3);
    assert_eq!(table.count("y"), 9);
}

#[test]
fn select_is_a_prefix_of_the_full_ranking() {
    let table = table_of(&[("pear", 2), ("fig", 2), ("apple", 7), ("kiwi", 1), ("date", 2)]);
    let full = table.select(5);
    assert_eq!(
        full,
        vec![entry("apple", 7), entry("date", 2), entry("fig", 2), entry("pear", 2), entry("kiwi", 1)]
    );
    for k in 0..=5 {
        assert_eq!(table.select(k), full[..k].to_vec());
    }
}

#[test]
fn select_agrees_with_a_full_sort() {
    let mut table = FrequencyTable::new();
    let mut expected: Vec<(String, usize)> = Vec::new();
    let mut seed: u32 = 12345;
    for i in 0..200 {
        seed = seed.wrapping_mul(1664525).wrapping_add(1013904223);
        let count = ((seed >> 16) % 7 + 1) as usize;
        let word = format!("w{}", (i * 37) % 200);
        for _ in 0..count {
            table.record(word.clone());
        }
        expected.push((word, count));
    }
    expected.sort_by(|a, b| b.1.cmp(&a.1).then(a.0.cmp(&b.0)));
    for k in [0usize, 1, 2, 10, 199, 200, 201] {
        let top = table.select(k);
        let want: Vec<WordCount> = expected
            .iter()
            .take(k)
            .map(|(word, count)| WordCount { word: word.clone(), count: *count })
            .collect();
        assert_eq!(top, want);
    }
}

#[test]
fn has_room_for_ordinary_lines() {
    let mut table = FrequencyTable::new();
    assert!(table.has_room(&String::from("a b a")));
    count_words(&String::from("a b a"), &mut table);
    assert!(table.has_room(&String::from("a a a a")));
    assert!(table.has_room(&String::from("")));
}
