use countdown_solver::results::{columns, group_by_length, rank_words, sort_words, Group, Rank};

fn words_of(text: &[&str]) -> Vec<String> {
    text.iter().map(|w| w.to_string()).collect()
}

#[test]
fn longer_words_come_first() {
    let mut words = words_of(&["RUT", "RUSTY", "RUST", "RUTS", "AT", "XXX"]);
    sort_words(&mut words);
    assert_eq!(words, vec!["RUSTY", "RUST", "RUTS", "RUT", "XXX", "AT"]);
}

#[test]
fn sorting_is_by_length_then_bytes() {
    let mut words = words_of(&["b", "a", "B", "ab", "aB", "r\u{fc}", "zz", "z", ""]);
    let mut expected = words.clone();
    expected.sort_by(|a, b| b.len().cmp(&a.len()).then(a.cmp(b)));
    sort_words(&mut words);
    assert_eq!(words, expected);
    assert_eq!(words, vec!["r\u{fc}", "aB", "ab", "zz", "B", "a", "b", "z", ""]);
}

#[test]
fn sorting_keeps_every_word() {
    let mut words = words_of(&["B", "A", "B", "AA", "A"]);
    sort_words(&mut words);
    assert_eq!(words, vec!["AA", "A", "A", "B", "B"]);
    let mut none: Vec<String> = Vec::new();
    sort_words(&mut none);
    assert!(none.is_empty());
}

#[test]
fn words_are_ranked_by_length_then_bytes() {
    let rank = |a: &str, b: &str| rank_words(&a.to_string(), &b.to_string());
    assert_eq!(rank("RUSTY", "RUT"), Rank::Before);
    assert_eq!(rank("RUT", "RUSTY"), Rank::After);
    assert_eq!(rank("RUST", "RUTS"), Rank::Before);
    assert_eq!(rank("RUTS", "RUST"), Rank::After);
    assert_eq!(rank("RUST", "RUST"), Rank::Same);
    assert_eq!(rank("", ""), Rank::Same);
    assert_eq!(rank("A", ""), Rank::Before);
    assert_eq!(rank("Z", "AA"), Rank::After);
    assert_eq!(rank("ab", "aB"), Rank::After);
    assert_eq!(rank("r\u{fc}", "rut"), Rank::After);
    assert_eq!(rank("r\u{fc}", "rua"), Rank::After);
}

#[test]
fn words_of_one_length_are_a_group() {
    let words = words_of(&["RUSTY", "RUST", "RUTS", "RUT", "XXX", "AT"]);
    assert_eq!(
        group_by_length(&words),
        vec![
            Group { word_len: 5, start: 0, end: 1 },
            Group { word_len: 4, start: 1, end: 3 },
            Group { word_len: 3, start: 3, end: 5 },
            Group { word_len: 2, start: 5, end: 6 },
        ]
    );
    assert_eq!(group_by_length(&words_of(&[])), vec![]);
    assert_eq!(
        group_by_length(&words_of(&["AB"])),
        vec![Group { word_len: 2, start: 0, end: 1 }]
    );
}

#[test]
fn a_group_is_a_run_in_the_list() {
    // the same length again after another is a group of its own
    let words = words_of(&["AB", "ABC", "CD", "EF"]);
    assert_eq!(
        group_by_length(&words),
        vec![
            Group { word_len: 2, start: 0, end: 1 },
            Group { word_len: 3, start: 1, end: 2 },
            Group { word_len: 2, start: 2, end: 4 },
        ]
    );
}

#[test]
fn empty_words_stand_in_no_group() {
    let words = words_of(&["", "AB", "", "", "CD", ""]);
    assert_eq!(
        group_by_length(&words),
        vec![
            Group { word_len: 2, start: 1, end: 2 },
            Group { word_len: 2, start: 4, end: 5 },
        ]
    );
}

#[test]
fn columns_fill_the_width() {
    // 79 columns to use, 6 for each word of 4 letters
    assert_eq!(columns(80, 4), 13);
    assert_eq!(columns(80, 9), 7);
    assert_eq!(columns(13, 4), 2);
    assert_eq!(columns(12, 4), 1);
    assert_eq!(columns(65535, 0), 32767);
}

#[test]
fn a_line_holds_one_word_at_least() {
    assert_eq!(columns(5, 10), 1);
    assert_eq!(columns(1, 0), 1);
    assert_eq!(columns(7, 4), 1);
    assert_eq!(columns(80, usize::MAX), 1);
    assert_eq!(columns(80, usize::MAX - 1), 1);
    assert_eq!(columns(80, usize::MAX - 2), 1);
}

#[test]
fn an_unknown_width_is_one_column() {
    assert_eq!(columns(0, 4), 1);
    assert_eq!(columns(0, 0), 1);
}
