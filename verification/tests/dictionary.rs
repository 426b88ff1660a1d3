use countdown_solver::builder::{load_words, DictionaryBuilder, LineKind, LoadError};
use countdown_solver::dictionary::{max_nodes, LetterNext, ALPHABET, SLOT_SIZE};

fn lines_of(text: &[&str]) -> Vec<String> {
    text.iter().map(|l| l.to_string()).collect()
}

#[test]
fn an_empty_dictionary_is_the_root_alone() {
    let dictionary = DictionaryBuilder::new(5).finish();
    assert_eq!(dictionary.word_count(), 0);
    assert_eq!(dictionary.len(), 1);
    assert_eq!(dictionary.mem_usage(), 208);
    for letter in 0..26u8 {
        assert!(matches!(
            dictionary.lookup_elem_letter(0, letter),
            LetterNext::Absent
        ));
    }
}

#[test]
fn one_word_is_a_chain_of_nodes() {
    let (dictionary, _) = load_words(&lines_of(&["rust"]), 4).unwrap();
    assert_eq!(dictionary.word_count(), 1);
    assert_eq!(dictionary.len(), 4);
    assert_eq!(dictionary.mem_usage(), 4 * SLOT_SIZE * ALPHABET);
    assert_eq!(dictionary.mem_usage(), 832);
    assert!(matches!(dictionary.lookup_elem_letter(0, 17), LetterNext::Next(1)));
    assert!(matches!(dictionary.lookup_elem_letter(1, 20), LetterNext::Next(2)));
    assert!(matches!(dictionary.lookup_elem_letter(2, 18), LetterNext::Next(3)));
    assert!(matches!(dictionary.lookup_elem_letter(3, 19), LetterNext::End));
    assert!(matches!(dictionary.lookup_elem_letter(0, 0), LetterNext::Absent));
    assert!(matches!(dictionary.lookup_elem_letter(3, 18), LetterNext::Absent));
}

#[test]
fn a_longer_word_turns_an_end_into_a_way_on() {
    let mut builder = DictionaryBuilder::new(5);
    assert_eq!(builder.add_line("rut").unwrap(), LineKind::Word);
    assert_eq!(builder.add_line("ruts").unwrap(), LineKind::Word);
    let dictionary = builder.finish();
    assert_eq!(dictionary.word_count(), 2);
    // root, r, ru, rut
    assert_eq!(dictionary.len(), 4);
    assert!(matches!(dictionary.lookup_elem_letter(2, 19), LetterNext::EndNext(3)));
    assert!(matches!(dictionary.lookup_elem_letter(3, 18), LetterNext::End));
}

#[test]
fn a_shorter_word_marks_a_way_on_as_an_end() {
    let mut builder = DictionaryBuilder::new(5);
    assert_eq!(builder.add_line("ruts").unwrap(), LineKind::Word);
    assert!(matches!(
        builder.add_line("x"),
        Ok(LineKind::WrongLength)
    ));
    assert_eq!(builder.add_line("rut").unwrap(), LineKind::Word);
    let dictionary = builder.finish();
    assert_eq!(dictionary.word_count(), 2);
    assert_eq!(dictionary.len(), 4);
    assert!(matches!(dictionary.lookup_elem_letter(0, 17), LetterNext::Next(1)));
    assert!(matches!(dictionary.lookup_elem_letter(2, 19), LetterNext::EndNext(3)));
    assert!(matches!(dictionary.lookup_elem_letter(3, 18), LetterNext::End));
}

#[test]
fn words_share_the_nodes_of_their_common_start() {
    let (dictionary, _) =
        load_words(&lines_of(&["aaa", "rut", "ruts", "rust", "rusty", "xxx"]), 5).unwrap();
    assert_eq!(dictionary.word_count(), 6);
    // root; a, aa; r, ru, rut, rus, rust; x, xx
    assert_eq!(dictionary.len(), 10);
    assert_eq!(dictionary.mem_usage(), 2080);
}

#[test]
fn looking_up_twice_gives_the_same() {
    let (dictionary, _) = load_words(&lines_of(&["rut", "ruts", "rust"]), 5).unwrap();
    for node in 0..dictionary.len() {
        for letter in 0..26u8 {
            let first = dictionary.lookup_elem_letter(node, letter);
            let second = dictionary.lookup_elem_letter(node, letter);
            assert_eq!(format!("{:?}", first), format!("{:?}", second));
        }
    }
}

#[test]
fn the_same_word_twice_is_an_error() {
    let mut builder = DictionaryBuilder::new(5);
    assert_eq!(builder.add_line("rust").unwrap(), LineKind::Word);
    match builder.add_line("rust") {
        Err(LoadError::DuplicateWord(word)) => assert_eq!(word, "rust"),
        other => panic!("{:?}", other),
    }
    // the words are as they were
    let dictionary = builder.finish();
    assert_eq!(dictionary.word_count(), 1);
    assert_eq!(dictionary.len(), 4);
}

#[test]
fn the_same_word_twice_ends_the_loading() {
    match load_words(&lines_of(&["rut", "rust", "x", "rut", "rust"]), 5) {
        Err(LoadError::DuplicateWord(word)) => assert_eq!(word, "rut"),
        other => panic!("{:?}", other.map(|l| l.1.lines)),
    }
}

#[test]
fn a_start_of_a_word_is_no_duplicate() {
    let (dictionary, _) = load_words(&lines_of(&["rusty", "rust", "ru"]), 5).unwrap();
    assert_eq!(dictionary.word_count(), 3);
    assert_eq!(dictionary.len(), 5);
}

#[test]
fn lines_that_are_no_words_are_counted() {
    let lines = lines_of(&[
        "rust", "a", "", "toolong", "Rust", "ru st", "r\u{fc}st", "ab", "r\u{fc}s", "abcde",
    ]);
    let (dictionary, report) = load_words(&lines, 5).unwrap();
    assert_eq!(report.lines, 10);
    // "a", "", "toolong"
    assert_eq!(report.too_short, 3);
    // "Rust", "ru st", "rüst" (five bytes), "rüs"
    assert_eq!(report.wrong_case, 4);
    assert_eq!(dictionary.word_count(), 3);
}

#[test]
fn length_is_counted_in_bytes() {
    let mut builder = DictionaryBuilder::new(4);
    // four characters, five bytes
    assert_eq!(builder.add_line("r\u{fc}st").unwrap(), LineKind::WrongLength);
    // one character, two bytes
    assert_eq!(builder.add_line("\u{fc}").unwrap(), LineKind::WrongCase);
    assert_eq!(builder.add_line("abcd").unwrap(), LineKind::Word);
    assert_eq!(builder.add_line("abcde").unwrap(), LineKind::WrongLength);
    assert_eq!(builder.add_line("ab").unwrap(), LineKind::Word);
    assert_eq!(builder.add_line("a").unwrap(), LineKind::WrongLength);
    assert_eq!(builder.add_line("aB").unwrap(), LineKind::WrongCase);
    assert_eq!(builder.add_line("a-").unwrap(), LineKind::WrongCase);
    assert_eq!(builder.add_line("az").unwrap(), LineKind::Word);
    assert_eq!(builder.add_line("a{").unwrap(), LineKind::WrongCase);
    assert_eq!(builder.add_line("a`").unwrap(), LineKind::WrongCase);
}

#[test]
fn a_tree_may_have_as_many_nodes_as_fit() {
    let most = max_nodes();
    assert!(most <= 0xFFFF_FFFF);
    assert!(most.checked_mul(208).is_some());
    assert_eq!(most, std::cmp::min(0xFFFF_FFFF, usize::MAX / 208));
}
