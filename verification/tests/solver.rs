use countdown_solver::dictionary::{Dictionary, LetterNext};
use countdown_solver::solver::{find_words, search, SolverArgs};
use countdown_solver::wordfile::load_words_from_bytes;

fn dictionary_of(text: &str, max_len: usize) -> Dictionary {
    load_words_from_bytes(text.as_bytes(), max_len).unwrap().0
}

const RUSTY: &str = "\
    aaa\n\
    rut\n\
    ruts\n\
    rust\n\
    rusty\n\
    xxx\n\
    ";

fn sorted(mut words: Vec<String>) -> Vec<String> {
    words.sort();
    words
}

#[test]
fn lib_size_checks() {
    assert_eq!(8, std::mem::size_of::<LetterNext>());
}

#[test]
fn lib_rust() {
    // Create dictionary with one word in it "rust"
    let dictionary = dictionary_of("rust", 4);

    // Find words
    let words = find_words(SolverArgs {
        letters: "TRUS",
        dictionary: &dictionary,
        min_len: 1,
        reuse_letters: false,
        debug: true,
    });

    // Should be one found
    assert_eq!(words, vec!["RUST"]);
}

#[test]
fn lib_rusty() {
    // Create dictionary with some rusty words in it
    let dict = "\
        aaa\n\
        rut\n\
        ruts\n\
        rust\n\
        rusty\n\
        xxx\n\
        ";
    let dictionary = dictionary_of(dict, 5);

    // Find words
    let mut words = find_words(SolverArgs {
        letters: "TRUS",
        dictionary: &dictionary,
        min_len: 1,
        reuse_letters: false,
        debug: true,
    });

    words.sort();

    assert_eq!(words, vec!["RUST", "RUT", "RUTS"]);
}

#[test]
fn main_size_checks() {
    assert_eq!(8, std::mem::size_of::<LetterNext>());
}

#[test]
fn main_rust() {
    // Create dictionary with one word in it "rust"
    let dictionary = load_words_from_bytes("rust".as_bytes(), 4).unwrap().0;

    // Find words
    let words = find_words(SolverArgs {
        letters: "TRUS",
        dictionary: &dictionary,
        min_len: 1,
        reuse_letters: false,
        debug: true,
    });

    // Should be one found
    assert_eq!(words, vec!["RUST"]);
}

#[test]
fn main_rusty() {
    // Create dictionary with some rusty words in it
    let dict = "\
        aaa\n\
        rut\n\
        ruts\n\
        rust\n\
        rusty\n\
        xxx\n\
        ";
    let dictionary = load_words_from_bytes(dict.as_bytes(), 5).unwrap().0;

    // Find words
    let mut words = find_words(SolverArgs {
        letters: "TRUS",
        dictionary: &dictionary,
        min_len: 1,
        reuse_letters: false,
        debug: true,
    });

    words.sort();

    assert_eq!(words, vec!["RUST", "RUT", "RUTS"]);
}

#[test]
fn rusty_with_a_y_finds_rusty() {
    let dictionary = dictionary_of(RUSTY, 5);
    let words = find_words(SolverArgs {
        letters: "TRUSY",
        dictionary: &dictionary,
        min_len: 1,
        reuse_letters: false,
        debug: false,
    });
    assert_eq!(sorted(words), vec!["RUST", "RUSTY", "RUT", "RUTS"]);
}

#[test]
fn repeated_letters_give_a_word_once() {
    let dictionary = dictionary_of("aa", 2);
    let words = find_words(SolverArgs {
        letters: "AA",
        dictionary: &dictionary,
        min_len: 2,
        reuse_letters: false,
        debug: false,
    });
    assert_eq!(words, vec!["AA"]);
}

#[test]
fn one_letter_cannot_be_used_twice() {
    let dictionary = dictionary_of("aa\nab\n", 2);
    let words = find_words(SolverArgs {
        letters: "AB",
        dictionary: &dictionary,
        min_len: 1,
        reuse_letters: false,
        debug: false,
    });
    assert_eq!(words, vec!["AB"]);
}

#[test]
fn reuse_finds_words_with_repeated_letters() {
    let dictionary = dictionary_of("aaa\nrut\nruts\nrust\nrusty\nxxx\ntutu\n", 5);
    let once = find_words(SolverArgs {
        letters: "TRUSA",
        dictionary: &dictionary,
        min_len: 1,
        reuse_letters: false,
        debug: false,
    });
    let again = find_words(SolverArgs {
        letters: "TRUSA",
        dictionary: &dictionary,
        min_len: 1,
        reuse_letters: true,
        debug: false,
    });
    assert_eq!(sorted(once.clone()), vec!["RUST", "RUT", "RUTS"]);
    assert_eq!(sorted(again.clone()), vec!["AAA", "RUST", "RUT", "RUTS", "TUTU"]);
    for word in &once {
        assert!(again.contains(word));
    }
}

#[test]
fn reuse_with_repeated_letters_in_the_bag() {
    let dictionary = dictionary_of("aaa\nrut\n", 6);
    let words = find_words(SolverArgs {
        letters: "AATRUU",
        dictionary: &dictionary,
        min_len: 1,
        reuse_letters: true,
        debug: false,
    });
    assert_eq!(sorted(words), vec!["AAA", "RUT"]);
}

#[test]
fn short_words_are_left_out() {
    let dictionary = dictionary_of(RUSTY, 5);
    let words = find_words(SolverArgs {
        letters: "TRUSY",
        dictionary: &dictionary,
        min_len: 4,
        reuse_letters: false,
        debug: false,
    });
    assert_eq!(sorted(words.clone()), vec!["RUST", "RUSTY", "RUTS"]);
    for word in &words {
        assert!(word.len() >= 4);
    }
    let none = find_words(SolverArgs {
        letters: "TRUSY",
        dictionary: &dictionary,
        min_len: 6,
        reuse_letters: false,
        debug: false,
    });
    assert!(none.is_empty());
}

#[test]
fn no_word_is_an_empty_result() {
    let dictionary = dictionary_of(RUSTY, 5);
    let words = find_words(SolverArgs {
        letters: "QQ",
        dictionary: &dictionary,
        min_len: 1,
        reuse_letters: false,
        debug: false,
    });
    assert!(words.is_empty());
}

#[test]
fn every_word_is_found_with_its_own_letters() {
    let dictionary = dictionary_of(RUSTY, 5);
    for word in ["AAA", "RUT", "RUTS", "RUST", "RUSTY", "XXX"] {
        let words = find_words(SolverArgs {
            letters: word,
            dictionary: &dictionary,
            min_len: word.len() as u8,
            reuse_letters: false,
            debug: false,
        });
        assert!(words.contains(&word.to_string()), "{} not found", word);
    }
}

#[test]
fn the_result_has_no_word_twice() {
    let dictionary = dictionary_of("aa\naab\naba\nbaa\n", 4);
    let words = find_words(SolverArgs {
        letters: "AABA",
        dictionary: &dictionary,
        min_len: 1,
        reuse_letters: false,
        debug: false,
    });
    assert_eq!(sorted(words), vec!["AA", "AAB", "ABA", "BAA"]);
}

#[test]
fn steps_are_recorded_in_the_order_of_the_search() {
    let dictionary = dictionary_of("ab\nabc\nb\nba\n", 3);
    let found = search(SolverArgs {
        letters: "AB",
        dictionary: &dictionary,
        min_len: 1,
        reuse_letters: false,
        debug: true,
    });
    assert_eq!(found.trace, vec!["A (n)", " AB (en)", "B (n)", " BA (e)"]);
    assert_eq!(sorted(found.words), vec!["AB", "BA"]);
}

#[test]
fn steps_are_recorded_with_reuse() {
    let dictionary = dictionary_of("aa\nab\n", 2);
    let found = search(SolverArgs {
        letters: "BAB",
        dictionary: &dictionary,
        min_len: 1,
        reuse_letters: true,
        debug: true,
    });
    assert_eq!(found.trace, vec!["A (n)", " AA (e)", " AB (e)", "B (x)"]);
    assert_eq!(sorted(found.words), vec!["AA", "AB"]);
}

#[test]
fn no_steps_without_debug() {
    let dictionary = dictionary_of(RUSTY, 5);
    let found = search(SolverArgs {
        letters: "TRUS",
        dictionary: &dictionary,
        min_len: 1,
        reuse_letters: false,
        debug: false,
    });
    assert!(found.trace.is_empty());
    assert_eq!(sorted(found.words), vec!["RUST", "RUT", "RUTS"]);
}
