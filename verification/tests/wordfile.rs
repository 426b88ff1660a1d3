use std::io::Write;

use countdown_solver::builder::LoadError;
use countdown_solver::solver::{find_words, SolverArgs};
use countdown_solver::wordfile::{has_gzip_signature, load_words_from_bytes, load_words_from_plain};

fn gzip(plain: &[u8]) -> Vec<u8> {
    let mut encoder =
        flate2::write::GzEncoder::new(Vec::new(), flate2::Compression::default());
    encoder.write_all(plain).unwrap();
    encoder.finish().unwrap()
}

fn found(data: &[u8], max_len: usize, letters: &str) -> Vec<String> {
    let (dictionary, _) = load_words_from_bytes(data, max_len).unwrap();
    let mut words = find_words(SolverArgs {
        letters,
        dictionary: &dictionary,
        min_len: 1,
        reuse_letters: false,
        debug: false,
    });
    words.sort();
    words
}

#[test]
fn a_gzip_file_starts_with_its_two_bytes() {
    assert!(has_gzip_signature(&[0x1f, 0x8b]));
    assert!(has_gzip_signature(&[0x1f, 0x8b, 8, 0]));
    assert!(!has_gzip_signature(&[0x1f]));
    assert!(!has_gzip_signature(&[]));
    assert!(!has_gzip_signature(&[0x8b, 0x1f]));
    assert!(!has_gzip_signature(&[0x1f, 0x8c, 0]));
    assert!(!has_gzip_signature(b"rust\n"));
    assert!(has_gzip_signature(&gzip(b"rust\n")));
}

#[test]
fn lines_end_at_newlines() {
    let (dictionary, report) = load_words_from_plain(b"rut\nruts\nrust\n", 5).unwrap();
    assert_eq!(report.lines, 3);
    assert_eq!(report.too_short, 0);
    assert_eq!(report.wrong_case, 0);
    assert_eq!(dictionary.word_count(), 3);
}

#[test]
fn the_last_line_needs_no_newline() {
    let (dictionary, report) = load_words_from_plain(b"rut\nruts\nrust", 5).unwrap();
    assert_eq!(report.lines, 3);
    assert_eq!(dictionary.word_count(), 3);
}

#[test]
fn no_bytes_are_no_lines() {
    let (dictionary, report) = load_words_from_plain(b"", 5).unwrap();
    assert_eq!(report.lines, 0);
    assert_eq!(dictionary.word_count(), 0);
    assert_eq!(dictionary.len(), 1);
}

#[test]
fn empty_lines_are_lines() {
    let (dictionary, report) = load_words_from_plain(b"\n\nrut\n\n", 5).unwrap();
    assert_eq!(report.lines, 4);
    assert_eq!(report.too_short, 3);
    assert_eq!(dictionary.word_count(), 1);
}

#[test]
fn a_carriage_return_before_the_newline_is_no_part_of_the_line() {
    let (dictionary, report) = load_words_from_plain(b"rut\r\nruts\r\nrust\r\n", 4).unwrap();
    assert_eq!(report.lines, 3);
    assert_eq!(report.too_short, 0);
    assert_eq!(report.wrong_case, 0);
    assert_eq!(dictionary.word_count(), 3);
}

#[test]
fn a_carriage_return_elsewhere_is_part_of_the_line() {
    // at the end without a newline, in the middle, and twice before the newline
    let (dictionary, report) = load_words_from_plain(b"ru\rt\nrut\r\r\nrust\r", 5).unwrap();
    assert_eq!(report.lines, 3);
    assert_eq!(report.too_short, 0);
    assert_eq!(report.wrong_case, 3);
    assert_eq!(dictionary.word_count(), 0);
}

#[test]
fn a_line_that_is_no_text_ends_the_loading() {
    assert!(matches!(
        load_words_from_plain(b"rut\nru\xffs\nrust\n", 5),
        Err(LoadError::InvalidText)
    ));
    // a byte of a longer character alone
    assert!(matches!(
        load_words_from_plain(b"rut\n\xc3\nrust\n", 5),
        Err(LoadError::InvalidText)
    ));
    // the same bytes as a whole character are text, though no word
    let (dictionary, report) = load_words_from_plain(b"rut\n\xc3\xbc\nrust\n", 5).unwrap();
    assert_eq!(report.wrong_case, 1);
    assert_eq!(dictionary.word_count(), 2);
}

#[test]
fn the_first_line_that_fails_gives_the_error() {
    // the duplicate stands before the line that is no text
    match load_words_from_plain(b"rut\nrut\n\xff\n", 5) {
        Err(LoadError::DuplicateWord(word)) => assert_eq!(word, "rut"),
        other => panic!("{:?}", other.map(|l| l.1.lines)),
    }
    // the line that is no text stands before the duplicate
    assert!(matches!(
        load_words_from_plain(b"rut\n\xff\nrut\n", 5),
        Err(LoadError::InvalidText)
    ));
}

#[test]
fn a_packed_list_gives_what_the_list_gives() {
    let plain = b"aaa\nrut\nruts\nrust\nrusty\nxxx\n";
    let packed = gzip(plain);
    assert_ne!(&packed[..], &plain[..]);
    assert_eq!(found(plain, 5, "TRUSY"), vec!["RUST", "RUSTY", "RUT", "RUTS"]);
    assert_eq!(found(&packed, 5, "TRUSY"), vec!["RUST", "RUSTY", "RUT", "RUTS"]);
    let (dictionary, report) = load_words_from_bytes(&packed, 5).unwrap();
    assert_eq!(report.lines, 6);
    assert_eq!(dictionary.word_count(), 6);
    assert_eq!(dictionary.len(), 10);
}

#[test]
fn a_packed_list_may_hold_a_duplicate() {
    match load_words_from_bytes(&gzip(b"rust\nrust\n"), 5) {
        Err(LoadError::DuplicateWord(word)) => assert_eq!(word, "rust"),
        other => panic!("{:?}", other.map(|l| l.1.lines)),
    }
}

#[test]
fn a_broken_packed_list_is_an_error() {
    assert!(matches!(
        load_words_from_bytes(&[0x1f, 0x8b, 0, 0], 5),
        Err(LoadError::Io(_))
    ));
    let mut packed = gzip(b"aaa\nrut\nruts\nrust\nrusty\nxxx\n");
    packed.truncate(packed.len() - 6);
    assert!(matches!(
        load_words_from_bytes(&packed, 5),
        Err(LoadError::Io(_))
    ));
}

#[test]
fn plain_bytes_are_not_unpacked() {
    // the bytes of a packed list, read as they are, are no text
    let packed = gzip(b"rust\n");
    assert!(matches!(
        load_words_from_plain(&packed, 5),
        Err(LoadError::InvalidText)
    ));
}
