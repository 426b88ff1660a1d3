use countdown_solver::dictionary::LetterNext;
use countdown_solver::letters::{
    is_ascii_lower, lchar_to_elem, lower_letters, upper_letters, validate_letters, InvalidLetters,
};
use countdown_solver::solver::{chosen_string, debug_line, distinct_letters};

#[test]
fn letters_are_given_in_upper_case() {
    assert_eq!(validate_letters("trus"), Ok("TRUS".to_string()));
    assert_eq!(validate_letters("TrUs"), Ok("TRUS".to_string()));
    assert_eq!(validate_letters("AZ"), Ok("AZ".to_string()));
    assert_eq!(validate_letters("az"), Ok("AZ".to_string()));
}

#[test]
fn fewer_than_two_letters_are_refused() {
    assert_eq!(validate_letters(""), Err(InvalidLetters::TooShort));
    assert_eq!(validate_letters("a"), Err(InvalidLetters::TooShort));
    assert_eq!(validate_letters("1"), Err(InvalidLetters::TooShort));
}

#[test]
fn what_is_no_letter_is_refused() {
    assert_eq!(validate_letters("ab1"), Err(InvalidLetters::NotLetters));
    assert_eq!(validate_letters("a b"), Err(InvalidLetters::NotLetters));
    assert_eq!(validate_letters("@A"), Err(InvalidLetters::NotLetters));
    assert_eq!(validate_letters("A["), Err(InvalidLetters::NotLetters));
    assert_eq!(validate_letters("a`"), Err(InvalidLetters::NotLetters));
    assert_eq!(validate_letters("z{"), Err(InvalidLetters::NotLetters));
    // one character of two bytes
    assert_eq!(validate_letters("\u{fc}"), Err(InvalidLetters::NotLetters));
    assert_eq!(validate_letters("r\u{fc}st"), Err(InvalidLetters::NotLetters));
}

#[test]
fn errors_are_told_in_words() {
    assert_eq!(
        InvalidLetters::TooShort.message(),
        "At least 2 letters must be provided"
    );
    assert_eq!(InvalidLetters::NotLetters.message(), "Letters must be A-Z only");
}

#[test]
fn lower_case_is_told_apart() {
    assert!(is_ascii_lower("rust"));
    assert!(is_ascii_lower("az"));
    assert!(is_ascii_lower(""));
    assert!(!is_ascii_lower("Rust"));
    assert!(!is_ascii_lower("ru st"));
    assert!(!is_ascii_lower("rust1"));
    assert!(!is_ascii_lower("r\u{fc}st"));
    assert!(!is_ascii_lower("a`"));
    assert!(!is_ascii_lower("z{"));
}

#[test]
fn letters_are_numbered_from_zero() {
    assert_eq!(lchar_to_elem('a'), 0);
    assert_eq!(lchar_to_elem('c'), 2);
    assert_eq!(lchar_to_elem('z'), 25);
    assert_eq!(lower_letters("rust"), vec![17, 20, 18, 19]);
    assert_eq!(upper_letters("RUST"), vec![17, 20, 18, 19]);
    assert_eq!(upper_letters("AZ"), vec![0, 25]);
    assert_eq!(lower_letters(""), Vec::<u8>::new());
}

#[test]
fn numbers_are_spelled_in_upper_case() {
    assert_eq!(chosen_string(&vec![17, 20, 18, 19]), "RUST");
    assert_eq!(chosen_string(&vec![0, 25]), "AZ");
    assert_eq!(chosen_string(&vec![]), "");
}

#[test]
fn a_step_is_shown_with_its_mark() {
    assert_eq!(debug_line(&vec![17], LetterNext::Next(1)), "R (n)");
    assert_eq!(debug_line(&vec![17, 20], LetterNext::Absent), " RU (x)");
    assert_eq!(debug_line(&vec![17, 20, 19], LetterNext::End), "  RUT (e)");
    assert_eq!(
        debug_line(&vec![17, 20, 19], LetterNext::EndNext(3)),
        "  RUT (en)"
    );
}

#[test]
fn each_letter_once_in_the_order_of_the_alphabet() {
    assert_eq!(distinct_letters(&vec![19, 17, 20, 18]), vec![17, 18, 19, 20]);
    assert_eq!(distinct_letters(&vec![0, 0, 19, 17, 20, 20]), vec![0, 17, 19, 20]);
    assert_eq!(distinct_letters(&vec![25, 0, 25]), vec![0, 25]);
    assert_eq!(distinct_letters(&vec![]), Vec::<u8>::new());
}
