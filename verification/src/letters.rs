//! Letters as text and as numbers.
//!
//! The word list is written in lower case and the letters to search with in
//! upper case. Between the two, a letter is its number in the alphabet.

use vstd::prelude::*;
use vstd::string::*;
use vstd::utf8::*;

verus! {

/// The byte of `a`.
pub const LOWER_A: u8 = 97;

/// The byte of `z`.
pub const LOWER_Z: u8 = 122;

/// The byte of `A`.
pub const UPPER_A: u8 = 65;

/// The byte of `Z`.
pub const UPPER_Z: u8 = 90;

/// `String::push` of the standard library: the character is appended to the
/// end of the text, and the text before it stays as it was.
pub assume_specification[ String::push ](s: &mut String, ch: char)
    ensures
        final(s)@ == old(s)@.push(ch),
;

/// `c` is one of `a` to `z`.
pub open spec fn is_lower(c: char) -> bool {
    'a' <= c <= 'z'
}

/// `c` is one of `A` to `Z`.
pub open spec fn is_upper(c: char) -> bool {
    'A' <= c <= 'Z'
}

/// Every character is one of `a` to `z`.
pub open spec fn all_lower(s: Seq<char>) -> bool {
    forall|i: int| 0 <= i < s.len() ==> is_lower(#[trigger] s[i])
}

/// Every character is one of `A` to `Z`.
pub open spec fn all_upper(s: Seq<char>) -> bool {
    forall|i: int| 0 <= i < s.len() ==> is_upper(#[trigger] s[i])
}

/// The letter numbers of a text in lower case.
pub open spec fn lower_numbers(s: Seq<char>) -> Seq<u8> {
    Seq::new(s.len(), |i: int| (s[i] as u8 - LOWER_A) as u8)
}

/// The letter numbers of a text in upper case.
pub open spec fn upper_numbers(s: Seq<char>) -> Seq<u8> {
    Seq::new(s.len(), |i: int| (s[i] as u8 - UPPER_A) as u8)
}

/// The text in upper case of a sequence of letter numbers.
pub open spec fn upper_text(w: Seq<u8>) -> Seq<char> {
    Seq::new(w.len(), |i: int| (w[i] + UPPER_A) as u8 as char)
}

/// The texts of a list of strings.
pub open spec fn line_views(lines: Seq<String>) -> Seq<Seq<char>> {
    Seq::new(lines.len(), |i: int| lines[i]@)
}

/// The number of bytes that a text takes.
pub open spec fn byte_len(s: Seq<char>) -> nat {
    encode_utf8(s).len()
}

/// The number of a lower-case letter.
pub fn lchar_to_elem(c: char) -> (r: usize)
    requires
        is_lower(c),
    ensures
        r == c as u8 - LOWER_A,
        r < 26,
{
    (c as u8 - LOWER_A) as usize
}

/// Whether the text holds lower-case letters of the alphabet only.
pub fn is_ascii_lower(s: &str) -> (r: bool)
    ensures
        r == all_lower(s@),
{
    if !s.is_ascii() {
        return false;
    }
    let bytes = s.as_bytes();
    let mut i: usize = 0;
    while i < bytes.len()
        invariant
            0 <= i <= bytes@.len(),
            bytes@.len() == s@.len(),
            is_ascii_chars(s@),
            forall|k: int| 0 <= k < s@.len() ==> s@[k] as u8 == #[trigger] bytes@[k],
            forall|k: int| 0 <= k < i ==> is_lower(#[trigger] s@[k]),
        decreases bytes@.len() - i,
    {
        let b = bytes[i];
        if b < LOWER_A || b > LOWER_Z {
            return false;
        }
        i += 1;
    }
    true
}

/// The letter numbers of a word in lower case.
pub fn lower_letters(s: &str) -> (r: Vec<u8>)
    requires
        all_lower(s@),
    ensures
        r@ == lower_numbers(s@),
        r@.len() == byte_len(s@),
{
    proof {
        is_ascii_chars_encode_utf8(s@);
    }
    let bytes = s.as_bytes();
    let mut r: Vec<u8> = Vec::new();
    let mut i: usize = 0;
    while i < bytes.len()
        invariant
            0 <= i <= bytes@.len(),
            bytes@.len() == s@.len(),
            all_lower(s@),
            forall|k: int| 0 <= k < s@.len() ==> s@[k] as u8 == #[trigger] bytes@[k],
            r@ == lower_numbers(s@).take(i as int),
        decreases bytes@.len() - i,
    {
        let b = bytes[i];
        r.push(b - LOWER_A);
        i += 1;
    }
    r
}

/// The letter numbers of letters in upper case.
pub fn upper_letters(s: &str) -> (r: Vec<u8>)
    requires
        all_upper(s@),
    ensures
        r@ == upper_numbers(s@),
{
    proof {
        is_ascii_chars_encode_utf8(s@);
    }
    let bytes = s.as_bytes();
    let mut r: Vec<u8> = Vec::new();
    let mut i: usize = 0;
    while i < bytes.len()
        invariant
            0 <= i <= bytes@.len(),
            bytes@.len() == s@.len(),
            all_upper(s@),
            forall|k: int| 0 <= k < s@.len() ==> s@[k] as u8 == #[trigger] bytes@[k],
            r@ == upper_numbers(s@).take(i as int),
        decreases bytes@.len() - i,
    {
        let b = bytes[i];
        r.push(b - UPPER_A);
        i += 1;
    }
    r
}

/// Why letters to search with are refused.
#[derive(Copy, Clone, Debug, PartialEq, Eq, Structural)]
pub enum InvalidLetters {
    /// The text has fewer than two bytes.
    TooShort,
    /// The text holds something else than letters of the alphabet.
    NotLetters,
}

impl InvalidLetters {
    /// The words in which the error is told.
    pub open spec fn text(self) -> Seq<char> {
        match self {
            InvalidLetters::TooShort => "At least 2 letters must be provided"@,
            InvalidLetters::NotLetters => "Letters must be A-Z only"@,
        }
    }

    /// The words in which the error is told.
    pub fn message(&self) -> (r: String)
        ensures
            r@ == self.text(),
    {
        match self {
            InvalidLetters::TooShort => String::from_str("At least 2 letters must be provided"),
            InvalidLetters::NotLetters => String::from_str("Letters must be A-Z only"),
        }
    }
}

/// `c` is a letter of the alphabet, in either case.
pub open spec fn is_letter(c: char) -> bool {
    is_lower(c) || is_upper(c)
}

/// Every character is a letter of the alphabet.
pub open spec fn all_letters(s: Seq<char>) -> bool {
    forall|i: int| 0 <= i < s.len() ==> is_letter(#[trigger] s[i])
}

/// The letter in upper case.
pub open spec fn to_upper(c: char) -> char {
    if is_lower(c) {
        (c as u8 - LOWER_A + UPPER_A) as u8 as char
    } else {
        c
    }
}

/// The text with each letter in upper case.
pub open spec fn upper_cased(s: Seq<char>) -> Seq<char> {
    Seq::new(s.len(), |i: int| to_upper(s[i]))
}

/// A text in lower case, put in upper case, is the text in upper case of
/// its letter numbers.
pub proof fn lemma_lower_to_upper(s: Seq<char>)
    requires
        all_lower(s),
    ensures
        upper_cased(s) == upper_text(lower_numbers(s)),
        upper_numbers(upper_cased(s)) == lower_numbers(s),
        all_upper(upper_cased(s)),
{
}

/// Checks letters to search with, and gives them in upper case. They are
/// refused if they take fewer than two bytes, and otherwise if one of them
/// is no letter of the alphabet.
pub fn validate_letters(s: &str) -> (r: Result<String, InvalidLetters>)
    ensures
        match r {
            Ok(u) => byte_len(s@) >= 2 && all_letters(s@) && u@ == upper_cased(s@) && all_upper(u@),
            Err(InvalidLetters::TooShort) => byte_len(s@) < 2,
            Err(InvalidLetters::NotLetters) => byte_len(s@) >= 2 && !all_letters(s@),
        },
{
    let bytes = s.as_bytes();
    if bytes.len() < 2 {
        return Err(InvalidLetters::TooShort);
    }
    if !s.is_ascii() {
        return Err(InvalidLetters::NotLetters);
    }
    let mut upper = String::new();
    let mut i: usize = 0;
    while i < bytes.len()
        invariant
            0 <= i <= bytes@.len(),
            bytes@.len() == s@.len(),
            is_ascii_chars(s@),
            forall|k: int| 0 <= k < s@.len() ==> s@[k] as u8 == #[trigger] bytes@[k],
            forall|k: int| 0 <= k < i ==> is_letter(#[trigger] s@[k]),
            byte_len(s@) >= 2,
            upper@ == upper_cased(s@).take(i as int),
        decreases bytes@.len() - i,
    {
        let b = bytes[i];
        if LOWER_A <= b && b <= LOWER_Z {
            upper.push((b - LOWER_A + UPPER_A) as char);
        } else if UPPER_A <= b && b <= UPPER_Z {
            upper.push(b as char);
        } else {
            return Err(InvalidLetters::NotLetters);
        }
        i += 1;
    }
    Ok(upper)
}

} // verus!
