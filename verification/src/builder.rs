//! Building a dictionary from the lines of a word list.
//!
//! A line becomes a word if it has at least two bytes, no more than the
//! longest length asked for, and lower-case letters only. Other lines are
//! passed over. The same word twice is an error.

use vstd::prelude::*;
use vstd::string::*;
use crate::dictionary::{is_letters, max_nodes, node_count, spec_max_nodes, Dictionary};
use crate::letters::{
    all_lower, byte_len, is_ascii_lower, line_views, lower_letters, lower_numbers,
};

verus! {

/// What becomes of a line of the word list.
#[derive(Copy, Clone, Debug, PartialEq, Eq, Structural)]
pub enum LineKind {
    /// The line is a word.
    Word,
    /// The line is shorter than two bytes or longer than the longest length.
    WrongLength,
    /// The line has the right length, and holds something else than
    /// lower-case letters.
    WrongCase,
}

/// The error type of `std::io`, which Verus carries without looking inside.
#[verifier::external_type_specification]
#[verifier::external_body]
pub struct ExIoError(std::io::Error);

/// Why a word list could not be taken in.
#[derive(Debug)]
pub enum LoadError {
    /// The word stood in the list before.
    DuplicateWord(String),
    /// The tree has no room for the nodes that the word may need.
    TooLarge,
    /// A line is no text in UTF-8.
    InvalidText,
    /// The list is compressed, and could not be unpacked.
    Io(std::io::Error),
}

/// What becomes of `line` where the longest length is `max_len`.
pub open spec fn line_kind(line: Seq<char>, max_len: nat) -> LineKind {
    if byte_len(line) < 2 || byte_len(line) > max_len {
        LineKind::WrongLength
    } else if !all_lower(line) {
        LineKind::WrongCase
    } else {
        LineKind::Word
    }
}

/// `line` is a word that `words` holds already.
pub open spec fn is_duplicate(words: Set<Seq<u8>>, max_len: nat, line: Seq<char>) -> bool {
    line_kind(line, max_len) is Word && words.contains(lower_numbers(line))
}

/// `line` is a new word, and the tree of `words` with a node for each of
/// its letters but the last would be larger than a tree may be.
pub open spec fn is_too_large(words: Set<Seq<u8>>, max_len: nat, line: Seq<char>) -> bool {
    &&& line_kind(line, max_len) is Word
    &&& !words.contains(lower_numbers(line))
    &&& node_count(words) + byte_len(line) - 1 > spec_max_nodes()
}

/// Line `i` of `lines` is the word `w`.
pub open spec fn is_line_of(lines: Seq<Seq<char>>, max_len: nat, i: int, w: Seq<u8>) -> bool {
    0 <= i < lines.len() && line_kind(lines[i], max_len) is Word && lower_numbers(lines[i]) == w
}

/// The words among `lines`.
pub open spec fn words_of(lines: Seq<Seq<char>>, max_len: nat) -> Set<Seq<u8>> {
    Set::new(|w: Seq<u8>| exists|i: int| #[trigger] is_line_of(lines, max_len, i, w))
}

/// How many of `lines` are of kind `kind`.
pub open spec fn count_kind(lines: Seq<Seq<char>>, max_len: nat, kind: LineKind) -> nat
    decreases lines.len(),
{
    if lines.len() == 0 {
        0
    } else {
        count_kind(lines.drop_last(), max_len, kind) + if line_kind(lines.last(), max_len) == kind {
            1nat
        } else {
            0nat
        }
    }
}

/// Taking the lines in order, line `j` cannot be added to the words of the
/// lines before it.
pub open spec fn fails_at(lines: Seq<Seq<char>>, max_len: nat, j: int) -> bool {
    let before = words_of(lines.take(j), max_len);
    is_duplicate(before, max_len, lines[j]) || is_too_large(before, max_len, lines[j])
}

/// Line `j` is the first that cannot be added.
pub open spec fn first_failure(lines: Seq<Seq<char>>, max_len: nat, j: int) -> bool {
    &&& 0 <= j < lines.len()
    &&& fails_at(lines, max_len, j)
    &&& forall|i: int| 0 <= i < j ==> !#[trigger] fails_at(lines, max_len, i)
}

/// `e` is the error that line `j` gives: that its word stood in the list
/// before, with the line's text, or else that the tree has no room.
pub open spec fn is_error_at(lines: Seq<Seq<char>>, max_len: nat, j: int, e: LoadError) -> bool {
    let before = words_of(lines.take(j), max_len);
    match e {
        LoadError::DuplicateWord(s) => is_duplicate(before, max_len, lines[j]) && s@ == lines[j],
        LoadError::TooLarge => is_too_large(before, max_len, lines[j]),
        _ => false,
    }
}

/// What the lines that were passed over came to.
pub struct LoadReport {
    /// The number of lines.
    pub lines: usize,
    /// The lines that were too short or too long.
    pub too_short: usize,
    /// The lines of the right length that held something else than
    /// lower-case letters.
    pub wrong_case: usize,
}

/// One more line adds its word, if it is one, and counts under its kind.
pub proof fn lemma_one_more_line(lines: Seq<Seq<char>>, max_len: nat, j: int)
    requires
        0 <= j < lines.len(),
    ensures
        words_of(lines.take(j + 1), max_len) == if line_kind(lines[j], max_len) is Word {
            words_of(lines.take(j), max_len).insert(lower_numbers(lines[j]))
        } else {
            words_of(lines.take(j), max_len)
        },
        forall|kind: LineKind| #[trigger]
            count_kind(lines.take(j + 1), max_len, kind) == count_kind(lines.take(j), max_len, kind)
                + if line_kind(lines[j], max_len) == kind {
                1nat
            } else {
                0nat
            },
{
    let a = lines.take(j);
    let b = lines.take(j + 1);
    assert(b.drop_last() =~= a);
    let wj = lower_numbers(lines[j]);
    let grown = if line_kind(lines[j], max_len) is Word {
        words_of(a, max_len).insert(wj)
    } else {
        words_of(a, max_len)
    };
    assert forall|w: Seq<u8>| words_of(b, max_len).contains(w) implies grown.contains(w) by {
        let i = choose|i: int| #[trigger] is_line_of(b, max_len, i, w);
        if i < j {
            assert(is_line_of(a, max_len, i, w));
        }
    }
    assert forall|w: Seq<u8>| grown.contains(w) implies words_of(b, max_len).contains(w) by {
        if words_of(a, max_len).contains(w) {
            let i = choose|i: int| #[trigger] is_line_of(a, max_len, i, w);
            assert(is_line_of(b, max_len, i, w));
        } else {
            assert(is_line_of(b, max_len, j, w));
        }
    }
}

/// Whether a line can be added depends on the lines up to it alone.
pub proof fn lemma_fails_at_start(a: Seq<Seq<char>>, b: Seq<Seq<char>>, max_len: nat, j: int)
    requires
        0 <= j < a.len(),
        j < b.len(),
        a.take(j + 1) == b.take(j + 1),
    ensures
        fails_at(a, max_len, j) == fails_at(b, max_len, j),
{
    assert(a.take(j) =~= a.take(j + 1).take(j));
    assert(b.take(j) =~= b.take(j + 1).take(j));
    assert(a[j] == a.take(j + 1)[j]);
}

/// A word among the lines has at least two letters and no more than the
/// longest length, and only letters of the alphabet.
pub proof fn lemma_words_of_fit(lines: Seq<Seq<char>>, max_len: nat, w: Seq<u8>)
    requires
        words_of(lines, max_len).contains(w),
    ensures
        2 <= w.len() <= max_len,
        is_letters(w),
{
    let i = choose|i: int| #[trigger] is_line_of(lines, max_len, i, w);
    let line = lines[i];
    vstd::utf8::is_ascii_chars_encode_utf8(line);
}

/// A dictionary that takes lines.
pub struct DictionaryBuilder {
    dictionary: Dictionary,
    max_len: usize,
}

impl DictionaryBuilder {
    /// The builder holds a tree in order, and no word longer than the
    /// longest length.
    pub closed spec fn wf(&self) -> bool {
        &&& self.dictionary.wf()
        &&& forall|w: Seq<u8>| #[trigger] self.dictionary@.contains(w) ==> w.len() <= self.max_len
    }

    /// Every word taken has at least two letters and no more than the
    /// longest length, and only letters of the alphabet.
    pub proof fn lemma_words_fit(&self, w: Seq<u8>)
        requires
            self.wf(),
            self.words().contains(w),
        ensures
            2 <= w.len() <= self.max_len(),
            is_letters(w),
    {
        self.dictionary.lemma_words_valid(w);
    }

    /// The words taken so far.
    pub closed spec fn words(&self) -> Set<Seq<u8>> {
        self.dictionary@
    }

    /// The longest length a word may have.
    pub closed spec fn max_len(&self) -> nat {
        self.max_len as nat
    }

    /// A builder without words, for words of up to `max_len` letters.
    pub fn new(max_len: usize) -> (b: DictionaryBuilder)
        ensures
            b.wf(),
            b.words() == Set::<Seq<u8>>::empty(),
            b.max_len() == max_len,
    {
        DictionaryBuilder { dictionary: Dictionary::new(), max_len }
    }

    /// Takes one line. A line that is no word is passed over, and its kind
    /// returned. A word is added, unless it is there already or the tree has
    /// no room: both are errors, and leave the words as they were.
    pub fn add_line(&mut self, line: &str) -> (r: Result<LineKind, LoadError>)
        requires
            old(self).wf(),
        ensures
            final(self).wf(),
            final(self).max_len() == old(self).max_len(),
            is_duplicate(old(self).words(), old(self).max_len(), line@) ==> (r matches Err(
                LoadError::DuplicateWord(s),
            ) && s@ == line@) && final(self).words() == old(self).words(),
            is_too_large(old(self).words(), old(self).max_len(), line@) ==> (r matches Err(
                LoadError::TooLarge,
            )) && final(self).words() == old(self).words(),
            !is_duplicate(old(self).words(), old(self).max_len(), line@) && !is_too_large(
                old(self).words(),
                old(self).max_len(),
                line@,
            ) ==> (r matches Ok(kind) && kind == line_kind(line@, old(self).max_len()))
                && final(self).words() == if line_kind(line@, old(self).max_len()) is Word {
                old(self).words().insert(lower_numbers(line@))
            } else {
                old(self).words()
            },
    {
        let length = line.as_bytes().len();
        if length < 2 || length > self.max_len {
            return Ok(LineKind::WrongLength);
        }
        if !is_ascii_lower(line) {
            return Ok(LineKind::WrongCase);
        }
        let word = lower_letters(line);
        proof {
            self.dictionary.lemma_root();
        }
        let room = max_nodes() - self.dictionary.len();
        if length - 1 > room {
            if self.dictionary.contains(&word) {
                return Err(LoadError::DuplicateWord(line.to_owned()));
            } else {
                return Err(LoadError::TooLarge);
            }
        }
        if self.dictionary.insert(&word) {
            Ok(LineKind::Word)
        } else {
            Err(LoadError::DuplicateWord(line.to_owned()))
        }
    }

    /// The dictionary of the words taken.
    pub fn finish(self) -> (d: Dictionary)
        requires
            self.wf(),
        ensures
            d.wf(),
            d@ == self.words(),
    {
        self.dictionary
    }
}

/// Builds the dictionary of the words among `lines`, taking the lines in
/// order. The first line that cannot be added, because its word stood in
/// the list before or because the tree has no room for it, ends the
/// building with its error.
pub fn load_words(lines: &Vec<String>, max_len: usize) -> (r: Result<
    (Dictionary, LoadReport),
    LoadError,
>)
    ensures
        match r {
            Ok((d, report)) => {
                &&& d.wf()
                &&& forall|j: int|
                    0 <= j < lines@.len() ==> !#[trigger] fails_at(
                        line_views(lines@),
                        max_len as nat,
                        j,
                    )
                &&& d@ == words_of(line_views(lines@), max_len as nat)
                &&& report.lines == lines@.len()
                &&& report.too_short == count_kind(
                    line_views(lines@),
                    max_len as nat,
                    LineKind::WrongLength,
                )
                &&& report.wrong_case == count_kind(
                    line_views(lines@),
                    max_len as nat,
                    LineKind::WrongCase,
                )
            },
            Err(e) => exists|j: int| #[trigger]
                first_failure(line_views(lines@), max_len as nat, j) && is_error_at(
                    line_views(lines@),
                    max_len as nat,
                    j,
                    e,
                ),
        },
{
    let mut builder = DictionaryBuilder::new(max_len);
    let mut too_short: usize = 0;
    let mut wrong_case: usize = 0;
    let ghost all = line_views(lines@);
    let ghost max = max_len as nat;
    let mut j: usize = 0;
    while j < lines.len()
        invariant
            0 <= j <= lines@.len(),
            all == line_views(lines@),
            max == max_len as nat,
            builder.wf(),
            builder.max_len() == max,
            builder.words() == words_of(all.take(j as int), max),
            forall|i: int| 0 <= i < j ==> !#[trigger] fails_at(all, max, i),
            too_short == count_kind(all.take(j as int), max, LineKind::WrongLength),
            wrong_case == count_kind(all.take(j as int), max, LineKind::WrongCase),
            too_short + wrong_case <= j,
        decreases lines@.len() - j,
    {
        proof {
            lemma_one_more_line(all, max, j as int);
        }
        match builder.add_line(lines[j].as_str()) {
            Ok(LineKind::Word) => {},
            Ok(LineKind::WrongLength) => {
                too_short += 1;
            },
            Ok(LineKind::WrongCase) => {
                wrong_case += 1;
            },
            Err(e) => {
                assert(first_failure(all, max, j as int));
                return Err(e);
            },
        }
        j += 1;
    }
    assert(all.take(j as int) =~= all);
    Ok((builder.finish(), LoadReport { lines: lines.len(), too_short, wrong_case }))
}

} // verus!
