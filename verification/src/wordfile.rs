//! The word list as a file: bytes that hold one word on each line, as they
//! are or packed with gzip.

use std::io::Read;
use vstd::prelude::*;
use vstd::slice::slice_subrange;
use vstd::utf8::{decode_utf8, valid_utf8};
use crate::builder::{
    count_kind, fails_at, first_failure, is_error_at, lemma_fails_at_start, lemma_one_more_line,
    words_of, DictionaryBuilder, LineKind, LoadError, LoadReport,
};
use crate::dictionary::Dictionary;

verus! {

/// The byte that ends a line.
pub const NEWLINE: u8 = 10;

/// The byte that may stand before the end of a line, and is no part of it.
pub const CARRIAGE_RETURN: u8 = 13;

/// The first byte of a gzip file.
pub const GZIP_ID1: u8 = 0x1f;

/// The second byte of a gzip file.
pub const GZIP_ID2: u8 = 0x8b;

/// The bytes start as a gzip file does.
pub open spec fn is_gzip(data: Seq<u8>) -> bool {
    data.len() >= 2 && data[0] == GZIP_ID1 && data[1] == GZIP_ID2
}

/// Whether the bytes start as a gzip file does.
pub fn has_gzip_signature(data: &[u8]) -> (r: bool)
    ensures
        r == is_gzip(data@),
{
    data.len() >= 2 && data[0] == GZIP_ID1 && data[1] == GZIP_ID2
}

/// What the first member of the gzip file `data` unpacks to, or nothing
/// where `data` cannot be unpacked.
pub uninterp spec fn gzip_decoded(data: Seq<u8>) -> Option<Seq<u8>>;

/// `flate2::read::GzDecoder` over the bytes, read to its end with
/// `read_to_end`: the bytes that the decoder gives, or its error. What it
/// gives depends on the bytes alone.
#[verifier::external_body]
fn gunzip(data: &[u8]) -> (r: Result<Vec<u8>, std::io::Error>)
    ensures
        match r {
            Ok(plain) => gzip_decoded(data@) == Some(plain@),
            Err(_) => gzip_decoded(data@) is None,
        },
{
    let mut plain = Vec::new();
    let mut decoder = flate2::read::GzDecoder::new(data);
    match decoder.read_to_end(&mut plain) {
        Ok(_) => Ok(plain),
        Err(e) => Err(e),
    }
}

/// `std::str::from_utf8`: the bytes as text, where they are UTF-8, and
/// nothing where they are not.
#[verifier::external_body]
fn text_of(bytes: &[u8]) -> (r: Option<&str>)
    ensures
        r is Some <==> valid_utf8(bytes@),
        r matches Some(s) ==> s@ == decode_utf8(bytes@),
{
    std::str::from_utf8(bytes).ok()
}

/// Where the first line of `data` ends: at the first newline, or at the
/// end of `data` where there is none.
pub open spec fn line_end(data: Seq<u8>) -> int
    decreases data.len(),
{
    if data.len() == 0 || data[0] == NEWLINE {
        0
    } else {
        1 + line_end(data.drop_first())
    }
}

/// The first line of `data`, without the newline that ends it and without
/// a carriage return before that newline.
pub open spec fn first_line(data: Seq<u8>) -> Seq<u8> {
    let k = line_end(data);
    if 0 < k < data.len() && data[k - 1] == CARRIAGE_RETURN {
        data.take(k - 1)
    } else {
        data.take(k)
    }
}

/// What follows the first line of `data` and the newline that ends it.
pub open spec fn after_first_line(data: Seq<u8>) -> Seq<u8> {
    let k = line_end(data);
    if k < data.len() {
        data.skip(k + 1)
    } else {
        data.skip(k)
    }
}

/// The lines of `data`. A newline ends a line; what follows the last
/// newline is a line too, unless it is empty.
pub open spec fn split_lines(data: Seq<u8>) -> Seq<Seq<u8>>
    decreases data.len(),
{
    if data.len() == 0 || after_first_line(data).len() >= data.len() {
        Seq::empty()
    } else {
        seq![first_line(data)] + split_lines(after_first_line(data))
    }
}

/// The number of lines at the start of `raw` that are UTF-8.
pub open spec fn readable_lines(raw: Seq<Seq<u8>>) -> nat
    decreases raw.len(),
{
    if raw.len() == 0 || !valid_utf8(raw[0]) {
        0
    } else {
        1 + readable_lines(raw.drop_first())
    }
}

/// The texts of the lines at the start of `raw` that are UTF-8.
pub open spec fn readable_texts(raw: Seq<Seq<u8>>) -> Seq<Seq<char>> {
    Seq::new(readable_lines(raw), |i: int| decode_utf8(raw[i]))
}

/// `r` is what the lines of `plain` give, taken in order: the error of the
/// first line that cannot be added to the words before it, or else that
/// a line is no text, or else the dictionary of the words among the lines.
pub open spec fn plain_outcome(
    plain: Seq<u8>,
    max_len: nat,
    r: Result<(Dictionary, LoadReport), LoadError>,
) -> bool {
    let raw = split_lines(plain);
    let texts = readable_texts(raw);
    match r {
        Ok((d, report)) => {
            &&& d.wf()
            &&& texts.len() == raw.len()
            &&& forall|j: int| 0 <= j < texts.len() ==> !#[trigger] fails_at(texts, max_len, j)
            &&& d@ == words_of(texts, max_len)
            &&& report.lines == raw.len()
            &&& report.too_short == count_kind(texts, max_len, LineKind::WrongLength)
            &&& report.wrong_case == count_kind(texts, max_len, LineKind::WrongCase)
        },
        Err(LoadError::InvalidText) => {
            &&& texts.len() < raw.len()
            &&& forall|j: int| 0 <= j < texts.len() ==> !#[trigger] fails_at(texts, max_len, j)
        },
        Err(LoadError::Io(_)) => false,
        Err(e) => exists|j: int| #[trigger]
            first_failure(texts, max_len, j) && is_error_at(texts, max_len, j, e),
    }
}

/// The first line ends where the first newline stands.
proof fn lemma_line_end(data: Seq<u8>, e: int)
    requires
        0 <= e <= data.len(),
        forall|k: int| 0 <= k < e ==> data[k] != NEWLINE,
        e == data.len() || data[e] == NEWLINE,
    ensures
        line_end(data) == e,
    decreases data.len(),
{
    if e > 0 {
        lemma_line_end(data.drop_first(), e - 1);
    }
}

/// The lines that are UTF-8 at the start go on by one where the next line
/// is UTF-8, and end where it is not.
proof fn lemma_readable_lines(raw: Seq<Seq<u8>>, n: int)
    requires
        0 <= n <= raw.len(),
        forall|i: int| 0 <= i < n ==> valid_utf8(#[trigger] raw[i]),
    ensures
        readable_lines(raw) >= n,
        n < raw.len() && !valid_utf8(raw[n]) ==> readable_lines(raw) == n,
        n == raw.len() ==> readable_lines(raw) == n,
        readable_lines(raw) <= raw.len(),
    decreases raw.len(),
{
    if raw.len() > 0 && valid_utf8(raw[0]) {
        if n > 0 {
            lemma_readable_lines(raw.drop_first(), n - 1);
        } else {
            lemma_readable_lines(raw.drop_first(), 0);
        }
    }
}

/// The first line ends within the bytes.
proof fn lemma_line_end_within(data: Seq<u8>)
    ensures
        0 <= line_end(data) <= data.len(),
    decreases data.len(),
{
    if data.len() > 0 && data[0] != NEWLINE {
        lemma_line_end_within(data.drop_first());
    }
}

/// What follows the first line of bytes that are not empty is shorter than
/// they are, so that the lines are the first line and the lines of what
/// follows it.
pub proof fn lemma_first_line(data: Seq<u8>)
    requires
        data.len() > 0,
    ensures
        after_first_line(data).len() < data.len(),
        split_lines(data) == seq![first_line(data)] + split_lines(after_first_line(data)),
{
    lemma_line_end_within(data);
}

/// Builds the dictionary of the words among the lines of `data`, which
/// holds the word list as it is, taking the lines in order.
pub fn load_words_from_plain(data: &[u8], max_len: usize) -> (r: Result<
    (Dictionary, LoadReport),
    LoadError,
>)
    ensures
        plain_outcome(data@, max_len as nat, r),
{
    let mut builder = DictionaryBuilder::new(max_len);
    let mut lines: usize = 0;
    let mut too_short: usize = 0;
    let mut wrong_case: usize = 0;
    let mut pos: usize = 0;
    let ghost max = max_len as nat;
    let ghost raw = split_lines(data@);
    let ghost mut done = Seq::<Seq<u8>>::empty();
    let ghost mut seen = Seq::<Seq<char>>::empty();
    proof {
        assert(data@.skip(0) =~= data@);
    }
    while pos < data.len()
        invariant
            0 <= pos <= data@.len(),
            max == max_len as nat,
            raw == split_lines(data@),
            raw == done + split_lines(data@.skip(pos as int)),
            done.len() == lines,
            seen.len() == lines,
            lines <= pos,
            forall|i: int| 0 <= i < lines ==> valid_utf8(#[trigger] done[i]),
            forall|i: int| 0 <= i < lines ==> #[trigger] seen[i] == decode_utf8(done[i]),
            builder.wf(),
            builder.max_len() == max,
            builder.words() == words_of(seen, max),
            forall|i: int| 0 <= i < lines ==> !#[trigger] fails_at(seen, max, i),
            too_short == count_kind(seen, max, LineKind::WrongLength),
            wrong_case == count_kind(seen, max, LineKind::WrongCase),
            too_short + wrong_case <= lines,
        decreases data@.len() - pos,
    {
        let ghost rest = data@.skip(pos as int);
        let mut end: usize = pos;
        while end < data.len() && data[end] != NEWLINE
            invariant
                pos <= end <= data@.len(),
                forall|k: int| pos <= k < end ==> data@[k] != NEWLINE,
            decreases data@.len() - end,
        {
            end += 1;
        }
        let has_newline = end < data.len();
        let mut stop: usize = end;
        if has_newline && stop > pos && data[stop - 1] == CARRIAGE_RETURN {
            stop -= 1;
        }
        let next: usize = if has_newline {
            end + 1
        } else {
            end
        };
        let line_bytes = slice_subrange(data, pos, stop);
        proof {
            lemma_line_end(rest, end - pos);
            assert(line_bytes@ =~= first_line(rest));
            assert(data@.skip(next as int) =~= after_first_line(rest));
        }
        let line = match text_of(line_bytes) {
            None => {
                proof {
                    lemma_readable_lines(raw, lines as int);
                    assert(readable_texts(raw) =~= seen);
                }
                return Err(LoadError::InvalidText);
            },
            Some(line) => line,
        };
        let ghost seen_before = seen;
        proof {
            done = done.push(line_bytes@);
            seen = seen.push(line@);
            assert(seen.take(lines as int) =~= seen_before);
            assert(seen.take(lines + 1) =~= seen);
            lemma_one_more_line(seen, max, lines as int);
            assert forall|i: int| 0 <= i < lines implies !#[trigger] fails_at(seen, max, i) by {
                assert(seen.take(i + 1) =~= seen_before.take(i + 1));
                lemma_fails_at_start(seen, seen_before, max, i);
            }
        }
        match builder.add_line(line) {
            Ok(LineKind::Word) => {},
            Ok(LineKind::WrongLength) => {
                too_short += 1;
            },
            Ok(LineKind::WrongCase) => {
                wrong_case += 1;
            },
            Err(e) => {
                proof {
                    lemma_readable_lines(raw, lines + 1);
                    let texts = readable_texts(raw);
                    assert forall|i: int| 0 <= i <= lines implies fails_at(texts, max, i)
                        == fails_at(seen, max, i) by {
                        assert(texts.take(i + 1) =~= seen.take(i + 1));
                        lemma_fails_at_start(texts, seen, max, i);
                    }
                    assert(texts.take(lines as int) =~= seen.take(lines as int));
                    assert(first_failure(texts, max, lines as int));
                }
                return Err(e);
            },
        }
        lines += 1;
        pos = next;
    }
    proof {
        lemma_readable_lines(raw, lines as int);
        assert(readable_texts(raw) =~= seen);
    }
    Ok((builder.finish(), LoadReport { lines, too_short, wrong_case }))
}

/// Builds the dictionary of the words among the lines of `data`, which
/// holds the word list as it is or packed with gzip. Bytes that start as
/// a gzip file does are unpacked first.
pub fn load_words_from_bytes(data: &[u8], max_len: usize) -> (r: Result<
    (Dictionary, LoadReport),
    LoadError,
>)
    ensures
        !is_gzip(data@) ==> plain_outcome(data@, max_len as nat, r),
        is_gzip(data@) ==> match gzip_decoded(data@) {
            Some(plain) => plain_outcome(plain, max_len as nat, r),
            None => r matches Err(LoadError::Io(_)),
        },
{
    if has_gzip_signature(data) {
        match gunzip(data) {
            Ok(plain) => load_words_from_plain(plain.as_slice(), max_len),
            Err(e) => Err(LoadError::Io(e)),
        }
    } else {
        load_words_from_plain(data, max_len)
    }
}

} // verus!
