//! Putting the words found in order for display: the longest first, words
//! of one length together and in the order of their bytes, in as many
//! columns as the width of the terminal holds.

use vstd::prelude::*;
use vstd::utf8::{encode_utf8, encode_utf8_decode_utf8};
use crate::letters::{byte_len, line_views};

verus! {

/// `a` comes before `b` in the order of their bytes: at the first place
/// where they differ `a` has the smaller byte, or `a` ends there and `b`
/// goes on.
pub open spec fn bytes_before(a: Seq<u8>, b: Seq<u8>) -> bool
    decreases a.len(),
{
    if b.len() == 0 {
        false
    } else if a.len() == 0 {
        true
    } else if a[0] != b[0] {
        a[0] < b[0]
    } else {
        bytes_before(a.drop_first(), b.drop_first())
    }
}

/// `a` is shown before `b`: it takes more bytes, or as many and comes
/// first in the order of their bytes.
pub open spec fn word_before(a: Seq<char>, b: Seq<char>) -> bool {
    byte_len(a) > byte_len(b) || (byte_len(a) == byte_len(b) && bytes_before(
        encode_utf8(a),
        encode_utf8(b),
    ))
}

/// The words are in the order in which they are shown.
pub open spec fn in_display_order(words: Seq<Seq<char>>) -> bool {
    forall|i: int, j: int| 0 <= i < j < words.len() ==> !word_before(words[j], words[i])
}

/// Where one word stands to another in the order of display.
#[derive(Copy, Clone, Debug, PartialEq, Eq, Structural)]
pub enum Rank {
    /// It is shown before the other.
    Before,
    /// The two are the same word.
    Same,
    /// It is shown after the other.
    After,
}

/// Where `a` stands to `b` in the order of display.
pub open spec fn rank_of(a: Seq<char>, b: Seq<char>) -> Rank {
    if word_before(a, b) {
        Rank::Before
    } else if word_before(b, a) {
        Rank::After
    } else {
        Rank::Same
    }
}

/// Of two sequences of bytes one comes before the other, or they are the
/// same, and no two of these hold together.
pub proof fn lemma_bytes_order(a: Seq<u8>, b: Seq<u8>)
    ensures
        bytes_before(a, b) || bytes_before(b, a) || a == b,
        !(bytes_before(a, b) && bytes_before(b, a)),
        !bytes_before(a, a),
    decreases a.len(),
{
    if a.len() > 0 && b.len() > 0 && a[0] == b[0] {
        lemma_bytes_order(a.drop_first(), b.drop_first());
        if a.drop_first() == b.drop_first() {
            assert(a =~= seq![a[0]] + a.drop_first());
            assert(b =~= seq![b[0]] + b.drop_first());
        }
    } else if a.len() == 0 && b.len() == 0 {
        assert(a =~= b);
    }
    if a.len() > 0 {
        lemma_bytes_order(a.drop_first(), a.drop_first());
    }
}

/// What comes before something that comes before a third comes before the
/// third.
pub proof fn lemma_bytes_before_chain(a: Seq<u8>, b: Seq<u8>, c: Seq<u8>)
    requires
        bytes_before(a, b),
        bytes_before(b, c),
    ensures
        bytes_before(a, c),
    decreases a.len(),
{
    if a.len() > 0 && a[0] == b[0] && b[0] == c[0] {
        lemma_bytes_before_chain(a.drop_first(), b.drop_first(), c.drop_first());
    }
}

/// The order of display is a total order of the words: of two words one
/// is shown before the other unless they are the same word, never each
/// before the other, and the order passes along a chain.
pub proof fn lemma_display_order(a: Seq<char>, b: Seq<char>, c: Seq<char>)
    ensures
        word_before(a, b) || word_before(b, a) || a == b,
        !(word_before(a, b) && word_before(b, a)),
        !word_before(a, a),
        word_before(a, b) && word_before(b, c) ==> word_before(a, c),
{
    lemma_bytes_order(encode_utf8(a), encode_utf8(b));
    lemma_bytes_order(encode_utf8(a), encode_utf8(a));
    encode_utf8_decode_utf8(a);
    encode_utf8_decode_utf8(b);
    if word_before(a, b) && word_before(b, c) {
        if byte_len(a) == byte_len(b) && byte_len(b) == byte_len(c) {
            lemma_bytes_before_chain(encode_utf8(a), encode_utf8(b), encode_utf8(c));
        }
    }
}

/// Where `a` stands to `b` in the order of display.
pub fn rank_words(a: &String, b: &String) -> (r: Rank)
    ensures
        r == rank_of(a@, b@),
{
    let x = a.as_str().as_bytes();
    let y = b.as_str().as_bytes();
    if x.len() > y.len() {
        return Rank::Before;
    }
    if x.len() < y.len() {
        return Rank::After;
    }
    let mut i: usize = 0;
    assert(x@.skip(0) =~= x@ && y@.skip(0) =~= y@);
    while i < x.len()
        invariant
            0 <= i <= x@.len(),
            x@.len() == y@.len(),
            x@ == encode_utf8(a@),
            y@ == encode_utf8(b@),
            bytes_before(x@, y@) == bytes_before(x@.skip(i as int), y@.skip(i as int)),
            bytes_before(y@, x@) == bytes_before(y@.skip(i as int), x@.skip(i as int)),
        decreases x@.len() - i,
    {
        assert(x@.skip(i as int)[0] == x@[i as int] && y@.skip(i as int)[0] == y@[i as int]);
        if x[i] < y[i] {
            return Rank::Before;
        }
        if x[i] > y[i] {
            return Rank::After;
        }
        assert(x@.skip(i as int).drop_first() =~= x@.skip(i + 1));
        assert(y@.skip(i as int).drop_first() =~= y@.skip(i + 1));
        i += 1;
    }
    Rank::Same
}

/// The place at which `word` goes into the sorted list: after the words
/// that are shown before it and the words that are the same.
fn place_of(sorted: &Vec<String>, word: &String) -> (at: usize)
    ensures
        at <= sorted@.len(),
        forall|k: int| 0 <= k < at ==> !word_before(word@, #[trigger] line_views(sorted@)[k]),
        at < sorted@.len() ==> word_before(word@, line_views(sorted@)[at as int]),
{
    let mut at: usize = 0;
    while at < sorted.len()
        invariant
            at <= sorted@.len(),
            forall|k: int| 0 <= k < at ==> !word_before(word@, #[trigger] line_views(sorted@)[k]),
        decreases sorted@.len() - at,
    {
        match rank_words(&sorted[at], word) {
            Rank::After => {
                return at;
            },
            _ => {},
        }
        proof {
            lemma_display_order(sorted@[at as int]@, word@, word@);
        }
        at += 1;
    }
    at
}

/// A word put at its place in a list in the order of display leaves the
/// list in that order.
proof fn lemma_put_in_order(sorted: Seq<Seq<char>>, word: Seq<char>, at: int)
    requires
        in_display_order(sorted),
        0 <= at <= sorted.len(),
        forall|k: int| 0 <= k < at ==> !word_before(word, #[trigger] sorted[k]),
        at < sorted.len() ==> word_before(word, sorted[at]),
    ensures
        in_display_order(sorted.insert(at, word)),
{
    let more = sorted.insert(at, word);
    assert forall|i: int, j: int| 0 <= i < j < more.len() implies !word_before(more[j], more[i]) by {
        if i == at {
            lemma_display_order(sorted[j - 1], word, sorted[at]);
        } else if j == at {
        } else {
            let a = if i < at { i } else { i - 1 };
            let b = if j < at { j } else { j - 1 };
            assert(!word_before(sorted[b], sorted[a]));
        }
    }
}

/// Puts the words in the order in which they are shown: each word is taken
/// from the list and put at its place among the words taken before it.
pub fn sort_words(words: &mut Vec<String>)
    ensures
        line_views(final(words)@).to_multiset() == line_views(old(words)@).to_multiset(),
        in_display_order(line_views(final(words)@)),
{
    let ghost start = line_views(words@);
    let mut sorted: Vec<String> = Vec::with_capacity(words.len());
    proof {
        broadcast use vstd::multiset::group_multiset_axioms;
        line_views(sorted@).to_multiset_ensures();
        assert(line_views(sorted@).to_multiset().add(start.to_multiset()) =~= start.to_multiset());
    }
    while words.len() > 0
        invariant
            in_display_order(line_views(sorted@)),
            line_views(sorted@).to_multiset().add(line_views(words@).to_multiset())
                == start.to_multiset(),
        decreases words@.len(),
    {
        let ghost left = line_views(words@);
        let ghost done = line_views(sorted@);
        let word = words.pop().unwrap();
        let at = place_of(&sorted, &word);
        proof {
            broadcast use vstd::multiset::group_multiset_axioms;
            lemma_put_in_order(done, word@, at as int);
            assert(left =~= line_views(words@).push(word@));
            line_views(words@).to_multiset_ensures();
            vstd::seq_lib::to_multiset_insert(done, at as int, word@);
            assert(done.insert(at as int, word@).to_multiset().add(line_views(words@).to_multiset())
                =~= done.to_multiset().add(left.to_multiset()));
        }
        sorted.insert(at, word);
        assert(line_views(sorted@) =~= done.insert(at as int, word@));
    }
    proof {
        broadcast use vstd::multiset::group_multiset_axioms;
        line_views(words@).to_multiset_ensures();
        assert(line_views(sorted@).to_multiset() =~= start.to_multiset());
    }
    *words = sorted;
}

/// How many words of `word_len` bytes stand in one line of a terminal that
/// is `term_width` wide: each word takes two blanks before it, the last
/// column of the terminal stays free, and a line holds one word at least.
/// A width of 0 stands for a width that is not known.
pub open spec fn spec_columns(term_width: int, word_len: int) -> int {
    if term_width > 0 && (term_width - 1) / (word_len + 2) > 1 {
        (term_width - 1) / (word_len + 2)
    } else {
        1
    }
}

/// How many words of `word_len` bytes stand in one line of a terminal that
/// is `term_width` wide.
pub fn columns(term_width: u16, word_len: usize) -> (r: usize)
    ensures
        r == spec_columns(term_width as int, word_len as int),
{
    if term_width == 0 {
        return 1;
    }
    let room = (term_width - 1) as usize;
    match word_len.checked_add(2) {
        Some(each) => {
            let fit = room / each;
            if fit > 1 {
                fit
            } else {
                1
            }
        },
        None => {
            assert((term_width - 1) / (word_len + 2) == 0) by (nonlinear_arith)
                requires
                    0 <= term_width - 1 < word_len + 2,
            ;
            1
        },
    }
}

/// Words of one length that stand together in a list: those from place
/// `start` up to, and without, place `end`.
#[derive(Copy, Clone, Debug, PartialEq, Eq, Structural)]
pub struct Group {
    /// The bytes that each of the words takes.
    pub word_len: usize,
    /// The place of the first word.
    pub start: usize,
    /// The place after the last word.
    pub end: usize,
}

/// The words from `start` up to `end` take the same number of bytes each,
/// and the word before them and the word after them do not.
pub open spec fn is_run(words: Seq<Seq<char>>, start: int, end: int) -> bool {
    &&& 0 <= start < end <= words.len()
    &&& forall|k: int| start <= k < end ==> byte_len(#[trigger] words[k]) == byte_len(words[start])
    &&& start == 0 || byte_len(words[start - 1]) != byte_len(words[start])
    &&& end == words.len() || byte_len(words[end]) != byte_len(words[start])
}

/// `group` is a run of words that are not empty, with their length.
pub open spec fn is_group(words: Seq<Seq<char>>, group: Group) -> bool {
    &&& is_run(words, group.start as int, group.end as int)
    &&& group.word_len == byte_len(words[group.start as int])
    &&& group.word_len != 0
}

/// Place `i` lies in one of the groups.
pub open spec fn in_a_group(groups: Seq<Group>, i: int) -> bool {
    exists|g: int| 0 <= g < groups.len() && (#[trigger] groups[g]).start <= i < groups[g].end
}

/// `groups` are the runs among the first `upto` of `words`, in the order
/// of the list: each of those words that is not empty stands in one of
/// them.
pub open spec fn groups_upto(words: Seq<Seq<char>>, groups: Seq<Group>, upto: int) -> bool {
    &&& forall|g: int|
        0 <= g < groups.len() ==> is_group(words, #[trigger] groups[g]) && groups[g].end <= upto
    &&& forall|g: int, h: int|
        0 <= g < h < groups.len() ==> (#[trigger] groups[g]).end <= (#[trigger] groups[h]).start
    &&& forall|i: int|
        0 <= i < upto && byte_len(#[trigger] words[i]) != 0 ==> in_a_group(groups, i)
}

/// `groups` are the runs of `words`, in the order of the list: each word
/// that is not empty stands in one of them.
pub open spec fn groups_of(words: Seq<Seq<char>>, groups: Seq<Group>) -> bool {
    groups_upto(words, groups, words.len() as int)
}

/// A run that starts where the groups so far end is one more group.
proof fn lemma_one_more_group(words: Seq<Seq<char>>, groups: Seq<Group>, group: Group)
    requires
        groups_upto(words, groups, group.start as int),
        is_group(words, group),
    ensures
        groups_upto(words, groups.push(group), group.end as int),
{
    let more = groups.push(group);
    assert forall|i: int|
        0 <= i < group.end && byte_len(#[trigger] words[i]) != 0 implies in_a_group(more, i) by {
        if i < group.start {
            assert(in_a_group(groups, i));
            let g = choose|g: int|
                0 <= g < groups.len() && (#[trigger] groups[g]).start <= i < groups[g].end;
            assert(more[g] == groups[g]);
        } else {
            assert(more[groups.len() as int] == group);
        }
    }
    assert forall|g: int| 0 <= g < more.len() implies is_group(words, #[trigger] more[g])
        && more[g].end <= group.end by {
        if g < groups.len() {
            assert(more[g] == groups[g]);
        }
    }
    assert forall|g: int, h: int| 0 <= g < h < more.len() implies (#[trigger] more[g]).end <= (
    #[trigger] more[h]).start by {
        assert(more[g] == groups[g]);
        if h < groups.len() {
            assert(more[h] == groups[h]);
        }
    }
}

/// Empty words after the groups so far stand in no group.
proof fn lemma_no_group(words: Seq<Seq<char>>, groups: Seq<Group>, from: int, upto: int)
    requires
        groups_upto(words, groups, from),
        from <= upto,
        forall|k: int| from <= k < upto ==> byte_len(#[trigger] words[k]) == 0,
    ensures
        groups_upto(words, groups, upto),
{
}

/// The groups of words of one length, in the order of the list.
pub fn group_by_length(words: &Vec<String>) -> (groups: Vec<Group>)
    ensures
        groups_of(line_views(words@), groups@),
{
    let mut last_len: usize = 0;
    let mut last_start: usize = 0;
    let mut groups: Vec<Group> = Vec::new();
    let ghost all = line_views(words@);
    let mut i: usize = 0;
    while i < words.len()
        invariant
            all == line_views(words@),
            0 <= last_start <= i <= all.len(),
            i == 0 ==> last_len == 0,
            i > 0 ==> last_start < i,
            forall|k: int| last_start <= k < i ==> byte_len(#[trigger] all[k]) == last_len,
            last_start == 0 || byte_len(all[last_start - 1]) != last_len,
            groups_upto(all, groups@, last_start as int),
        decreases all.len() - i,
    {
        let len = words[i].as_str().as_bytes().len();
        assert(len == byte_len(all[i as int]));
        if len != last_len {
            if last_len != 0 {
                let group = Group { word_len: last_len, start: last_start, end: i };
                proof {
                    lemma_one_more_group(all, groups@, group);
                }
                groups.push(group);
            } else {
                proof {
                    lemma_no_group(all, groups@, last_start as int, i as int);
                }
            }
            last_len = len;
            last_start = i;
        }
        i += 1;
    }
    if last_len != 0 {
        let group = Group { word_len: last_len, start: last_start, end: words.len() };
        proof {
            lemma_one_more_group(all, groups@, group);
        }
        groups.push(group);
    } else {
        proof {
            lemma_no_group(all, groups@, last_start as int, all.len() as int);
        }
    }
    groups
}

} // verus!
