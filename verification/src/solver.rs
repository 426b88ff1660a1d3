//! The search: every word of a dictionary that a bag of letters can spell.

use vstd::prelude::*;
use vstd::hash_set::StringHashSet;
use crate::builder::{is_line_of, line_kind, words_of};
use crate::dictionary::{is_letters, is_proper_prefix, Dictionary, LetterNext};
use crate::letters::{
    all_upper, lemma_lower_to_upper, line_views, lower_numbers, upper_cased, upper_letters,
    upper_numbers, upper_text, UPPER_A,
};

verus! {

/// Arguments for the countdown letters solver.
pub struct SolverArgs<'a> {
    /// The letters to use, each one of `A` to `Z`.
    pub letters: &'a str,
    /// The dictionary to use.
    pub dictionary: &'a Dictionary,
    /// The least length of a word to find.
    pub min_len: u8,
    /// Whether a letter may be used more than once.
    pub reuse_letters: bool,
    /// Whether to record each step of the search.
    pub debug: bool,
}

/// The places `picks` of `letters` hold, in order, the letters of `w`.
pub open spec fn spells(picks: Seq<int>, letters: Seq<u8>, w: Seq<u8>) -> bool {
    &&& picks.len() == w.len()
    &&& forall|k: int|
        0 <= k < picks.len() ==> 0 <= #[trigger] picks[k] < letters.len() && letters[picks[k]]
            == w[k]
}

/// Each letter of `w` can be taken from a place of the bag, and from a
/// place of its own unless letters may be used again. This is how the
/// search spells a word.
pub open spec fn has_places(w: Seq<u8>, letters: Seq<u8>, reuse: bool) -> bool {
    exists|picks: Seq<int>| #[trigger] spells(picks, letters, w) && (reuse || picks.no_duplicates())
}

/// The bag `letters` can spell `w`: it holds each letter of `w` as often
/// as `w` does, or, where letters may be used again, once at least.
pub open spec fn can_form(w: Seq<u8>, letters: Seq<u8>, reuse: bool) -> bool {
    if reuse {
        forall|k: int| 0 <= k < w.len() ==> letters.contains(#[trigger] w[k])
    } else {
        w.to_multiset().subset_of(letters.to_multiset())
    }
}

/// The words to find: those of the dictionary that are long enough and
/// that the bag can spell.
pub open spec fn found_words(dict: Set<Seq<u8>>, letters: Seq<u8>, min_len: nat, reuse: bool) -> Set<
    Seq<u8>,
> {
    Set::new(|w: Seq<u8>| dict.contains(w) && w.len() >= min_len && can_form(w, letters, reuse))
}

/// The words to find, as texts in upper case.
pub open spec fn found_texts(dict: Set<Seq<u8>>, letters: Seq<u8>, min_len: nat, reuse: bool) -> Set<
    Seq<char>,
> {
    Set::new(
        |s: Seq<char>|
            all_upper(s) && found_words(dict, letters, min_len, reuse).contains(upper_numbers(s)),
    )
}

/// `picks` spell what `w` holds from `at` on, from places that are not
/// used, with the first of them below `bound`.
spec fn rest_spelled(
    picks: Seq<int>,
    w: Seq<u8>,
    at: int,
    letters: Seq<u8>,
    used: Seq<bool>,
    reuse: bool,
    bound: int,
) -> bool {
    &&& 0 <= at < w.len()
    &&& spells(picks, letters, w.skip(at))
    &&& picks[0] < bound
    &&& reuse || (picks.no_duplicates() && forall|k: int|
        0 <= k < picks.len() ==> !used[#[trigger] picks[k]])
}

/// The words that the search finds below `prefix` when it tries the places
/// below `bound` for the next letter.
spec fn below(
    dict: Set<Seq<u8>>,
    letters: Seq<u8>,
    used: Seq<bool>,
    prefix: Seq<u8>,
    min_len: nat,
    reuse: bool,
    bound: int,
) -> Set<Seq<u8>> {
    Set::new(
        |w: Seq<u8>|
            dict.contains(w) && w.len() >= min_len && is_proper_prefix(prefix, w) && exists|
                picks: Seq<int>,
            | #[trigger] rest_spelled(picks, w, prefix.len() as int, letters, used, reuse, bound),
    )
}

/// The places that are used once place `i` is taken.
pub open spec fn taken(used: Seq<bool>, i: int, reuse: bool) -> Seq<bool> {
    if reuse {
        used
    } else {
        used.update(i, true)
    }
}

/// What trying place `i` adds to the words found below `prefix`: the
/// prefix with the letter of that place, if it is a word and long enough,
/// and what the search finds below it.
spec fn gain(
    d: Dictionary,
    letters: Seq<u8>,
    used: Seq<bool>,
    prefix: Seq<u8>,
    min_len: nat,
    reuse: bool,
    i: int,
) -> Set<Seq<u8>> {
    let q = prefix.push(letters[i]);
    let slot = d.transition(d.node_of(prefix)->0, letters[i] as int);
    let here = if slot.ends_word() && q.len() >= min_len {
        set![q]
    } else {
        Set::empty()
    };
    let deeper = if slot.child() is Some {
        below(d@, letters, taken(used, i, reuse), q, min_len, reuse, letters.len() as int)
    } else {
        Set::empty()
    };
    if used[i] && !reuse {
        Set::empty()
    } else {
        here.union(deeper)
    }
}

/// Trying one more place adds its gain.
proof fn lemma_try_place(
    d: Dictionary,
    letters: Seq<u8>,
    used: Seq<bool>,
    prefix: Seq<u8>,
    min_len: nat,
    reuse: bool,
    i: int,
)
    requires
        d.wf(),
        is_letters(letters),
        used.len() == letters.len(),
        d.node_of(prefix) is Some,
        0 <= i < letters.len(),
    ensures
        below(d@, letters, used, prefix, min_len, reuse, i + 1) == below(
            d@,
            letters,
            used,
            prefix,
            min_len,
            reuse,
            i,
        ).union(gain(d, letters, used, prefix, min_len, reuse, i)),
{
    let c = letters[i];
    let q = prefix.push(c);
    let at = prefix.len() as int;
    let n = letters.len() as int;
    let slot = d.transition(d.node_of(prefix)->0, c as int);
    let used2 = taken(used, i, reuse);
    let lhs = below(d@, letters, used, prefix, min_len, reuse, i + 1);
    let before = below(d@, letters, used, prefix, min_len, reuse, i);
    let add = gain(d, letters, used, prefix, min_len, reuse, i);
    d.lemma_transition(prefix, c);
    assert(q.take(at) =~= prefix);
    assert forall|w: Seq<u8>| lhs.contains(w) implies before.contains(w) || add.contains(w) by {
        let picks = choose|picks: Seq<int>| #[trigger]
            rest_spelled(picks, w, at, letters, used, reuse, i + 1);
        if picks[0] < i {
            assert(rest_spelled(picks, w, at, letters, used, reuse, i));
        } else {
            assert(w.take(at + 1) =~= q);
            if w.len() == at + 1 {
                assert(w =~= q);
            } else {
                assert(is_proper_prefix(q, w));
                let rest = picks.skip(1);
                assert(rest_spelled(rest, w, at + 1, letters, used2, reuse, n));
            }
        }
    }
    assert forall|w: Seq<u8>| before.contains(w) implies lhs.contains(w) by {
        let picks = choose|picks: Seq<int>| #[trigger]
            rest_spelled(picks, w, at, letters, used, reuse, i);
        assert(rest_spelled(picks, w, at, letters, used, reuse, i + 1));
    }
    assert forall|w: Seq<u8>| add.contains(w) implies lhs.contains(w) by {
        if w == q && slot.ends_word() && q.len() >= min_len {
            let picks = seq![i];
            assert(rest_spelled(picks, w, at, letters, used, reuse, i + 1));
        } else {
            let rest = choose|rest: Seq<int>| #[trigger]
                rest_spelled(rest, w, at + 1, letters, used2, reuse, n);
            let picks = seq![i] + rest;
            assert(w.take(at) =~= w.take(at + 1).take(at));
            assert(w[at] == w.take(at + 1)[at]);
            assert(rest_spelled(picks, w, at, letters, used, reuse, i + 1));
        }
    }
}

/// The text in upper case of letter numbers is in upper case, and its
/// letter numbers are those it was made from.
pub proof fn lemma_upper_text(w: Seq<u8>)
    requires
        is_letters(w),
    ensures
        all_upper(upper_text(w)),
        upper_numbers(upper_text(w)) == w,
{
}

/// The letter numbers of a text in upper case are letters, and their text
/// in upper case is the text they were taken from.
pub proof fn lemma_upper_numbers(s: Seq<char>)
    requires
        all_upper(s),
    ensures
        is_letters(upper_numbers(s)),
        upper_text(upper_numbers(s)) == s,
{
}

/// The word in upper case that the chosen letters spell.
pub fn chosen_string(chosen: &Vec<u8>) -> (r: String)
    requires
        is_letters(chosen@),
    ensures
        r@ == upper_text(chosen@),
{
    let mut r = String::new();
    let mut i: usize = 0;
    while i < chosen.len()
        invariant
            0 <= i <= chosen@.len(),
            is_letters(chosen@),
            r@ == upper_text(chosen@).take(i as int),
        decreases chosen@.len() - i,
    {
        let e = chosen[i];
        r.push((e + UPPER_A) as char);
        i += 1;
    }
    r
}

/// The words found so far: a list without repeats, and the set of its
/// texts to tell in one step whether a word is new.
struct WordBag {
    seen: StringHashSet,
    list: Vec<String>,
    model: Ghost<Set<Seq<u8>>>,
}

impl WordBag {
    spec fn wf(&self) -> bool {
        &&& line_views(self.list@).no_duplicates()
        &&& forall|s: Seq<char>| self.seen@.contains(s) <==> line_views(self.list@).contains(s)
        &&& forall|w: Seq<u8>| #[trigger]
            self.model@.contains(w) ==> is_letters(w) && self.seen@.contains(upper_text(w))
        &&& forall|s: Seq<char>| #[trigger]
            self.seen@.contains(s) ==> all_upper(s) && self.model@.contains(upper_numbers(s))
    }

    fn new() -> (b: WordBag)
        ensures
            b.wf(),
            b.model@ == Set::<Seq<u8>>::empty(),
    {
        WordBag { seen: StringHashSet::new(), list: Vec::new(), model: Ghost(Set::empty()) }
    }

    fn insert(&mut self, chosen: &Vec<u8>)
        requires
            old(self).wf(),
            is_letters(chosen@),
        ensures
            final(self).wf(),
            final(self).model@ == old(self).model@.insert(chosen@),
    {
        let word = chosen_string(chosen);
        let ghost old_list = line_views(self.list@);
        proof {
            lemma_upper_text(chosen@);
        }
        if !self.seen.contains(word.as_str()) {
            self.seen.insert(word.clone());
            self.list.push(word);
            proof {
                let new_list = line_views(self.list@);
                assert(new_list =~= old_list.push(upper_text(chosen@)));
                assert forall|s: Seq<char>| self.seen@.contains(s) <==> new_list.contains(s) by {
                    if old_list.contains(s) {
                        let k = choose|k: int| 0 <= k < old_list.len() && old_list[k] == s;
                        assert(new_list[k] == s);
                    }
                    if s == upper_text(chosen@) {
                        assert(new_list[old_list.len() as int] == s);
                    }
                }
            }
        }
        proof {
            self.model@ = self.model@.insert(chosen@);
        }
    }
}

/// The letters below letter number `x` that `letters` holds, each once, in
/// the order of the alphabet.
pub open spec fn present_below(letters: Seq<u8>, x: nat) -> Seq<u8>
    decreases x,
{
    if x == 0 {
        Seq::empty()
    } else if letters.contains((x - 1) as u8) {
        present_below(letters, (x - 1) as nat).push((x - 1) as u8)
    } else {
        present_below(letters, (x - 1) as nat)
    }
}

/// The places that the search tries: the letters as they were given, or,
/// where letters may be used again, each letter once in the order of the
/// alphabet.
pub open spec fn search_letters(letters: Seq<u8>, reuse: bool) -> Seq<u8> {
    if reuse {
        present_below(letters, 26)
    } else {
        letters
    }
}

/// The letters of the bag, each once, in the order of the alphabet.
pub fn distinct_letters(letters: &Vec<u8>) -> (r: Vec<u8>)
    requires
        is_letters(letters@),
    ensures
        r@ == present_below(letters@, 26),
        is_letters(r@),
        forall|a: int, b: int| 0 <= a < b < r@.len() ==> r@[a] < r@[b],
        forall|x: u8| r@.contains(x) <==> letters@.contains(x),
{
    let mut present = [false;26];
    let mut i: usize = 0;
    while i < letters.len()
        invariant
            0 <= i <= letters@.len(),
            is_letters(letters@),
            forall|x: int| 0 <= x < 26 ==> (present@[x] <==> letters@.take(i as int).contains(x as u8)),
        decreases letters@.len() - i,
    {
        let l = letters[i];
        present[l as usize] = true;
        proof {
            let b = letters@.take(i + 1);
            assert forall|x: int| 0 <= x < 26 implies (present@[x] <==> b.contains(x as u8)) by {
                if x == l {
                    assert(b[i as int] == l);
                }
            }
        }
        i += 1;
    }
    assert(letters@.take(i as int) =~= letters@);
    let mut r: Vec<u8> = Vec::new();
    let mut x: u8 = 0;
    while x < 26
        invariant
            0 <= x <= 26,
            forall|y: int| 0 <= y < 26 ==> (present@[y] <==> letters@.contains(y as u8)),
            forall|k: int| 0 <= k < r@.len() ==> r@[k] < x,
            forall|a: int, b: int| 0 <= a < b < r@.len() ==> r@[a] < r@[b],
            forall|y: u8| r@.contains(y) <==> (y < x && letters@.contains(y)),
            r@ == present_below(letters@, x as nat),
        decreases 26 - x,
    {
        if present[x as usize] {
            let ghost before = r@;
            r.push(x);
            proof {
                assert forall|y: u8| r@.contains(y) <==> (y < x + 1 && letters@.contains(y)) by {
                    if before.contains(y) {
                        let k = choose|k: int| 0 <= k < before.len() && before[k] == y;
                        assert(r@[k] == y);
                    }
                    if y == x {
                        assert(r@[before.len() as int] == y);
                    }
                }
            }
        }
        x += 1;
    }
    r
}

/// The mark that a step of the search shows for what the dictionary
/// answered.
pub open spec fn slot_mark(slot: LetterNext) -> Seq<char> {
    match slot {
        LetterNext::Absent => seq!['x'],
        LetterNext::Next(_) => seq!['n'],
        LetterNext::End => seq!['e'],
        LetterNext::EndNext(_) => seq!['e', 'n'],
    }
}

/// The line that shows one step of the search: the letters chosen so far,
/// moved right by one blank for each letter before the last, and the mark
/// of the dictionary's answer in brackets.
pub open spec fn debug_text(chosen: Seq<u8>, slot: LetterNext) -> Seq<char> {
    Seq::new((chosen.len() - 1) as nat, |i: int| ' ') + upper_text(chosen) + seq![' ', '('] + slot_mark(
        slot,
    ) + seq![')']
}

/// The line that shows one step of the search.
pub fn debug_line(chosen: &Vec<u8>, dict_elem: LetterNext) -> (r: String)
    requires
        chosen@.len() >= 1,
        is_letters(chosen@),
    ensures
        r@ == debug_text(chosen@, dict_elem),
{
    let mut r = String::new();
    let indent = chosen.len() - 1;
    let mut i: usize = 0;
    while i < indent
        invariant
            0 <= i <= indent,
            r@ == Seq::new(i as nat, |k: int| ' '),
        decreases indent - i,
    {
        r.push(' ');
        i += 1;
    }
    let ghost blanks = r@;
    let mut k: usize = 0;
    while k < chosen.len()
        invariant
            0 <= k <= chosen@.len(),
            is_letters(chosen@),
            r@ == blanks + upper_text(chosen@).take(k as int),
        decreases chosen@.len() - k,
    {
        let e = chosen[k];
        r.push((e + UPPER_A) as char);
        k += 1;
    }
    r.push(' ');
    r.push('(');
    match dict_elem {
        LetterNext::Absent => {
            r.push('x');
        },
        LetterNext::Next(_) => {
            r.push('n');
        },
        LetterNext::End => {
            r.push('e');
        },
        LetterNext::EndNext(_) => {
            r.push('e');
            r.push('n');
        },
    }
    r.push(')');
    r
}

/// The lines that the search below `prefix`, at node `node`, records from
/// place `i` of the bag on: for each free place its step, then the lines of
/// the search below the longer prefix, where the dictionary leads on.
pub open spec fn trace_from(
    d: Dictionary,
    letters: Seq<u8>,
    used: Seq<bool>,
    prefix: Seq<u8>,
    node: int,
    reuse: bool,
    i: int,
) -> Seq<Seq<char>>
    decreases d.spec_len() - node, letters.len() - i,
{
    if i < 0 || i >= letters.len() || node < 0 || node >= d.spec_len() {
        Seq::empty()
    } else {
        let rest = trace_from(d, letters, used, prefix, node, reuse, i + 1);
        if used[i] && !reuse {
            rest
        } else {
            let q = prefix.push(letters[i]);
            let slot = d.transition(node, letters[i] as int);
            let deeper = match slot.child() {
                Some(e) => if node < e < d.spec_len() {
                    trace_from(d, letters, taken(used, i, reuse), q, e, reuse, 0)
                } else {
                    Seq::empty()
                },
                None => Seq::empty(),
            };
            seq![debug_text(q, slot)] + deeper + rest
        }
    }
}

/// The lines that a search records: those of `trace_from` where steps are
/// recorded, and none where they are not.
pub open spec fn recorded(
    debug: bool,
    d: Dictionary,
    letters: Seq<u8>,
    used: Seq<bool>,
    prefix: Seq<u8>,
    node: int,
    reuse: bool,
    i: int,
) -> Seq<Seq<char>> {
    if debug {
        trace_from(d, letters, used, prefix, node, reuse, i)
    } else {
        Seq::empty()
    }
}

/// The lines that a whole search records: those of the search at the
/// root, with every place free.
pub open spec fn search_trace(debug: bool, d: Dictionary, letters: Seq<u8>, reuse: bool) -> Seq<
    Seq<char>,
> {
    let places = search_letters(letters, reuse);
    recorded(
        debug,
        d,
        places,
        Seq::new(places.len(), |i: int| false),
        Seq::<u8>::empty(),
        0,
        reuse,
        0,
    )
}

/// The search below node `dict_elem`, which the chosen letters lead to:
/// each place of the bag that is free is tried for the next letter.
fn find_words_rec(
    args: &SolverArgs,
    chosen: &mut Vec<u8>,
    is_chosen: &mut Vec<bool>,
    letter_elems: &Vec<u8>,
    dict_elem: usize,
    result: &mut WordBag,
    trace: &mut Vec<String>,
)
    requires
        args.dictionary.wf(),
        is_letters(letter_elems@),
        old(is_chosen)@.len() == letter_elems@.len(),
        is_letters(old(chosen)@),
        args.dictionary.node_of(old(chosen)@) == Some(dict_elem as int),
        old(result).wf(),
    ensures
        final(chosen)@ == old(chosen)@,
        final(is_chosen)@ == old(is_chosen)@,
        final(result).wf(),
        final(result).model@ == old(result).model@.union(
            below(
                args.dictionary@,
                letter_elems@,
                old(is_chosen)@,
                old(chosen)@,
                args.min_len as nat,
                args.reuse_letters,
                letter_elems@.len() as int,
            ),
        ),
        line_views(final(trace)@) == line_views(old(trace)@) + recorded(
            args.debug,
            *args.dictionary,
            letter_elems@,
            old(is_chosen)@,
            old(chosen)@,
            dict_elem as int,
            args.reuse_letters,
            0,
        ),
    decreases args.dictionary.spec_len() - dict_elem,
{
    let ghost prefix = chosen@;
    let ghost used = is_chosen@;
    let ghost base = result.model@;
    let ghost min = args.min_len as nat;
    let ghost reuse = args.reuse_letters;
    let ghost d = *args.dictionary;
    let ghost lines = line_views(trace@);
    let ghost debug = args.debug;
    let ghost node = dict_elem as int;
    proof {
        d.lemma_prefix(prefix, 0);
        assert(base.union(below(d@, letter_elems@, used, prefix, min, reuse, 0)) =~= base);
    }
    let mut i: usize = 0;
    while i < letter_elems.len()
        invariant
            0 <= i <= letter_elems@.len(),
            d == *args.dictionary,
            d.wf(),
            min == args.min_len as nat,
            reuse == args.reuse_letters,
            is_letters(letter_elems@),
            used.len() == letter_elems@.len(),
            is_letters(prefix),
            d.node_of(prefix) == Some(dict_elem as int),
            dict_elem < d.spec_len(),
            chosen@ == prefix,
            is_chosen@ == used,
            result.wf(),
            result.model@ == base.union(below(d@, letter_elems@, used, prefix, min, reuse, i as int)),
            debug == args.debug,
            node == dict_elem,
            line_views(trace@) + recorded(debug, d, letter_elems@, used, prefix, node, reuse, i as int)
                == lines + recorded(debug, d, letter_elems@, used, prefix, node, reuse, 0),
        decreases letter_elems@.len() - i,
    {
        proof {
            lemma_try_place(d, letter_elems@, used, prefix, min, reuse, i as int);
        }
        if !is_chosen[i] || args.reuse_letters {
            let chosen_letter = letter_elems[i];
            chosen.push(chosen_letter);
            let next = args.dictionary.lookup_elem_letter(dict_elem, chosen_letter);
            proof {
                d.lemma_transition(prefix, chosen_letter);
                d.lemma_child_is_later(dict_elem as int, chosen_letter as int);
            }
            if args.debug {
                trace.push(debug_line(chosen, next));
            }
            match next {
                LetterNext::End | LetterNext::EndNext(_) => {
                    if chosen.len() >= args.min_len as usize {
                        result.insert(chosen);
                    }
                },
                _ => {},
            }
            match next {
                LetterNext::Next(e) | LetterNext::EndNext(e) => {
                    if !args.reuse_letters {
                        is_chosen[i] = true;
                    }
                    find_words_rec(args, chosen, is_chosen, letter_elems, e as usize, result, trace);
                    if !args.reuse_letters {
                        is_chosen[i] = false;
                    }
                },
                _ => {},
            }
            chosen.pop();
        }
        assert(result.model@ =~= base.union(
            below(d@, letter_elems@, used, prefix, min, reuse, i + 1),
        ));
        i += 1;
    }
}

/// Where letters may be used again, a bag spells what any bag of the same
/// letters spells.
proof fn lemma_same_letters(w: Seq<u8>, a: Seq<u8>, b: Seq<u8>)
    requires
        forall|x: u8| a.contains(x) <==> b.contains(x),
        has_places(w, a, true),
    ensures
        has_places(w, b, true),
{
    let from_a = choose|picks: Seq<int>| #[trigger] spells(picks, a, w);
    let from_b = Seq::new(w.len(), |k: int| choose|j: int| 0 <= j < b.len() && b[j] == w[k]);
    assert forall|k: int| 0 <= k < from_b.len() implies 0 <= #[trigger] from_b[k] < b.len()
        && b[from_b[k]] == w[k] by {
        assert(a[from_a[k]] == w[k]);
        assert(a.contains(w[k]));
    }
    assert(spells(from_b, b, w));
}

/// Started at the root with every place free, the search finds the words
/// to find.
proof fn lemma_search_all(
    d: Dictionary,
    letters: Seq<u8>,
    elems: Seq<u8>,
    used: Seq<bool>,
    min_len: nat,
    reuse: bool,
)
    requires
        d.wf(),
        used.len() == elems.len(),
        forall|i: int| 0 <= i < used.len() ==> !used[i],
        if reuse {
            forall|x: u8| elems.contains(x) <==> letters.contains(x)
        } else {
            elems == letters
        },
    ensures
        below(d@, elems, used, Seq::<u8>::empty(), min_len, reuse, elems.len() as int) == found_words(
            d@,
            letters,
            min_len,
            reuse,
        ),
{
    let root = Seq::<u8>::empty();
    let lhs = below(d@, elems, used, root, min_len, reuse, elems.len() as int);
    let rhs = found_words(d@, letters, min_len, reuse);
    assert forall|w: Seq<u8>| lhs.contains(w) implies rhs.contains(w) by {
        assert(w.skip(0) =~= w);
        if reuse {
            lemma_same_letters(w, elems, letters);
        }
        lemma_places(w, letters, reuse);
    }
    assert forall|w: Seq<u8>| rhs.contains(w) implies lhs.contains(w) by {
        d.lemma_words_valid(w);
        lemma_places(w, letters, reuse);
        if reuse {
            lemma_same_letters(w, letters, elems);
        }
        let picks = choose|picks: Seq<int>| #[trigger]
            spells(picks, elems, w) && (reuse || picks.no_duplicates());
        assert(w.take(0) =~= root);
        assert(rest_spelled(picks, w, 0, elems, used, reuse, elems.len() as int));
    }
}

/// A word of the dictionary is found with its own letters as the bag,
/// each used once, where the least length asks for no more letters than
/// the word has.
pub proof fn lemma_round_trip(d: Dictionary, w: Seq<u8>, min_len: nat)
    requires
        d.wf(),
        d@.contains(w),
        min_len <= w.len(),
    ensures
        found_words(d@, w, min_len, false).contains(w),
        found_texts(d@, upper_numbers(upper_text(w)), min_len, false).contains(upper_text(w)),
{
    d.lemma_words_valid(w);
    lemma_upper_text(w);
}

/// A line that was taken in as a word is found when the letters are the
/// line itself in upper case, each used once, and the least length asks
/// for no more letters than the line has.
pub proof fn lemma_loaded_word_is_found(
    d: Dictionary,
    lines: Seq<Seq<char>>,
    max_len: nat,
    i: int,
    min_len: nat,
)
    requires
        d.wf(),
        d@ == words_of(lines, max_len),
        0 <= i < lines.len(),
        line_kind(lines[i], max_len) is Word,
        min_len <= lines[i].len(),
    ensures
        found_texts(d@, upper_numbers(upper_cased(lines[i])), min_len, false).contains(
            upper_cased(lines[i]),
        ),
{
    let w = lower_numbers(lines[i]);
    assert(is_line_of(lines, max_len, i, w));
    lemma_lower_to_upper(lines[i]);
}

/// No word that is found is shorter than the least length.
pub proof fn lemma_found_long_enough(
    dict: Set<Seq<u8>>,
    letters: Seq<u8>,
    min_len: nat,
    reuse: bool,
    s: Seq<char>,
)
    requires
        found_texts(dict, letters, min_len, reuse).contains(s),
    ensures
        s.len() >= min_len,
        dict.contains(upper_numbers(s)),
{
}

/// What is found with each place of the bag used once is also found
/// where letters may be used again.
pub proof fn lemma_reuse_finds_more(dict: Set<Seq<u8>>, letters: Seq<u8>, min_len: nat)
    ensures
        found_words(dict, letters, min_len, false).subset_of(
            found_words(dict, letters, min_len, true),
        ),
        found_texts(dict, letters, min_len, false).subset_of(
            found_texts(dict, letters, min_len, true),
        ),
{
    assert forall|w: Seq<u8>| can_form(w, letters, false) implies can_form(w, letters, true) by {
        lemma_places(w, letters, false);
        lemma_places(w, letters, true);
    }
}

/// Where letters may be used again, a word has places in the bag exactly
/// if the bag holds each letter of the word.
proof fn lemma_places_reuse(w: Seq<u8>, letters: Seq<u8>)
    ensures
        has_places(w, letters, true) <==> forall|k: int| 0 <= k < w.len() ==> letters.contains(#[trigger] w[k]),
{
    if has_places(w, letters, true) {
        let picks = choose|picks: Seq<int>| #[trigger] spells(picks, letters, w);
        assert forall|k: int| 0 <= k < w.len() implies letters.contains(#[trigger] w[k]) by {
            assert(letters[picks[k]] == w[k]);
        }
    }
    if forall|k: int| 0 <= k < w.len() ==> letters.contains(#[trigger] w[k]) {
        let picks = Seq::new(
            w.len(),
            |k: int| choose|j: int| 0 <= j < letters.len() && letters[j] == w[k],
        );
        assert(spells(picks, letters, w));
    }
}

/// Places that spell a word, each used once, show that the bag holds each
/// letter as often as the word does.
proof fn lemma_places_to_counts(picks: Seq<int>, letters: Seq<u8>, w: Seq<u8>)
    requires
        spells(picks, letters, w),
        picks.no_duplicates(),
    ensures
        w.to_multiset().subset_of(letters.to_multiset()),
    decreases w.len(),
{

    w.to_multiset_ensures();
    if w.len() > 0 {
        let j = picks.last();
        let c = w.last();
        let shorter = w.drop_last();
        let fewer = letters.remove(j);
        let moved = Seq::new(
            shorter.len(),
            |k: int|
                if picks[k] > j {
                    picks[k] - 1
                } else {
                    picks[k]
                },
        );
        lemma_places_to_counts(moved, fewer, shorter);
        letters.to_multiset_ensures();
        shorter.to_multiset_ensures();
        assert(w =~= shorter.push(c));
    }
}

/// A bag that holds each letter as often as a word does has places that
/// spell the word, each used once.
proof fn lemma_counts_to_places(w: Seq<u8>, letters: Seq<u8>)
    requires
        w.to_multiset().subset_of(letters.to_multiset()),
    ensures
        has_places(w, letters, false),
    decreases w.len(),
{

    letters.to_multiset_ensures();
    if w.len() == 0 {
        let picks = Seq::<int>::empty();
        assert(spells(picks, letters, w));
    } else {
        let c = w.last();
        let shorter = w.drop_last();
        shorter.to_multiset_ensures();
        assert(w =~= shorter.push(c));
        assert(w.to_multiset().count(c) > 0);
        let j = choose|j: int| 0 <= j < letters.len() && letters[j] == c;
        let fewer = letters.remove(j);
        lemma_counts_to_places(shorter, fewer);
        let inner = choose|picks: Seq<int>| #[trigger]
            spells(picks, fewer, shorter) && picks.no_duplicates();
        let back = Seq::new(
            inner.len(),
            |k: int|
                if inner[k] >= j {
                    inner[k] + 1
                } else {
                    inner[k]
                },
        );
        let picks = back.push(j);
        assert(spells(picks, letters, w));
    }
}

/// The search spells exactly the words that the bag can spell: a word has
/// places in the bag exactly if the bag holds its letters often enough.
pub proof fn lemma_places(w: Seq<u8>, letters: Seq<u8>, reuse: bool)
    ensures
        has_places(w, letters, reuse) <==> can_form(w, letters, reuse),
{
    if reuse {
        lemma_places_reuse(w, letters);
    } else {
        if has_places(w, letters, false) {
            let picks = choose|picks: Seq<int>| #[trigger]
                spells(picks, letters, w) && picks.no_duplicates();
            lemma_places_to_counts(picks, letters, w);
        }
        if w.to_multiset().subset_of(letters.to_multiset()) {
            lemma_counts_to_places(w, letters);
        }
    }
}

/// What a search gives.
pub struct SearchOutput {
    /// The words found, each once.
    pub words: Vec<String>,
    /// One line for each step of the search, where steps were recorded.
    pub trace: Vec<String>,
}

/// Searches the dictionary for the words that the letters can spell.
pub fn search(args: SolverArgs) -> (out: SearchOutput)
    requires
        args.dictionary.wf(),
        all_upper(args.letters@),
    ensures
        line_views(out.words@).no_duplicates(),
        forall|i: int| 0 <= i < out.words@.len() ==> (#[trigger] out.words@[i])@.len() >= args.min_len,
        line_views(out.words@).to_set() == found_texts(
            args.dictionary@,
            upper_numbers(args.letters@),
            args.min_len as nat,
            args.reuse_letters,
        ),
        line_views(out.trace@) == search_trace(
            args.debug,
            *args.dictionary,
            upper_numbers(args.letters@),
            args.reuse_letters,
        ),
{
    let mut result = WordBag::new();
    let mut trace: Vec<String> = Vec::new();
    let mut letter_elems = upper_letters(args.letters);
    if args.reuse_letters {
        letter_elems = distinct_letters(&letter_elems);
    }
    let mut chosen: Vec<u8> = Vec::with_capacity(letter_elems.len());
    let mut is_chosen: Vec<bool> = Vec::new();
    let mut i: usize = 0;
    while i < letter_elems.len()
        invariant
            0 <= i <= letter_elems@.len(),
            is_chosen@.len() == i,
            forall|k: int| 0 <= k < i ==> !is_chosen@[k],
        decreases letter_elems@.len() - i,
    {
        is_chosen.push(false);
        i += 1;
    }
    proof {
        args.dictionary.lemma_root();
        lemma_search_all(
            *args.dictionary,
            upper_numbers(args.letters@),
            letter_elems@,
            is_chosen@,
            args.min_len as nat,
            args.reuse_letters,
        );
    }
    let ghost free = is_chosen@;
    find_words_rec(&args, &mut chosen, &mut is_chosen, &letter_elems, 0, &mut result, &mut trace);
    proof {
        assert(free =~= Seq::new(letter_elems@.len(), |i: int| false));
        let texts = line_views(result.list@);
        let goal = found_texts(
            args.dictionary@,
            upper_numbers(args.letters@),
            args.min_len as nat,
            args.reuse_letters,
        );
        assert(result.model@ =~= found_words(
            args.dictionary@,
            upper_numbers(args.letters@),
            args.min_len as nat,
            args.reuse_letters,
        ));
        assert forall|s: Seq<char>| texts.to_set().contains(s) implies goal.contains(s) by {
            assert(result.seen@.contains(s));
        }
        assert forall|s: Seq<char>| goal.contains(s) implies texts.to_set().contains(s) by {
            lemma_upper_numbers(s);
        }
        assert forall|i: int| 0 <= i < result.list@.len() implies (#[trigger] result.list@[i])@.len()
            >= args.min_len by {
            assert(goal.contains(texts[i]));
        }
    }
    SearchOutput { words: result.list, trace }
}

/// The words of the dictionary that the letters can spell and that are
/// long enough, each once, as texts in upper case.
pub fn find_words(args: SolverArgs) -> (r: Vec<String>)
    requires
        args.dictionary.wf(),
        all_upper(args.letters@),
    ensures
        line_views(r@).no_duplicates(),
        forall|i: int| 0 <= i < r@.len() ==> (#[trigger] r@[i])@.len() >= args.min_len,
        line_views(r@).to_set() == found_texts(
            args.dictionary@,
            upper_numbers(args.letters@),
            args.min_len as nat,
            args.reuse_letters,
        ),
{
    search(args).words
}

} // verus!
