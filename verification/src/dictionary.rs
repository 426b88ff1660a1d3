//! The word list as a prefix tree.
//!
//! A word is a sequence of letter numbers, 0 for the first letter of the
//! alphabet up to 25 for the last. The tree is an arena of nodes; each node
//! has one slot per letter, and the root is node 0. The words of a
//! dictionary are a mathematical set, its view; the tree is proved to hold
//! exactly that set.

use vstd::prelude::*;

verus! {

/// Letters in the alphabet, which is also the number of slots in a node.
pub const ALPHABET: usize = 26;

/// Bytes that one slot takes in memory.
pub const SLOT_SIZE: usize = 8;

/// What a node holds for one letter.
#[derive(Copy, Clone, Debug)]
pub enum LetterNext {
    /// No word has the node's prefix followed by this letter.
    Absent,
    /// The prefix with this letter is no word, and goes on in the given node.
    Next(u32),
    /// The prefix with this letter is a word, and no longer word starts with it.
    End,
    /// The prefix with this letter is a word, and longer words go on in the given node.
    EndNext(u32),
}

impl LetterNext {
    /// The node that the slot leads to, if it leads anywhere.
    pub open spec fn child(self) -> Option<int> {
        match self {
            LetterNext::Next(e) => Some(e as int),
            LetterNext::EndNext(e) => Some(e as int),
            _ => None,
        }
    }

    /// Whether a word ends at the slot.
    pub open spec fn ends_word(self) -> bool {
        self is End || self is EndNext
    }
}

/// The slots of one node.
pub type LetterVec = [LetterNext; 26];

/// Every element is the number of a letter.
pub open spec fn is_letters(w: Seq<u8>) -> bool {
    forall|i: int| 0 <= i < w.len() ==> w[i] < 26
}

/// `q` is the start of `w`, and shorter than `w`.
pub open spec fn is_proper_prefix(q: Seq<u8>, w: Seq<u8>) -> bool {
    q.len() < w.len() && w.take(q.len() as int) == q
}

/// Some word of `words` starts with `q` and goes on after it.
pub open spec fn has_longer_word(words: Set<Seq<u8>>, q: Seq<u8>) -> bool {
    exists|w: Seq<u8>| words.contains(w) && #[trigger] is_proper_prefix(q, w)
}

/// The non-empty sequences with which some word of `words` starts without
/// ending there. Each of them has a node of its own in the tree.
pub open spec fn proper_prefixes(words: Set<Seq<u8>>) -> Set<Seq<u8>> {
    Set::new(|q: Seq<u8>| q.len() >= 1 && has_longer_word(words, q))
}

/// The number of nodes in the tree that holds `words`: the root, and one
/// node for each proper prefix.
pub open spec fn node_count(words: Set<Seq<u8>>) -> nat {
    1 + proper_prefixes(words).len()
}

/// The most nodes a tree may have: a node's index fits in 32 bits, and the
/// size of the arena in bytes fits in `usize`.
pub open spec fn spec_max_nodes() -> nat {
    if usize::MAX / 208 < 0xFFFF_FFFF {
        (usize::MAX / 208) as nat
    } else {
        0xFFFF_FFFF
    }
}

/// The most nodes a tree may have.
pub fn max_nodes() -> (r: usize)
    ensures
        r == spec_max_nodes(),
{
    if usize::MAX / 208 < 0xFFFF_FFFF {
        usize::MAX / 208
    } else {
        0xFFFF_FFFF
    }
}

/// How the nodes and the words lie in the tree. It exists only in proofs.
struct TrieModel {
    /// For each node, the letters that lead to it from the root.
    paths: Seq<Seq<u8>>,
    /// For each node but the root, the node one letter before it.
    parents: Seq<int>,
    /// The words, in the order in which they were added.
    words: Seq<Seq<u8>>,
    /// For each word, the node in which its last letter is marked.
    homes: Seq<int>,
    /// For each node but the root, the index of a word that passes through it.
    through: Seq<int>,
}

/// What node `n` of the tree `t` holds for letter `l`.
spec fn slot(t: Seq<LetterVec>, n: int, l: int) -> LetterNext {
    t[n]@[l]
}

/// The node reached from the root by the letters of `p`, if those letters
/// lead to a node.
spec fn node_at(t: Seq<LetterVec>, p: Seq<u8>) -> Option<int>
    decreases p.len(),
{
    if p.len() == 0 {
        Some(0int)
    } else {
        match node_at(t, p.drop_last()) {
            Some(n) => if 0 <= n < t.len() && p.last() < 26 {
                slot(t, n, p.last() as int).child()
            } else {
                None
            },
            None => None,
        }
    }
}

/// The links between the nodes form a tree below node 0, and `paths` and
/// `parents` describe it.
spec fn struct_ok(t: Seq<LetterVec>, m: TrieModel) -> bool {
    &&& 1 <= t.len() <= spec_max_nodes()
    &&& m.paths.len() == t.len()
    &&& m.parents.len() == t.len()
    &&& m.through.len() == t.len()
    &&& m.paths[0].len() == 0
    &&& forall|n: int, l: int|
        0 <= n < t.len() && 0 <= l < 26 ==> ((#[trigger] slot(t, n, l)).child() matches Some(e)
            ==> n < e < t.len() && m.paths[e] == m.paths[n].push(l as u8) && m.parents[e] == n)
    &&& forall|e: int|
        1 <= e < t.len() ==> {
            let n = #[trigger] m.parents[e];
            &&& 0 <= n < e
            &&& m.paths[e].len() >= 1
            &&& m.paths[e].last() < 26
            &&& slot(t, n, m.paths[e].last() as int).child() == Some(e)
        }
}

/// The slots that end a word are those of `words`.
spec fn words_ok(t: Seq<LetterVec>, m: TrieModel) -> bool {
    &&& m.words.no_duplicates()
    &&& m.homes.len() == m.words.len()
    &&& forall|k: int|
        0 <= k < m.words.len() ==> {
            let h = #[trigger] m.homes[k];
            let w = m.words[k];
            &&& w.len() >= 2
            &&& w.last() < 26
            &&& 0 <= h < t.len()
            &&& m.paths[h] == w.drop_last()
            &&& slot(t, h, w.last() as int).ends_word()
        }
    &&& forall|n: int, l: int|
        0 <= n < t.len() && 0 <= l < 26 && (#[trigger] slot(t, n, l)).ends_word()
            ==> m.words.contains(m.paths[n].push(l as u8))
}

/// Node `e` lies on the way to the word that `through` names for it.
spec fn through_ok(m: TrieModel, e: int) -> bool {
    let k = m.through[e];
    0 <= k < m.words.len() && is_proper_prefix(m.paths[e], m.words[k])
}

/// The path that `paths` gives for a node leads to that node.
proof fn lemma_node_of_path(t: Seq<LetterVec>, m: TrieModel, n: int)
    requires
        struct_ok(t, m),
        0 <= n < t.len(),
    ensures
        node_at(t, m.paths[n]) == Some(n),
    decreases n,
{
    if n > 0 {
        let par = m.parents[n];
        lemma_node_of_path(t, m, par);
        assert(m.paths[n].drop_last() =~= m.paths[par]);
    }
}

/// Letters that lead to a node are the path that `paths` gives for it.
proof fn lemma_path_of_node(t: Seq<LetterVec>, m: TrieModel, p: Seq<u8>)
    requires
        struct_ok(t, m),
        node_at(t, p) is Some,
    ensures
        0 <= node_at(t, p)->0 < t.len(),
        m.paths[node_at(t, p)->0] == p,
    decreases p.len(),
{
    if p.len() > 0 {
        lemma_path_of_node(t, m, p.drop_last());
    }
}

/// Where letters lead to a node, so does every start of them.
proof fn lemma_prefix_has_node(t: Seq<LetterVec>, p: Seq<u8>, k: int)
    requires
        node_at(t, p) is Some,
        0 <= k <= p.len(),
    ensures
        node_at(t, p.take(k)) is Some,
    decreases p.len(),
{
    if k == p.len() {
        assert(p.take(k) =~= p);
    } else {
        lemma_prefix_has_node(t, p.drop_last(), k);
        assert(p.drop_last().take(k) =~= p.take(k));
    }
}

/// One more letter leads on through the slot of the node reached so far.
proof fn lemma_node_at_push(t: Seq<LetterVec>, p: Seq<u8>, l: u8)
    ensures
        node_at(t, p.push(l)) == match node_at(t, p) {
            Some(n) => if 0 <= n < t.len() && l < 26 {
                slot(t, n, l as int).child()
            } else {
                None
            },
            None => None,
        },
{
    assert(p.push(l).drop_last() =~= p);
}

/// A sequence is a word exactly if its letters but the last lead to a node
/// whose slot for the last letter ends a word.
proof fn lemma_word_iff_end(t: Seq<LetterVec>, m: TrieModel, w: Seq<u8>)
    requires
        struct_ok(t, m),
        words_ok(t, m),
    ensures
        m.words.contains(w) <==> (w.len() >= 1 && w.last() < 26 && node_at(t, w.drop_last()) is Some
            && slot(t, node_at(t, w.drop_last())->0, w.last() as int).ends_word()),
{
    if m.words.contains(w) {
        let k = choose|k: int| 0 <= k < m.words.len() && m.words[k] == w;
        let h = m.homes[k];
        lemma_node_of_path(t, m, h);
    }
    if w.len() >= 1 && w.last() < 26 && node_at(t, w.drop_last()) is Some && slot(
        t,
        node_at(t, w.drop_last())->0,
        w.last() as int,
    ).ends_word() {
        lemma_path_of_node(t, m, w.drop_last());
        assert(w.drop_last().push(w.last()) =~= w);
    }
}

/// Node `e` was made for `word`, which is about to become the next word.
spec fn pending_ok(m: TrieModel, word: Seq<u8>, e: int) -> bool {
    m.through[e] == m.words.len() && is_proper_prefix(m.paths[e], word)
}

/// The tree while a word is being added: the nodes made for it lie on its
/// way, and no word passes through them yet.
spec fn growing_ok(t: Seq<LetterVec>, m: TrieModel, old_len: int, word: Seq<u8>) -> bool {
    &&& struct_ok(t, m)
    &&& words_ok(t, m)
    &&& 1 <= old_len <= t.len()
    &&& forall|e: int| 1 <= e < old_len ==> #[trigger] through_ok(m, e)
    &&& forall|e: int| old_len <= e < t.len() ==> #[trigger] pending_ok(m, word, e)
}

/// A slot without a child means that no word goes that way.
proof fn lemma_no_child_no_word(
    t: Seq<LetterVec>,
    m: TrieModel,
    word: Seq<u8>,
    cur: int,
    i: int,
)
    requires
        struct_ok(t, m),
        words_ok(t, m),
        0 <= i < word.len() - 1,
        0 <= cur < t.len(),
        word[i] < 26,
        m.paths[cur] == word.take(i),
        slot(t, cur, word[i] as int).child() is None,
    ensures
        !m.words.contains(word),
{
    if m.words.contains(word) {
        let k = choose|k: int| 0 <= k < m.words.len() && m.words[k] == word;
        let h = m.homes[k];
        lemma_node_of_path(t, m, h);
        lemma_prefix_has_node(t, word.drop_last(), i + 1);
        assert(word.drop_last().take(i + 1) =~= word.take(i).push(word[i]));
        lemma_node_at_push(t, word.take(i), word[i]);
        lemma_node_of_path(t, m, cur);
    }
}

/// Hanging a fresh node below a slot that had no child keeps the tree in
/// order.
proof fn lemma_grow(
    t: Seq<LetterVec>,
    m: TrieModel,
    t2: Seq<LetterVec>,
    m2: TrieModel,
    old_len: int,
    word: Seq<u8>,
    cur: int,
    i: int,
)
    requires
        growing_ok(t, m, old_len, word),
        0 <= i < word.len() - 1,
        0 <= cur < t.len(),
        word[i] < 26,
        m.paths[cur] == word.take(i),
        slot(t, cur, word[i] as int).child() is None,
        t.len() < spec_max_nodes(),
        t2.len() == t.len() + 1,
        forall|n: int, l: int|
            0 <= n < t.len() && 0 <= l < 26 && !(n == cur && l == word[i]) ==> #[trigger] slot(
                t2,
                n,
                l,
            ) == slot(t, n, l),
        forall|l: int| 0 <= l < 26 ==> #[trigger] slot(t2, t.len() as int, l) == LetterNext::Absent,
        slot(t2, cur, word[i] as int).child() == Some(t.len() as int),
        slot(t2, cur, word[i] as int).ends_word() == slot(t, cur, word[i] as int).ends_word(),
        m2.paths == m.paths.push(word.take(i + 1)),
        m2.parents == m.parents.push(cur),
        m2.through == m.through.push(m.words.len() as int),
        m2.words == m.words,
        m2.homes == m.homes,
    ensures
        growing_ok(t2, m2, old_len, word),
{
    assert forall|n: int, l: int| 0 <= n < t2.len() && 0 <= l < 26 implies ((#[trigger] slot(
        t2,
        n,
        l,
    )).child() matches Some(c) ==> n < c < t2.len() && m2.paths[c] == m2.paths[n].push(l as u8)
        && m2.parents[c] == n) by {}
    assert forall|c: int| 1 <= c < old_len implies #[trigger] through_ok(m2, c) by {
        assert(through_ok(m, c));
    }
    assert forall|c: int| old_len <= c < t2.len() implies #[trigger] pending_ok(m2, word, c) by {
        if c < t.len() {
            assert(pending_ok(m, word, c));
        }
    }
}

/// Marking the last letter of a new word brings the tree back in order,
/// with the word among its words.
proof fn lemma_mark(
    t: Seq<LetterVec>,
    m: TrieModel,
    t2: Seq<LetterVec>,
    m2: TrieModel,
    old_len: int,
    word: Seq<u8>,
    cur: int,
)
    requires
        growing_ok(t, m, old_len, word),
        word.len() >= 2,
        word.last() < 26,
        0 <= cur < t.len(),
        m.paths[cur] == word.drop_last(),
        !slot(t, cur, word.last() as int).ends_word(),
        t2.len() == t.len(),
        forall|n: int, l: int|
            0 <= n < t.len() && 0 <= l < 26 && !(n == cur && l == word.last()) ==> #[trigger] slot(
                t2,
                n,
                l,
            ) == slot(t, n, l),
        slot(t2, cur, word.last() as int).child() == slot(t, cur, word.last() as int).child(),
        slot(t2, cur, word.last() as int).ends_word(),
        m2.paths == m.paths,
        m2.parents == m.parents,
        m2.through == m.through,
        m2.words == m.words.push(word),
        m2.homes == m.homes.push(cur),
    ensures
        !m.words.contains(word),
        struct_ok(t2, m2),
        words_ok(t2, m2),
        forall|e: int| 1 <= e < t2.len() ==> #[trigger] through_ok(m2, e),
{
    let last = word.last() as int;
    if m.words.contains(word) {
        let k = choose|k: int| 0 <= k < m.words.len() && m.words[k] == word;
        let h = m.homes[k];
        lemma_node_of_path(t, m, h);
        lemma_node_of_path(t, m, cur);
    }
    assert forall|n: int, l: int|
        0 <= n < t2.len() && 0 <= l < 26 && (#[trigger] slot(t2, n, l)).ends_word() implies m2.words.contains(
        m2.paths[n].push(l as u8),
    ) by {
        if n == cur && l == last {
            assert(m.paths[cur].push(last as u8) =~= word);
            assert(m2.words[m.words.len() as int] == word);
        } else {
            let u = m.paths[n].push(l as u8);
            let k = choose|k: int| 0 <= k < m.words.len() && m.words[k] == u;
            assert(m2.words[k] == u);
        }
    }
    assert forall|e: int| 1 <= e < t2.len() implies #[trigger] through_ok(m2, e) by {
        if e < old_len {
            assert(through_ok(m, e));
        } else {
            assert(pending_ok(m, word, e));
        }
    }
}

/// Each word has a slot of its own, so there are at most as many words as
/// slots.
proof fn lemma_word_bound(t: Seq<LetterVec>, m: TrieModel)
    requires
        struct_ok(t, m),
        words_ok(t, m),
    ensures
        m.words.len() <= 26 * t.len(),
{
    let codes = Seq::new(m.words.len(), |k: int| m.homes[k] * 26 + m.words[k].last() as int);
    assert forall|a: int, b: int| 0 <= a < codes.len() && 0 <= b < codes.len() && a != b implies codes[a]
        != codes[b] by {
        if codes[a] == codes[b] {
            assert(m.words[a] =~= m.words[a].drop_last().push(m.words[a].last()));
            assert(m.words[b] =~= m.words[b].drop_last().push(m.words[b].last()));
        }
    }
    codes.unique_seq_to_set();
    let range = vstd::set_lib::set_int_range(0, 26 * (t.len() as int));
    vstd::set_lib::lemma_int_range(0, 26 * (t.len() as int));
    vstd::set_lib::lemma_len_subset(codes.to_set(), range);
}

/// The letters on the way to a node are letters of the alphabet.
proof fn lemma_path_letters(t: Seq<LetterVec>, m: TrieModel, n: int)
    requires
        struct_ok(t, m),
        0 <= n < t.len(),
    ensures
        is_letters(m.paths[n]),
    decreases n,
{
    if n > 0 {
        let par = m.parents[n];
        lemma_path_letters(t, m, par);
    }
}

/// The nodes but the root are as many as the proper prefixes of the words.
proof fn lemma_nodes_are_prefixes(t: Seq<LetterVec>, m: TrieModel)
    requires
        struct_ok(t, m),
        words_ok(t, m),
        forall|e: int| 1 <= e < t.len() ==> #[trigger] through_ok(m, e),
    ensures
        t.len() == node_count(m.words.to_set()),
{
    let below = m.paths.skip(1);
    let prefixes = proper_prefixes(m.words.to_set());
    assert forall|a: int, b: int| 0 <= a < below.len() && 0 <= b < below.len() && a != b implies below[a]
        != below[b] by {
        lemma_node_of_path(t, m, a + 1);
        lemma_node_of_path(t, m, b + 1);
    }
    below.unique_seq_to_set();
    assert forall|q: Seq<u8>| below.to_set().contains(q) implies prefixes.contains(q) by {
        let a = choose|a: int| 0 <= a < below.len() && below[a] == q;
        let e = a + 1;
        assert(m.parents[e] < e);
        assert(through_ok(m, e));
    }
    assert forall|q: Seq<u8>| prefixes.contains(q) implies below.to_set().contains(q) by {
        let w = choose|w: Seq<u8>| m.words.to_set().contains(w) && #[trigger] is_proper_prefix(q, w);
        lemma_word_iff_end(t, m, w);
        lemma_prefix_has_node(t, w.drop_last(), q.len() as int);
        assert(w.drop_last().take(q.len() as int) =~= q);
        lemma_path_of_node(t, m, q);
        let n = node_at(t, q)->0;
        assert(below[n - 1] == q);
    }
    assert(below.to_set() =~= prefixes);
}

/// A built word list.
pub struct Dictionary {
    words: usize,
    tree: Vec<LetterVec>,
    model: Ghost<TrieModel>,
}

impl View for Dictionary {
    type V = Set<Seq<u8>>;

    /// The words of the dictionary.
    closed spec fn view(&self) -> Set<Seq<u8>> {
        self.model@.words.to_set()
    }
}

impl Dictionary {
    /// The tree holds the words of the view and nothing else.
    pub closed spec fn wf(&self) -> bool {
        &&& struct_ok(self.tree@, self.model@)
        &&& words_ok(self.tree@, self.model@)
        &&& self.words == self.model@.words.len()
        &&& forall|e: int| 1 <= e < self.tree@.len() ==> #[trigger] through_ok(self.model@, e)
    }

    /// The number of nodes.
    pub closed spec fn spec_len(&self) -> nat {
        self.tree@.len()
    }

    /// What node `node` holds for letter `letter`.
    pub closed spec fn transition(&self, node: int, letter: int) -> LetterNext {
        slot(self.tree@, node, letter)
    }

    /// The node that the letters of `path` lead to from the root, if any.
    pub closed spec fn node_of(&self, path: Seq<u8>) -> Option<int> {
        node_at(self.tree@, path)
    }

    /// The empty path leads to the root, which every dictionary has.
    pub proof fn lemma_root(&self)
        requires
            self.wf(),
        ensures
            self.node_of(Seq::<u8>::empty()) == Some(0int),
            self.spec_len() >= 1,
            self.spec_len() <= spec_max_nodes(),
    {
    }

    /// One more letter leads on through the slot of the node reached so far,
    /// and nowhere if no node was reached.
    pub proof fn lemma_step(&self, path: Seq<u8>, letter: u8)
        ensures
            self.node_of(path.push(letter)) == match self.node_of(path) {
                Some(n) => if 0 <= n < self.spec_len() && letter < 26 {
                    self.transition(n, letter as int).child()
                } else {
                    None
                },
                None => None,
            },
    {
        lemma_node_at_push(self.tree@, path, letter);
    }

    /// A path that leads to a node leads to a node of this dictionary, and
    /// so does every start of the path.
    pub proof fn lemma_prefix(&self, path: Seq<u8>, k: int)
        requires
            self.wf(),
            self.node_of(path) is Some,
            0 <= k <= path.len(),
        ensures
            0 <= self.node_of(path)->0 < self.spec_len(),
            self.node_of(path.take(k)) is Some,
    {
        lemma_prefix_has_node(self.tree@, path, k);
    }

    /// A slot leads to a node that was made after the slot's own node.
    pub proof fn lemma_child_is_later(&self, node: int, letter: int)
        requires
            self.wf(),
            0 <= node < self.spec_len(),
            0 <= letter < 26,
        ensures
            self.transition(node, letter).child() matches Some(e) ==> node < e < self.spec_len(),
    {
    }

    /// The tree shares no node between two paths: each node is reached by
    /// one sequence of letters only.
    pub proof fn lemma_one_path_per_node(&self, p: Seq<u8>, q: Seq<u8>)
        requires
            self.wf(),
            self.node_of(p) is Some,
            self.node_of(p) == self.node_of(q),
        ensures
            p == q,
    {
        lemma_path_of_node(self.tree@, self.model@, p);
        lemma_path_of_node(self.tree@, self.model@, q);
    }

    /// A sequence is a word of the dictionary exactly if its letters but the
    /// last lead to a node whose slot for the last letter ends a word.
    pub proof fn lemma_word(&self, w: Seq<u8>)
        requires
            self.wf(),
        ensures
            self@.contains(w) <==> (w.len() >= 1 && w.last() < 26 && self.node_of(w.drop_last()) is Some
                && self.transition(self.node_of(w.drop_last())->0, w.last() as int).ends_word()),
    {
        lemma_word_iff_end(self.tree@, self.model@, w);
    }

    /// What a slot says of the prefix that leads to its node, followed by
    /// its letter: a word ends at the slot exactly if that is a word, and
    /// the slot leads on exactly if longer words start with it, and then it
    /// leads to the node of that longer prefix.
    pub proof fn lemma_transition(&self, prefix: Seq<u8>, letter: u8)
        requires
            self.wf(),
            self.node_of(prefix) is Some,
            letter < 26,
        ensures
            ({
                let slot = self.transition(self.node_of(prefix)->0, letter as int);
                &&& slot.ends_word() <==> self@.contains(prefix.push(letter))
                &&& slot.child() is Some <==> has_longer_word(self@, prefix.push(letter))
                &&& slot.child() == self.node_of(prefix.push(letter))
            }),
    {
        let t = self.tree@;
        let m = self.model@;
        let q = prefix.push(letter);
        let n = node_at(t, prefix)->0;
        lemma_path_of_node(t, m, prefix);
        lemma_node_at_push(t, prefix, letter);
        lemma_word_iff_end(t, m, q);
        assert(q.drop_last() =~= prefix);
        if slot(t, n, letter as int).child() is Some {
            let e = slot(t, n, letter as int).child()->0;
            assert(through_ok(m, e));
        }
        if has_longer_word(self@, q) {
            let w = choose|w: Seq<u8>| self@.contains(w) && #[trigger] is_proper_prefix(q, w);
            lemma_word_iff_end(t, m, w);
            lemma_prefix_has_node(t, w.drop_last(), q.len() as int);
            assert(w.drop_last().take(q.len() as int) =~= q);
        }
    }

    /// Every word has at least two letters, and only letters of the alphabet.
    pub proof fn lemma_words_valid(&self, w: Seq<u8>)
        requires
            self.wf(),
            self@.contains(w),
        ensures
            w.len() >= 2,
            is_letters(w),
    {
        let m = self.model@;
        let k = choose|k: int| 0 <= k < m.words.len() && m.words[k] == w;
        let h = m.homes[k];
        lemma_path_letters(self.tree@, m, h);
        assert(w =~= w.drop_last().push(w.last()));
    }

    /// The words are finitely many, and the tree has one node for the root
    /// and one for each proper prefix of a word.
    pub proof fn lemma_size(&self)
        requires
            self.wf(),
        ensures
            self@.finite(),
            self.spec_len() == node_count(self@),
    {
        lemma_nodes_are_prefixes(self.tree@, self.model@);
    }

    /// A dictionary without words: the root alone.
    pub(crate) fn new() -> (d: Dictionary)
        ensures
            d.wf(),
            d@ == Set::<Seq<u8>>::empty(),
            d.spec_len() == 1,
    {
        let empty = [LetterNext::Absent;26];
        let mut tree: Vec<LetterVec> = Vec::new();
        tree.push(empty);
        let ghost model = TrieModel {
            paths: seq![Seq::<u8>::empty()],
            parents: seq![0int],
            words: Seq::<Seq<u8>>::empty(),
            homes: Seq::<int>::empty(),
            through: seq![0int],
        };
        Dictionary { words: 0, tree, model: Ghost(model) }
    }

    /// Adds `word`, unless it is a word already; says whether it was added.
    /// A word that is there already leaves the dictionary as it was.
    pub(crate) fn insert(&mut self, word: &Vec<u8>) -> (added: bool)
        requires
            old(self).wf(),
            word@.len() >= 2,
            is_letters(word@),
            old(self).spec_len() + word@.len() - 1 <= spec_max_nodes(),
        ensures
            final(self).wf(),
            added == !old(self)@.contains(word@),
            final(self)@ == if added {
                old(self)@.insert(word@)
            } else {
                old(self)@
            },
    {
        let m = word.len();
        let ghost old_tree = self.tree@;
        let ghost old_model = self.model@;
        let ghost old_len = self.tree@.len() as int;
        let empty = [LetterNext::Absent;26];
        let mut cur: usize = 0;
        let mut i: usize = 0;
        while i < m - 1
            invariant
                m == word@.len(),
                m >= 2,
                is_letters(word@),
                0 <= i <= m - 1,
                growing_ok(self.tree@, self.model@, old_len, word@),
                self.model@.words == old_model.words,
                self.model@.homes == old_model.homes,
                self.words == old_model.words.len(),
                cur < self.tree@.len(),
                self.model@.paths[cur as int] == word@.take(i as int),
                self.tree@.len() + (m - 1 - i) <= spec_max_nodes(),
                (self.tree@ == old_tree && self.model@ == old_model) || !old_model.words.contains(
                    word@,
                ),
                forall|l: int| 0 <= l < 26 ==> empty@[l] == LetterNext::Absent,
            decreases m - 1 - i,
        {
            let letter = word[i] as usize;
            let ghost t = self.tree@;
            let ghost md = self.model@;
            let next: usize = match self.tree[cur][letter] {
                LetterNext::Next(e) => e as usize,
                LetterNext::EndNext(e) => e as usize,
                LetterNext::Absent => {
                    let e = self.tree.len();
                    proof {
                        lemma_no_child_no_word(t, md, word@, cur as int, i as int);
                    }
                    self.tree.push(empty);
                    self.tree[cur][letter] = LetterNext::Next(e as u32);
                    proof {
                        self.model@ = TrieModel {
                            paths: md.paths.push(word@.take(i + 1)),
                            parents: md.parents.push(cur as int),
                            through: md.through.push(md.words.len() as int),
                            ..md
                        };
                        let t2 = self.tree@;
                        lemma_grow(t, md, t2, self.model@, old_len, word@, cur as int, i as int);
                    }
                    e
                },
                LetterNext::End => {
                    let e = self.tree.len();
                    proof {
                        lemma_no_child_no_word(t, md, word@, cur as int, i as int);
                    }
                    self.tree.push(empty);
                    self.tree[cur][letter] = LetterNext::EndNext(e as u32);
                    proof {
                        self.model@ = TrieModel {
                            paths: md.paths.push(word@.take(i + 1)),
                            parents: md.parents.push(cur as int),
                            through: md.through.push(md.words.len() as int),
                            ..md
                        };
                        let t2 = self.tree@;
                        lemma_grow(t, md, t2, self.model@, old_len, word@, cur as int, i as int);
                    }
                    e
                },
            };
            cur = next;
            i += 1;
        }
        let letter = word[m - 1] as usize;
        let ghost t = self.tree@;
        let ghost md = self.model@;
        assert(md.paths[cur as int].push(letter as u8) =~= word@);
        match self.tree[cur][letter] {
            LetterNext::Absent => {
                self.tree[cur][letter] = LetterNext::End;
            },
            LetterNext::Next(e) => {
                self.tree[cur][letter] = LetterNext::EndNext(e);
            },
            _ => {
                proof {
                    assert(slot(t, cur as int, letter as int).ends_word());
                }
                return false;
            },
        }
        proof {
            lemma_word_bound(t, md);
        }
        self.words += 1;
        proof {
            self.model@ = TrieModel { words: md.words.push(word@), homes: md.homes.push(cur as int), ..md };
            lemma_mark(t, md, self.tree@, self.model@, old_len, word@, cur as int);
            assert(md.words.push(word@).to_set() =~= md.words.to_set().insert(word@)) by {
                let s2 = md.words.push(word@);
                assert forall|u: Seq<u8>| s2.contains(u) <==> (md.words.contains(u) || u == word@) by {
                    if md.words.contains(u) {
                        let k = choose|k: int| 0 <= k < md.words.len() && md.words[k] == u;
                        assert(s2[k] == u);
                    }
                }
            }
        }
        true
    }

    /// Whether `word` is a word of the dictionary.
    pub(crate) fn contains(&self, word: &Vec<u8>) -> (r: bool)
        requires
            self.wf(),
            word@.len() >= 1,
            is_letters(word@),
        ensures
            r == self@.contains(word@),
    {
        let m = word.len();
        let mut cur: usize = 0;
        let mut i: usize = 0;
        while i < m - 1
            invariant
                self.wf(),
                m == word@.len(),
                m >= 1,
                is_letters(word@),
                0 <= i <= m - 1,
                cur < self.tree@.len(),
                self.model@.paths[cur as int] == word@.take(i as int),
            decreases m - 1 - i,
        {
            let letter = word[i] as usize;
            match self.tree[cur][letter] {
                LetterNext::Next(e) => {
                    cur = e as usize;
                },
                LetterNext::EndNext(e) => {
                    cur = e as usize;
                },
                _ => {
                    proof {
                        lemma_no_child_no_word(self.tree@, self.model@, word@, cur as int, i as int);
                    }
                    return false;
                },
            }
            i += 1;
        }
        let letter = word[m - 1] as usize;
        proof {
            lemma_node_of_path(self.tree@, self.model@, cur as int);
            lemma_word_iff_end(self.tree@, self.model@, word@);
        }
        match self.tree[cur][letter] {
            LetterNext::End => true,
            LetterNext::EndNext(_) => true,
            _ => false,
        }
    }

    /// The number of words.
    pub fn word_count(&self) -> (r: usize)
        requires
            self.wf(),
        ensures
            r == self@.len(),
    {
        proof {
            self.model@.words.unique_seq_to_set();
        }
        self.words
    }

    /// The number of nodes, the root included.
    pub fn len(&self) -> (r: usize)
        ensures
            r == self.spec_len(),
            self.wf() ==> r == node_count(self@),
    {
        proof {
            if self.wf() {
                self.lemma_size();
            }
        }
        self.tree.len()
    }

    /// The bytes that the nodes take: each node has a slot for every letter.
    pub fn mem_usage(&self) -> (r: usize)
        requires
            self.wf(),
        ensures
            r == self.spec_len() * SLOT_SIZE * ALPHABET,
    {
        self.tree.len() * (SLOT_SIZE * ALPHABET)
    }

    /// What node `elem` holds for `letter`. The answer depends on nothing
    /// but the dictionary, the node and the letter.
    pub fn lookup_elem_letter(&self, elem: usize, letter: u8) -> (r: LetterNext)
        requires
            elem < self.spec_len(),
            letter < 26,
        ensures
            r == self.transition(elem as int, letter as int),
    {
        self.tree[elem][letter as usize]
    }
}

} // verus!
