//! The trie arena: one growable vector of nodes, each holding a full
//! transition row of optional child indices.  Index 0 is the root; nodes are
//! only ever appended, never removed or moved.

use vstd::prelude::*;
use vstd::string::StrSliceExecFns;
use crate::{sym_idx, sym_valid, symbol_index, VOCAB_SIZE};

verus! {

/// Error returned when an input word uses a character outside the supported
/// alphabet.
#[derive(Clone, Copy, Debug, PartialEq, Eq)]
pub enum TrieError {
    InvalidSymbol,
}

/// One arena node: the exact string spelled by the path from the root to
/// this node, a transition row of child indices, and the number of children.
#[derive(Debug, PartialEq)]
pub struct TrieNode {
    pub item: Option<String>,
    pub children: Vec<Option<usize>>,
    pub num_child: usize,
}

/// Number of `Some` entries among the first `k` slots of a transition row.
pub open spec fn count_some(s: Seq<Option<usize>>, k: int) -> int
    decreases k,
{
    if k <= 0 {
        0
    } else {
        count_some(s, k - 1) + if s[k - 1] is Some {
            1int
        } else {
            0int
        }
    }
}

impl TrieNode {
    /// A fresh node with the given label and an empty transition row.
    pub fn new(item: Option<String>) -> (node: TrieNode)
        ensures
            node.item == item,
            node.children@.len() == VOCAB_SIZE,
            forall|c: int| 0 <= c < VOCAB_SIZE ==> node.children@[c] is None,
            node.num_child == 0,
    {
        let mut children: Vec<Option<usize>> = Vec::new();
        let mut i: usize = 0;
        while i < VOCAB_SIZE
            invariant
                i <= VOCAB_SIZE,
                children@.len() == i,
                forall|c: int| 0 <= c < i ==> children@[c] is None,
            decreases VOCAB_SIZE - i,
        {
            children.push(None);
            i = i + 1;
        }
        TrieNode { item, children, num_child: 0 }
    }
}

/// The trie arena.
#[derive(Debug, PartialEq)]
pub struct Trie {
    pub nodes: Vec<TrieNode>,
}

impl Trie {
    /// Number of nodes in the arena, root included.
    pub open spec fn len(self) -> int {
        self.nodes@.len() as int
    }

    /// The child index recorded for symbol `c` at node `n`, if any.
    pub open spec fn child(self, n: int, c: int) -> Option<usize> {
        self.nodes@[n].children@[c]
    }

    /// Whether node `n` has an edge labeled `c`.
    pub open spec fn has_child(self, n: int, c: int) -> bool {
        self.child(n, c) is Some
    }

    /// The target of the edge labeled `c` at node `n`.
    pub open spec fn child_idx(self, n: int, c: int) -> int {
        self.child(n, c)->0 as int
    }

    /// The label string stored at node `n`, as a character sequence.
    pub open spec fn item_seq(self, n: int) -> Seq<char> {
        self.nodes@[n].item->0@
    }

    /// Structural health of one node: a full-width row, an accurate child
    /// count, and edges that point strictly forward into the arena.
    pub open spec fn node_wf(self, n: int) -> bool {
        &&& self.nodes@[n].children@.len() == VOCAB_SIZE
        &&& self.nodes@[n].num_child == count_some(self.nodes@[n].children@, VOCAB_SIZE as int)
        &&& forall|c: int|
            0 <= c < VOCAB_SIZE && self.has_child(n, c) ==> n < #[trigger] self.child_idx(n, c)
                < self.len()
    }

    /// No two edges share a target: the arena is a tree.
    pub open spec fn edges_unique(self) -> bool {
        forall|n1: int, c1: int, n2: int, c2: int|
            0 <= n1 < self.len() && 0 <= c1 < VOCAB_SIZE && 0 <= n2 < self.len() && 0 <= c2
                < VOCAB_SIZE && #[trigger] self.has_child(n1, c1) && #[trigger] self.has_child(
                n2,
                c2,
            ) && self.child_idx(n1, c1) == self.child_idx(n2, c2) ==> n1 == n2 && c1 == c2
    }

    /// Result of consuming `w` from the root, one edge per character:
    /// the node reached, or `None` if some edge is missing or some character
    /// is not a symbol.
    pub open spec fn walk(self, w: Seq<char>) -> Option<int>
        decreases w.len(),
    {
        if w.len() == 0 {
            Some(0int)
        } else {
            match self.walk(w.drop_last()) {
                None => None,
                Some(n) => {
                    let c = w.last();
                    if sym_valid(c) && 0 <= n < self.len() && self.has_child(n, sym_idx(c)) {
                        Some(self.child_idx(n, sym_idx(c)))
                    } else {
                        None
                    }
                },
            }
        }
    }

    /// Every non-root node carries the exact string that walks to it; the
    /// root carries none.
    pub open spec fn items_wf(self) -> bool {
        &&& self.nodes@[0].item is None
        &&& forall|n: int|
            1 <= n < self.len() ==> self.nodes@[n].item is Some && #[trigger] self.walk(
                self.item_seq(n),
            ) == Some(n)
    }

    /// Well-formedness of the whole arena.
    pub open spec fn wf(self) -> bool {
        &&& self.len() >= 1
        &&& forall|n: int| 0 <= n < self.len() ==> #[trigger] self.node_wf(n)
        &&& self.edges_unique()
        &&& self.items_wf()
    }

    /// A fresh arena holding only the root.
    pub fn new() -> (t: Trie)
        ensures
            t.wf(),
            t.len() == 1,
            forall|c: int| 0 <= c < VOCAB_SIZE ==> !t.has_child(0, c),
    {
        let root = TrieNode::new(None);
        let mut nodes: Vec<TrieNode> = Vec::new();
        nodes.push(root);
        let t = Trie { nodes };
        proof {
            lemma_count_none(t.nodes@[0].children@, VOCAB_SIZE as int);
        }
        t
    }

    /// Inserts `word`: walks from the root, appending a fresh node for every
    /// missing edge, and stamps every node along the way with the prefix that
    /// reaches it.  Rejects words holding a character outside the alphabet,
    /// leaving the arena untouched.  After success the arena walks exactly
    /// the old strings plus every prefix of `word`, and all old walks still
    /// land on their old nodes.
    pub fn insert(&mut self, word: String) -> (r: Result<(), TrieError>)
        requires
            old(self).wf(),
        ensures
            final(self).wf(),
            r is Err <==> exists|k: int| 0 <= k < word@.len() && !sym_valid(word@[k]),
            match r {
                Ok(()) => {
                    &&& forall|v: Seq<char>, m: int|
                        old(self).walk(v) == Some(m) ==> final(self).walk(v) == Some(m)
                    &&& forall|v: Seq<char>|
                        final(self).walk(v) is Some ==> old(self).walk(v) is Some || (v.len()
                            <= word@.len() && v == word@.take(v.len() as int))
                    &&& forall|k: int|
                        0 <= k <= word@.len() ==> final(self).walk(#[trigger] word@.take(k)) is Some
                },
                Err(e) => {
                    &&& e == TrieError::InvalidSymbol
                    &&& *final(self) == *old(self)
                },
            },
    {
        let n: usize = word.as_str().unicode_len();
        let mut i: usize = 0;
        while i < n
            invariant
                *self == *old(self),
                old(self).wf(),
                n == word@.len(),
                i <= n,
                forall|k: int| 0 <= k < i ==> sym_valid(#[trigger] word@[k]),
            decreases n - i,
        {
            let c = word.as_str().get_char(i);
            if symbol_index(c).is_none() {
                return Err(TrieError::InvalidSymbol);
            }
            i = i + 1;
        }
        let mut node_idx: usize = 0;
        let mut i: usize = 0;
        proof {
            assert(word@.take(0) =~= Seq::<char>::empty());
        }
        while i < n
            invariant
                self.wf(),
                n == word@.len(),
                forall|k: int| 0 <= k < n ==> sym_valid(#[trigger] word@[k]),
                i <= n,
                node_idx < self.nodes@.len(),
                self.walk(word@.take(i as int)) == Some(node_idx as int),
                forall|v: Seq<char>, m: int|
                    old(self).walk(v) == Some(m) ==> self.walk(v) == Some(m),
                forall|v: Seq<char>|
                    self.walk(v) is Some ==> old(self).walk(v) is Some || (v.len() <= i && v
                        == word@.take(v.len() as int)),
            decreases n - i,
        {
            let ghost t_a = *self;
            let ghost wp = word@.take(i as int);
            let c = word.as_str().get_char(i);
            let w_idx = symbol_index(c).unwrap();
            proof {
                assert(word@.take(i + 1).drop_last() =~= wp);
                assert(word@.take(i + 1).last() == word@[i as int]);
                assert(t_a.node_wf(node_idx as int));
            }
            let cur = self.nodes[node_idx].children[w_idx];
            let nxt: usize;
            match cur {
                Some(j) => {
                    nxt = j;
                    proof {
                        assert(t_a.walk(word@.take(i + 1)) == Some(j as int));
                    }
                },
                None => {
                    let node = TrieNode::new(None);
                    self.nodes.push(node);
                    let j = self.nodes.len() - 1;
                    proof {
                        lemma_count_bound(self.nodes@[node_idx as int].children@, VOCAB_SIZE as int);
                    }
                    self.nodes[node_idx].children[w_idx] = Some(j);
                    let nc = self.nodes[node_idx].num_child;
                    self.nodes[node_idx].num_child = nc + 1;
                    nxt = j;
                    proof {
                        let p = node_idx as int;
                        let c0 = w_idx as int;
                        assert forall|nn: int, cc: int|
                            0 <= nn < t_a.len() && 0 <= cc < VOCAB_SIZE && !(nn == p && cc == c0)
                                implies #[trigger] self.child(nn, cc) == t_a.child(nn, cc) by {
                            if nn == p {
                                assert(self.nodes@[nn].children@ == t_a.nodes@[nn].children@.update(
                                    c0,
                                    Some(j),
                                ));
                            }
                        }
                        assert(adds_edge(t_a, *self, p, c0));
                        // the modified row still has an accurate child count
                        lemma_count_update(t_a.nodes@[p].children@, VOCAB_SIZE as int, c0, j);
                        assert(self.nodes@[p].children@ == t_a.nodes@[p].children@.update(
                            c0,
                            Some(j),
                        ));
                        lemma_count_none(self.nodes@[j as int].children@, VOCAB_SIZE as int);
                        // every node is still well-formed
                        assert forall|nn: int| 0 <= nn < self.len() implies #[trigger] self.node_wf(
                            nn,
                        ) by {
                            if nn == p {
                                assert(t_a.node_wf(nn));
                                assert(self.nodes@[nn].children@ == t_a.nodes@[
                                    nn
                                ].children@.update(c0, Some(j)));
                                assert(count_some(self.nodes@[nn].children@, VOCAB_SIZE as int)
                                    == count_some(t_a.nodes@[nn].children@, VOCAB_SIZE as int) + 1);
                                assert forall|cc: int|
                                    0 <= cc < VOCAB_SIZE && self.has_child(nn, cc) implies nn
                                    < #[trigger] self.child_idx(nn, cc) < self.len() by {
                                    if cc != c0 {
                                        assert(t_a.child(nn, cc) == self.child(nn, cc));
                                        assert(t_a.node_wf(nn));
                                        assert(nn < t_a.child_idx(nn, cc) < t_a.len());
                                    }
                                }
                            } else if nn == j {
                                assert(count_some(self.nodes@[nn].children@, VOCAB_SIZE as int)
                                    == 0);
                            } else {
                                assert(self.nodes@[nn] == t_a.nodes@[nn]);
                                assert(t_a.node_wf(nn));
                                assert forall|cc: int|
                                    0 <= cc < VOCAB_SIZE && self.has_child(nn, cc) implies nn
                                    < #[trigger] self.child_idx(nn, cc) < self.len() by {
                                    assert(t_a.child(nn, cc) == self.child(nn, cc));
                                    assert(nn < t_a.child_idx(nn, cc) < t_a.len());
                                }
                            }
                        }
                        // the new edge points at a fresh node, so edges stay unique
                        assert forall|n1: int, c1: int, n2: int, c2: int|
                            0 <= n1 < self.len() && 0 <= c1 < VOCAB_SIZE && 0 <= n2 < self.len()
                                && 0 <= c2 < VOCAB_SIZE && #[trigger] self.has_child(n1, c1)
                                && #[trigger] self.has_child(n2, c2) && self.child_idx(n1, c1)
                                == self.child_idx(n2, c2) implies n1 == n2 && c1 == c2 by {
                            if n1 < t_a.len() && n2 < t_a.len() {
                                if !(n1 == p && c1 == c0) && !(n2 == p && c2 == c0) {
                                    assert(t_a.has_child(n1, c1));
                                    assert(t_a.has_child(n2, c2));
                                    assert(t_a.node_wf(n1));
                                    assert(t_a.node_wf(n2));
                                } else if (n1 == p && c1 == c0) && !(n2 == p && c2 == c0) {
                                    assert(t_a.node_wf(n2));
                                    assert(t_a.child_idx(n2, c2) < t_a.len());
                                    assert(false);
                                } else if !(n1 == p && c1 == c0) && (n2 == p && c2 == c0) {
                                    assert(t_a.node_wf(n1));
                                    assert(t_a.child_idx(n1, c1) < t_a.len());
                                    assert(false);
                                }
                            }
                        }
                        assert(self.walk(wp) == Some(p)) by {
                            lemma_add_edge_preserve(t_a, *self, p, c0, wp);
                        }
                        assert(self.walk(word@.take(i + 1)) == Some(j as int));
                    }
                },
            }
            let prefix = word.as_str().substring_char(0, i + 1).to_owned();
            let ghost t_m = *self;
            self.nodes[nxt].item = Some(prefix);
            proof {
                let p = node_idx as int;
                let c0 = w_idx as int;
                let jj = nxt as int;
                assert(prefix@ == word@.take(i + 1));
                // only an item changed: all rows are identical
                assert(forall|nn: int, cc: int|
                    0 <= nn < t_m.len() && 0 <= cc < VOCAB_SIZE ==> #[trigger] self.child(nn, cc)
                        == t_m.child(nn, cc));
                assert forall|w: Seq<char>| true implies #[trigger] self.walk(w) == t_m.walk(w) by {
                    lemma_walk_agree(t_m, *self, w);
                }
                // relate the current arena to the one at the top of the body
                if t_a.len() == t_m.len() {
                    assert(t_m == t_a);
                } else {
                    assert(adds_edge(t_a, t_m, p, c0));
                    assert forall|v: Seq<char>, m: int|
                        t_a.walk(v) == Some(m) implies t_m.walk(v) == Some(m) by {
                        lemma_add_edge_preserve(t_a, t_m, p, c0, v);
                    }
                    assert forall|v: Seq<char>| t_m.walk(v) is Some implies t_a.walk(v) is Some
                        || v == wp.push(word@[i as int]) by {
                        lemma_add_edge_reverse(t_a, t_m, p, c0, wp, word@[i as int], v);
                    }
                }
                assert(forall|nn: int| 0 <= nn < t_m.len() ==> #[trigger] t_m.node_wf(nn));
                assert forall|nn: int| 0 <= nn < self.len() implies #[trigger] self.node_wf(
                    nn,
                ) by {
                    assert(t_m.node_wf(nn));
                    assert(self.nodes@[nn].children@ == t_m.nodes@[nn].children@);
                    assert(self.nodes@[nn].num_child == t_m.nodes@[nn].num_child);
                    assert forall|cc: int|
                        0 <= cc < VOCAB_SIZE && self.has_child(nn, cc) implies nn
                        < #[trigger] self.child_idx(nn, cc) < self.len() by {
                        assert(t_m.child(nn, cc) == self.child(nn, cc));
                        assert(nn < t_m.child_idx(nn, cc) < t_m.len());
                    }
                }
                // item changes leave every transition row alone, so edges
                // stay unique
                assert forall|n1: int, c1: int, n2: int, c2: int|
                    0 <= n1 < self.len() && 0 <= c1 < VOCAB_SIZE && 0 <= n2 < self.len() && 0 <= c2
                        < VOCAB_SIZE && #[trigger] self.has_child(n1, c1)
                        && #[trigger] self.has_child(n2, c2) && self.child_idx(n1, c1)
                        == self.child_idx(n2, c2) implies n1 == n2 && c1 == c2 by {
                    assert(t_m.child(n1, c1) == self.child(n1, c1));
                    assert(t_m.child(n2, c2) == self.child(n2, c2));
                    assert(t_m.has_child(n1, c1) && t_m.has_child(n2, c2));
                    assert(t_m.child_idx(n1, c1) == t_m.child_idx(n2, c2));
                }
                assert(wp.push(word@[i as int]) =~= word@.take(i + 1));
                // well-formed items: the stamped node carries its own path
                assert forall|nn: int| 1 <= nn < self.len() implies self.nodes@[nn].item is Some
                    && #[trigger] self.walk(self.item_seq(nn)) == Some(nn) by {
                    if nn == jj {
                        assert(self.item_seq(nn) == word@.take(i + 1));
                        assert(t_m.walk(word@.take(i + 1)) == Some(jj));
                    } else if nn < t_a.len() {
                        assert(t_a.walk(t_a.item_seq(nn)) == Some(nn));
                        assert(self.item_seq(nn) == t_a.item_seq(nn));
                    } else {
                        assert(false);
                    }
                }
                assert(self.wf());
                // maintain the two walk-set invariants
                assert forall|v: Seq<char>, m: int|
                    old(self).walk(v) == Some(m) implies self.walk(v) == Some(m) by {
                    assert(t_a.walk(v) == Some(m));
                }
                assert forall|v: Seq<char>| self.walk(v) is Some implies old(self).walk(v) is Some
                    || (v.len() <= i + 1 && v == word@.take(v.len() as int)) by {
                    if t_a.walk(v) is Some {
                    } else {
                        assert(v == word@.take(i + 1));
                        assert(v.len() == i + 1);
                    }
                }
                assert(self.walk(word@.take(i + 1)) == Some(jj));
            }
            node_idx = nxt;
            i = i + 1;
        }
        proof {
            assert(word@.take(n as int) =~= word@);
            assert forall|k: int| 0 <= k <= word@.len() implies self.walk(
                #[trigger] word@.take(k),
            ) is Some by {
                lemma_walk_prefix(*self, word@, k);
                assert(word@.take(k) == word@.take(word@.len() as int).take(k));
            }
        }
        Ok(())
    }

    /// Whether `word` spells the exact path from the root to some node:
    /// true for every inserted word and for every prefix of one, false for
    /// everything else (the empty string included, since it stops at the
    /// root).
    pub fn contain(&self, word: String) -> (r: bool)
        requires
            self.wf(),
        ensures
            r == (word@.len() > 0 && self.walk(word@) is Some),
    {
        let n: usize = word.as_str().unicode_len();
        let mut node_idx: usize = 0;
        let mut i: usize = 0;
        proof {
            assert(word@.take(0) =~= Seq::<char>::empty());
        }
        while i < n
            invariant
                self.wf(),
                n == word@.len(),
                i <= n,
                node_idx < self.nodes@.len(),
                self.walk(word@.take(i as int)) == Some(node_idx as int),
            decreases n - i,
        {
            let c = word.as_str().get_char(i);
            proof {
                assert(word@.take(i + 1).drop_last() =~= word@.take(i as int));
                assert(word@.take(i + 1).last() == word@[i as int]);
            }
            let w_idx = match symbol_index(c) {
                Some(w) => w,
                None => {
                    proof {
                        if self.walk(word@) is Some {
                            lemma_walk_prefix(*self, word@, i + 1);
                            assert(false);
                        }
                    }
                    return false;
                },
            };
            proof {
                assert(self.node_wf(node_idx as int));
            }
            let nxt = self.nodes[node_idx].children[w_idx];
            match nxt {
                Some(j) => {
                    node_idx = j;
                },
                None => {
                    proof {
                        if self.walk(word@) is Some {
                            lemma_walk_prefix(*self, word@, i + 1);
                            assert(false);
                        }
                    }
                    return false;
                },
            }
            i = i + 1;
        }
        proof {
            assert(word@.take(n as int) =~= word@);
            lemma_walk_range(*self, word@);
        }
        node_idx != 0
    }
}

/// A walk that succeeds lands inside the arena, and lands on the root
/// exactly when it consumed nothing.
pub proof fn lemma_walk_range(t: Trie, w: Seq<char>)
    requires
        t.wf(),
        t.walk(w) is Some,
    ensures
        0 <= t.walk(w)->0 < t.len(),
        t.walk(w)->0 == 0 <==> w.len() == 0,
    decreases w.len(),
{
    if w.len() > 0 {
        lemma_walk_range(t, w.drop_last());
        let p = t.walk(w.drop_last())->0;
        assert(t.node_wf(p));
    }
}

/// Two successful walks to the same non-root node consumed the same string:
/// paths in the arena are unique.
pub proof fn lemma_walk_unique(t: Trie, w1: Seq<char>, w2: Seq<char>)
    requires
        t.wf(),
        t.walk(w1) is Some,
        t.walk(w1) == t.walk(w2),
    ensures
        w1 == w2,
    decreases w1.len(),
{
    lemma_walk_range(t, w1);
    lemma_walk_range(t, w2);
    if w1.len() == 0 {
        assert(w2.len() == 0);
        assert(w1 =~= w2);
    } else {
        assert(w2.len() > 0);
        let p1 = t.walk(w1.drop_last())->0;
        let p2 = t.walk(w2.drop_last())->0;
        lemma_walk_range(t, w1.drop_last());
        lemma_walk_range(t, w2.drop_last());
        assert(t.child_idx(p1, sym_idx(w1.last())) == t.child_idx(p2, sym_idx(w2.last())));
        assert(p1 == p2 && sym_idx(w1.last()) == sym_idx(w2.last()));
        lemma_walk_unique(t, w1.drop_last(), w2.drop_last());
        assert(w1.last() == w2.last()) by {
            assert(w1.last() as int == w2.last() as int);
        }
        assert(w1 =~= w1.drop_last().push(w1.last()));
        assert(w2 =~= w2.drop_last().push(w2.last()));
        assert(w1 =~= w2);
    }
}

/// Every prefix of a string that walks to a node itself walks to a node.
pub proof fn lemma_walk_prefix(t: Trie, w: Seq<char>, i: int)
    requires
        t.walk(w) is Some,
        0 <= i <= w.len(),
    ensures
        t.walk(w.take(i)) is Some,
    decreases w.len(),
{
    if i == w.len() {
        assert(w.take(i) =~= w);
    } else {
        assert(w.drop_last() =~= w.take(w.len() - 1));
        lemma_walk_prefix(t, w.drop_last(), i);
        assert(w.drop_last().take(i) =~= w.take(i));
    }
}

/// Walks read only the transition rows, so two arenas with identical edges
/// walk identically.
pub proof fn lemma_walk_agree(t1: Trie, t2: Trie, w: Seq<char>)
    requires
        t1.len() == t2.len(),
        forall|n: int, c: int|
            0 <= n < t1.len() && 0 <= c < VOCAB_SIZE ==> #[trigger] t1.child(n, c) == t2.child(
                n,
                c,
            ),
    ensures
        t1.walk(w) == t2.walk(w),
    decreases w.len(),
{
    if w.len() > 0 {
        lemma_walk_agree(t1, t2, w.drop_last());
    }
}

/// The number of children counted over any prefix of a row is bounded by
/// the prefix length.
pub proof fn lemma_count_bound(s: Seq<Option<usize>>, k: int)
    ensures
        0 <= count_some(s, k) <= if k <= 0 {
            0int
        } else {
            k
        },
    decreases k,
{
    if k > 0 {
        lemma_count_bound(s, k - 1);
    }
}

/// A positive child count exhibits a child.
pub proof fn lemma_count_pos_exists(s: Seq<Option<usize>>, k: int)
    requires
        count_some(s, k) > 0,
    ensures
        exists|c: int| 0 <= c < k && s[c] is Some,
    decreases k,
{
    if k > 0 {
        if s[k - 1] is Some {
        } else {
            lemma_count_pos_exists(s, k - 1);
        }
    }
}

/// A present child makes the count positive.
pub proof fn lemma_some_count_pos(s: Seq<Option<usize>>, k: int, c: int)
    requires
        0 <= c < k,
        s[c] is Some,
    ensures
        count_some(s, k) > 0,
    decreases k,
{
    if c < k - 1 {
        lemma_some_count_pos(s, k - 1, c);
        lemma_count_bound(s, k);
        assert(count_some(s, k) >= count_some(s, k - 1) + 0);
    } else {
        lemma_count_bound(s, k - 1);
    }
}

/// Filling one empty slot raises the count by exactly one.
pub proof fn lemma_count_update(s: Seq<Option<usize>>, k: int, j: int, v: usize)
    requires
        0 <= j < s.len(),
        k <= s.len(),
        s[j] is None,
    ensures
        j < k ==> count_some(s.update(j, Some(v)), k) == count_some(s, k) + 1,
        j >= k ==> count_some(s.update(j, Some(v)), k) == count_some(s, k),
    decreases k,
{
    if k > 0 {
        lemma_count_update(s, k - 1, j, v);
    }
}

/// Arena relation: `t2` extends `t1` by one fresh childless node and a
/// single new edge `(p, c0)` pointing at it.
pub open spec fn adds_edge(t1: Trie, t2: Trie, p: int, c0: int) -> bool {
    &&& t2.len() == t1.len() + 1
    &&& 0 <= p < t1.len()
    &&& 0 <= c0 < VOCAB_SIZE
    &&& t1.child(p, c0) is None
    &&& t2.has_child(p, c0)
    &&& t2.child_idx(p, c0) == t1.len()
    &&& forall|n: int, c: int|
        0 <= n < t1.len() && 0 <= c < VOCAB_SIZE && !(n == p && c == c0)
            ==> #[trigger] t2.child(n, c) == t1.child(n, c)
    &&& forall|c: int| 0 <= c < VOCAB_SIZE ==> !t2.has_child(t1.len(), c)
}

/// Adding an edge to a fresh node disturbs no existing walk.
proof fn lemma_add_edge_preserve(t1: Trie, t2: Trie, p: int, c0: int, w: Seq<char>)
    requires
        adds_edge(t1, t2, p, c0),
        t1.walk(w) is Some,
    ensures
        t2.walk(w) == t1.walk(w),
    decreases w.len(),
{
    if w.len() > 0 {
        lemma_add_edge_preserve(t1, t2, p, c0, w.drop_last());
        let q = t1.walk(w.drop_last())->0;
        let c = sym_idx(w.last());
        if sym_valid(w.last()) && 0 <= q < t1.len() && t1.has_child(q, c) {
            assert(!(q == p && c == c0));
            assert(t2.child(q, c) == t1.child(q, c));
        }
    }
}

/// After adding an edge `(p, c0)` to a fresh node, the only new walk is the
/// path of `p` extended by the new symbol.
proof fn lemma_add_edge_reverse(t1: Trie, t2: Trie, p: int, c0: int, wp: Seq<char>, ch: char, w: Seq<char>)
    requires
        t1.wf(),
        adds_edge(t1, t2, p, c0),
        t1.walk(wp) == Some(p),
        sym_valid(ch),
        sym_idx(ch) == c0,
        t2.walk(w) is Some,
    ensures
        t1.walk(w) is Some || w == wp.push(ch),
        t1.walk(w) is Some ==> t1.walk(w) == t2.walk(w),
    decreases w.len(),
{
    let j = t1.len();
    lemma_add_edge_preserve(t1, t2, p, c0, wp);
    assert(wp.push(ch).drop_last() =~= wp);
    assert(wp.push(ch).last() == ch);
    assert(t2.walk(wp.push(ch)) == Some(j));
    if w.len() == 0 {
    } else {
        let q = t2.walk(w.drop_last())->0;
        let c = sym_idx(w.last());
        assert(sym_valid(w.last()) && 0 <= q < t2.len() && t2.has_child(q, c));
        if q == j {
            assert(!t2.has_child(j, c));
            assert(false);
        }
        lemma_add_edge_reverse(t1, t2, p, c0, wp, ch, w.drop_last());
        if t1.walk(w.drop_last()) is Some {
            assert(t1.walk(w.drop_last()) == Some(q));
            assert(0 <= q < t1.len());
            if q == p && c == c0 {
                lemma_walk_unique(t1, w.drop_last(), wp);
                assert(w.drop_last() == wp);
                assert(w.last() as int == ch as int);
                assert(w.last() == ch);
                assert(w =~= w.drop_last().push(w.last()));
                assert(w == wp.push(ch));
            } else {
                assert(t1.child(q, c) == t2.child(q, c));
                assert(t1.walk(w) == t2.walk(w));
            }
        } else {
            assert(w.drop_last() == wp.push(ch));
            assert(t2.walk(w.drop_last()) == Some(j));
            assert(false);
        }
    }
}

/// A row with no `Some` entry up to `k` counts zero children.
proof fn lemma_count_none(s: Seq<Option<usize>>, k: int)
    requires
        forall|c: int| 0 <= c < k ==> s[c] is None,
    ensures
        count_some(s, k) == 0,
    decreases k,
{
    if k > 0 {
        lemma_count_none(s, k - 1);
    }
}

} // verus!
