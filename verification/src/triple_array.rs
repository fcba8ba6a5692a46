//! The double-array compactor: folds a finished trie's per-node transition
//! rows into one flat `next` array, with a parallel `check` array naming the
//! owner of every used slot and a per-node `offset` giving each row's slide.
//! Unused `next` slots thread a strictly increasing free list through their
//! own storage.

use vstd::prelude::*;
use crate::array_trie::lemma_some_count_pos;
use crate::array_trie::lemma_walk_range;
use crate::array_trie::Trie;
use crate::{sym_idx, sym_valid, VOCAB_SIZE};

verus! {

/// One cell of the `next` array: either a committed transition target, or a
/// free cell holding the index of the next free cell (the array length when
/// no free cell follows).
#[derive(Clone, Copy, Debug, PartialEq, Eq)]
pub enum Slot {
    Occupied(usize),
    Free(usize),
}

/// Error returned when the transition array has no room left for some
/// node's row.
#[derive(Clone, Copy, Debug, PartialEq, Eq)]
pub enum BuildError {
    CapacityExhausted,
}

/// The compacted form of a trie, plus the construction state (`min_empty_ni`
/// caches the leftmost free slot between commits).
#[derive(Debug, PartialEq)]
pub struct DoubleArray {
    pub next: Vec<Slot>,
    pub check: Vec<Option<usize>>,
    pub offset: Vec<Option<i64>>,
    pub min_empty_ni: usize,
    pub trie: Trie,
}

/// Index of the first free slot of `next` at or after `s`, or the array
/// length if none follows.
pub open spec fn first_free_from(next: Seq<Slot>, s: int) -> int
    decreases next.len() - s,
{
    if s >= next.len() {
        next.len() as int
    } else if next[s] is Free {
        s
    } else {
        first_free_from(next, s + 1)
    }
}

/// `first_free_from` lands on a free slot (or the end), at or after its
/// start, and skips only occupied slots.
pub proof fn lemma_ff_props(next: Seq<Slot>, s: int)
    requires
        0 <= s <= next.len(),
    ensures
        s <= first_free_from(next, s) <= next.len(),
        first_free_from(next, s) < next.len() ==> next[first_free_from(next, s)] is Free,
        forall|t: int| s <= t < first_free_from(next, s) ==> !(#[trigger] next[t] is Free),
    decreases next.len() - s,
{
    if s < next.len() && !(next[s] is Free) {
        lemma_ff_props(next, s + 1);
    }
}

/// Signed reading of one `next` cell, as the flattened array presents it:
/// a committed cell shows its target, a free cell shows the negated index
/// of the next free cell.
pub open spec fn slot_value(s: Slot) -> int {
    match s {
        Slot::Occupied(v) => v as int,
        Slot::Free(f) => -(f as int),
    }
}

/// `first_free_from` depends only on which slots are free, not on the
/// values stored in them.
pub proof fn lemma_ff_freeness(a: Seq<Slot>, b: Seq<Slot>, s: int)
    requires
        a.len() == b.len(),
        0 <= s <= a.len(),
        forall|t: int| 0 <= t < a.len() ==> (#[trigger] a[t] is Free <==> #[trigger] b[t] is Free),
    ensures
        first_free_from(a, s) == first_free_from(b, s),
    decreases a.len() - s,
{
    if s < a.len() {
        lemma_ff_freeness(a, b, s + 1);
    }
}

impl DoubleArray {
    /// Capacity of the shared transition array.
    pub open spec fn cap(self) -> int {
        self.next@.len() as int
    }

    /// The arrays have their construction-time lengths and wrap a healthy
    /// trie.
    pub open spec fn arrays_wf(self) -> bool {
        &&& self.trie.wf()
        &&& self.next@.len() == VOCAB_SIZE
        &&& self.check@.len() == VOCAB_SIZE
        &&& self.offset@.len() == self.trie.nodes@.len()
    }

    /// Offset `off` works for node `n`: every edge of `n` lands on an
    /// in-range, currently free slot.
    pub open spec fn fits(self, n: int, off: int) -> bool {
        forall|c: int|
            0 <= c < VOCAB_SIZE && #[trigger] self.trie.has_child(n, c) ==> 0 <= off + c
                < self.cap() && !(self.next@[off + c] is Occupied)
    }

    /// A claimed slot records a real edge: `check` names a parent whose
    /// committed offset maps one of its symbols exactly here, and `next`
    /// holds that edge's target.
    pub open spec fn slot_ok(self, s: int) -> bool {
        self.check@[s] is Some ==> {
            let p = self.check@[s]->0 as int;
            &&& 0 <= p < self.trie.len()
            &&& self.offset@[p] is Some
            &&& 0 <= s - self.offset@[p]->0 < VOCAB_SIZE
            &&& self.trie.has_child(p, s - self.offset@[p]->0)
            &&& self.next@[s] is Occupied
            &&& self.next@[s]->Occupied_0 == self.trie.child(p, s - self.offset@[p]->0)->0
        }
    }

    /// A node with a committed offset has all of its edges in the arrays.
    pub open spec fn node_committed(self, n: int) -> bool {
        self.offset@[n] is Some ==> {
            let off = self.offset@[n]->0 as int;
            &&& self.trie.nodes@[n].num_child > 0
            &&& forall|c: int|
                0 <= c < VOCAB_SIZE && #[trigger] self.trie.has_child(n, c) ==> 0 <= off + c
                    < self.cap() && self.next@[off + c] is Occupied && self.next@[off + c]
                    ->Occupied_0 == self.trie.child(n, c)->0 && self.check@[off + c] == Some(
                    n as usize,
                )
        }
    }

    /// Slot-level and node-level agreement of the three arrays.
    pub open spec fn slots_wf(self) -> bool {
        &&& forall|s: int|
            0 <= s < self.cap() ==> (#[trigger] self.next@[s] is Occupied <==> self.check@[s]
                is Some)
        &&& forall|s: int| 0 <= s < self.cap() ==> #[trigger] self.slot_ok(s)
        &&& forall|n: int| 0 <= n < self.trie.len() ==> #[trigger] self.node_committed(n)
    }

    /// Every free slot links to exactly the next free slot after it.
    pub open spec fn links_wf(self) -> bool {
        forall|s: int|
            0 <= s < self.cap() && #[trigger] self.next@[s] is Free ==> self.next@[s]->Free_0
                == first_free_from(self.next@, s + 1)
    }

    /// Full construction invariant, kept between commits.
    pub open spec fn inv(self) -> bool {
        &&& self.arrays_wf()
        &&& self.slots_wf()
        &&& self.links_wf()
        &&& self.min_empty_ni == first_free_from(self.next@, 0)
    }

    /// A fresh compactor over a finished trie: all slots free and chained
    /// left to right, no slot claimed, no offset chosen.
    pub fn new(trie: Trie) -> (da: DoubleArray)
        requires
            trie.wf(),
        ensures
            da.inv(),
            da.trie == trie,
            da.cap() == VOCAB_SIZE,
            forall|s: int| 0 <= s < VOCAB_SIZE ==> da.next@[s] is Free,
            forall|n: int| 0 <= n < trie.len() ==> da.offset@[n] is None,
    {
        let mut next: Vec<Slot> = Vec::new();
        let mut i: usize = 0;
        while i < VOCAB_SIZE
            invariant
                i <= VOCAB_SIZE,
                next@.len() == i,
                forall|s: int|
                    0 <= s < i ==> #[trigger] next@[s] is Free && next@[s]->Free_0 == s + 1,
            decreases VOCAB_SIZE - i,
        {
            next.push(Slot::Free(i + 1));
            i = i + 1;
        }
        let mut check: Vec<Option<usize>> = Vec::new();
        let mut j: usize = 0;
        while j < VOCAB_SIZE
            invariant
                j <= VOCAB_SIZE,
                check@.len() == j,
                forall|s: int| 0 <= s < j ==> check@[s] is None,
            decreases VOCAB_SIZE - j,
        {
            check.push(None);
            j = j + 1;
        }
        let mut offset: Vec<Option<i64>> = Vec::new();
        let mut k: usize = 0;
        let nlen = trie.nodes.len();
        while k < nlen
            invariant
                k <= nlen,
                offset@.len() == k,
                forall|s: int| 0 <= s < k ==> offset@[s] is None,
            decreases nlen - k,
        {
            offset.push(None);
            k = k + 1;
        }
        let da = DoubleArray { next, check, offset, min_empty_ni: 0, trie };
        proof {
            assert forall|s: int|
                0 <= s < da.cap() && #[trigger] da.next@[s] is Free implies da.next@[s]->Free_0
                == first_free_from(da.next@, s + 1) by {
                if s + 1 < da.cap() {
                    assert(da.next@[s + 1] is Free);
                }
            }
            assert(da.next@[0] is Free);
        }
        da
    }

    /// Lowest symbol with a present child in a transition row.
    fn get_left_node_idx(&self, array: &Vec<Option<usize>>) -> (left: usize)
        requires
            array@.len() == VOCAB_SIZE,
            exists|c: int| 0 <= c < VOCAB_SIZE && array@[c] is Some,
        ensures
            left < VOCAB_SIZE,
            array@[left as int] is Some,
            forall|c: int| 0 <= c < left ==> array@[c] is None,
    {
        let mut i: usize = 0;
        while i < VOCAB_SIZE
            invariant
                i <= VOCAB_SIZE,
                array@.len() == VOCAB_SIZE,
                exists|c: int| 0 <= c < VOCAB_SIZE && array@[c] is Some,
                forall|c: int| 0 <= c < i ==> array@[c] is None,
            decreases VOCAB_SIZE - i,
        {
            if array[i].is_some() {
                return i;
            }
            i = i + 1;
        }
        proof {
            assert(false);
        }
        0
    }

    /// Leftmost free slot of the given transition array, or its length when
    /// every slot is taken.
    fn get_left_idx_next(&self, array: &Vec<Slot>) -> (r: usize)
        ensures
            r as int == first_free_from(array@, 0),
    {
        let mut i: usize = 0;
        while i < array.len()
            invariant
                i <= array@.len(),
                first_free_from(array@, 0) == first_free_from(array@, i as int),
            decreases array@.len() - i,
        {
            match array[i] {
                Slot::Free(_) => {
                    return i;
                },
                Slot::Occupied(_) => {},
            }
            i = i + 1;
        }
        i
    }

    /// Whether sliding `node_idx`'s row by `offset` lands every child on a
    /// free, in-range slot of `next`.
    fn check_next(&self, offset: i64, node_idx: usize) -> (r: bool)
        requires
            self.arrays_wf(),
            node_idx < self.trie.nodes@.len(),
            -(VOCAB_SIZE as i64) <= offset <= VOCAB_SIZE as i64,
        ensures
            r == self.fits(node_idx as int, offset as int),
    {
        proof {
            assert(self.trie.node_wf(node_idx as int));
        }
        let mut ci: usize = 0;
        while ci < VOCAB_SIZE
            invariant
                self.arrays_wf(),
                node_idx < self.trie.nodes@.len(),
                -(VOCAB_SIZE as i64) <= offset <= VOCAB_SIZE as i64,
                ci <= VOCAB_SIZE,
                self.trie.nodes@[node_idx as int].children@.len() == VOCAB_SIZE,
                forall|c: int|
                    0 <= c < ci && #[trigger] self.trie.has_child(node_idx as int, c) ==> 0
                        <= offset + c < self.cap() && !(self.next@[offset + c] is Occupied),
            decreases VOCAB_SIZE - ci,
        {
            let child = self.trie.nodes[node_idx].children[ci];
            if child.is_some() {
                let idx = offset + ci as i64;
                if idx < 0 || idx >= self.next.len() as i64 {
                    proof {
                        assert(self.trie.has_child(node_idx as int, ci as int));
                        if self.fits(node_idx as int, offset as int) {
                            assert(0 <= offset + ci && offset + ci < self.cap());
                            assert(false);
                        }
                    }
                    return false;
                }
                match self.next[idx as usize] {
                    Slot::Occupied(_) => {
                        proof {
                            assert(self.trie.has_child(node_idx as int, ci as int));
                            if self.fits(node_idx as int, offset as int) {
                                assert(!(self.next@[offset + ci] is Occupied));
                                assert(false);
                            }
                        }
                        return false;
                    },
                    Slot::Free(_) => {},
                }
            }
            ci = ci + 1;
        }
        true
    }

    /// First-fit offset search for one node's row: starting at the cached
    /// leftmost free slot and hopping along the free list, returns the least
    /// offset that lands every child on a free slot, or `None` when no
    /// offset at all can work.
    fn get_offset(&self, node_idx: usize) -> (r: Option<i64>)
        requires
            self.inv(),
            node_idx < self.trie.nodes@.len(),
            self.trie.nodes@[node_idx as int].num_child > 0,
        ensures
            match r {
                Some(off) => self.fits(node_idx as int, off as int) && forall|off2: int|
                    off2 < off ==> !self.fits(node_idx as int, off2),
                None => forall|off2: int| !self.fits(node_idx as int, off2),
            },
    {
        proof {
            assert(self.trie.node_wf(node_idx as int));
            crate::array_trie::lemma_count_pos_exists(
                self.trie.nodes@[node_idx as int].children@,
                VOCAB_SIZE as int,
            );
        }
        let left = self.get_left_node_idx(&self.trie.nodes[node_idx].children);
        let mut next_empty_ni: usize = self.min_empty_ni;
        proof {
            lemma_ff_props(self.next@, 0);
        }
        while next_empty_ni < self.next.len()
            invariant
                self.inv(),
                node_idx < self.trie.nodes@.len(),
                left < VOCAB_SIZE,
                self.trie.has_child(node_idx as int, left as int),
                next_empty_ni <= self.cap(),
                next_empty_ni < self.cap() ==> self.next@[next_empty_ni as int] is Free,
                forall|s: int|
                    0 <= s < next_empty_ni && #[trigger] self.next@[s] is Free ==> !self.fits(
                        node_idx as int,
                        s - left,
                    ),
            decreases self.cap() - next_empty_ni,
        {
            let tmp_offset = next_empty_ni as i64 - left as i64;
            if self.check_next(tmp_offset, node_idx) {
                proof {
                    assert forall|off2: int| off2 < tmp_offset implies !self.fits(
                        node_idx as int,
                        off2,
                    ) by {
                        if self.fits(node_idx as int, off2) {
                            let s2 = off2 + left;
                            assert(0 <= s2 < self.cap());
                            assert(!(self.next@[s2] is Occupied));
                            assert(self.next@[s2] is Free);
                            assert(s2 < next_empty_ni);
                            assert(!self.fits(node_idx as int, s2 - left));
                            assert(false);
                        }
                    }
                }
                return Some(tmp_offset);
            }
            let f: usize;
            match self.next[next_empty_ni] {
                Slot::Free(x) => {
                    f = x;
                },
                Slot::Occupied(_) => {
                    proof {
                        assert(false);
                    }
                    f = 0;
                },
            }
            proof {
                assert(f == first_free_from(self.next@, next_empty_ni + 1));
                lemma_ff_props(self.next@, next_empty_ni + 1);
                assert forall|s: int|
                    0 <= s < f && #[trigger] self.next@[s] is Free implies !self.fits(
                        node_idx as int,
                        s - left,
                    ) by {
                    if s == next_empty_ni {
                        assert(!self.fits(node_idx as int, next_empty_ni - left));
                    } else if s > next_empty_ni {
                        assert(!(self.next@[s] is Free));
                    }
                }
            }
            next_empty_ni = f;
        }
        proof {
            assert forall|off2: int| true implies !self.fits(node_idx as int, off2) by {
                if self.fits(node_idx as int, off2) {
                    let s2 = off2 + left;
                    assert(0 <= s2 < self.cap());
                    assert(!(self.next@[s2] is Occupied));
                    assert(self.next@[s2] is Free);
                    assert(!self.fits(node_idx as int, s2 - left));
                    assert(false);
                }
            }
        }
        None
    }

    /// Commits node `parent_idx` at `offset`: records the offset, writes
    /// every child into `next` and claims each used slot in `check`, then
    /// restitches the free list around the newly taken slots.  All other
    /// slots keep their contents.
    fn update_arrays(&mut self, offset: i64, parent_idx: usize)
        requires
            old(self).inv(),
            parent_idx < old(self).trie.nodes@.len(),
            old(self).trie.nodes@[parent_idx as int].num_child > 0,
            old(self).offset@[parent_idx as int] is None,
            old(self).fits(parent_idx as int, offset as int),
        ensures
            final(self).arrays_wf(),
            final(self).slots_wf(),
            final(self).links_wf(),
            final(self).trie == old(self).trie,
            final(self).min_empty_ni == old(self).min_empty_ni,
            final(self).offset@ == old(self).offset@.update(parent_idx as int, Some(offset)),
            forall|c: int|
                0 <= c < VOCAB_SIZE && #[trigger] old(self).trie.has_child(parent_idx as int, c)
                    ==> final(self).next@[offset + c] is Occupied
                        && final(self).next@[offset + c]->Occupied_0
                            == old(self).trie.child(parent_idx as int, c)->0
                        && final(self).check@[offset + c] == Some(parent_idx),
            forall|s: int|
                0 <= s < old(self).cap()
                    && !(0 <= s - offset < VOCAB_SIZE
                        && old(self).trie.has_child(parent_idx as int, s - offset))
                    ==> final(self).check@[s] == old(self).check@[s]
                        && (#[trigger] final(self).next@[s] is Occupied
                            <==> old(self).next@[s] is Occupied)
                        && (old(self).next@[s] is Occupied
                            ==> final(self).next@[s] == old(self).next@[s]),
    {
        proof {
            assert(old(self).trie.node_wf(parent_idx as int));
        }
        self.offset[parent_idx] = Some(offset);
        let mut ci: usize = 0;
        while ci < VOCAB_SIZE
            invariant
                ci <= VOCAB_SIZE,
                old(self).inv(),
                parent_idx < old(self).trie.nodes@.len(),
                old(self).fits(parent_idx as int, offset as int),
                old(self).trie.node_wf(parent_idx as int),
                self.trie == old(self).trie,
                self.next@.len() == old(self).next@.len(),
                self.check@.len() == old(self).check@.len(),
                self.offset@ == old(self).offset@.update(parent_idx as int, Some(offset)),
                self.min_empty_ni == old(self).min_empty_ni,
                forall|c: int|
                    0 <= c < ci && #[trigger] old(self).trie.has_child(parent_idx as int, c)
                        ==> self.next@[offset + c] is Occupied && self.next@[offset + c]
                        ->Occupied_0 == old(self).trie.child(parent_idx as int, c)->0
                        && self.check@[offset + c] == Some(parent_idx),
                forall|s: int|
                    0 <= s < self.cap() && !(0 <= s - offset < ci && old(self).trie.has_child(
                        parent_idx as int,
                        s - offset,
                    )) ==> #[trigger] self.next@[s] == old(self).next@[s],
                forall|s: int|
                    0 <= s < self.cap() && !(0 <= s - offset < ci && old(self).trie.has_child(
                        parent_idx as int,
                        s - offset,
                    )) ==> #[trigger] self.check@[s] == old(self).check@[s],
            decreases VOCAB_SIZE - ci,
        {
            let ghost pre = *self;
            let child = self.trie.nodes[parent_idx].children[ci];
            match child {
                Some(ch) => {
                    proof {
                        assert(old(self).trie.has_child(parent_idx as int, ci as int));
                    }
                    let idx = offset + ci as i64;
                    let ui = idx as usize;
                    self.next[ui] = Slot::Occupied(ch);
                    self.check[ui] = Some(parent_idx);
                    proof {
                        assert forall|s: int|
                            0 <= s < self.cap() && !(0 <= s - offset < ci + 1 && old(
                                self,
                            ).trie.has_child(parent_idx as int, s - offset)) implies #[trigger] self.next@[s]
                            == old(self).next@[s] by {
                            assert(s != ui);
                            assert(self.next@[s] == pre.next@[s]);
                            assert(pre.next@[s] == old(self).next@[s]);
                        }
                        assert forall|s: int|
                            0 <= s < self.cap() && !(0 <= s - offset < ci + 1 && old(
                                self,
                            ).trie.has_child(parent_idx as int, s - offset)) implies #[trigger] self.check@[s]
                            == old(self).check@[s] by {
                            assert(s != ui);
                            assert(self.check@[s] == pre.check@[s]);
                            assert(pre.next@[s] == old(self).next@[s]);
                            assert(pre.check@[s] == old(self).check@[s]);
                        }
                    }
                },
                None => {},
            }
            ci = ci + 1;
        }
        // restitch the free list: one right-to-left pass rebuilds every
        // free slot's link to the next free slot
        let ghost mid = *self;
        let mut i2: usize = self.next.len();
        let mut nf: usize = self.next.len();
        while i2 > 0
            invariant
                i2 <= mid.next@.len(),
                nf as int == first_free_from(mid.next@, i2 as int),
                self.next@.len() == mid.next@.len(),
                self.check@ == mid.check@,
                self.offset@ == mid.offset@,
                self.min_empty_ni == mid.min_empty_ni,
                self.trie == mid.trie,
                forall|s: int|
                    0 <= s < mid.next@.len() ==> (#[trigger] self.next@[s] is Free
                        <==> mid.next@[s] is Free),
                forall|s: int| 0 <= s < i2 ==> #[trigger] self.next@[s] == mid.next@[s],
                forall|s: int|
                    0 <= s < mid.next@.len() && mid.next@[s] is Occupied
                        ==> #[trigger] self.next@[s] == mid.next@[s],
                forall|s: int|
                    i2 <= s < mid.next@.len() && #[trigger] self.next@[s] is Free ==> self.next@[s]
                        ->Free_0 == first_free_from(mid.next@, s + 1),
            decreases i2,
        {
            i2 = i2 - 1;
            let is_free = match self.next[i2] {
                Slot::Free(_) => true,
                Slot::Occupied(_) => false,
            };
            if is_free {
                self.next[i2] = Slot::Free(nf);
                nf = i2;
            }
        }
        proof {
            // links are exact on the final array, whose freeness pattern
            // matches the mid-pass snapshot
            assert forall|s: int|
                0 <= s < self.cap() && #[trigger] self.next@[s] is Free implies self.next@[s]
                ->Free_0 == first_free_from(self.next@, s + 1) by {
                lemma_ff_freeness(mid.next@, self.next@, s + 1);
            }
            // slot- and node-level agreement
            let p = parent_idx as int;
            let t0 = *old(self);
            assert forall|s: int| 0 <= s < self.cap() implies (#[trigger] self.next@[s] is Occupied
                <==> self.check@[s] is Some) by {
                if !(0 <= s - offset < VOCAB_SIZE && t0.trie.has_child(p, s - offset)) {
                    assert(mid.next@[s] == t0.next@[s]);
                }
            }
            assert forall|s: int| 0 <= s < self.cap() implies #[trigger] self.slot_ok(s) by {
                if self.check@[s] is Some {
                    if 0 <= s - offset < VOCAB_SIZE && t0.trie.has_child(p, s - offset) {
                        assert(self.check@[s] == Some(parent_idx));
                        assert(self.offset@[p] == Some(offset));
                    } else {
                        assert(mid.next@[s] == t0.next@[s]);
                        assert(mid.check@[s] == t0.check@[s]);
                        assert(self.check@[s] == t0.check@[s]);
                        assert(t0.slot_ok(s));
                        let q = t0.check@[s]->0 as int;
                        assert(t0.offset@[q] is Some);
                        assert(q != p);
                        assert(self.offset@[q] == t0.offset@[q]);
                    }
                }
            }
            assert forall|n: int| 0 <= n < self.trie.len() implies #[trigger] self.node_committed(
                n,
            ) by {
                if self.offset@[n] is Some {
                    if n == p {
                        assert forall|c: int|
                            0 <= c < VOCAB_SIZE && #[trigger] self.trie.has_child(n, c) implies 0
                            <= offset + c < self.cap() && self.next@[offset + c] is Occupied
                            && self.next@[offset + c]->Occupied_0 == self.trie.child(n, c)->0
                            && self.check@[offset + c] == Some(n as usize) by {
                            assert(t0.trie.has_child(p, c));
                            assert(mid.next@[offset + c] is Occupied);
                        }
                    } else {
                        assert(self.offset@[n] == t0.offset@[n]);
                        assert(t0.node_committed(n));
                        let off_n = t0.offset@[n]->0 as int;
                        assert forall|c: int|
                            0 <= c < VOCAB_SIZE && #[trigger] self.trie.has_child(n, c) implies 0
                            <= off_n + c < self.cap() && self.next@[off_n + c] is Occupied
                            && self.next@[off_n + c]->Occupied_0 == self.trie.child(n, c)->0
                            && self.check@[off_n + c] == Some(n as usize) by {
                            assert(t0.trie.has_child(n, c));
                            assert(t0.next@[off_n + c] is Occupied);
                            if 0 <= off_n + c - offset < VOCAB_SIZE && t0.trie.has_child(
                                p,
                                off_n + c - offset,
                            ) {
                                // a newly taken slot was free before, but this
                                // one was already occupied
                                assert(!(t0.next@[off_n + c] is Occupied));
                                assert(false);
                            }
                            assert(mid.next@[off_n + c] == t0.next@[off_n + c]);
                        }
                    }
                }
            }
        }
    }

    /// One pass over the arena in index order: every node with children gets
    /// a collision-free offset and its row is committed into the shared
    /// arrays.  Fails with `CapacityExhausted` — leaving the partial arrays
    /// unusable — exactly when some node's row cannot be placed at any
    /// offset.
    pub fn build(&mut self) -> (r: Result<(), BuildError>)
        requires
            old(self).inv(),
            forall|n: int| 0 <= n < old(self).trie.len() ==> old(self).offset@[n] is None,
        ensures
            final(self).inv(),
            final(self).trie == old(self).trie,
            final(self).cap() == old(self).cap(),
            match r {
                Ok(()) => final(self).complete(),
                Err(e) => {
                    &&& e == BuildError::CapacityExhausted
                    &&& exists|n: int|
                        0 <= n < final(self).trie.len() && final(self).trie.nodes@[n].num_child > 0
                            && final(self).offset@[n] is None && (forall|off: int|
                            !final(self).fits(n, off))
                },
            },
    {
        let nlen = self.trie.nodes.len();
        let mut node_idx: usize = 0;
        while node_idx < nlen
            invariant
                self.inv(),
                self.trie == old(self).trie,
                self.cap() == old(self).cap(),
                nlen == self.trie.nodes@.len(),
                node_idx <= nlen,
                forall|n: int| node_idx <= n < nlen ==> self.offset@[n] is None,
                forall|n: int|
                    0 <= n < node_idx ==> (#[trigger] self.offset@[n] is Some
                        <==> self.trie.nodes@[n].num_child > 0),
            decreases nlen - node_idx,
        {
            if self.trie.nodes[node_idx].num_child == 0 {
                node_idx = node_idx + 1;
                continue;
            }
            let off = match self.get_offset(node_idx) {
                Some(o) => o,
                None => {
                    proof {
                        let nw = node_idx as int;
                        assert(0 <= nw < self.trie.len() && self.trie.nodes@[nw].num_child > 0
                            && self.offset@[nw] is None && (forall|off2: int| !self.fits(
                            nw,
                            off2,
                        )));
                    }
                    return Err(BuildError::CapacityExhausted);
                },
            };
            self.update_arrays(off, node_idx);
            let ghost after_up = *self;
            let m = self.get_left_idx_next(&self.next);
            self.min_empty_ni = m;
            proof {
                assert forall|s: int| 0 <= s < self.cap() implies #[trigger] self.slot_ok(s) by {
                    assert(after_up.slot_ok(s));
                }
                assert forall|n: int|
                    0 <= n < self.trie.len() implies #[trigger] self.node_committed(n) by {
                    assert(after_up.node_committed(n));
                }
            }
            node_idx = node_idx + 1;
        }
        Ok(())
    }

    /// Compares the built `next` array against an expected signed layout:
    /// true when every listed slot shows exactly the expected value and
    /// every slot past the list is still free.
    pub fn verify_next(&self, ans: &[i64]) -> (r: bool)
        requires
            self.inv(),
            ans@.len() <= self.next@.len(),
        ensures
            r == ((forall|k: int| 0 <= k < ans@.len() ==> slot_value(#[trigger] self.next@[k])
                == ans@[k]) && (forall|k: int|
                ans@.len() <= k < self.next@.len() ==> #[trigger] self.next@[k] is Free)),
    {
        let mut flag = true;
        let mut i: usize = 0;
        while i < ans.len()
            invariant
                self.inv(),
                ans@.len() <= self.next@.len(),
                i <= ans@.len(),
                flag == (forall|k: int|
                    0 <= k < i ==> slot_value(#[trigger] self.next@[k]) == ans@[k]),
            decreases ans@.len() - i,
        {
            let a = ans[i];
            let m: bool;
            match self.next[i] {
                Slot::Occupied(v) => {
                    m = a >= 0 && (v as u64) == (a as u64);
                    proof {
                        assert(self.next@[i as int] == Slot::Occupied(v));
                        assert(slot_value(self.next@[i as int]) == v as int);
                        if a >= 0 {
                            assert((a as u64) as int == a as int);
                        }
                        assert(m == (v as int == a as int));
                    }
                },
                Slot::Free(f) => {
                    proof {
                        lemma_ff_props(self.next@, i + 1);
                        assert(self.next@[i as int] == Slot::Free(f));
                        assert(f <= VOCAB_SIZE);
                        assert(slot_value(self.next@[i as int]) == -(f as int));
                    }
                    m = -(f as i64) == a;
                },
            }
            proof {
                assert(m == (slot_value(self.next@[i as int]) == ans@[i as int]));
            }
            if !m {
                flag = false;
            }
            i = i + 1;
        }
        let mut j: usize = ans.len();
        while j < self.next.len()
            invariant
                self.inv(),
                ans@.len() <= j,
                j <= self.next@.len(),
                flag == ((forall|k: int|
                    0 <= k < ans@.len() ==> slot_value(#[trigger] self.next@[k]) == ans@[k]) && (
                forall|k: int| ans@.len() <= k < j ==> #[trigger] self.next@[k] is Free)),
            decreases self.next@.len() - j,
        {
            match self.next[j] {
                Slot::Occupied(_) => {
                    flag = false;
                },
                Slot::Free(_) => {},
            }
            j = j + 1;
        }
        flag
    }

    /// One probe of the compacted arrays: from node `p` over symbol `c`,
    /// the slot at `offset[p] + c` counts as a transition only when `check`
    /// confirms that `p` claimed it.
    pub open spec fn da_step(self, p: int, c: int) -> Option<int> {
        if 0 <= p < self.offset@.len() && self.offset@[p] is Some {
            let s = self.offset@[p]->0 + c;
            if 0 <= s < self.cap() && self.check@[s] == Some(p as usize) && self.next@[s]
                is Occupied {
                Some(self.next@[s]->Occupied_0 as int)
            } else {
                None
            }
        } else {
            None
        }
    }

    /// Result of consuming `w` from the root using only the compacted
    /// arrays, one guarded probe per character.
    pub open spec fn da_walk(self, w: Seq<char>) -> Option<int>
        decreases w.len(),
    {
        if w.len() == 0 {
            Some(0int)
        } else {
            match self.da_walk(w.drop_last()) {
                None => None,
                Some(p) => {
                    if sym_valid(w.last()) {
                        self.da_step(p, sym_idx(w.last()))
                    } else {
                        None
                    }
                },
            }
        }
    }

    /// Every node with children has been committed (what a successful
    /// `build` guarantees).
    pub open spec fn complete(self) -> bool {
        forall|n: int|
            0 <= n < self.trie.len() ==> (#[trigger] self.offset@[n] is Some
                <==> self.trie.nodes@[n].num_child > 0)
    }

    /// Compaction soundness, and its converse: after a successful build,
    /// walking any string through the compacted arrays — trusting a slot
    /// only after its `check` entry names the expected parent — reaches
    /// exactly the node that the original trie reaches, and fails exactly
    /// where the trie has no edge.
    pub proof fn lemma_compacted_walk(self, w: Seq<char>)
        requires
            self.inv(),
            self.complete(),
        ensures
            self.da_walk(w) == self.trie.walk(w),
        decreases w.len(),
    {
        if w.len() > 0 {
            self.lemma_compacted_walk(w.drop_last());
            match self.trie.walk(w.drop_last()) {
                None => {},
                Some(p) => {
                    lemma_walk_range(self.trie, w.drop_last());
                    let c = sym_idx(w.last());
                    if sym_valid(w.last()) {
                        if self.trie.has_child(p, c) {
                            assert(self.trie.node_wf(p));
                            lemma_some_count_pos(
                                self.trie.nodes@[p].children@,
                                VOCAB_SIZE as int,
                                c,
                            );
                            assert(self.offset@[p] is Some);
                            assert(self.node_committed(p));
                            assert(self.da_step(p, c) == Some(self.trie.child_idx(p, c)));
                        } else {
                            self.lemma_no_false_acceptance(p, c);
                        }
                    }
                },
            }
        }
    }

    /// No false acceptance: a probe for an edge the trie does not have is
    /// rejected, even when the probed slot holds some other node's
    /// transition — the `check` comparison screens it out.
    pub proof fn lemma_no_false_acceptance(self, p: int, c: int)
        requires
            self.inv(),
            0 <= p < self.trie.len(),
            0 <= c < VOCAB_SIZE,
            !self.trie.has_child(p, c),
        ensures
            self.da_step(p, c) is None,
    {
        if 0 <= p < self.offset@.len() && self.offset@[p] is Some {
            let s = self.offset@[p]->0 + c;
            if 0 <= s < self.cap() && self.check@[s] == Some(p as usize) {
                assert(self.slot_ok(s));
                vstd::std_specs::vec::axiom_spec_len(&self.trie.nodes);
                assert((p as usize) as int == p);
                assert(self.check@[s]->0 as int == p);
                assert(self.trie.has_child(p, s - self.offset@[p]->0));
                assert(false);
            }
        }
    }

    /// Free-list integrity: from any free slot, the stored link jumps
    /// strictly forward over occupied slots only, onto the next free slot
    /// (or the capacity when none is left) — so following links from
    /// anywhere terminates without revisiting a slot and never lands on
    /// committed data.
    pub proof fn lemma_free_list_integrity(self, s: int)
        requires
            self.inv(),
            0 <= s < self.cap(),
            self.next@[s] is Free,
        ensures
            s < self.next@[s]->Free_0 <= self.cap(),
            self.next@[s]->Free_0 < self.cap() ==> self.next@[self.next@[s]->Free_0 as int]
                is Free,
            forall|t: int|
                s < t < self.next@[s]->Free_0 ==> #[trigger] self.next@[t] is Occupied,
    {
        lemma_ff_props(self.next@, s + 1);
        assert forall|t: int|
            s < t < self.next@[s]->Free_0 implies #[trigger] self.next@[t] is Occupied by {
            assert(!(self.next@[t] is Free));
        }
    }
}

} // verus!
