use vstd::prelude::*;
use crate::bitset::BitSet;
use crate::changes::{
    Change, first_writes, in_leaf_order, last_value, latest_in_first_order, leaves_below, written,
    lemma_distinct_leaves_bound, lemma_first_writes_leaves, lemma_first_writes_push,
    lemma_written_index, lemma_written_push,
};

verus! {

/// Records the latest value of each leaf in a slot of its own; its changes
/// come out in leaf order.
pub struct OptFieldSet<V> {
    slots: Vec<Option<V>>,
    writes: Ghost<Seq<Change<V>>>,
}

/// Records the first write to each leaf, in the order made, and ignores
/// later writes to the same leaf. A bit per leaf tells which are written.
pub struct BitFieldSet<V> {
    bits: BitSet,
    events: Vec<Change<V>>,
    n: usize,
    writes: Ghost<Seq<Change<V>>>,
}

/// Records one change per written leaf in first-write order, keeping the
/// latest value. For each leaf a table holds 0 while it is unwritten, else
/// one more than the position of its change; its entries are `usize`, so
/// any leaf count that the recorder can hold is also one the table can.
pub struct PerfFieldSet<V> {
    index: Vec<usize>,
    events: Vec<Change<V>>,
    writes: Ghost<Seq<Change<V>>>,
}

impl<V: Copy> OptFieldSet<V> {
    /// The writes made so far, in order.
    pub closed spec fn writes(&self) -> Seq<Change<V>> {
        self.writes@
    }

    /// The number of leaves.
    pub closed spec fn capacity(&self) -> nat {
        self.slots@.len()
    }

    pub closed spec fn wf(&self) -> bool {
        &&& leaves_below(self.writes@, self.slots@.len())
        &&& forall|l: usize|
            l < self.slots@.len() ==> #[trigger] self.slots@[l as int] == if written(
                self.writes@,
                l,
            ) {
                Some(last_value(self.writes@, l))
            } else {
                None
            }
    }

    /// An empty recorder for `n` leaves.
    pub fn new(n: usize) -> (r: Self)
        ensures
            r.wf(),
            r.capacity() == n,
            r.writes() == Seq::<Change<V>>::empty(),
    {
        let mut slots: Vec<Option<V>> = Vec::new();
        let mut i: usize = 0;
        while i < n
            invariant
                i <= n,
                slots@.len() == i,
                forall|l: int| 0 <= l < i ==> #[trigger] slots@[l] == None::<V>,
            decreases n - i,
        {
            slots.push(None);
            i = i + 1;
        }
        OptFieldSet { slots, writes: Ghost(Seq::empty()) }
    }

    /// Writes `value` to leaf `leaf`.
    pub fn set(&mut self, leaf: usize, value: V)
        requires
            old(self).wf(),
            leaf < old(self).capacity(),
        ensures
            final(self).wf(),
            final(self).capacity() == old(self).capacity(),
            final(self).writes() == old(self).writes().push(Change { leaf, value }),
    {
        let c = Change { leaf, value };
        let ghost ws = self.writes@;
        self.slots.set(leaf, Some(value));
        self.writes = Ghost(ws.push(c));
        proof {
            assert forall|l: usize| l < self.slots@.len() implies #[trigger] self.slots@[l as int]
                == if written(self.writes@, l) {
                Some(last_value(self.writes@, l))
            } else {
                None
            } by {
                lemma_written_push(ws, c, l);
            }
        }
    }

    /// Forgets every write, keeping the capacity, so that the recorder can
    /// take another batch.
    pub fn reset(&mut self)
        requires
            old(self).wf(),
        ensures
            final(self).wf(),
            final(self).capacity() == old(self).capacity(),
            final(self).writes() == Seq::<Change<V>>::empty(),
    {
        let n = self.slots.len();
        let mut i: usize = 0;
        while i < n
            invariant
                i <= n == self.slots@.len(),
                forall|l: int| 0 <= l < i ==> #[trigger] self.slots@[l] == None::<V>,
            decreases n - i,
        {
            self.slots.set(i, None);
            i = i + 1;
        }
        self.writes = Ghost(Seq::empty());
    }

    /// Records `change`.
    pub fn apply(&mut self, change: Change<V>)
        requires
            old(self).wf(),
            change.leaf < old(self).capacity(),
        ensures
            final(self).wf(),
            final(self).capacity() == old(self).capacity(),
            final(self).writes() == old(self).writes().push(change),
    {
        self.set(change.leaf, change.value);
    }

    /// The recorded changes: one per written leaf, in leaf order, with the
    /// leaf's latest value.
    pub fn into_events(self) -> (r: Vec<Change<V>>)
        requires
            self.wf(),
        ensures
            r@ == in_leaf_order(self.writes(), self.capacity()),
    {
        let mut out: Vec<Change<V>> = Vec::new();
        let mut i: usize = 0;
        while i < self.slots.len()
            invariant
                self.wf(),
                i <= self.slots@.len(),
                out@ == in_leaf_order(self.writes@, i as nat),
            decreases self.slots@.len() - i,
        {
            let slot: Option<V> = self.slots[i];
            assert(self.slots@[i as int] == slot);
            assert(in_leaf_order(self.writes@, (i + 1) as nat) == if written(self.writes@, i) {
                in_leaf_order(self.writes@, i as nat).push(Change { leaf: i, value: last_value(self.writes@, i) })
            } else {
                in_leaf_order(self.writes@, i as nat)
            });
            match slot {
                Some(v) => {
                    out.push(Change { leaf: i, value: v });
                },
                None => {},
            }
            i = i + 1;
        }
        out
    }
}

impl<V: Copy> BitFieldSet<V> {
    /// The writes made so far, in order.
    pub closed spec fn writes(&self) -> Seq<Change<V>> {
        self.writes@
    }

    /// The number of leaves.
    pub closed spec fn capacity(&self) -> nat {
        self.n as nat
    }

    pub closed spec fn wf(&self) -> bool {
        &&& self.n <= self.bits.view().len()
        &&& leaves_below(self.writes@, self.n as nat)
        &&& forall|l: int|
            0 <= l < self.n ==> #[trigger] self.bits.view()[l] == written(self.writes@, l as usize)
        &&& self.events@ == first_writes(self.writes@)
    }

    /// An empty recorder for `n` leaves.
    pub fn new(n: usize) -> (r: Self)
        requires
            n + 32 <= usize::MAX,
        ensures
            r.wf(),
            r.capacity() == n,
            r.writes() == Seq::<Change<V>>::empty(),
    {
        let words = n / 32 + 1;
        assert(words * 32 <= n + 32) by (nonlinear_arith)
            requires
                words == n / 32 + 1,
        ;
        let bits = BitSet::new(words);
        assert(n <= bits.view().len()) by (nonlinear_arith)
            requires
                words == n / 32 + 1,
                bits.view().len() == words * 32,
        ;
        BitFieldSet { bits, events: Vec::new(), n, writes: Ghost(Seq::empty()) }
    }

    /// Writes `value` to leaf `leaf` unless the leaf was written before.
    pub fn set(&mut self, leaf: usize, value: V)
        requires
            old(self).wf(),
            leaf < old(self).capacity(),
        ensures
            final(self).wf(),
            final(self).capacity() == old(self).capacity(),
            final(self).writes() == old(self).writes().push(Change { leaf, value }),
    {
        let c = Change { leaf, value };
        let ghost ws = self.writes@;
        proof {
            lemma_first_writes_push(ws, c);
        }
        if !self.bits.test(leaf) {
            self.bits.set(leaf, true);
            self.events.push(c);
        }
        self.writes = Ghost(ws.push(c));
        proof {
            assert forall|l: int| 0 <= l < self.n implies #[trigger] self.bits.view()[l] == written(
                self.writes@,
                l as usize,
            ) by {
                lemma_written_push(ws, c, l as usize);
            }
        }
    }

    /// Records `change`.
    pub fn apply(&mut self, change: Change<V>)
        requires
            old(self).wf(),
            change.leaf < old(self).capacity(),
        ensures
            final(self).wf(),
            final(self).capacity() == old(self).capacity(),
            final(self).writes() == old(self).writes().push(change),
    {
        self.set(change.leaf, change.value);
    }

    /// The recorded changes: the first write to each leaf, in the order made.
    pub fn into_events(self) -> (r: Vec<Change<V>>)
        requires
            self.wf(),
        ensures
            r@ == first_writes(self.writes()),
    {
        self.events
    }
}

impl<V: Copy> PerfFieldSet<V> {
    /// The writes made so far, in order.
    pub closed spec fn writes(&self) -> Seq<Change<V>> {
        self.writes@
    }

    /// The number of leaves.
    pub closed spec fn capacity(&self) -> nat {
        self.index@.len()
    }

    pub closed spec fn wf(&self) -> bool {
        let ws = self.writes@;
        let n = self.index@.len();
        &&& leaves_below(ws, n)
        &&& self.events@ == latest_in_first_order(ws)
        &&& forall|l: int|
            0 <= l < n ==> (#[trigger] self.index@[l] == 0) == !written(ws, l as usize)
        &&& forall|l: int|
            0 <= l < n && #[trigger] self.index@[l] != 0 ==> self.index@[l] <= self.events@.len()
                && self.events@[self.index@[l] - 1].leaf == l
    }

    /// An empty recorder for `n` leaves.
    pub fn new(n: usize) -> (r: Self)
        ensures
            r.wf(),
            r.capacity() == n,
            r.writes() == Seq::<Change<V>>::empty(),
    {
        let index: Vec<usize> = vec![0usize; n];
        let r = PerfFieldSet { index, events: Vec::new(), writes: Ghost(Seq::empty()) };
        assert(r.events@ =~= latest_in_first_order(Seq::<Change<V>>::empty()));
        r
    }

    /// Writes `value` to leaf `leaf`: a first write takes the next position,
    /// a later one replaces the value at the leaf's position.
    pub fn set(&mut self, leaf: usize, value: V)
        requires
            old(self).wf(),
            leaf < old(self).capacity(),
        ensures
            final(self).wf(),
            final(self).capacity() == old(self).capacity(),
            final(self).writes() == old(self).writes().push(Change { leaf, value }),
    {
        let c = Change { leaf, value };
        let ghost ws = self.writes@;
        let ghost ws2 = ws.push(c);
        let n_leaves = self.index.len();
        let ghost n = self.index@.len();
        proof {
            lemma_first_writes_push(ws, c);
            lemma_first_writes_leaves(ws);
            lemma_first_writes_leaves(ws2);
            assert forall|l: usize| true implies #[trigger] written(ws2, l) == (c.leaf == l || written(ws, l))
                && last_value(ws2, l) == (if c.leaf == l { c.value } else { last_value(ws, l) }) by {
                lemma_written_push(ws, c, l);
            }
        }
        let pos = self.index[leaf];
        if pos == 0 {
            let cursor = self.events.len();
            proof {
                let fw = first_writes(ws);
                assert forall|i: int| 0 <= i < fw.len() implies (#[trigger] fw[i]).leaf != leaf by {
                    assert(written(ws, fw[i].leaf));
                }
                assert forall|i: int| 0 <= i < fw.len() implies (#[trigger] fw[i]).leaf < n by {
                    lemma_written_index(ws, fw[i].leaf);
                    let k = choose|k: int| 0 <= k < ws.len() && (#[trigger] ws[k]).leaf == fw[i].leaf;
                }
                lemma_distinct_leaves_bound(fw, n, leaf);
                assert(self.events@.len() == fw.len());
                assert(cursor < n);
            }
            self.index.set(leaf, cursor + 1);
            self.events.push(c);
        } else {
            self.events.set(pos - 1, c);
        }
        self.writes = Ghost(ws2);
        proof {
            assert(self.events@ =~= latest_in_first_order(ws2));
        }
    }

    /// Records `change`.
    pub fn apply(&mut self, change: Change<V>)
        requires
            old(self).wf(),
            change.leaf < old(self).capacity(),
        ensures
            final(self).wf(),
            final(self).capacity() == old(self).capacity(),
            final(self).writes() == old(self).writes().push(change),
    {
        self.set(change.leaf, change.value);
    }

    /// The recorded changes: one per written leaf, in first-write order,
    /// with the leaf's latest value.
    pub fn into_events(self) -> (r: Vec<Change<V>>)
        requires
            self.wf(),
        ensures
            r@ == latest_in_first_order(self.writes()),
    {
        self.events
    }
}

} // verus!
