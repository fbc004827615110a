use vstd::prelude::*;
use crate::changes::{Change, leaves_below, replayed};
use crate::recorder::{BitFieldSet, OptFieldSet, PerfFieldSet};

verus! {

/// The capability to write one field's value into a target: the live model
/// or a recorder.
pub trait FieldSetter<R, V> {
    /// Whether this setter can write into `target`.
    spec fn fits(&self, target: R) -> bool;

    /// Whether `after` is what `before` becomes once `value` is written.
    spec fn writes_to(&self, before: R, value: V, after: R) -> bool;

    /// Writes `value` into `target`.
    fn set(&self, target: &mut R, value: V)
        requires
            self.fits(*old(target)),
        ensures
            self.writes_to(*old(target), value, *final(target)),
    ;
}

/// Writes straight into a leaf of the live model.
pub struct RawFieldSetter {
    pub leaf: usize,
}

/// Writes a leaf of an `OptFieldSet`.
pub struct OptFieldSetter {
    pub leaf: usize,
}

/// Writes a leaf of a `BitFieldSet`.
pub struct BitFieldLeafSetter {
    pub leaf: usize,
}

/// The leaves of a nested schema inside a `BitFieldSet`: they start at
/// `offset` among the recorder's leaves.
pub struct BitFieldSetter {
    pub offset: usize,
}

/// Writes a leaf of a `PerfFieldSet`.
pub struct PerfFieldLeafSetter {
    pub leaf: usize,
}

/// The leaves of a nested schema inside a `PerfFieldSet`: they start at
/// `offset` among the recorder's leaves.
pub struct PerfFieldSetter {
    pub offset: usize,
}

impl<V: Copy> FieldSetter<Vec<V>, V> for RawFieldSetter {
    open spec fn fits(&self, target: Vec<V>) -> bool {
        self.leaf < target@.len()
    }

    open spec fn writes_to(&self, before: Vec<V>, value: V, after: Vec<V>) -> bool {
        after@ == before@.update(self.leaf as int, value)
    }

    /// Overwrites the leaf in the model.
    fn set(&self, target: &mut Vec<V>, value: V) {
        target.set(self.leaf, value);
    }
}

impl<V: Copy> FieldSetter<OptFieldSet<V>, V> for OptFieldSetter {
    open spec fn fits(&self, target: OptFieldSet<V>) -> bool {
        target.wf() && self.leaf < target.capacity()
    }

    open spec fn writes_to(&self, before: OptFieldSet<V>, value: V, after: OptFieldSet<V>) -> bool {
        &&& after.wf()
        &&& after.capacity() == before.capacity()
        &&& after.writes() == before.writes().push(Change { leaf: self.leaf, value })
    }

    /// Records `value` for the leaf.
    fn set(&self, target: &mut OptFieldSet<V>, value: V) {
        target.set(self.leaf, value);
    }
}

impl<V: Copy> FieldSetter<BitFieldSet<V>, V> for BitFieldLeafSetter {
    open spec fn fits(&self, target: BitFieldSet<V>) -> bool {
        target.wf() && self.leaf < target.capacity()
    }

    open spec fn writes_to(&self, before: BitFieldSet<V>, value: V, after: BitFieldSet<V>) -> bool {
        &&& after.wf()
        &&& after.capacity() == before.capacity()
        &&& after.writes() == before.writes().push(Change { leaf: self.leaf, value })
    }

    /// Records `value` for the leaf unless it was written before.
    fn set(&self, target: &mut BitFieldSet<V>, value: V) {
        target.set(self.leaf, value);
    }
}

impl BitFieldSetter {
    /// The setter of leaf `k` of this nested schema.
    pub fn leaf(&self, k: usize) -> (r: BitFieldLeafSetter)
        requires
            self.offset + k <= usize::MAX,
        ensures
            r.leaf == self.offset + k,
    {
        BitFieldLeafSetter { leaf: self.offset + k }
    }

    /// The nested schema whose leaves start `k` leaves into this one.
    pub fn nested(&self, k: usize) -> (r: BitFieldSetter)
        requires
            self.offset + k <= usize::MAX,
        ensures
            r.offset == self.offset + k,
    {
        BitFieldSetter { offset: self.offset + k }
    }
}

impl<V: Copy> FieldSetter<PerfFieldSet<V>, V> for PerfFieldLeafSetter {
    open spec fn fits(&self, target: PerfFieldSet<V>) -> bool {
        target.wf() && self.leaf < target.capacity()
    }

    open spec fn writes_to(&self, before: PerfFieldSet<V>, value: V, after: PerfFieldSet<V>) -> bool {
        &&& after.wf()
        &&& after.capacity() == before.capacity()
        &&& after.writes() == before.writes().push(Change { leaf: self.leaf, value })
    }

    /// Records `value` for the leaf, replacing an earlier value in place.
    fn set(&self, target: &mut PerfFieldSet<V>, value: V) {
        target.set(self.leaf, value);
    }
}

impl PerfFieldSetter {
    /// The setter of leaf `k` of this nested schema.
    pub fn leaf(&self, k: usize) -> (r: PerfFieldLeafSetter)
        requires
            self.offset + k <= usize::MAX,
        ensures
            r.leaf == self.offset + k,
    {
        PerfFieldLeafSetter { leaf: self.offset + k }
    }

    /// The nested schema whose leaves start `k` leaves into this one.
    pub fn nested(&self, k: usize) -> (r: PerfFieldSetter)
        requires
            self.offset + k <= usize::MAX,
        ensures
            r.offset == self.offset + k,
    {
        PerfFieldSetter { offset: self.offset + k }
    }
}

/// Writes each change of `events` in turn onto the leaves of `model`.
pub fn replay<V: Copy>(model: &mut Vec<V>, events: &Vec<Change<V>>)
    requires
        leaves_below(events@, old(model)@.len()),
    ensures
        final(model)@ == replayed(old(model)@, events@),
{
    let mut i: usize = 0;
    while i < events.len()
        invariant
            i <= events@.len(),
            leaves_below(events@, old(model)@.len()),
            model@ == replayed(old(model)@, events@.subrange(0, i as int)),
            model@.len() == old(model)@.len(),
        decreases events@.len() - i,
    {
        let c = events[i];
        assert(events@.subrange(0, i + 1).drop_last() =~= events@.subrange(0, i as int));
        assert(events@[i as int].leaf < old(model)@.len());
        let setter = RawFieldSetter { leaf: c.leaf };
        setter.set(model, c.value);
        i = i + 1;
    }
    assert(events@.subrange(0, events@.len() as int) =~= events@);
}

} // verus!
