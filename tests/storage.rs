use fieldset::{
    FieldSetter, BitFieldSet, BitSet, Change, OptFieldSet, OptFieldSetter, PerfFieldSet, RawFieldSetter,
    Schema, SchemaError, Slot, replay,
};

#[test]
fn bitset_set_and_clear() {
    let mut b = BitSet::new(2);
    assert!(!b.test(0));
    assert!(!b.test(63));
    b.set(0, true);
    b.set(33, true);
    b.set(63, true);
    assert!(b.test(0) && b.test(33) && b.test(63));
    assert!(!b.test(1) && !b.test(32) && !b.test(62));
    b.set(33, false);
    assert!(!b.test(33));
    assert!(b.test(0) && b.test(63));
}

#[test]
fn offsetted_views_address_base_plus_index() {
    let b = BitSet::new(2);
    let mut v = b.offset(30);
    v.set(3);
    assert!(v.test(3));
    let mut w = v.offset(2);
    assert!(w.test(1));
    w.set(0);
    w.clear(1);
    let b = w.into_bitset();
    assert!(b.test(32));
    assert!(!b.test(33));
    assert!(!b.test(30));
}

#[test]
fn schema_rejects_unknown_node() {
    let mut s = Schema::new();
    assert_eq!(s.add_node(vec![Slot::Leaf, Slot::Nested(0)]), Err(SchemaError::UnknownNode));
    assert_eq!(s.len(), 0);
    let a = s.add_node(vec![Slot::Leaf]).unwrap();
    assert_eq!(a, 0);
    assert_eq!(s.add_node(vec![Slot::Nested(1)]), Err(SchemaError::UnknownNode));
    assert_eq!(s.add_node(vec![Slot::Nested(0), Slot::Nested(0)]), Ok(1));
    assert_eq!(s.variance(1), 2);
    assert_eq!(s.len(), 2);
}

#[test]
fn schema_rejects_too_many_leaves() {
    let mut s = Schema::new();
    let mut id = s.add_node(vec![Slot::Leaf, Slot::Leaf]).unwrap();
    // each level doubles the leaf count
    for _ in 0..(usize::BITS - 2) {
        id = s.add_node(vec![Slot::Nested(id), Slot::Nested(id)]).unwrap();
    }
    assert_eq!(s.variance(id), 1usize << (usize::BITS - 1));
    assert_eq!(
        s.add_node(vec![Slot::Nested(id), Slot::Nested(id)]),
        Err(SchemaError::TooManyLeaves)
    );
}

#[test]
fn variance_counts_leaves_at_every_depth() {
    let mut s = Schema::new();
    let empty = s.add_node(vec![]).unwrap();
    let a = s.add_node(vec![Slot::Leaf, Slot::Nested(empty), Slot::Leaf]).unwrap();
    let b = s.add_node(vec![Slot::Nested(a), Slot::Leaf, Slot::Nested(a)]).unwrap();
    assert_eq!(s.variance(empty), 0);
    assert_eq!(s.variance(a), 2);
    assert_eq!(s.variance(b), 5);
    assert_eq!(s.slot_offset(b, 0), 0);
    assert_eq!(s.slot_offset(b, 1), 2);
    assert_eq!(s.slot_offset(b, 2), 3);
    assert_eq!(s.slot_offset(b, 3), 5);
    assert_eq!(s.slot_offset(a, 2), 1);
}

#[test]
fn setters_write_their_leaf() {
    let mut model = vec![0u32; 3];
    RawFieldSetter { leaf: 1 }.set(&mut model, 7);
    assert_eq!(model, vec![0, 7, 0]);
    let mut rec = OptFieldSet::new(3);
    OptFieldSetter { leaf: 2 }.set(&mut rec, 9u32);
    OptFieldSetter { leaf: 2 }.set(&mut rec, 8u32);
    assert_eq!(rec.into_events(), vec![Change { leaf: 2, value: 8 }]);
}

#[test]
fn replay_reaches_same_state_as_direct_writes() {
    let writes = [(2usize, 5u32), (0, 1), (2, 6), (3, 4), (0, 2)];
    let mut direct = vec![0u32; 4];
    let mut opt = OptFieldSet::new(4);
    let mut perf = PerfFieldSet::new(4);
    let mut bit = BitFieldSet::new(4);
    for (leaf, value) in writes {
        direct[leaf] = value;
        opt.set(leaf, value);
        perf.set(leaf, value);
        bit.set(leaf, value);
    }
    let mut m1 = vec![0u32; 4];
    replay(&mut m1, &opt.into_events());
    assert_eq!(m1, direct);
    let mut m2 = vec![0u32; 4];
    replay(&mut m2, &perf.into_events());
    assert_eq!(m2, direct);
    let mut m3 = vec![0u32; 4];
    replay(&mut m3, &bit.into_events());
    // first values win: leaves 0 and 2 keep what was written first
    assert_eq!(m3, vec![1, 0, 5, 4]);
}

#[test]
fn replay_of_nothing_changes_nothing() {
    let mut m = vec![3u32, 4];
    replay(&mut m, &Vec::new());
    assert_eq!(m, vec![3, 4]);
}

#[test]
fn opt_reset_takes_a_new_batch() {
    let mut rec = OptFieldSet::new(3);
    rec.set(0, 1u32);
    rec.set(2, 3u32);
    rec.reset();
    rec.set(1, 5u32);
    assert_eq!(rec.into_events(), vec![Change { leaf: 1, value: 5 }]);
}
