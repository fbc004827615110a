use fieldset::{
    FieldSetter, BitFieldSet, BitFieldSetter, Change, OptFieldSet, OptFieldSetter, PerfFieldSet, PerfFieldSetter, Schema, Slot,
};

#[derive(Clone, Copy, PartialEq, Debug)]
enum Val {
    F(f32),
    U(u32),
}

/// Outer { field_1, field_2, field_i: Inner { field_3, field_4,
/// field_i2: Inner2 { field_5, field_6 }, field_i3: Inner3 { field_7, field_8 } } }
struct Nodes {
    schema: Schema,
    outer: usize,
    inner: usize,
    inner2: usize,
    inner3: usize,
}

fn outer_schema() -> Nodes {
    let mut schema = Schema::new();
    let inner2 = schema.add_node(vec![Slot::Leaf, Slot::Leaf]).unwrap();
    let inner3 = schema.add_node(vec![Slot::Leaf, Slot::Leaf]).unwrap();
    let inner = schema
        .add_node(vec![Slot::Leaf, Slot::Leaf, Slot::Nested(inner2), Slot::Nested(inner3)])
        .unwrap();
    let outer = schema.add_node(vec![Slot::Leaf, Slot::Leaf, Slot::Nested(inner)]).unwrap();
    Nodes { schema, outer, inner, inner2, inner3 }
}

/// A change of the leaf that the slot path `path` reaches from `Outer`.
fn at(n: &Nodes, path: &[usize], value: Val) -> Change<Val> {
    let leaf = n.schema.leaf_index(n.outer, &path.to_vec(), 0).unwrap();
    Change { leaf, value }
}

/// The eight changes field_1..field_8, then field_4 = 42 and field_7 = 7.2.
fn outer_changes(n: &Nodes) -> Vec<Change<Val>> {
    vec![
        at(n, &[0], Val::F(1.0)),
        at(n, &[1], Val::U(2)),
        at(n, &[2, 0], Val::F(3.0)),
        at(n, &[2, 1], Val::U(4)),
        at(n, &[2, 2, 0], Val::F(5.0)),
        at(n, &[2, 2, 1], Val::U(6)),
        at(n, &[2, 3, 0], Val::F(7.0)),
        at(n, &[2, 3, 1], Val::U(8)),
        at(n, &[2, 1], Val::U(42)),
        at(n, &[2, 3, 0], Val::F(7.2)),
    ]
}

#[test]
fn opt_field_set_full_check() {
    let n = outer_schema();
    let e = outer_changes(&n);
    let mut fieldset = OptFieldSet::new(n.schema.variance(n.outer));
    for c in e.iter() {
        fieldset.apply(*c);
    }
    let mut iter = fieldset.into_events().into_iter();
    assert_eq!(iter.next(), Some(e[0]));
    assert_eq!(iter.next(), Some(e[1]));
    assert_eq!(iter.next(), Some(e[2]));
    assert_eq!(iter.next(), Some(e[8]));
    assert_eq!(iter.next(), Some(e[4]));
    assert_eq!(iter.next(), Some(e[5]));
    assert_eq!(iter.next(), Some(e[9]));
    assert_eq!(iter.next(), Some(e[7]));
    assert_eq!(iter.next(), None);
}

#[test]
fn bit_field_set_full_check() {
    let n = outer_schema();
    let e = outer_changes(&n);
    let mut fieldset = BitFieldSet::new(n.schema.variance(n.outer));
    for c in e.iter() {
        fieldset.apply(*c);
    }
    let mut iter = fieldset.into_events().into_iter();
    assert_eq!(iter.next(), Some(e[0]));
    assert_eq!(iter.next(), Some(e[1]));
    assert_eq!(iter.next(), Some(e[2]));
    assert_eq!(iter.next(), Some(e[3]));
    assert_eq!(iter.next(), Some(e[4]));
    assert_eq!(iter.next(), Some(e[5]));
    assert_eq!(iter.next(), Some(e[6]));
    assert_eq!(iter.next(), Some(e[7]));
    assert_eq!(iter.next(), None);
}

#[test]
fn perf_field_set_full_check() {
    let n = outer_schema();
    let e = outer_changes(&n);
    let mut fieldset = PerfFieldSet::new(n.schema.variance(n.outer));
    for c in e.iter() {
        fieldset.apply(*c);
    }
    let mut iter = fieldset.into_events().into_iter();
    assert_eq!(iter.next(), Some(e[0]));
    assert_eq!(iter.next(), Some(e[1]));
    assert_eq!(iter.next(), Some(e[2]));
    assert_eq!(iter.next(), Some(e[8]));
    assert_eq!(iter.next(), Some(e[4]));
    assert_eq!(iter.next(), Some(e[5]));
    assert_eq!(iter.next(), Some(e[9]));
    assert_eq!(iter.next(), Some(e[7]));
    assert_eq!(iter.next(), None);
}

#[test]
fn outer_leaf_offsets() {
    let n = outer_schema();
    let e = outer_changes(&n);
    let leaves: Vec<usize> = e.iter().map(|c| c.leaf).collect();
    assert_eq!(leaves, vec![0, 1, 2, 3, 4, 5, 6, 7, 3, 6]);
    assert_eq!(n.schema.slot_offset(n.inner, 3), 4);
    let s = &n.schema;
    assert_eq!(s.leaf_index(n.outer, &vec![2, 3, 1], 0), Some(7));
    assert_eq!(s.leaf_index(n.inner, &vec![2, 3, 1], 1), Some(5));
    assert_eq!(s.leaf_index(n.outer, &vec![2], 0), None);
    assert_eq!(s.leaf_index(n.outer, &vec![0, 1], 0), None);
    assert_eq!(s.leaf_index(n.outer, &vec![3], 0), None);
    assert_eq!(s.leaf_index(n.outer, &vec![], 0), None);
    assert_eq!(s.leaf_index(n.outer, &vec![2, 4, 0], 0), None);
    assert_eq!(n.schema.variance(n.inner2), 2);
    assert_eq!(n.schema.variance(n.inner), 6);
    assert_eq!(n.schema.variance(n.outer), 8);
}

/// Top { a, b, sub: Sub { c, d, sub2: Sub2 { e, f } } }, written through
/// nested setters: a=1.0, b=2, c=3.0, d=4, e=5.0, f=6, then b=2, e=5.2.
struct Three {
    top: usize,
    sub: usize,
    schema: Schema,
}

fn three_levels() -> Three {
    let mut schema = Schema::new();
    let sub2 = schema.add_node(vec![Slot::Leaf, Slot::Leaf]).unwrap();
    let sub = schema.add_node(vec![Slot::Leaf, Slot::Leaf, Slot::Nested(sub2)]).unwrap();
    let top = schema.add_node(vec![Slot::Leaf, Slot::Leaf, Slot::Nested(sub)]).unwrap();
    Three { top, sub, schema }
}

fn expected(e: Val) -> Vec<Change<Val>> {
    vec![
        Change { leaf: 0, value: Val::F(1.0) },
        Change { leaf: 1, value: Val::U(2) },
        Change { leaf: 2, value: Val::F(3.0) },
        Change { leaf: 3, value: Val::U(4) },
        Change { leaf: 4, value: e },
        Change { leaf: 5, value: Val::U(6) },
    ]
}

#[test]
fn three_levels_bit_first_value_wins() {
    let t = three_levels();
    let s = &t.schema;
    let mut rec = BitFieldSet::new(s.variance(t.top));
    let top = BitFieldSetter { offset: 0 };
    let sub = top.nested(s.slot_offset(t.top, 2));
    let sub2 = sub.nested(s.slot_offset(t.sub, 2));
    top.leaf(0).set(&mut rec, Val::F(1.0));
    top.leaf(1).set(&mut rec, Val::U(2));
    sub.leaf(0).set(&mut rec, Val::F(3.0));
    sub.leaf(1).set(&mut rec, Val::U(4));
    sub2.leaf(0).set(&mut rec, Val::F(5.0));
    sub2.leaf(1).set(&mut rec, Val::U(6));
    top.leaf(1).set(&mut rec, Val::U(2));
    sub2.leaf(0).set(&mut rec, Val::F(5.2));
    assert_eq!(rec.into_events(), expected(Val::F(5.0)));
}

#[test]
fn three_levels_perf_latest_value_wins() {
    let t = three_levels();
    let s = &t.schema;
    let mut rec = PerfFieldSet::new(s.variance(t.top));
    let top = PerfFieldSetter { offset: 0 };
    let sub = top.nested(s.slot_offset(t.top, 2));
    let sub2 = sub.nested(s.slot_offset(t.sub, 2));
    top.leaf(0).set(&mut rec, Val::F(1.0));
    top.leaf(1).set(&mut rec, Val::U(2));
    sub.leaf(0).set(&mut rec, Val::F(3.0));
    sub.leaf(1).set(&mut rec, Val::U(4));
    sub2.leaf(0).set(&mut rec, Val::F(5.0));
    sub2.leaf(1).set(&mut rec, Val::U(6));
    top.leaf(1).set(&mut rec, Val::U(2));
    sub2.leaf(0).set(&mut rec, Val::F(5.2));
    assert_eq!(rec.into_events(), expected(Val::F(5.2)));
}

#[test]
fn three_levels_opt_last_value_in_declared_order() {
    let t = three_levels();
    let s = &t.schema;
    let mut rec = OptFieldSet::new(s.variance(t.top));
    let leaf = |path: Vec<usize>| OptFieldSetter { leaf: s.leaf_index(t.top, &path, 0).unwrap() };
    leaf(vec![0]).set(&mut rec, Val::F(1.0));
    leaf(vec![1]).set(&mut rec, Val::U(2));
    leaf(vec![2, 0]).set(&mut rec, Val::F(3.0));
    leaf(vec![2, 1]).set(&mut rec, Val::U(4));
    leaf(vec![2, 2, 0]).set(&mut rec, Val::F(5.0));
    leaf(vec![2, 2, 1]).set(&mut rec, Val::U(6));
    leaf(vec![1]).set(&mut rec, Val::U(2));
    leaf(vec![2, 2, 0]).set(&mut rec, Val::F(5.2));
    assert_eq!(rec.into_events(), expected(Val::F(5.2)));
}

#[test]
fn opt_output_follows_schema_not_write_order() {
    let t = three_levels();
    let s = &t.schema;
    let mut rec = OptFieldSet::new(s.variance(t.top));
    rec.set(5, Val::U(6));
    rec.set(4, Val::F(5.0));
    rec.set(3, Val::U(4));
    rec.set(2, Val::F(3.0));
    rec.set(1, Val::U(2));
    rec.set(0, Val::F(1.0));
    rec.set(1, Val::U(2));
    rec.set(4, Val::F(5.2));
    assert_eq!(rec.into_events(), expected(Val::F(5.2)));
}

#[test]
fn first_write_order_not_declared_order() {
    let mut bit = BitFieldSet::new(4);
    let mut perf = PerfFieldSet::new(4);
    for (leaf, value) in [(3usize, 30u32), (1, 10), (3, 31), (2, 20), (1, 11)] {
        bit.set(leaf, value);
        perf.set(leaf, value);
    }
    let c = |leaf: usize, value: u32| Change { leaf, value };
    assert_eq!(bit.into_events(), vec![c(3, 30), c(1, 10), c(2, 20)]);
    assert_eq!(perf.into_events(), vec![c(3, 31), c(1, 11), c(2, 20)]);
}

#[test]
fn empty_batch_yields_nothing() {
    assert!(OptFieldSet::<u32>::new(5).into_events().is_empty());
    assert!(BitFieldSet::<u32>::new(5).into_events().is_empty());
    assert!(PerfFieldSet::<u32>::new(5).into_events().is_empty());
    assert!(OptFieldSet::<u32>::new(0).into_events().is_empty());
    assert!(BitFieldSet::<u32>::new(0).into_events().is_empty());
    assert!(PerfFieldSet::<u32>::new(0).into_events().is_empty());
}
