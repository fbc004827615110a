use vstd::prelude::*;

verus! {

/// One change of a leaf field: the leaf's flat index (depth first, in
/// declared order) and the value written to it.
#[derive(Clone, Copy, PartialEq, Eq, Debug)]
pub struct Change<V> {
    pub leaf: usize,
    pub value: V,
}

/// Whether some write of `ws` goes to leaf `l`.
pub open spec fn written<V>(ws: Seq<Change<V>>, l: usize) -> bool
    decreases ws.len(),
{
    ws.len() > 0 && (ws.last().leaf == l || written(ws.drop_last(), l))
}

/// The value of the last write of `ws` to leaf `l` (meaningful where `l` was
/// written).
pub open spec fn last_value<V>(ws: Seq<Change<V>>, l: usize) -> V
    decreases ws.len(),
{
    if ws.len() == 0 {
        arbitrary()
    } else if ws.last().leaf == l {
        ws.last().value
    } else {
        last_value(ws.drop_last(), l)
    }
}

/// The writes of `ws` that are the first to their leaf, in the order made.
pub open spec fn first_writes<V>(ws: Seq<Change<V>>) -> Seq<Change<V>>
    decreases ws.len(),
{
    if ws.len() == 0 {
        seq![]
    } else if written(ws.drop_last(), ws.last().leaf) {
        first_writes(ws.drop_last())
    } else {
        first_writes(ws.drop_last()).push(ws.last())
    }
}

/// One change per written leaf, in first-write order, each with the leaf's
/// latest value.
pub open spec fn latest_in_first_order<V>(ws: Seq<Change<V>>) -> Seq<Change<V>> {
    first_writes(ws).map_values(|c: Change<V>| Change { leaf: c.leaf, value: last_value(ws, c.leaf) })
}

/// One change per written leaf among leaves `0..k`, in leaf order, each with
/// the leaf's latest value.
pub open spec fn in_leaf_order<V>(ws: Seq<Change<V>>, k: nat) -> Seq<Change<V>>
    decreases k,
{
    if k == 0 {
        seq![]
    } else {
        let l = (k - 1) as usize;
        let prev = in_leaf_order(ws, (k - 1) as nat);
        if written(ws, l) {
            prev.push(Change { leaf: l, value: last_value(ws, l) })
        } else {
            prev
        }
    }
}

/// Every write of `ws` goes to a leaf below `n`.
pub open spec fn leaves_below<V>(ws: Seq<Change<V>>, n: nat) -> bool {
    forall|i: int| 0 <= i < ws.len() ==> (#[trigger] ws[i]).leaf < n
}

/// The leaf values after writing each change of `es` in turn onto `s` (a
/// change to a leaf that `s` lacks changes nothing).
pub open spec fn replayed<V>(s: Seq<V>, es: Seq<Change<V>>) -> Seq<V>
    decreases es.len(),
{
    if es.len() == 0 {
        s
    } else {
        let r = replayed(s, es.drop_last());
        if es.last().leaf < r.len() {
            r.update(es.last().leaf as int, es.last().value)
        } else {
            r
        }
    }
}

pub proof fn lemma_written_push<V>(ws: Seq<Change<V>>, c: Change<V>, l: usize)
    ensures
        written(ws.push(c), l) == (c.leaf == l || written(ws, l)),
        last_value(ws.push(c), l) == if c.leaf == l {
            c.value
        } else {
            last_value(ws, l)
        },
{
    assert(ws.push(c).drop_last() =~= ws);
}

/// A written leaf is the leaf of one of the writes.
pub proof fn lemma_written_index<V>(ws: Seq<Change<V>>, l: usize)
    requires
        written(ws, l),
    ensures
        exists|k: int| 0 <= k < ws.len() && (#[trigger] ws[k]).leaf == l,
    decreases ws.len(),
{
    if ws.last().leaf == l {
        assert(ws[ws.len() - 1].leaf == l);
    } else {
        lemma_written_index(ws.drop_last(), l);
        let k = choose|k: int| 0 <= k < ws.drop_last().len() && (#[trigger] ws.drop_last()[k]).leaf == l;
        assert(ws[k] == ws.drop_last()[k]);
    }
}

pub proof fn lemma_first_writes_push<V>(ws: Seq<Change<V>>, c: Change<V>)
    ensures
        first_writes(ws.push(c)) == if written(ws, c.leaf) {
            first_writes(ws)
        } else {
            first_writes(ws).push(c)
        },
{
    assert(ws.push(c).drop_last() =~= ws);
}

/// The first writes go to distinct leaves, each of them written, and every
/// written leaf has its first write among them.
pub proof fn lemma_first_writes_leaves<V>(ws: Seq<Change<V>>)
    ensures
        forall|i: int, j: int|
            0 <= i < j < first_writes(ws).len() ==> (#[trigger] first_writes(ws)[i]).leaf
                != (#[trigger] first_writes(ws)[j]).leaf,
        forall|i: int|
            0 <= i < first_writes(ws).len() ==> written(ws, (#[trigger] first_writes(ws)[i]).leaf),
        forall|l: usize|
            #[trigger] written(ws, l) ==> exists|i: int|
                0 <= i < first_writes(ws).len() && (#[trigger] first_writes(ws)[i]).leaf == l,
    decreases ws.len(),
{
    if ws.len() > 0 {
        let p = ws.drop_last();
        let c = ws.last();
        assert(p.push(c) =~= ws);
        lemma_first_writes_leaves(p);
        lemma_first_writes_push(p, c);
        let fp = first_writes(p);
        let fw = first_writes(ws);
        assert forall|i: int| 0 <= i < fw.len() implies written(ws, (#[trigger] fw[i]).leaf) by {
            lemma_written_push(p, c, fw[i].leaf);
        }
        assert forall|l: usize| #[trigger] written(ws, l) implies exists|i: int|
            0 <= i < fw.len() && (#[trigger] fw[i]).leaf == l by {
            lemma_written_push(p, c, l);
            if written(p, l) {
                let i = choose|i: int| 0 <= i < fp.len() && (#[trigger] fp[i]).leaf == l;
                assert(fw[i] == fp[i]);
            } else {
                assert(fw[fw.len() - 1] == c);
            }
        }
        if !written(p, c.leaf) {
            assert forall|i: int, j: int|
                0 <= i < j < fw.len() implies (#[trigger] fw[i]).leaf != (#[trigger] fw[j]).leaf by {
                if j == fw.len() - 1 {
                    assert(fw[i] == fp[i]);
                    assert(written(p, fp[i].leaf));
                } else {
                    assert(fw[i] == fp[i] && fw[j] == fp[j]);
                }
            }
        }
    }
}

/// Distinct leaves below `n` number at most `n`, and fewer when one below `n`
/// is missing.
pub proof fn lemma_distinct_leaves_bound<V>(es: Seq<Change<V>>, n: nat, missing: usize)
    requires
        leaves_below(es, n),
        forall|i: int, j: int|
            0 <= i < j < es.len() ==> (#[trigger] es[i]).leaf != (#[trigger] es[j]).leaf,
        missing < n,
        forall|i: int| 0 <= i < es.len() ==> (#[trigger] es[i]).leaf != missing,
    ensures
        es.len() < n,
{
    let ls = es.map_values(|c: Change<V>| c.leaf as int);
    assert(ls.no_duplicates()) by {
        assert forall|i: int, j: int| 0 <= i < ls.len() && 0 <= j < ls.len() && i != j implies ls[i]
            != ls[j] by {
            if i < j {
                assert(es[i].leaf != es[j].leaf);
            } else {
                assert(es[j].leaf != es[i].leaf);
            }
        }
    }
    ls.unique_seq_to_set();
    let range = vstd::set_lib::set_int_range(0, n as int).remove(missing as int);
    vstd::set_lib::lemma_int_range(0, n as int);
    assert(ls.to_set().subset_of(range)) by {
        assert forall|x: int| ls.to_set().contains(x) implies range.contains(x) by {
            let i = choose|i: int| 0 <= i < ls.len() && ls[i] == x;
            assert(es[i].leaf < n);
        }
    }
    vstd::set_lib::lemma_len_subset(ls.to_set(), range);
}

/// A leaf that some write goes to counts as written.
pub proof fn lemma_written_exists<V>(ws: Seq<Change<V>>, k: int)
    requires
        0 <= k < ws.len(),
    ensures
        written(ws, ws[k].leaf),
    decreases ws.len(),
{
    if k < ws.len() - 1 {
        lemma_written_exists(ws.drop_last(), k);
        assert(ws.drop_last()[k] == ws[k]);
    }
}

/// The latest value of a written leaf is the value of one of its writes.
pub proof fn lemma_last_value_index<V>(ws: Seq<Change<V>>, l: usize)
    requires
        written(ws, l),
    ensures
        exists|k: int|
            0 <= k < ws.len() && (#[trigger] ws[k]).leaf == l && ws[k].value == last_value(ws, l),
    decreases ws.len(),
{
    if ws.last().leaf == l {
        assert(ws[ws.len() - 1].leaf == l);
    } else {
        let p = ws.drop_last();
        lemma_last_value_index(p, l);
        let k = choose|k: int|
            0 <= k < p.len() && (#[trigger] p[k]).leaf == l && p[k].value == last_value(p, l);
        assert(ws[k] == p[k]);
    }
}

/// Where no two changes share a leaf, a leaf's latest value is the value of
/// its one change.
pub proof fn lemma_last_value_distinct<V>(es: Seq<Change<V>>, i: int)
    requires
        0 <= i < es.len(),
        forall|a: int, b: int|
            0 <= a < b < es.len() ==> (#[trigger] es[a]).leaf != (#[trigger] es[b]).leaf,
    ensures
        last_value(es, es[i].leaf) == es[i].value,
    decreases es.len(),
{
    if i < es.len() - 1 {
        assert(es[i].leaf != es[es.len() - 1].leaf);
        lemma_last_value_distinct(es.drop_last(), i);
        assert(es.drop_last()[i] == es[i]);
    }
}

/// Each first write is one of the writes.
pub proof fn lemma_first_writes_from<V>(ws: Seq<Change<V>>)
    ensures
        forall|i: int|
            0 <= i < first_writes(ws).len() ==> exists|k: int|
                0 <= k < ws.len() && ws[k] == #[trigger] first_writes(ws)[i],
    decreases ws.len(),
{
    if ws.len() > 0 {
        let p = ws.drop_last();
        assert(p.push(ws.last()) =~= ws);
        lemma_first_writes_from(p);
        lemma_first_writes_push(p, ws.last());
        let fw = first_writes(ws);
        assert forall|i: int| 0 <= i < fw.len() implies exists|k: int|
            0 <= k < ws.len() && ws[k] == #[trigger] fw[i] by {
            if i < first_writes(p).len() {
                assert(fw[i] == first_writes(p)[i]);
                let k = choose|k: int| 0 <= k < p.len() && p[k] == first_writes(p)[i];
                assert(ws[k] == p[k]);
            } else {
                assert(fw[i] == ws[ws.len() - 1]);
            }
        }
    }
}

/// Replaying leaves each leaf with its latest written value, or as it was.
pub proof fn lemma_replayed_leaf<V>(s: Seq<V>, es: Seq<Change<V>>, l: usize)
    requires
        l < s.len(),
    ensures
        replayed(s, es)[l as int] == if written(es, l) {
            last_value(es, l)
        } else {
            s[l as int]
        },
    decreases es.len(),
{
    if es.len() > 0 {
        lemma_replayed_leaf(s, es.drop_last(), l);
        lemma_replayed_leaf_len(s, es.drop_last());
    }
}

/// Replaying `es` ends where replaying `ws` does when `es` holds, once each,
/// exactly the leaves written in `ws`, with their latest values.
pub proof fn lemma_replay_equivalent<V>(s: Seq<V>, es: Seq<Change<V>>, ws: Seq<Change<V>>)
    requires
        s.len() <= usize::MAX,
        leaves_below(ws, s.len()),
        forall|a: int, b: int|
            0 <= a < b < es.len() ==> (#[trigger] es[a]).leaf != (#[trigger] es[b]).leaf,
        forall|i: int|
            0 <= i < es.len() ==> written(ws, (#[trigger] es[i]).leaf) && es[i].value
                == last_value(ws, es[i].leaf),
        forall|l: usize|
            #[trigger] written(ws, l) ==> exists|i: int| 0 <= i < es.len() && (#[trigger] es[i]).leaf == l,
    ensures
        replayed(s, es) == replayed(s, ws),
{
    let a = replayed(s, es);
    let b = replayed(s, ws);
    assert forall|j: int| 0 <= j < s.len() implies a[j] == b[j] by {
        let l = j as usize;
        lemma_replayed_leaf(s, es, l);
        lemma_replayed_leaf(s, ws, l);
        if written(ws, l) {
            let i = choose|i: int| 0 <= i < es.len() && (#[trigger] es[i]).leaf == l;
            lemma_written_exists(es, i);
            lemma_last_value_distinct(es, i);
        } else if written(es, l) {
            lemma_written_index(es, l);
            let i = choose|i: int| 0 <= i < es.len() && (#[trigger] es[i]).leaf == l;
        }
    }
    lemma_replayed_leaf_len(s, es);
    lemma_replayed_leaf_len(s, ws);
    assert(a =~= b);
}

/// Replaying keeps the number of leaves.
pub proof fn lemma_replayed_leaf_len<V>(s: Seq<V>, es: Seq<Change<V>>)
    ensures
        replayed(s, es).len() == s.len(),
    decreases es.len(),
{
    if es.len() > 0 {
        lemma_replayed_leaf_len(s, es.drop_last());
    }
}

/// The changes in leaf order go to strictly increasing leaves below `k`, each
/// written, each with its latest value, and every written leaf below `k` has
/// one.
pub proof fn lemma_in_leaf_order_shape<V>(ws: Seq<Change<V>>, k: nat)
    requires
        k <= usize::MAX + 1,
    ensures
        forall|a: int, b: int|
            0 <= a < b < in_leaf_order(ws, k).len() ==> (#[trigger] in_leaf_order(ws, k)[a]).leaf
                < (#[trigger] in_leaf_order(ws, k)[b]).leaf,
        forall|i: int|
            0 <= i < in_leaf_order(ws, k).len() ==> (#[trigger] in_leaf_order(ws, k)[i]).leaf < k
                && written(ws, in_leaf_order(ws, k)[i].leaf) && in_leaf_order(ws, k)[i].value
                == last_value(ws, in_leaf_order(ws, k)[i].leaf),
        forall|l: usize|
            l < k && #[trigger] written(ws, l) ==> exists|i: int|
                0 <= i < in_leaf_order(ws, k).len() && (#[trigger] in_leaf_order(ws, k)[i]).leaf
                    == l,
    decreases k,
{
    if k > 0 {
        let p = in_leaf_order(ws, (k - 1) as nat);
        let cur = in_leaf_order(ws, k);
        lemma_in_leaf_order_shape(ws, (k - 1) as nat);
        assert forall|l: usize| l < k && #[trigger] written(ws, l) implies exists|i: int|
            0 <= i < cur.len() && (#[trigger] cur[i]).leaf == l by {
            if l < k - 1 {
                let i = choose|i: int| 0 <= i < p.len() && (#[trigger] p[i]).leaf == l;
                assert(cur[i] == p[i]);
            } else {
                assert(cur[cur.len() - 1].leaf == l);
            }
        }
        assert forall|a: int, b: int| 0 <= a < b < cur.len() implies (#[trigger] cur[a]).leaf
            < (#[trigger] cur[b]).leaf by {
            assert(cur[a] == p[a]);
            if b < p.len() {
                assert(cur[b] == p[b]);
            }
        }
        assert forall|i: int| 0 <= i < cur.len() implies (#[trigger] cur[i]).leaf < k && written(
            ws,
            cur[i].leaf,
        ) && cur[i].value == last_value(ws, cur[i].leaf) by {
            if i < p.len() {
                assert(cur[i] == p[i]);
            }
        }
    }
}

/// Replaying the leaf-ordered changes onto a model reaches the state that
/// the writes themselves reach.
pub proof fn lemma_leaf_order_replay<V>(s: Seq<V>, ws: Seq<Change<V>>)
    requires
        s.len() <= usize::MAX,
        leaves_below(ws, s.len()),
    ensures
        replayed(s, in_leaf_order(ws, s.len())) == replayed(s, ws),
{
    let es = in_leaf_order(ws, s.len());
    lemma_in_leaf_order_shape(ws, s.len());
    assert forall|a: int, b: int| 0 <= a < b < es.len() implies (#[trigger] es[a]).leaf
        != (#[trigger] es[b]).leaf by {}
    assert forall|l: usize| #[trigger] written(ws, l) implies exists|i: int|
        0 <= i < es.len() && (#[trigger] es[i]).leaf == l by {
        lemma_written_index(ws, l);
        let k = choose|k: int| 0 <= k < ws.len() && (#[trigger] ws[k]).leaf == l;
        assert(l < s.len());
    }
    lemma_replay_equivalent(s, es, ws);
}

/// Replaying the changes in first-write order with latest values reaches
/// the state that the writes themselves reach.
pub proof fn lemma_latest_replay<V>(s: Seq<V>, ws: Seq<Change<V>>)
    requires
        s.len() <= usize::MAX,
        leaves_below(ws, s.len()),
    ensures
        replayed(s, latest_in_first_order(ws)) == replayed(s, ws),
{
    let fw = first_writes(ws);
    let es = latest_in_first_order(ws);
    lemma_first_writes_leaves(ws);
    assert forall|a: int, b: int| 0 <= a < b < es.len() implies (#[trigger] es[a]).leaf
        != (#[trigger] es[b]).leaf by {
        assert(es[a].leaf == fw[a].leaf && es[b].leaf == fw[b].leaf);
    }
    assert forall|i: int| 0 <= i < es.len() implies written(ws, (#[trigger] es[i]).leaf)
        && es[i].value == last_value(ws, es[i].leaf) by {
        assert(es[i].leaf == fw[i].leaf);
    }
    assert forall|l: usize| #[trigger] written(ws, l) implies exists|i: int|
        0 <= i < es.len() && (#[trigger] es[i]).leaf == l by {
        let i = choose|i: int| 0 <= i < fw.len() && (#[trigger] fw[i]).leaf == l;
        assert(es[i].leaf == l);
    }
    lemma_replay_equivalent(s, es, ws);
}

/// Replaying the first writes reaches the state that the writes themselves
/// reach, when every write to a leaf carries the same value.
pub proof fn lemma_first_writes_replay<V>(s: Seq<V>, ws: Seq<Change<V>>)
    requires
        s.len() <= usize::MAX,
        leaves_below(ws, s.len()),
        forall|a: int, b: int|
            0 <= a < ws.len() && 0 <= b < ws.len() && (#[trigger] ws[a]).leaf
                == (#[trigger] ws[b]).leaf ==> ws[a].value == ws[b].value,
    ensures
        replayed(s, first_writes(ws)) == replayed(s, ws),
{
    let fw = first_writes(ws);
    lemma_first_writes_leaves(ws);
    lemma_first_writes_from(ws);
    assert forall|i: int| 0 <= i < fw.len() implies written(ws, (#[trigger] fw[i]).leaf)
        && fw[i].value == last_value(ws, fw[i].leaf) by {
        let k = choose|k: int| 0 <= k < ws.len() && ws[k] == fw[i];
        lemma_last_value_index(ws, fw[i].leaf);
        let k2 = choose|k2: int|
            0 <= k2 < ws.len() && (#[trigger] ws[k2]).leaf == fw[i].leaf && ws[k2].value
                == last_value(ws, fw[i].leaf);
        assert(ws[k].leaf == ws[k2].leaf);
    }
    lemma_replay_equivalent(s, fw, ws);
}

/// With no writes, every recorder's changes are empty.
pub proof fn lemma_no_writes_no_changes<V>(n: nat)
    ensures
        in_leaf_order(Seq::<Change<V>>::empty(), n) == Seq::<Change<V>>::empty(),
        first_writes(Seq::<Change<V>>::empty()) == Seq::<Change<V>>::empty(),
        latest_in_first_order(Seq::<Change<V>>::empty()) == Seq::<Change<V>>::empty(),
    decreases n,
{
    if n > 0 {
        lemma_no_writes_no_changes::<V>((n - 1) as nat);
    }
    assert(latest_in_first_order(Seq::<Change<V>>::empty()) =~= Seq::<Change<V>>::empty());
}

} // verus!
