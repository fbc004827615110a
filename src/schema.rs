use vstd::prelude::*;

verus! {

/// One field of a schema node: a leaf carrying a value, or a nested schema
/// given by the id of a node defined earlier.
#[derive(Clone, Copy, PartialEq, Eq, Structural, Debug)]
pub enum Slot {
    Leaf,
    Nested(usize),
}

/// Why a node could not be added to a schema.
#[derive(Clone, Copy, PartialEq, Eq, Structural, Debug)]
pub enum SchemaError {
    /// A nested slot names a node that is not (yet) defined.
    UnknownNode,
    /// The node's leaf count does not fit in a `usize`.
    TooManyLeaves,
}

/// Number of leaves reachable through the first `k` slots of node `id`.
///
/// A nested slot counts only when it refers to an earlier node, which is what
/// makes every well-formed schema finite.
pub open spec fn prefix_variance(nodes: Seq<Seq<Slot>>, id: nat, k: nat) -> nat
    decreases id, k,
{
    if id >= nodes.len() || k == 0 || k > nodes[id as int].len() {
        0
    } else {
        prefix_variance(nodes, id, (k - 1) as nat) + match nodes[id as int][k - 1] {
            Slot::Leaf => 1nat,
            Slot::Nested(c) => if (c as nat) < id {
                prefix_variance(nodes, c as nat, nodes[c as int].len())
            } else {
                0nat
            },
        }
    }
}

/// The leaf count ("variance") of node `id`.
pub open spec fn variance(nodes: Seq<Seq<Slot>>, id: nat) -> nat {
    if id < nodes.len() {
        prefix_variance(nodes, id, nodes[id as int].len())
    } else {
        0
    }
}

/// The slot paths of the leaves reachable through the first `k` slots of
/// node `id`, depth first, in declared order.
pub open spec fn leaf_paths(nodes: Seq<Seq<Slot>>, id: nat, k: nat) -> Seq<Seq<nat>>
    decreases id, k,
{
    if id >= nodes.len() || k == 0 || k > nodes[id as int].len() {
        seq![]
    } else {
        leaf_paths(nodes, id, (k - 1) as nat) + match nodes[id as int][k - 1] {
            Slot::Leaf => seq![seq![(k - 1) as nat]],
            Slot::Nested(c) => if (c as nat) < id {
                leaf_paths(nodes, c as nat, nodes[c as int].len()).map_values(
                    |p: Seq<nat>| seq![(k - 1) as nat] + p,
                )
            } else {
                seq![]
            },
        }
    }
}

/// The flat leaf index that a path of slot indices reaches from node `id`:
/// each slot but the last is nested, the last is a leaf.
pub open spec fn leaf_of_path(nodes: Seq<Seq<Slot>>, id: nat, path: Seq<usize>) -> Option<nat>
    decreases path.len(),
{
    if id >= nodes.len() || path.len() == 0 || path[0] >= nodes[id as int].len() {
        None
    } else {
        let before = prefix_variance(nodes, id, path[0] as nat);
        match nodes[id as int][path[0] as int] {
            Slot::Leaf => if path.len() == 1 {
                Some(before)
            } else {
                None
            },
            Slot::Nested(c) => if (c as nat) < id {
                match leaf_of_path(nodes, c as nat, path.drop_first()) {
                    Some(k) => Some(before + k),
                    None => None,
                }
            } else {
                None
            },
        }
    }
}

/// A path reaches a leaf of the node it starts from.
pub proof fn lemma_leaf_of_path_bound(nodes: Seq<Seq<Slot>>, id: nat, path: Seq<usize>)
    requires
        leaf_of_path(nodes, id, path) is Some,
    ensures
        leaf_of_path(nodes, id, path).unwrap() < variance(nodes, id),
    decreases path.len(),
{
    let s = path[0] as nat;
    lemma_prefix_monotone(nodes, id, s + 1, nodes[id as int].len());
    match nodes[id as int][s as int] {
        Slot::Leaf => {},
        Slot::Nested(c) => {
            lemma_leaf_of_path_bound(nodes, c as nat, path.drop_first());
        },
    }
}

/// Every nested slot of every node refers to an earlier node.
pub open spec fn acyclic(nodes: Seq<Seq<Slot>>) -> bool {
    forall|id: int, s: int|
        0 <= id < nodes.len() && 0 <= s < nodes[id].len() ==> match #[trigger] nodes[id][s] {
            Slot::Leaf => true,
            Slot::Nested(c) => (c as int) < id,
        }
}

/// The number of leaves in a node equals the number of leaf paths that reach
/// down from it, at any depth of nesting.
pub proof fn lemma_variance_counts_leaves(nodes: Seq<Seq<Slot>>, id: nat, k: nat)
    ensures
        leaf_paths(nodes, id, k).len() == prefix_variance(nodes, id, k),
    decreases id, k,
{
    if id >= nodes.len() || k == 0 || k > nodes[id as int].len() {
    } else {
        lemma_variance_counts_leaves(nodes, id, (k - 1) as nat);
        match nodes[id as int][k - 1] {
            Slot::Leaf => {},
            Slot::Nested(c) => {
                if (c as nat) < id {
                    lemma_variance_counts_leaves(nodes, c as nat, nodes[c as int].len());
                }
            },
        }
    }
}

/// Counting more slots never counts fewer leaves.
pub proof fn lemma_prefix_monotone(nodes: Seq<Seq<Slot>>, id: nat, j: nat, k: nat)
    requires
        j <= k <= nodes[id as int].len(),
    ensures
        prefix_variance(nodes, id, j) <= prefix_variance(nodes, id, k),
    decreases k,
{
    if j < k {
        lemma_prefix_monotone(nodes, id, j, (k - 1) as nat);
    }
}

/// Appending a node leaves the counts of the existing nodes as they were.
proof fn lemma_prefix_push(nodes: Seq<Seq<Slot>>, x: Seq<Slot>, id: nat, k: nat)
    requires
        id < nodes.len(),
    ensures
        prefix_variance(nodes.push(x), id, k) == prefix_variance(nodes, id, k),
    decreases id, k,
{
    let big = nodes.push(x);
    assert(big[id as int] == nodes[id as int]);
    if k == 0 || k > nodes[id as int].len() {
    } else {
        lemma_prefix_push(nodes, x, id, (k - 1) as nat);
        match nodes[id as int][k - 1] {
            Slot::Leaf => {},
            Slot::Nested(c) => {
                if (c as nat) < id {
                    assert(big[c as int] == nodes[c as int]);
                    lemma_prefix_push(nodes, x, c as nat, nodes[c as int].len());
                }
            },
        }
    }
}

/// A schema: nodes, each an ordered list of slots, where nested slots refer
/// only to earlier nodes.
pub struct Schema {
    nodes: Vec<Vec<Slot>>,
    variances: Vec<usize>,
}

impl Schema {
    /// The slots of each node.
    pub closed spec fn view(&self) -> Seq<Seq<Slot>> {
        self.nodes@.map_values(|v: Vec<Slot>| v@)
    }

    pub closed spec fn wf(&self) -> bool {
        &&& self.variances@.len() == self.nodes@.len()
        &&& acyclic(self.view())
        &&& forall|id: int|
            0 <= id < self.nodes@.len() ==> #[trigger] self.variances@[id] as nat == variance(
                self.view(),
                id as nat,
            )
    }

    /// A schema with no nodes.
    pub fn new() -> (r: Schema)
        ensures
            r.wf(),
            r.view() == Seq::<Seq<Slot>>::empty(),
    {
        let r = Schema { nodes: Vec::new(), variances: Vec::new() };
        assert(r.view() =~= Seq::<Seq<Slot>>::empty());
        r
    }

    /// The number of nodes.
    pub fn len(&self) -> (r: usize)
        ensures
            r == self.view().len(),
    {
        self.nodes.len()
    }

    /// Adds a node with the given slots and returns its id.
    ///
    /// Fails with `UnknownNode` when a nested slot names no existing node,
    /// and with `TooManyLeaves` when the node's leaf count overflows a `usize`.
    pub fn add_node(&mut self, slots: Vec<Slot>) -> (r: Result<usize, SchemaError>)
        requires
            old(self).wf(),
        ensures
            final(self).wf(),
            ({
                let known = forall|s: int|
                    0 <= s < slots@.len() ==> match #[trigger] slots@[s] {
                        Slot::Leaf => true,
                        Slot::Nested(c) => (c as int) < old(self).view().len(),
                    };
                let n = old(self).view().len();
                let nodes = old(self).view().push(slots@);
                match r {
                    Ok(id) => known && variance(nodes, n) <= usize::MAX && id == n
                        && final(self).view() == nodes,
                    Err(SchemaError::UnknownNode) => !known && final(self).view() == old(
                        self,
                    ).view(),
                    Err(SchemaError::TooManyLeaves) => known && variance(nodes, n)
                        > usize::MAX && final(self).view() == old(self).view(),
                }
            }),
    {
        let n = self.nodes.len();
        let ghost old_nodes = self.view();
        let ghost nodes = old_nodes.push(slots@);
        let mut i: usize = 0;
        while i < slots.len()
            invariant
                0 <= i <= slots@.len(),
                n == old_nodes.len(),
                self.wf(),
                self.view() == old_nodes,
                forall|s: int|
                    0 <= s < i ==> match #[trigger] slots@[s] {
                        Slot::Leaf => true,
                        Slot::Nested(c) => (c as int) < n,
                    },
            decreases slots@.len() - i,
        {
            match slots[i] {
                Slot::Leaf => {},
                Slot::Nested(c) => {
                    if c >= n {
                        assert(match slots@[i as int] {
                            Slot::Leaf => true,
                            Slot::Nested(c) => (c as int) < n,
                        } == false);
                        return Err(SchemaError::UnknownNode);
                    }
                },
            }
            i = i + 1;
        }
        let mut total: usize = 0;
        let mut k: usize = 0;
        assert(nodes[n as int] == slots@);
        while k < slots.len()
            invariant
                0 <= k <= slots@.len(),
                n == old_nodes.len(),
                nodes == old_nodes.push(slots@),
                nodes[n as int] == slots@,
                self.wf(),
                self.view() == old_nodes,
                total as nat == prefix_variance(nodes, n as nat, k as nat),
                forall|s: int|
                    0 <= s < slots@.len() ==> match #[trigger] slots@[s] {
                        Slot::Leaf => true,
                        Slot::Nested(c) => (c as int) < n,
                    },
            decreases slots@.len() - k,
        {
            let add: usize = match slots[k] {
                Slot::Leaf => 1,
                Slot::Nested(c) => {
                    proof {
                        lemma_prefix_push(old_nodes, slots@, c as nat, old_nodes[c as int].len());
                        assert(self.variances@[c as int] as nat == variance(old_nodes, c as nat));
                    }
                    self.variances[c]
                },
            };
            proof {
                lemma_prefix_monotone(nodes, n as nat, (k + 1) as nat, slots@.len());
            }
            if add > usize::MAX - total {
                return Err(SchemaError::TooManyLeaves);
            }
            total = total + add;
            k = k + 1;
        }
        let v = slots;
        self.nodes.push(v);
        self.variances.push(total);
        proof {
            assert(self.view() =~= nodes);
            assert forall|id: int|
                0 <= id < self.nodes@.len() implies #[trigger] self.variances@[id] as nat
                == variance(self.view(), id as nat) by {
                if id < n {
                    lemma_prefix_push(old_nodes, slots@, id as nat, old_nodes[id].len());
                    assert(old(self).variances@[id] == self.variances@[id]);
                }
            }
            assert forall|id: int, s: int|
                0 <= id < nodes.len() && 0 <= s < nodes[id].len() implies match #[trigger] nodes[id][s] {
                Slot::Leaf => true,
                Slot::Nested(c) => (c as int) < id,
            } by {
                if id < n {
                    assert(nodes[id] == old_nodes[id]);
                }
            }
        }
        Ok(n)
    }

    /// The leaf count of node `id`.
    pub fn variance(&self, id: usize) -> (r: usize)
        requires
            self.wf(),
            id < self.view().len(),
        ensures
            r == variance(self.view(), id as nat),
    {
        self.variances[id]
    }

    /// The leaf offset of slot `slot` inside node `id`: the leaves of the
    /// slots before it.
    pub fn slot_offset(&self, id: usize, slot: usize) -> (r: usize)
        requires
            self.wf(),
            id < self.view().len(),
            slot <= self.view()[id as int].len(),
        ensures
            r == prefix_variance(self.view(), id as nat, slot as nat),
    {
        let ghost nodes = self.view();
        let slots = &self.nodes[id];
        assert(slots@ == nodes[id as int]);
        let mut total: usize = 0;
        let mut k: usize = 0;
        while k < slot
            invariant
                0 <= k <= slot <= slots@.len(),
                slots@ == nodes[id as int],
                nodes == self.view(),
                self.wf(),
                id < nodes.len(),
                total as nat == prefix_variance(nodes, id as nat, k as nat),
            decreases slot - k,
        {
            let add: usize = match slots[k] {
                Slot::Leaf => 1,
                Slot::Nested(c) => {
                    assert(match nodes[id as int][k as int] {
                        Slot::Leaf => true,
                        Slot::Nested(c) => (c as int) < id,
                    });
                    self.variances[c]
                },
            };
            proof {
                lemma_prefix_monotone(nodes, id as nat, (k + 1) as nat, slots@.len());
                assert(self.variances@[id as int] as nat == variance(nodes, id as nat));
            }
            total = total + add;
            k = k + 1;
        }
        total
    }
    /// The flat leaf index reached from node `id` by the slot indices
    /// `path[i..]`, or `None` where they lead to no leaf.
    pub fn leaf_index(&self, id: usize, path: &Vec<usize>, i: usize) -> (r: Option<usize>)
        requires
            self.wf(),
            id < self.view().len(),
            i <= path@.len(),
        ensures
            r matches Some(k) ==> leaf_of_path(self.view(), id as nat, path@.skip(i as int))
                == Some(k as nat),
            r is None ==> leaf_of_path(self.view(), id as nat, path@.skip(i as int)) is None,
        decreases path@.len() - i,
    {
        let ghost nodes = self.view();
        let ghost rest = path@.skip(i as int);
        if i >= path.len() {
            return None;
        }
        let slot = path[i];
        if slot >= self.nodes[id].len() {
            return None;
        }
        assert(self.nodes@[id as int]@ == nodes[id as int]);
        assert(rest[0] == slot);
        match self.nodes[id][slot] {
            Slot::Leaf => {
                if i + 1 == path.len() {
                    Some(self.slot_offset(id, slot))
                } else {
                    None
                }
            },
            Slot::Nested(c) => {
                assert(match nodes[id as int][slot as int] {
                    Slot::Leaf => true,
                    Slot::Nested(c) => (c as int) < id,
                });
                assert(rest.drop_first() =~= path@.skip(i + 1));
                match self.leaf_index(c, path, i + 1) {
                    Some(k) => {
                        let before = self.slot_offset(id, slot);
                        proof {
                            lemma_leaf_of_path_bound(nodes, id as nat, rest);
                            assert(self.variances@[id as int] as nat == variance(nodes, id as nat));
                        }
                        Some(before + k)
                    },
                    None => None,
                }
            },
        }
    }
}

} // verus!
