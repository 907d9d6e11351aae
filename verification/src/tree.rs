//! An append-only arena of nodes linked by parent and child indices.

use vstd::prelude::*;

verus! {

/// One slot of the arena: a payload, the index of the parent (if any) and the
/// indices of the children in the order in which they were added.
pub struct Node<T> {
    pub idx: usize,
    pub val: T,
    pub parent: Option<usize>,
    pub children: Vec<usize>,
}

/// The arena. A node is named by its position in `nodes`; positions are never
/// reused and nodes are never removed.
pub struct Tree<T> {
    pub nodes: Vec<Node<T>>,
}

impl<T> Node<T> {
    /// A node without parent and without children.
    pub fn new(idx: usize, val: T) -> (node: Self)
        ensures
            node.idx == idx,
            node.val == val,
            node.parent == None::<usize>,
            node.children@ == Seq::<usize>::empty(),
    {
        Self { idx, val, parent: None, children: Vec::new() }
    }
}

impl<T> Tree<T> {
    /// The parent link of every node, by position.
    pub open spec fn parents(&self) -> Seq<Option<usize>> {
        Seq::new(self.nodes.len() as nat, |i: int| self.nodes[i].parent)
    }

    /// The links of node `i` are consistent with the rest of the arena:
    /// its parent was created before it and lists it as a child, each of its
    /// children was created after it and names it as parent, and no child is
    /// listed twice.
    pub open spec fn node_linked(&self, i: int) -> bool {
        let node = self.nodes[i];
        &&& node.idx == i
        &&& (node.parent matches Some(p) ==> p < i && self.nodes[p as int].children@.contains(
            i as usize,
        ))
        &&& forall|k: int|
            0 <= k < node.children.len() ==> {
                &&& i < (#[trigger] node.children[k]) < self.nodes.len()
                &&& self.nodes[node.children[k] as int].parent == Some(i as usize)
            }
        &&& forall|j: int, k: int|
            0 <= j < k < node.children.len() ==> node.children[j] < node.children[k]
    }

    /// The arena invariant: every node is consistently linked.
    pub open spec fn wf(&self) -> bool {
        forall|i: int| 0 <= i < self.nodes.len() ==> #[trigger] self.node_linked(i)
    }

    /// The empty arena.
    pub fn new() -> (tree: Self)
        ensures
            tree.nodes@.len() == 0,
            tree.wf(),
    {
        Self { nodes: Vec::new() }
    }

    /// Appends a node without parent and returns its position.
    pub fn new_node(&mut self, val: T) -> (idx: usize)
        ensures
            idx == old(self).nodes.len(),
            final(self).nodes@ == old(self).nodes@.push(final(self).nodes[idx as int]),
            final(self).nodes[idx as int].idx == idx,
            final(self).nodes[idx as int].val == val,
            final(self).nodes[idx as int].parent == None::<usize>,
            final(self).nodes[idx as int].children@ == Seq::<usize>::empty(),
            old(self).wf() ==> final(self).wf(),
    {
        let idx = self.nodes.len();
        self.nodes.push(Node::new(idx, val));
        proof {
            assert forall|i: int| 0 <= i < self.nodes.len() && old(self).wf() implies #[trigger]
                self.node_linked(i) by {
                if i < idx {
                    assert(old(self).node_linked(i));
                }
            }
        }
        idx
    }

    /// Appends a node as the last child of node `idx` and returns its
    /// position.
    pub fn add_child_to_node(&mut self, val: T, idx: usize) -> (child_idx: usize)
        requires
            idx < old(self).nodes.len(),
        ensures
            child_idx == old(self).nodes.len(),
            final(self).nodes.len() == old(self).nodes.len() + 1,
            final(self).nodes[child_idx as int].idx == child_idx,
            final(self).nodes[child_idx as int].val == val,
            final(self).nodes[child_idx as int].parent == Some(idx),
            final(self).nodes[child_idx as int].children@ == Seq::<usize>::empty(),
            final(self).nodes[idx as int].val == old(self).nodes[idx as int].val,
            final(self).nodes[idx as int].parent == old(self).nodes[idx as int].parent,
            final(self).nodes[idx as int].idx == old(self).nodes[idx as int].idx,
            final(self).nodes[idx as int].children@ == old(self).nodes[idx as int].children@.push(
                child_idx,
            ),
            forall|j: int|
                0 <= j < old(self).nodes.len() && j != idx ==> final(self).nodes[j]
                    == old(self).nodes[j],
            old(self).wf() ==> final(self).wf(),
    {
        let child_idx = self.new_node(val);
        self.nodes[idx].children.push(child_idx);
        self.nodes[child_idx].parent = Some(idx);
        proof {
            if old(self).wf() {
                let before = old(self).nodes[idx as int].children@;
                assert(self.nodes[idx as int].children@ == before.push(child_idx));
                assert(before.push(child_idx)[before.len() as int] == child_idx);
                assert(old(self).node_linked(idx as int));
                assert forall|i: int| 0 <= i < self.nodes.len() implies #[trigger]
                    self.node_linked(i) by {
                    if i == child_idx {
                        assert(self.nodes[idx as int].children@.contains(child_idx));
                    } else {
                        assert(old(self).node_linked(i));
                        let node = self.nodes[i];
                        if let Some(p) = node.parent {
                            let listed = old(self).nodes[p as int].children@;
                            let k = choose|k: int| 0 <= k < listed.len() && listed[k] == i as usize;
                            assert(self.nodes[p as int].children@[k] == i as usize);
                        }
                        assert forall|k: int| 0 <= k < node.children.len() implies {
                            &&& i < (#[trigger] node.children[k]) < self.nodes.len()
                            &&& self.nodes[node.children[k] as int].parent == Some(i as usize)
                        } by {
                            if i == idx && k == before.len() {
                            } else {
                                let c = old(self).nodes[i].children[k];
                                assert(node.children[k] == c);
                                assert(i < c < old(self).nodes.len());
                            }
                        }
                    }
                }
            }
        }
        child_idx
    }
}

/// In a well-formed arena a node is listed among the children of its parent,
/// there exactly once, and among the children of no other node; a node
/// without parent is listed nowhere.
pub proof fn lemma_listed_exactly_under_parent<T>(tree: Tree<T>, c: int, q: int)
    requires
        tree.wf(),
        0 <= c < tree.nodes.len(),
        0 <= q < tree.nodes.len(),
    ensures
        tree.nodes[q].children@.contains(c as usize) <==> tree.nodes[c].parent == Some(q as usize),
        forall|j: int, k: int|
            0 <= j < tree.nodes[q].children.len() && 0 <= k < tree.nodes[q].children.len()
                && tree.nodes[q].children[j] == c && tree.nodes[q].children[k] == c ==> j == k,
{
    assert(tree.node_linked(c));
    assert(tree.node_linked(q));
    let listed = tree.nodes[q].children@;
    if listed.contains(c as usize) {
        let k = choose|k: int| 0 <= k < listed.len() && listed[k] == c as usize;
        assert(tree.nodes[listed[k] as int].parent == Some(q as usize));
    }
    assert forall|j: int, k: int|
        0 <= j < listed.len() && 0 <= k < listed.len() && listed[j] == c && listed[k] == c implies j
        == k by {
        if j < k {
            assert(listed[j] < listed[k]);
        }
        if k < j {
            assert(listed[k] < listed[j]);
        }
    }
}

} // verus!
