//! A tree for looking ahead, kept in one list: every node knows its parent
//! and its children by their places in the list.

use vstd::prelude::*;

verus! {

/// A node of the tree.
pub struct Node<T> {
    /// The place of the node in the list.
    pub idx: usize,
    pub data: T,
    /// The place of the parent; the root has none.
    pub parent: Option<usize>,
    /// The places of the children, in the order in which they were added.
    pub children: Vec<usize>,
}

/// A tree in a list. The root is the first node, and every other node comes
/// after its parent.
pub struct ArenaTree<T> {
    pub arena: Vec<Node<T>>,
}

impl<T> ArenaTree<T> {
    /// The list is a tree: it has a root without parent; every node knows its
    /// own place; every other node has a parent that comes before it; and a
    /// node is a child of exactly the node that is its parent.
    pub open spec fn wf(&self) -> bool {
        &&& self.arena@.len() > 0
        &&& self.arena@[0].parent is None
        &&& forall|i: int| 0 <= i < self.arena@.len() ==> (#[trigger] self.arena@[i]).idx == i
        &&& forall|i: int|
            0 < i < self.arena@.len() ==> (#[trigger] self.arena@[i]).parent is Some
                && self.arena@[i].parent.unwrap() < i
        &&& forall|i: int, k: int|
            0 <= i < self.arena@.len() && 0 <= k < self.arena@[i].children@.len() ==> {
                let child = #[trigger] self.arena@[i].children@[k];
                i < child < self.arena@.len() && self.arena@[child as int].parent == Some(
                    i as usize,
                )
            }
    }

    /// How many steps lead from a node up to the root.
    pub open spec fn depth(&self, node: int) -> nat
        decreases node,
    {
        if 0 < node < self.arena@.len() && self.arena@[node].parent is Some
            && self.arena@[node].parent.unwrap() < node {
            1 + self.depth(self.arena@[node].parent.unwrap() as int)
        } else {
            0
        }
    }

    /// Whether a list of places leads from a node up to the root, parent by parent.
    pub open spec fn is_path_to_root(&self, path: Seq<usize>, node: usize) -> bool {
        &&& path.len() > 0
        &&& path[0] == node
        &&& path.last() == 0
        &&& forall|k: int|
            0 <= k < path.len() - 1 ==> (#[trigger] path[k]) < self.arena@.len()
                && self.arena@[path[k] as int].parent == Some(path[k + 1])
    }

    /// A tree that is its root alone.
    pub fn new(root: T) -> (tree: Self)
        ensures
            tree.wf(),
            tree.arena@.len() == 1,
            tree.arena@[0].data == root,
            tree.arena@[0].children@.len() == 0,
    {
        let mut arena: Vec<Node<T>> = Vec::new();
        arena.push(Node { idx: 0, data: root, parent: None, children: Vec::new() });
        ArenaTree { arena }
    }

    /// How many nodes the tree has.
    pub fn len(&self) -> (count: usize)
        ensures
            count == self.arena@.len(),
    {
        self.arena.len()
    }

    /// The places from a node up to the root: the node, its parent, the
    /// parent of that, and so on.
    pub fn path_to_root(&self, node_idx: usize) -> (path: Vec<usize>)
        requires
            self.wf(),
            node_idx < self.arena@.len(),
        ensures
            self.is_path_to_root(path@, node_idx),
            path@.len() == self.depth(node_idx as int) + 1,
    {
        let mut out: Vec<usize> = Vec::new();
        out.push(node_idx);
        let mut cur_idx = node_idx;
        while cur_idx != 0
            invariant
                self.wf(),
                cur_idx < self.arena@.len(),
                out@.len() > 0,
                out@[0] == node_idx,
                out@.last() == cur_idx,
                out@.len() + self.depth(cur_idx as int) == self.depth(node_idx as int) + 1,
                forall|k: int|
                    0 <= k < out@.len() - 1 ==> (#[trigger] out@[k]) < self.arena@.len()
                        && self.arena@[out@[k] as int].parent == Some(out@[k + 1]),
            decreases cur_idx,
        {
            let ghost before = out@;
            let next_idx = match self.arena[cur_idx].parent {
                Some(next_idx) => next_idx,
                None => {
                    proof {
                        assert(self.arena@[cur_idx as int].parent is Some);
                        assert(false);
                    }
                    return out;
                },
            };
            proof {
                assert(self.arena@[cur_idx as int].parent.unwrap() < cur_idx);
            }
            cur_idx = next_idx;
            out.push(cur_idx);
            proof {
                assert forall|k: int| 0 <= k < out@.len() - 1 implies (#[trigger] out@[k])
                    < self.arena@.len() && self.arena@[out@[k] as int].parent == Some(
                    out@[k + 1],
                ) by {
                    if k < before.len() - 1 {
                        assert(before[k] == out@[k]);
                        assert(before[k + 1] == out@[k + 1]);
                    }
                }
            }
        }
        out
    }

    /// Adds children to a node, at the end of the list and at the end of the
    /// children that the node has, and hands back their places.
    pub fn insert_children(&mut self, children: Vec<T>, parent_idx: usize) -> (added: Vec<usize>)
        requires
            old(self).wf(),
            parent_idx < old(self).arena@.len(),
            old(self).arena@.len() + children@.len() <= usize::MAX,
        ensures
            final(self).wf(),
            final(self).arena@.len() == old(self).arena@.len() + children@.len(),
            added@.len() == children@.len(),
            forall|k: int| 0 <= k < added@.len() ==> #[trigger] added@[k] == old(self).arena@.len() + k,
            forall|k: int|
                0 <= k < children@.len() ==> {
                    let node = #[trigger] final(self).arena@[old(self).arena@.len() + k];
                    node.data == children@[k] && node.parent == Some(parent_idx)
                        && node.children@.len() == 0
                },
            forall|i: int|
                0 <= i < old(self).arena@.len() ==> (#[trigger] final(self).arena@[i]).data
                    == old(self).arena@[i].data && final(self).arena@[i].parent
                    == old(self).arena@[i].parent,
            forall|i: int|
                0 <= i < old(self).arena@.len() && i != parent_idx ==> (#[trigger] final(self).arena@[i]).children@
                    == old(self).arena@[i].children@,
            final(self).arena@[parent_idx as int].children@ == old(self).arena@[parent_idx as int].children@
                + added@,
    {
        let mut children = children;
        let ghost wanted = children@;
        let ghost start = self.arena@;
        let prev_len = self.arena.len();
        let count = children.len();
        let mut out: Vec<usize> = Vec::new();
        // the children go to the list from the last to the first, each to its place
        let mut made: Vec<Node<T>> = Vec::new();
        while children.len() > 0
            invariant
                children@.len() + made@.len() == count,
                count == wanted.len(),
                prev_len + count <= usize::MAX,
                children@ == wanted.take(children@.len() as int),
                forall|k: int|
                    0 <= k < made@.len() ==> {
                        let node = #[trigger] made@[k];
                        node.data == wanted[count - 1 - k] && node.parent == Some(parent_idx)
                            && node.children@.len() == 0 && node.idx == prev_len + count - 1 - k
                    },
            decreases children@.len(),
        {
            let ghost before = children@;
            let place: usize = prev_len + children.len() - 1;
            let child = match children.pop() {
                Some(child) => child,
                None => {
                    proof {
                        assert(false);
                    }
                    return out;
                },
            };
            made.push(Node { idx: place, data: child, parent: Some(parent_idx), children: Vec::new() });
            proof {
                assert(children@ =~= wanted.take(children@.len() as int));
            }
        }
        while made.len() > 0
            invariant
                self.arena@.len() + made@.len() == prev_len + count,
                out@.len() + made@.len() == count,
                count == wanted.len(),
                prev_len == start.len(),
                prev_len + count <= usize::MAX,
                parent_idx < prev_len,
                forall|i: int| 0 <= i < prev_len ==> #[trigger] self.arena@[i] == start[i],
                forall|k: int| 0 <= k < out@.len() ==> #[trigger] out@[k] == prev_len + k,
                forall|k: int|
                    0 <= k < out@.len() ==> {
                        let node = #[trigger] self.arena@[prev_len + k];
                        node.data == wanted[k] && node.parent == Some(parent_idx)
                            && node.children@.len() == 0 && node.idx == prev_len + k
                    },
                forall|k: int|
                    0 <= k < made@.len() ==> {
                        let node = #[trigger] made@[k];
                        node.data == wanted[count - 1 - k] && node.parent == Some(parent_idx)
                            && node.children@.len() == 0 && node.idx == prev_len + count - 1 - k
                    },
            decreases made@.len(),
        {
            let ghost before = self.arena@;
            let ghost waiting = made@;
            let node = match made.pop() {
                Some(node) => node,
                None => {
                    proof {
                        assert(false);
                    }
                    return out;
                },
            };
            proof {
                assert(node == waiting[waiting.len() - 1]);
            }
            out.push(self.arena.len());
            self.arena.push(node);
            proof {
                assert forall|i: int| 0 <= i < prev_len implies #[trigger] self.arena@[i]
                    == start[i] by {
                    assert(self.arena@[i] == before[i]);
                }
                assert forall|k: int| 0 <= k < out@.len() implies {
                    let node = #[trigger] self.arena@[prev_len + k];
                    node.data == wanted[k] && node.parent == Some(parent_idx)
                        && node.children@.len() == 0 && node.idx == prev_len + k
                } by {
                    if k < out@.len() - 1 {
                        assert(self.arena@[prev_len + k] == before[prev_len + k]);
                    }
                }
            }
        }
        let ghost grown = self.arena@;
        let mut i: usize = 0;
        while i < out.len()
            invariant
                i <= out@.len(),
                out@.len() == count,
                self.arena@.len() == prev_len + count,
                parent_idx < prev_len,
                prev_len == start.len(),
                forall|j: int|
                    0 <= j < self.arena@.len() && j != parent_idx ==> #[trigger] self.arena@[j]
                        == grown[j],
                self.arena@[parent_idx as int].idx == grown[parent_idx as int].idx,
                self.arena@[parent_idx as int].data == grown[parent_idx as int].data,
                self.arena@[parent_idx as int].parent == grown[parent_idx as int].parent,
                self.arena@[parent_idx as int].children@ == start[parent_idx as int].children@
                    + out@.take(i as int),
                grown[parent_idx as int] == start[parent_idx as int],
            decreases out.len() - i,
        {
            let ghost before = self.arena@[parent_idx as int].children@;
            let added = out[i];
            self.arena[parent_idx].children.push(added);
            proof {
                assert(out@.take(i + 1) =~= out@.take(i as int).push(out@[i as int]));
                assert(self.arena@[parent_idx as int].children@ =~= start[parent_idx as int].children@
                    + out@.take(i + 1));
            }
            i += 1;
        }
        proof {
            assert(out@.take(out@.len() as int) =~= out@);
            let tree = self.arena@;
            assert forall|j: int, k: int|
                0 <= j < tree.len() && 0 <= k < tree[j].children@.len() implies {
                let child = #[trigger] tree[j].children@[k];
                j < child < tree.len() && tree[child as int].parent == Some(j as usize)
            } by {
                if j == parent_idx {
                    let earlier = start[parent_idx as int].children@;
                    if k < earlier.len() {
                        let child = earlier[k];
                        assert(tree[j].children@[k] == child);
                        assert(parent_idx < child < start.len());
                        assert(start[child as int].parent == Some(parent_idx));
                        if child != parent_idx {
                            assert(tree[child as int] == grown[child as int]);
                        }
                    } else {
                        let m = k - earlier.len();
                        assert(tree[j].children@[k] == out@[m]);
                        assert(tree[prev_len + m] == grown[prev_len + m]);
                    }
                } else if j < prev_len {
                    assert(tree[j] == start[j]);
                    let child = start[j].children@[k];
                    assert(j < child < start.len());
                    assert(start[child as int].parent == Some(j as usize));
                    if child != parent_idx {
                        assert(tree[child as int] == grown[child as int]);
                    }
                } else {
                    assert(tree[j] == grown[j]);
                    assert(grown[prev_len + (j - prev_len)].children@.len() == 0);
                }
            }
            assert forall|j: int| 0 < j < tree.len() implies (#[trigger] tree[j]).parent is Some
                && tree[j].parent.unwrap() < j by {
                if j < prev_len {
                    assert(grown[j] == start[j]);
                } else {
                    assert(grown[prev_len + (j - prev_len)].parent == Some(parent_idx));
                }
            }
            assert forall|j: int| 0 <= j < tree.len() implies (#[trigger] tree[j]).idx == j by {
                if j < prev_len {
                    assert(grown[j] == start[j]);
                } else {
                    assert(grown[prev_len + (j - prev_len)].idx == j);
                }
            }
        }
        out
    }
}

} // verus!
