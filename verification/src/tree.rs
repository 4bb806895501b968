//! `jxb` trees and their flat form: a list of node data in breadth-first
//! order, where each node points to the contiguous block of its children
//! and to its parent.

use vstd::prelude::*;
use std::collections::VecDeque;
use crate::node::{NodeData, NodeDataView};

verus! {

/// A tree of node data.
pub struct Node {
    pub data: NodeData,
    pub children: Vec<Node>,
}

/// What a tree holds.
#[verifier::ext_equal]
pub struct TreeView {
    pub data: NodeDataView,
    pub children: Seq<TreeView>,
}

/// The view of a tree.
pub open spec fn node_view(n: Node) -> TreeView
    decreases n,
{
    TreeView {
        data: n.data@,
        children: Seq::new(
            n.children@.len(),
            |i: int|
                if 0 <= i < n.children@.len() {
                    node_view(n.children@[i])
                } else {
                    TreeView { data: n.data@, children: Seq::empty() }
                },
        ),
    }
}

impl View for Node {
    type V = TreeView;

    open spec fn view(&self) -> TreeView {
        node_view(*self)
    }
}

/// A node in the flat form of a tree.
pub struct NodeDataWithPointers {
    pub data: NodeData,
    pub parent_index: i32,
    pub children_start_index: i32,
    pub child_count: i32,
}

/// What a node of the flat form holds.
pub struct FlatView {
    pub data: NodeDataView,
    pub parent_index: i32,
    pub children_start_index: i32,
    pub child_count: i32,
}

impl View for NodeDataWithPointers {
    type V = FlatView;

    open spec fn view(&self) -> FlatView {
        FlatView {
            data: self.data@,
            parent_index: self.parent_index,
            children_start_index: self.children_start_index,
            child_count: self.child_count,
        }
    }
}

/// The views of a flat list.
pub open spec fn flat_view(list: Seq<NodeDataWithPointers>) -> Seq<FlatView> {
    list.map_values(|n: NodeDataWithPointers| n@)
}

/// Every node's block of children lies after it and inside the list.
pub open spec fn pointers_wf(list: Seq<FlatView>) -> bool {
    forall|i: int|
        0 <= i < list.len() ==> #[trigger] list[i].child_count >= 0 && (list[i].child_count > 0 ==> i
            < list[i].children_start_index && list[i].children_start_index + list[i].child_count
            <= list.len())
}

/// The tree rooted at index `i` of a flat list.
pub open spec fn tree_at(list: Seq<FlatView>, i: int) -> TreeView
    decreases list.len() - i,
{
    if 0 <= i < list.len() {
        let n = list[i];
        TreeView {
            data: n.data,
            children: Seq::new(
                (if n.child_count > 0 { n.child_count } else { 0 }) as nat,
                |k: int|
                    if 0 <= k && i < n.children_start_index && n.children_start_index + k < list.len() {
                        tree_at(list, n.children_start_index + k)
                    } else {
                        TreeView { data: n.data, children: Seq::empty() }
                    },
            ),
        }
    } else {
        TreeView {
            data: NodeDataView { node_type: Seq::empty(), tags: Seq::empty(), text: Seq::empty() },
            children: Seq::empty(),
        }
    }
}

impl Node {
    /// The tree rooted at `index` of a flat list whose pointers are sound.
    pub fn from_node_list(node_list: &Vec<NodeDataWithPointers>, index: i32) -> (r: Node)
        requires
            pointers_wf(flat_view(node_list@)),
            0 <= index < node_list@.len(),
            node_list@.len() <= i32::MAX,
        ensures
            r@ == tree_at(flat_view(node_list@), index as int),
        decreases node_list@.len() - index,
    {
        let ghost list = flat_view(node_list@);
        let node = &node_list[index as usize];
        assert(list[index as int] == node@);
        assert(list[index as int].child_count >= 0);
        let count = node.child_count;
        let start = node.children_start_index;
        let mut children: Vec<Node> = Vec::new();
        let mut k: i32 = 0;
        while k < count
            invariant
                list == flat_view(node_list@),
                pointers_wf(list),
                0 <= index < list.len(),
                list.len() == node_list@.len(),
                list.len() <= i32::MAX,
                count > 0 ==> index < start && start + count <= list.len(),
                count == list[index as int].child_count,
                start == list[index as int].children_start_index,
                0 <= k,
                count > 0 ==> k <= count,
                count <= 0 ==> k == 0,
                children@.len() == k,
                forall|j: int| 0 <= j < k ==> #[trigger] node_view(children@[j]) == tree_at(list, start + j),
            decreases count - k,
        {
            let child = Node::from_node_list(node_list, start + k);
            children.push(child);
            k = k + 1;
        }
        let r = Node { data: node.data.duplicate(), children };
        proof {
            let expected = tree_at(list, index as int);
            assert(count > 0 ==> k == count);
            assert(expected.children.len() == children@.len());
            assert(node_view(r).children.len() == children@.len());
            assert forall|j: int| 0 <= j < children@.len() implies node_view(r).children[j] == expected.children[j] by {
                assert(node_view(r).children[j] == node_view(children@[j]));
            }
            assert(node_view(r).children =~= expected.children);
        }
        r
    }

    /// The tree rooted at `index` of a flat list whose pointers are sound.
    pub fn new(node_list: Vec<NodeDataWithPointers>, index: i32) -> (r: Node)
        requires
            pointers_wf(flat_view(node_list@)),
            0 <= index < node_list@.len(),
            node_list@.len() <= i32::MAX,
        ensures
            r@ == tree_at(flat_view(node_list@), index as int),
    {
        Node::from_node_list(&node_list, index)
    }
}

/// The number of nodes of a tree.
pub open spec fn tree_size(t: TreeView) -> nat
    decreases t,
{
    1 + forest_size(t.children)
}

/// The number of nodes of a sequence of trees.
pub open spec fn forest_size(f: Seq<TreeView>) -> nat
    decreases f,
{
    if f.len() == 0 {
        0
    } else {
        forest_size(f.drop_last()) + tree_size(f.last())
    }
}

proof fn lemma_forest_size_concat(a: Seq<TreeView>, b: Seq<TreeView>)
    ensures
        forest_size(a + b) == forest_size(a) + forest_size(b),
    decreases b.len(),
{
    if b.len() == 0 {
        assert(a + b =~= a);
    } else {
        lemma_forest_size_concat(a, b.drop_last());
        assert((a + b).drop_last() =~= a + b.drop_last());
        assert((a + b).last() == b.last());
    }
}

proof fn lemma_forest_size_single(t: TreeView)
    ensures
        forest_size(seq![t]) == tree_size(t),
{
    assert(seq![t].drop_last() =~= Seq::<TreeView>::empty());
    assert(seq![t].last() == t);
    assert(forest_size(Seq::<TreeView>::empty()) == 0);
}

proof fn lemma_forest_size_at_least_len(f: Seq<TreeView>)
    ensures
        forest_size(f) >= f.len(),
    decreases f.len(),
{
    if f.len() > 0 {
        lemma_forest_size_at_least_len(f.drop_last());
        assert(tree_size(f.last()) >= 1);
    }
}

/// How many children the nodes before index `i` have in all.
pub open spec fn children_before(list: Seq<FlatView>, i: int) -> int
    decreases i,
{
    if i <= 0 {
        0
    } else {
        children_before(list, i - 1) + list[i - 1].child_count
    }
}

proof fn lemma_children_before_prefix(a: Seq<FlatView>, b: Seq<FlatView>, i: int)
    requires
        0 <= i <= a.len(),
        a.len() <= b.len(),
        forall|j: int| 0 <= j < a.len() ==> a[j] == b[j],
    ensures
        children_before(a, i) == children_before(b, i),
    decreases i,
{
    if i > 0 {
        lemma_children_before_prefix(a, b, i - 1);
    }
}

pub proof fn lemma_children_before_monotonic(list: Seq<FlatView>, i: int, j: int)
    requires
        0 <= i <= j <= list.len(),
        forall|k: int| 0 <= k < list.len() ==> #[trigger] list[k].child_count >= 0,
    ensures
        children_before(list, i) <= children_before(list, j),
    decreases j - i,
{
    if i < j {
        lemma_children_before_monotonic(list, i, j - 1);
    }
}

/// The flat list is in breadth-first order: the root comes first without a
/// parent, and the children of each node form a block that starts right
/// after the children of the nodes before it and points back to the node.
pub open spec fn bfs_layout(list: Seq<FlatView>) -> bool {
    &&& list.len() > 0
    &&& list[0].parent_index == -1
    &&& list.len() == 1 + children_before(list, list.len() as int)
    &&& forall|i: int|
        0 <= i < list.len() ==> #[trigger] list[i].child_count >= 0 && (list[i].child_count == 0
            ==> list[i].children_start_index == -1) && (list[i].child_count > 0
            ==> list[i].children_start_index == 1 + children_before(list, i))
    &&& forall|i: int, k: int|
        0 <= i < list.len() && 0 <= k < list[i].child_count ==> #[trigger] list[list[i].children_start_index
            + k].parent_index == i
}

/// A list whose nodes carry the data and child counts of some trees, and
/// whose blocks of children carry the trees' children, flattens those
/// trees.
proof fn lemma_tree_at_assigned(list: Seq<FlatView>, assigned: Seq<TreeView>, i: int)
    requires
        pointers_wf(list),
        assigned.len() == list.len(),
        0 <= i < list.len(),
        forall|j: int|
            0 <= j < list.len() ==> (#[trigger] list[j]).data == assigned[j].data
                && list[j].child_count == assigned[j].children.len(),
        forall|j: int, k: int|
            0 <= j < list.len() && 0 <= k < list[j].child_count ==> assigned[list[j].children_start_index
                + k] == #[trigger] assigned[j].children[k],
    ensures
        tree_at(list, i) == assigned[i],
    decreases list.len() - i,
{
    let n = list[i];
    let t = tree_at(list, i);
    assert(n.child_count >= 0);
    assert forall|k: int| 0 <= k < n.child_count implies t.children[k] == assigned[i].children[k] by {
        lemma_tree_at_assigned(list, assigned, n.children_start_index + k);
    }
    assert(t.children =~= assigned[i].children);
    assert(t =~= assigned[i]);
}

/// The views of the trees in a queue.
pub open spec fn queue_trees(q: Seq<(Node, i32)>) -> Seq<TreeView> {
    q.map_values(|e: (Node, i32)| node_view(e.0))
}

impl Node {
    /// The flat form of the tree: its nodes in breadth-first order, each
    /// pointing to its parent and to the block of its children.
    #[verifier::spinoff_prover]
    #[verifier::rlimit(40)]
    pub fn into_node_list(self) -> (r: Vec<NodeDataWithPointers>)
        requires
            tree_size(self@) <= i32::MAX,
        ensures
            bfs_layout(flat_view(r@)),
            pointers_wf(flat_view(r@)),
            r@.len() == tree_size(self@),
            tree_at(flat_view(r@), 0) == self@,
    {
        let ghost root = self@;
        let mut node_list: Vec<NodeDataWithPointers> = Vec::new();
        let mut queue: VecDeque<(Node, i32)> = VecDeque::new();
        queue.push_back((self, -1));
        let ghost mut assigned: Seq<TreeView> = seq![root];
        let ghost mut parents: Seq<int> = seq![-1int];
        proof {
            assert(queue_trees(queue@) =~= seq![root]);
            lemma_forest_size_single(root);
        }
        while queue.len() > 0
            invariant
                assigned.len() == node_list@.len() + queue@.len(),
                parents.len() == node_list@.len() + queue@.len(),
                assigned[0] == root,
                parents[0] == -1,
                node_list@.len() + queue@.len() >= 1,
                forall|j: int|
                    0 <= j < queue@.len() ==> node_view(#[trigger] queue@[j].0) == assigned[node_list@.len()
                        + j] && queue@[j].1 as int == parents[node_list@.len() + j],
                forall|i: int|
                    0 <= i < node_list@.len() ==> (#[trigger] flat_view(node_list@)[i]).data == assigned[i].data
                        && flat_view(node_list@)[i].child_count == assigned[i].children.len()
                        && flat_view(node_list@)[i].parent_index == parents[i],
                forall|i: int|
                    0 <= i < node_list@.len() ==> #[trigger] flat_view(node_list@)[i].child_count >= 0 && (
                    flat_view(node_list@)[i].child_count == 0 ==> flat_view(node_list@)[i].children_start_index
                        == -1) && (flat_view(node_list@)[i].child_count > 0 ==> flat_view(
                        node_list@,
                    )[i].children_start_index == 1 + children_before(flat_view(node_list@), i) && i
                        < flat_view(node_list@)[i].children_start_index && flat_view(
                        node_list@,
                    )[i].children_start_index + flat_view(node_list@)[i].child_count <= node_list@.len()
                        + queue@.len()),
                forall|i: int, k: int|
                    0 <= i < node_list@.len() && 0 <= k < flat_view(node_list@)[i].child_count ==> assigned[flat_view(
                        node_list@,
                    )[i].children_start_index + k] == #[trigger] assigned[i].children[k]
                        && parents[flat_view(node_list@)[i].children_start_index + k] == i,
                node_list@.len() + queue@.len() == 1 + children_before(flat_view(node_list@), node_list@.len() as int),
                tree_size(root) == node_list@.len() + forest_size(queue_trees(queue@)),
                tree_size(root) <= i32::MAX,
            decreases tree_size(root) - node_list@.len(),
        {
            let ghost list0 = flat_view(node_list@);
            let ghost q0 = queue@;
            let ghost n = node_list@.len();
            proof {
                lemma_forest_size_at_least_len(queue_trees(q0));
                assert(queue_trees(q0) =~= seq![queue_trees(q0)[0]] + queue_trees(q0.drop_first()));
                lemma_forest_size_concat(seq![queue_trees(q0)[0]], queue_trees(q0.drop_first()));
                lemma_forest_size_single(queue_trees(q0)[0]);
            }
            let (node, parent_index) = match queue.pop_front() {
                Some(entry) => entry,
                None => {
                    assert(false);
                    return node_list;
                },
            };
            assert(node == q0[0].0 && parent_index == q0[0].1);
            let ghost qrest = queue@;
            let ghost tv = node_view(node);
            let index = node_list.len() as i32;
            let Node { data, children } = node;
            let ghost cs = children@;
            proof {
                lemma_forest_size_at_least_len(tv.children);
            }
            let child_count = children.len() as i32;
            let children_start_index = if child_count == 0 {
                -1
            } else {
                index + queue.len() as i32 + 1
            };
            let mut rest = children;
            while rest.len() > 0
                invariant
                    rest@ == cs.skip(cs.len() - rest@.len()),
                    rest@.len() <= cs.len(),
                    queue@ == qrest + cs.take(cs.len() - rest@.len()).map_values(|c: Node| (c, index)),
                decreases rest@.len(),
            {
                let ghost taken = cs.len() - rest@.len();
                let child = rest.remove(0);
                queue.push_back((child, index));
                assert(cs.skip(taken).drop_first() =~= cs.skip(taken + 1));
                assert(cs.take(taken + 1).map_values(|c: Node| (c, index)) =~= cs.take(taken).map_values(
                    |c: Node| (c, index),
                ).push((child, index)));
            }
            let ghost pushed = cs.map_values(|c: Node| (c, index));
            assert(cs.take(cs.len() as int) =~= cs);
            node_list.push(NodeDataWithPointers { data, parent_index, children_start_index, child_count });
            proof {
                let list1 = flat_view(node_list@);
                assert(list1 =~= list0.push(list1[n as int]));
                lemma_children_before_prefix(list0, list1, n as int);
                assert(children_before(list1, n + 1int) == children_before(list0, n as int) + child_count);
                assert forall|i: int| 0 <= i < n implies list1[i] == list0[i] by {}
                assert(queue_trees(pushed) =~= tv.children);
                assert(queue_trees(queue@) =~= queue_trees(qrest) + tv.children);
                lemma_forest_size_concat(queue_trees(qrest), tv.children);
                assert(queue_trees(qrest) =~= queue_trees(q0.drop_first()));
                let old_assigned = assigned;
                let old_parents = parents;
                assigned = assigned + tv.children;
                parents = parents + Seq::new(cs.len(), |k: int| n as int);
                assert forall|j: int| 0 <= j < queue@.len() implies node_view(#[trigger] queue@[j].0)
                    == assigned[node_list@.len() + j] && queue@[j].1 as int == parents[node_list@.len() + j] by {
                    if j < qrest.len() {
                        assert(queue@[j] == q0[j + 1]);
                    } else {
                        assert(queue@[j] == pushed[j - qrest.len()]);
                        assert(assigned[node_list@.len() + j] == tv.children[j - qrest.len()]);
                    }
                }
                assert forall|i: int, k: int|
                    0 <= i < node_list@.len() && 0 <= k < list1[i].child_count implies assigned[list1[i].children_start_index
                        + k] == #[trigger] assigned[i].children[k] && parents[list1[i].children_start_index + k]
                        == i by {
                    if i < n {
                        assert(list1[i] == list0[i]);
                        let at = list0[i].children_start_index + k;
                        assert(at < old_assigned.len());
                        assert(old_assigned[at] == old_assigned[i].children[k]);
                        assert(old_parents[at] == i);
                        assert(assigned[at] == old_assigned[at]);
                        assert(parents[at] == old_parents[at]);
                        assert(assigned[i] == old_assigned[i]);
                    } else {
                        assert(i == n);
                        assert(list1[i].children_start_index == n + q0.len());
                        assert(assigned[i] == tv);
                        let at = n + q0.len() + k;
                        assert(at == old_assigned.len() + k);
                        assert(assigned[at] == tv.children[k]);
                        assert(parents[at] == n);
                    }
                }
                assert forall|i: int| 0 <= i < node_list@.len() implies #[trigger] list1[i].child_count >= 0 && (
                list1[i].child_count == 0 ==> list1[i].children_start_index == -1) && (list1[i].child_count > 0
                    ==> list1[i].children_start_index == 1 + children_before(list1, i) && i
                    < list1[i].children_start_index && list1[i].children_start_index + list1[i].child_count
                    <= node_list@.len() + queue@.len()) by {
                    if i < n {
                        assert(list1[i] == list0[i]);
                        lemma_children_before_prefix(list0, list1, i);
                    }
                }
            }
        }
        proof {
            let list = flat_view(node_list@);
            assert(queue_trees(queue@) =~= Seq::<TreeView>::empty());
            assert forall|j: int|
                0 <= j < list.len() implies (#[trigger] list[j]).data == assigned[j].data
                    && list[j].child_count == assigned[j].children.len() by {}
            assert(pointers_wf(list));
            lemma_tree_at_assigned(list, assigned, 0);
            lemma_children_before_monotonic(list, 0, list.len() as int);
            assert forall|i: int, k: int|
                0 <= i < list.len() && 0 <= k < list[i].child_count implies #[trigger] list[list[i].children_start_index
                    + k].parent_index == i by {
                assert(assigned[list[i].children_start_index + k] == assigned[i].children[k]);
                assert(parents[list[i].children_start_index + k] == i);
            }
        }
        node_list
    }
}

impl Node {
    /// The number of nodes of the tree, or `cap` where it has at least as
    /// many.
    pub fn count_nodes(&self, cap: u64) -> (r: u64)
        requires
            cap >= 1,
        ensures
            r == if tree_size(self@) < cap { tree_size(self@) as u64 } else { cap },
        decreases self@,
    {
        let ghost t = self@;
        if cap == 1 {
            return 1;
        }
        let mut count: u64 = 1;
        let mut k: usize = 0;
        proof {
            assert(t.children.take(0) =~= Seq::<TreeView>::empty());
        }
        while k < self.children.len()
            invariant
                t == self@,
                cap >= 1,
                k <= self.children@.len(),
                t.children.len() == self.children@.len(),
                count == 1 + forest_size(t.children.take(k as int)),
                count < cap,
            decreases self.children@.len() - k,
        {
            proof {
                assert(t.children[k as int] == self.children@[k as int]@);
                assert(t.children.take(k + 1).drop_last() =~= t.children.take(k as int));
                assert(t.children.take(k + 1).last() == t.children[k as int]);
            }
            let c = self.children[k].count_nodes(cap - count);
            if c >= cap - count {
                proof {
                    lemma_forest_size_prefix(t.children, k + 1);
                }
                return cap;
            }
            count = count + c;
            k = k + 1;
        }
        proof {
            assert(t.children.take(k as int) =~= t.children);
        }
        count
    }
}

proof fn lemma_forest_size_prefix(f: Seq<TreeView>, k: int)
    requires
        0 <= k <= f.len(),
    ensures
        forest_size(f.take(k)) <= forest_size(f),
    decreases f.len() - k,
{
    if k < f.len() {
        assert(f.take(k + 1).drop_last() =~= f.take(k));
        lemma_forest_size_prefix(f, k + 1);
    } else {
        assert(f.take(k) =~= f);
    }
}

/// Whether every node's block of children lies after it and inside the
/// list, as `pointers_wf` says.
pub fn pointers_sound(list: &Vec<NodeDataWithPointers>) -> (r: bool)
    ensures
        r == pointers_wf(flat_view(list@)),
{
    let ghost l = flat_view(list@);
    let n = list.len();
    let mut i: usize = 0;
    while i < n
        invariant
            i <= n,
            n == list@.len(),
            l == flat_view(list@),
            forall|k: int| 0 <= k < i ==> #[trigger] l[k].child_count >= 0 && (l[k].child_count > 0 ==> k
                < l[k].children_start_index && l[k].children_start_index + l[k].child_count <= l.len()),
        decreases n - i,
    {
        let node = &list[i];
        proof {
            assert(l[i as int] == node@);
        }
        proof {
            assert(l.len() == list@.len());
        }
        if node.child_count < 0 {
            proof {
                assert(!(l[i as int].child_count >= 0));
            }
            return false;
        }
        if node.child_count > 0 {
            let start = node.children_start_index as i128;
            if start <= i as i128 || start + node.child_count as i128 > n as i128 {
                proof {
                    assert(!(l[i as int].child_count > 0 ==> i < l[i as int].children_start_index
                        && l[i as int].children_start_index + l[i as int].child_count <= l.len()));
                }
                return false;
            }
        }
        i = i + 1;
    }
    true
}

/// Lists that agree on the nodes before `i` have as many children before
/// each index up to `i`.
proof fn lemma_children_before_agree(l1: Seq<FlatView>, l2: Seq<FlatView>, i: int)
    requires
        0 <= i <= l1.len(),
        i <= l2.len(),
        forall|k: int| 0 <= k < i ==> l1[k] == l2[k],
    ensures
        children_before(l1, i) == children_before(l2, i),
    decreases i,
{
    if i > 0 {
        lemma_children_before_agree(l1, l2, i - 1);
    }
}

/// The node whose block of children holds index `m`, searched below `q`.
proof fn lemma_block_of(l: Seq<FlatView>, m: int, q: int) -> (p: int)
    requires
        0 < q <= l.len(),
        1 <= m < 1 + children_before(l, q),
    ensures
        0 <= p < q,
        1 + children_before(l, p) <= m < 1 + children_before(l, p + 1),
    decreases q,
{
    if 1 + children_before(l, q - 1) <= m {
        q - 1
    } else {
        lemma_block_of(l, m, q - 1)
    }
}

/// Two breadth-first lists of one tree agree at `m` where they agree before
/// it: on the node and on the tree rooted there.
proof fn lemma_bfs_node_agrees(l1: Seq<FlatView>, l2: Seq<FlatView>, m: int)
    requires
        bfs_layout(l1),
        bfs_layout(l2),
        pointers_wf(l1),
        l1.len() == l2.len(),
        tree_at(l1, 0) == tree_at(l2, 0),
        0 <= m < l1.len(),
        forall|i: int| 0 <= i < m ==> l1[i] == l2[i] && tree_at(l1, i) == tree_at(l2, i),
    ensures
        tree_at(l1, m) == tree_at(l2, m),
        l1[m] == l2[m],
{
    lemma_children_before_agree(l1, l2, m);
    if m > 0 {
        let p = lemma_block_of(l1, m, l1.len() as int);
        assert(l1[p].child_count > 0);
        assert(p < l1[p].children_start_index <= m);
        lemma_children_before_agree(l1, l2, p + 1);
        assert(l1[p] == l2[p]);
        let k = m - l1[p].children_start_index;
        assert(tree_at(l1, p).children[k] == tree_at(l1, m));
        assert(tree_at(l2, p).children[k] == tree_at(l2, m));
        assert(l1[l1[p].children_start_index + k].parent_index == p);
        assert(l2[l2[p].children_start_index + k].parent_index == p);
    }
    let t = tree_at(l1, m);
    assert(l1[m].child_count >= 0 && l2[m].child_count >= 0);
    assert(t.children.len() == l1[m].child_count);
    assert(t.children.len() == l2[m].child_count);
}

proof fn lemma_bfs_agree_upto(l1: Seq<FlatView>, l2: Seq<FlatView>, j: int)
    requires
        bfs_layout(l1),
        bfs_layout(l2),
        pointers_wf(l1),
        l1.len() == l2.len(),
        tree_at(l1, 0) == tree_at(l2, 0),
        0 <= j <= l1.len(),
    ensures
        forall|i: int| 0 <= i < j ==> l1[i] == l2[i] && tree_at(l1, i) == tree_at(l2, i),
    decreases j,
{
    if j > 0 {
        lemma_bfs_agree_upto(l1, l2, j - 1);
        lemma_bfs_node_agrees(l1, l2, j - 1);
    }
}

/// A tree has one breadth-first list: two such lists of the same length
/// whose roots hold the same tree are equal.
pub proof fn lemma_bfs_layout_unique(l1: Seq<FlatView>, l2: Seq<FlatView>)
    requires
        bfs_layout(l1),
        bfs_layout(l2),
        pointers_wf(l1),
        l1.len() == l2.len(),
        tree_at(l1, 0) == tree_at(l2, 0),
    ensures
        l1 == l2,
{
    lemma_bfs_agree_upto(l1, l2, l1.len() as int);
    assert(l1 =~= l2);
}

} // verus!
