//! Arena-backed size tree.
//!
//! Nodes live in a flat vector indexed by [`NodeId`]. A node is always
//! inserted after its parent, so every child has a larger index than its
//! parent; this is what makes the recursive specifications below well
//! founded.

use vstd::prelude::*;
use crate::events::TreeError;
use crate::text::{lowercase_of, to_lowercase};
use crate::order::{
    ids_valid, is_sorted_by, same_sort_keys, same_sort_keys_all, stable_sort_ids, stable_sorted, lemma_sorted_frame,
    lemma_stable_sorted_contents, lemma_stable_sorted_frame, lemma_stable_sorted_sorted, lemma_stable_sorted_sums,
};
use crate::view::{SortDir, SortKey};

verus! {

/// Arena index into a [`Tree`].
#[derive(Clone, Copy, Debug, PartialEq, Eq, Hash, Structural)]
pub struct NodeId(pub u32);

impl NodeId {
    pub open spec fn index(self) -> int {
        self.0 as int
    }

    /// Raw index into the arena.
    pub fn as_u32(self) -> (r: u32)
        ensures
            r as int == self.index(),
    {
        self.0
    }
}

/// What kind of filesystem entry a [`Node`] represents.
#[derive(Clone, Copy, Debug, PartialEq, Eq, Structural)]
pub enum NodeKind {
    Dir,
    File,
    Symlink,
}

/// A single filesystem entry in the size tree.
#[derive(Clone, Debug)]
pub struct Node {
    /// Basename of the entry; the root holds the scanned path.
    pub name: String,
    /// Lowercased `name`, used by the search filter and the name sort.
    pub name_lower: String,
    pub kind: NodeKind,
    /// Logical bytes of this entry alone.
    pub size_self: u64,
    /// Logical bytes of this entry and all its descendants.
    pub size_total: u64,
    /// Allocated bytes of this entry alone; `None` where the platform does
    /// not tell.
    pub alloc_self: Option<u64>,
    /// Allocated bytes of this entry and all its descendants; `None` when
    /// any of them is unknown.
    pub alloc_total: Option<u64>,
    /// Number of file (and symlink) descendants, not counting the node.
    pub file_count: u64,
    /// Number of directory descendants, not counting the node.
    pub dir_count: u64,
    /// Modification time in nanoseconds relative to the Unix epoch.
    pub mtime: Option<i128>,
    pub owner: Option<String>,
    pub parent: Option<NodeId>,
    pub children: Vec<NodeId>,
}

impl Node {
    /// Build a leaf node: no parent, no children, totals equal to the
    /// entry's own values and zero descendant counts.
    pub fn new_leaf(
        name: &str,
        kind: NodeKind,
        size_self: u64,
        alloc_self: Option<u64>,
        mtime: Option<i128>,
        owner: Option<String>,
    ) -> (n: Node)
        ensures
            n.name@ == name@,
            n.name_lower@ == lowercase_of(name@),
            n.kind == kind,
            n.size_self == size_self,
            n.size_total == size_self,
            n.alloc_self == alloc_self,
            n.alloc_total == alloc_self,
            n.file_count == 0,
            n.dir_count == 0,
            n.mtime == mtime,
            n.owner == owner,
            n.parent.is_none(),
            n.children@.len() == 0,
    {
        Node {
            name: name.to_owned(),
            name_lower: to_lowercase(name),
            kind,
            size_self,
            size_total: size_self,
            alloc_self,
            alloc_total: alloc_self,
            file_count: 0,
            dir_count: 0,
            mtime,
            owner,
            parent: None,
            children: Vec::new(),
        }
    }
}

/// `x` clamped into the range of `u64`: the result of adding non-negative
/// numbers with saturating arithmetic.
pub open spec fn sat(x: int) -> u64 {
    if x < 0 {
        0
    } else if x > u64::MAX {
        u64::MAX
    } else {
        x as u64
    }
}

pub open spec fn parent_link_ok(nodes: Seq<Node>, i: int) -> bool {
    if i == 0 {
        nodes[0].parent.is_none()
    } else {
        nodes[i].parent matches Some(p) && p.index() < i
    }
}

/// The children of node `i` are exactly the nodes whose parent is `i`,
/// each listed once, and all have larger indices than `i`.
pub open spec fn children_ok(nodes: Seq<Node>, i: int) -> bool {
    let kids = nodes[i].children@;
    &&& kids.no_duplicates()
    &&& forall|k: int|
        0 <= k < kids.len() ==> i < (#[trigger] kids[k]).index() < nodes.len()
            && nodes[kids[k].index()].parent == Some(NodeId(i as u32))
    &&& forall|j: int|
        0 < j < nodes.len() && #[trigger] nodes[j].parent == Some(NodeId(i as u32))
            ==> kids.contains(NodeId(j as u32))
}

pub open spec fn node_ok(nodes: Seq<Node>, i: int) -> bool {
    parent_link_ok(nodes, i) && children_ok(nodes, i)
}

/// Shape invariant of the arena.
pub open spec fn tree_wf(nodes: Seq<Node>) -> bool {
    &&& nodes.len() <= u32::MAX
    &&& forall|i: int| 0 <= i < nodes.len() ==> #[trigger] node_ok(nodes, i)
}

/// Pre-order listing of the subtree rooted at `i` (the node itself first,
/// then each child's subtree in child order).
pub open spec fn preorder(nodes: Seq<Node>, i: int) -> Seq<NodeId>
    decreases nodes.len() - i, 1int, 0int,
{
    seq![NodeId(i as u32)] + preorder_list(nodes, nodes[i].children@, i)
}

/// Concatenated pre-order listings of the subtrees rooted at `kids`, all
/// of which are expected to lie strictly after `parent`.
pub open spec fn preorder_list(nodes: Seq<Node>, kids: Seq<NodeId>, parent: int) -> Seq<NodeId>
    decreases nodes.len() - parent, 0int, kids.len(),
{
    if kids.len() == 0 {
        Seq::empty()
    } else {
        let k = kids.last().index();
        preorder_list(nodes, kids.drop_last(), parent) + (if parent < k < nodes.len() {
            preorder(nodes, k)
        } else {
            Seq::empty()
        })
    }
}

pub proof fn lemma_preorder_list_append(nodes: Seq<Node>, a: Seq<NodeId>, b: Seq<NodeId>, parent: int)
    ensures
        preorder_list(nodes, a + b, parent) == preorder_list(nodes, a, parent) + preorder_list(nodes, b, parent),
    decreases b.len(),
{
    if b.len() == 0 {
        assert(a + b == a);
    } else {
        lemma_preorder_list_append(nodes, a, b.drop_last(), parent);
        assert((a + b).drop_last() == a + b.drop_last());
        assert((a + b).last() == b.last());
    }
}

pub proof fn lemma_preorder_list_single(nodes: Seq<Node>, x: NodeId, parent: int)
    requires
        parent < x.index() < nodes.len(),
    ensures
        preorder_list(nodes, seq![x], parent) == preorder(nodes, x.index()),
{
    assert(seq![x].drop_last().len() == 0);
    assert(preorder_list(nodes, seq![x].drop_last(), parent) == Seq::<NodeId>::empty());
}

pub proof fn lemma_preorder_list_parent(nodes: Seq<Node>, kids: Seq<NodeId>, p1: int, p2: int)
    requires
        forall|k: int| 0 <= k < kids.len() ==> p1 < (#[trigger] kids[k]).index() < nodes.len() && p2 < kids[k].index(),
    ensures
        preorder_list(nodes, kids, p1) == preorder_list(nodes, kids, p2),
    decreases kids.len(),
{
    if kids.len() > 0 {
        lemma_preorder_list_parent(nodes, kids.drop_last(), p1, p2);
        assert(kids.last() == kids[kids.len() - 1]);
    }
}

pub proof fn lemma_preorder_list_cons(nodes: Seq<Node>, x: NodeId, rest: Seq<NodeId>, parent: int)
    requires
        parent < x.index() < nodes.len(),
    ensures
        preorder_list(nodes, seq![x] + rest, parent) == preorder(nodes, x.index()) + preorder_list(nodes, rest, parent),
{
    lemma_preorder_list_append(nodes, seq![x], rest, parent);
    lemma_preorder_list_single(nodes, x, parent);
}

pub proof fn lemma_preorder_nonempty(nodes: Seq<Node>, i: int)
    ensures
        preorder(nodes, i).len() >= 1,
        preorder(nodes, i)[0] == NodeId(i as u32),
{
}

pub open spec fn counts_as_file(k: NodeKind) -> bool {
    k != NodeKind::Dir
}

/// Sum of the children's `size_total`.
pub open spec fn children_size_sum(nodes: Seq<Node>, kids: Seq<NodeId>) -> int
    decreases kids.len(),
{
    if kids.len() == 0 {
        0
    } else {
        children_size_sum(nodes, kids.drop_last()) + nodes[kids.last().index()].size_total
    }
}

/// A known allocation's byte count; zero for an unknown one.
pub open spec fn alloc_value(a: Option<u64>) -> int {
    match a {
        Some(v) => v as int,
        None => 0,
    }
}

/// Sum of the children's known `alloc_total`.
pub open spec fn children_alloc_sum(nodes: Seq<Node>, kids: Seq<NodeId>) -> int
    decreases kids.len(),
{
    if kids.len() == 0 {
        0
    } else {
        children_alloc_sum(nodes, kids.drop_last()) + alloc_value(nodes[kids.last().index()].alloc_total)
    }
}

/// Every child's `alloc_total` is known.
pub open spec fn children_alloc_known(nodes: Seq<Node>, kids: Seq<NodeId>) -> bool
    decreases kids.len(),
{
    if kids.len() == 0 {
        true
    } else {
        children_alloc_known(nodes, kids.drop_last()) && nodes[kids.last().index()].alloc_total is Some
    }
}

/// The allocated total of a node with these own bytes and children: known
/// only when its own allocation and every child's total are known.
pub open spec fn alloc_total_of(alloc_self: Option<u64>, nodes: Seq<Node>, kids: Seq<NodeId>) -> Option<u64> {
    if alloc_self is Some && children_alloc_known(nodes, kids) {
        Some(sat(alloc_value(alloc_self) + children_alloc_sum(nodes, kids)))
    } else {
        None
    }
}

/// Files below the children plus the children that are files or symlinks.
pub open spec fn children_file_sum(nodes: Seq<Node>, kids: Seq<NodeId>) -> int
    decreases kids.len(),
{
    if kids.len() == 0 {
        0
    } else {
        let c = nodes[kids.last().index()];
        children_file_sum(nodes, kids.drop_last()) + c.file_count + (if counts_as_file(c.kind) {
            1int
        } else {
            0int
        })
    }
}

/// Directories below the children plus the children that are directories.
pub open spec fn children_dir_sum(nodes: Seq<Node>, kids: Seq<NodeId>) -> int
    decreases kids.len(),
{
    if kids.len() == 0 {
        0
    } else {
        let c = nodes[kids.last().index()];
        children_dir_sum(nodes, kids.drop_last()) + c.dir_count + (if counts_as_file(c.kind) {
            0int
        } else {
            1int
        })
    }
}

/// Node `i`'s totals and counts are its own values plus those of its
/// children (saturating at `u64::MAX`).
pub open spec fn totals_ok(nodes: Seq<Node>, i: int) -> bool {
    let n = nodes[i];
    let kids = n.children@;
    &&& n.size_total == sat(n.size_self + children_size_sum(nodes, kids))
    &&& n.alloc_total == alloc_total_of(n.alloc_self, nodes, kids)
    &&& n.file_count == sat(children_file_sum(nodes, kids))
    &&& n.dir_count == sat(children_dir_sum(nodes, kids))
}

/// Every node's totals are consistent with its children.
pub open spec fn aggregated(nodes: Seq<Node>) -> bool {
    forall|i: int| 0 <= i < nodes.len() ==> #[trigger] totals_ok(nodes, i)
}

/// The two nodes agree on everything but the aggregated totals and counts.
pub open spec fn same_shape(a: Node, b: Node) -> bool {
    &&& a.name == b.name
    &&& a.name_lower == b.name_lower
    &&& a.kind == b.kind
    &&& a.size_self == b.size_self
    &&& a.alloc_self == b.alloc_self
    &&& a.mtime == b.mtime
    &&& a.owner == b.owner
    &&& a.parent == b.parent
    &&& a.children == b.children
}

/// The two nodes describe the same entry at the same place: they may
/// differ only in the aggregated totals and counts and in the order of
/// their children.
pub open spec fn same_entry(a: Node, b: Node) -> bool {
    &&& a.name == b.name
    &&& a.name_lower == b.name_lower
    &&& a.kind == b.kind
    &&& a.size_self == b.size_self
    &&& a.alloc_self == b.alloc_self
    &&& a.mtime == b.mtime
    &&& a.owner == b.owner
    &&& a.parent == b.parent
}

pub open spec fn same_shapes(a: Seq<Node>, b: Seq<Node>) -> bool {
    &&& a.len() == b.len()
    &&& forall|i: int| 0 <= i < a.len() ==> #[trigger] same_shape(a[i], b[i])
}

/// The aggregated fields of nodes `kids` agree in `a` and `b`.
pub open spec fn same_totals_on(a: Seq<Node>, b: Seq<Node>, kids: Seq<NodeId>) -> bool {
    forall|k: int|
        0 <= k < kids.len() ==> {
            let c = (#[trigger] kids[k]).index();
            &&& a[c].size_total == b[c].size_total
            &&& a[c].alloc_total == b[c].alloc_total
            &&& a[c].file_count == b[c].file_count
            &&& a[c].dir_count == b[c].dir_count
            &&& a[c].kind == b[c].kind
        }
}

pub proof fn lemma_sums_frame(a: Seq<Node>, b: Seq<Node>, kids: Seq<NodeId>)
    requires
        same_totals_on(a, b, kids),
    ensures
        children_size_sum(a, kids) == children_size_sum(b, kids),
        children_alloc_sum(a, kids) == children_alloc_sum(b, kids),
        children_alloc_known(a, kids) == children_alloc_known(b, kids),
        children_file_sum(a, kids) == children_file_sum(b, kids),
        children_dir_sum(a, kids) == children_dir_sum(b, kids),
    decreases kids.len(),
{
    if kids.len() > 0 {
        let d = kids.drop_last();
        assert forall|k: int| 0 <= k < d.len() implies {
            let c = (#[trigger] d[k]).index();
            &&& a[c].size_total == b[c].size_total
            &&& a[c].alloc_total == b[c].alloc_total
            &&& a[c].file_count == b[c].file_count
            &&& a[c].dir_count == b[c].dir_count
            &&& a[c].kind == b[c].kind
        } by {
            assert(d[k] == kids[k]);
        }
        lemma_sums_frame(a, b, d);
        assert(kids.last() == kids[kids.len() - 1]);
    }
}

pub proof fn lemma_sums_nonneg(a: Seq<Node>, kids: Seq<NodeId>)
    ensures
        children_size_sum(a, kids) >= 0,
        children_alloc_sum(a, kids) >= 0,
        children_file_sum(a, kids) >= 0,
        children_dir_sum(a, kids) >= 0,
    decreases kids.len(),
{
    if kids.len() > 0 {
        lemma_sums_nonneg(a, kids.drop_last());
    }
}

pub proof fn lemma_same_shapes_wf(a: Seq<Node>, b: Seq<Node>)
    requires
        tree_wf(a),
        same_shapes(a, b),
    ensures
        tree_wf(b),
{
    assert forall|i: int| 0 <= i < b.len() implies #[trigger] node_ok(b, i) by {
        assert(node_ok(a, i));
        assert(same_shape(a[i], b[i]));
        assert forall|k: int| 0 <= k < b[i].children@.len() implies i < (#[trigger] b[i].children@[k]).index() < b.len()
            && b[b[i].children@[k].index()].parent == Some(NodeId(i as u32)) by {
            let c = a[i].children@[k].index();
            assert(same_shape(a[c], b[c]));
        }
        assert forall|j: int| 0 < j < b.len() && #[trigger] b[j].parent == Some(NodeId(i as u32))
            implies b[i].children@.contains(NodeId(j as u32)) by {
            assert(same_shape(a[j], b[j]));
        }
    }
}

/// Two well-formed arenas of the same shape whose totals are both
/// consistent agree on every node: the aggregated totals are uniquely
/// determined by the shape and the nodes' own sizes.
pub proof fn lemma_aggregated_unique(a: Seq<Node>, b: Seq<Node>)
    requires
        tree_wf(a),
        same_shapes(a, b),
        aggregated(a),
        aggregated(b),
    ensures
        a == b,
{
    lemma_aggregated_unique_from(a, b, 0);
    assert forall|i: int| 0 <= i < a.len() implies a[i] == b[i] by {
        assert(same_shape(a[i], b[i]));
    }
    assert(a =~= b);
}

proof fn lemma_aggregated_unique_from(a: Seq<Node>, b: Seq<Node>, i: int)
    requires
        tree_wf(a),
        same_shapes(a, b),
        aggregated(a),
        aggregated(b),
        0 <= i,
    ensures
        forall|j: int|
            i <= j < a.len() ==> {
                &&& (#[trigger] a[j]).size_total == b[j].size_total
                &&& a[j].alloc_total == b[j].alloc_total
                &&& a[j].file_count == b[j].file_count
                &&& a[j].dir_count == b[j].dir_count
            },
    decreases a.len() - i,
{
    if i < a.len() {
        lemma_aggregated_unique_from(a, b, i + 1);
        assert(node_ok(a, i));
        assert(same_shape(a[i], b[i]));
        let kids = a[i].children@;
        assert forall|k: int| 0 <= k < kids.len() implies {
            let c = (#[trigger] kids[k]).index();
            &&& a[c].size_total == b[c].size_total
            &&& a[c].alloc_total == b[c].alloc_total
            &&& a[c].file_count == b[c].file_count
            &&& a[c].dir_count == b[c].dir_count
            &&& a[c].kind == b[c].kind
        } by {
            let c = kids[k].index();
            assert(i + 1 <= c < a.len());
            assert(a[c].size_total == b[c].size_total);
            assert(same_shape(a[c], b[c]));
        }
        lemma_sums_frame(a, b, kids);
        assert(totals_ok(a, i));
        assert(totals_ok(b, i));
        assert forall|j: int| i <= j < a.len() implies {
            &&& (#[trigger] a[j]).size_total == b[j].size_total
            &&& a[j].alloc_total == b[j].alloc_total
            &&& a[j].file_count == b[j].file_count
            &&& a[j].dir_count == b[j].dir_count
        } by {
            if j > i {
                assert(a[j].size_total == b[j].size_total);
            }
        }
    }
}

/// Sum of the own sizes of the nodes `s`.
pub open spec fn own_size_sum(nodes: Seq<Node>, s: Seq<NodeId>) -> int
    decreases s.len(),
{
    if s.len() == 0 {
        0
    } else {
        own_size_sum(nodes, s.drop_last()) + nodes[s.last().index()].size_self
    }
}

/// How many of the nodes `s` are files or symlinks.
pub open spec fn file_entries(nodes: Seq<Node>, s: Seq<NodeId>) -> int
    decreases s.len(),
{
    if s.len() == 0 {
        0
    } else {
        file_entries(nodes, s.drop_last()) + if counts_as_file(nodes[s.last().index()].kind) {
            1int
        } else {
            0int
        }
    }
}

/// How many of the nodes `s` are directories.
pub open spec fn dir_entries(nodes: Seq<Node>, s: Seq<NodeId>) -> int
    decreases s.len(),
{
    if s.len() == 0 {
        0
    } else {
        dir_entries(nodes, s.drop_last()) + if counts_as_file(nodes[s.last().index()].kind) {
            0int
        } else {
            1int
        }
    }
}

proof fn lemma_entry_sums_append(nodes: Seq<Node>, a: Seq<NodeId>, b: Seq<NodeId>)
    ensures
        own_size_sum(nodes, a + b) == own_size_sum(nodes, a) + own_size_sum(nodes, b),
        file_entries(nodes, a + b) == file_entries(nodes, a) + file_entries(nodes, b),
        dir_entries(nodes, a + b) == dir_entries(nodes, a) + dir_entries(nodes, b),
    decreases b.len(),
{
    if b.len() == 0 {
        assert(a + b == a);
    } else {
        lemma_entry_sums_append(nodes, a, b.drop_last());
        assert((a + b).drop_last() == a + b.drop_last());
        assert((a + b).last() == b.last());
    }
}

proof fn lemma_entry_sums_empty(nodes: Seq<Node>)
    ensures
        own_size_sum(nodes, Seq::<NodeId>::empty()) == 0,
        file_entries(nodes, Seq::<NodeId>::empty()) == 0,
        dir_entries(nodes, Seq::<NodeId>::empty()) == 0,
{
}

proof fn lemma_entry_sums_nonneg(nodes: Seq<Node>, s: Seq<NodeId>)
    ensures
        own_size_sum(nodes, s) >= 0,
        file_entries(nodes, s) >= 0,
        dir_entries(nodes, s) >= 0,
    decreases s.len(),
{
    if s.len() > 0 {
        lemma_entry_sums_nonneg(nodes, s.drop_last());
    }
}

/// In an aggregated tree, a node's total is the sum of the own sizes over
/// its whole subtree, and its counts are the numbers of files and of
/// directories below it, as long as these fit in a `u64`.
pub proof fn lemma_totals_are_subtree_sums(nodes: Seq<Node>, i: int)
    requires
        tree_wf(nodes),
        aggregated(nodes),
        0 <= i < nodes.len(),
        own_size_sum(nodes, preorder(nodes, i)) <= u64::MAX,
        file_entries(nodes, preorder(nodes, i)) <= u64::MAX,
        dir_entries(nodes, preorder(nodes, i)) <= u64::MAX,
    ensures
        nodes[i].size_total == own_size_sum(nodes, preorder(nodes, i)),
        nodes[i].file_count == file_entries(nodes, preorder(nodes, i).drop_first()),
        nodes[i].dir_count == dir_entries(nodes, preorder(nodes, i).drop_first()),
    decreases nodes.len() - i, 1int, 0int,
{
    let kids = nodes[i].children@;
    let below = preorder_list(nodes, kids, i);
    let me = seq![NodeId(i as u32)];
    assert(preorder(nodes, i) == me + below);
    assert(preorder(nodes, i).drop_first() == below);
    lemma_entry_sums_append(nodes, me, below);
    assert(me.drop_last() == Seq::<NodeId>::empty());
    assert(me.last() == NodeId(i as u32));
    assert(me.last().index() == i);
    lemma_entry_sums_empty(nodes);
    assert(own_size_sum(nodes, me) == nodes[i].size_self);
    assert(file_entries(nodes, me) == (if counts_as_file(nodes[i].kind) { 1int } else { 0int }));
    assert(dir_entries(nodes, me) == (if counts_as_file(nodes[i].kind) { 0int } else { 1int }));
    lemma_entry_sums_nonneg(nodes, below);
    lemma_entry_sums_nonneg(nodes, me);
    assert(node_ok(nodes, i));
    assert(totals_ok(nodes, i));
    lemma_subtree_list_sums(nodes, kids, i);
}

proof fn lemma_subtree_list_sums(nodes: Seq<Node>, kids: Seq<NodeId>, parent: int)
    requires
        tree_wf(nodes),
        aggregated(nodes),
        0 <= parent,
        forall|k: int| 0 <= k < kids.len() ==> parent < (#[trigger] kids[k]).index() < nodes.len(),
        own_size_sum(nodes, preorder_list(nodes, kids, parent)) <= u64::MAX,
        file_entries(nodes, preorder_list(nodes, kids, parent)) <= u64::MAX,
        dir_entries(nodes, preorder_list(nodes, kids, parent)) <= u64::MAX,
    ensures
        children_size_sum(nodes, kids) == own_size_sum(nodes, preorder_list(nodes, kids, parent)),
        children_file_sum(nodes, kids) == file_entries(nodes, preorder_list(nodes, kids, parent)),
        children_dir_sum(nodes, kids) == dir_entries(nodes, preorder_list(nodes, kids, parent)),
    decreases nodes.len() - parent, 0int, kids.len(),
{
    if kids.len() > 0 {
        let d = kids.drop_last();
        let last = kids.last();
        let k = last.index();
        assert(last == kids[kids.len() - 1]);
        assert forall|m: int| 0 <= m < d.len() implies parent < (#[trigger] d[m]).index() < nodes.len() by {
            assert(d[m] == kids[m]);
        }
        let front = preorder_list(nodes, d, parent);
        let sub = preorder(nodes, k);
        assert(preorder_list(nodes, kids, parent) == front + sub);
        lemma_entry_sums_append(nodes, front, sub);
        lemma_entry_sums_nonneg(nodes, front);
        lemma_entry_sums_nonneg(nodes, sub);
        lemma_subtree_list_sums(nodes, d, parent);
        lemma_totals_are_subtree_sums(nodes, k);
        let me = seq![last];
        let rest = preorder_list(nodes, nodes[k].children@, k);
        assert(sub == me + rest);
        assert(sub.drop_first() == rest);
        lemma_entry_sums_append(nodes, me, rest);
        assert(me.drop_last() == Seq::<NodeId>::empty());
        assert(me.last() == last);
        lemma_entry_sums_empty(nodes);
        assert(own_size_sum(nodes, me) == nodes[k].size_self);
        assert(file_entries(nodes, me) == (if counts_as_file(nodes[k].kind) { 1int } else { 0int }));
        assert(dir_entries(nodes, me) == (if counts_as_file(nodes[k].kind) { 0int } else { 1int }));
        lemma_entry_sums_nonneg(nodes, rest);
    }
}

/// Known children's allocations mean every child's allocation is known.
proof fn lemma_alloc_known_each(nodes: Seq<Node>, kids: Seq<NodeId>, k: int)
    requires
        children_alloc_known(nodes, kids),
        0 <= k < kids.len(),
    ensures
        nodes[kids[k].index()].alloc_total is Some,
    decreases kids.len(),
{
    if k < kids.len() - 1 {
        assert(kids.drop_last()[k] == kids[k]);
        lemma_alloc_known_each(nodes, kids.drop_last(), k);
    }
}

/// In an aggregated tree an unknown allocated size makes its parent's
/// total unknown, and so every total above it.
pub proof fn lemma_unknown_alloc_propagates(nodes: Seq<Node>, i: int, k: int)
    requires
        aggregated(nodes),
        0 <= i < nodes.len(),
        0 <= k < nodes[i].children@.len(),
        nodes[nodes[i].children@[k].index()].alloc_total is None,
    ensures
        nodes[i].alloc_total is None,
{
    assert(totals_ok(nodes, i));
    if children_alloc_known(nodes, nodes[i].children@) {
        lemma_alloc_known_each(nodes, nodes[i].children@, k);
    }
}

/// How many of the nodes `kids` are of kind `k`.
pub open spec fn count_of_kind(nodes: Seq<Node>, kids: Seq<NodeId>, k: NodeKind) -> int
    decreases kids.len(),
{
    if kids.len() == 0 {
        0
    } else {
        count_of_kind(nodes, kids.drop_last(), k) + if nodes[kids.last().index()].kind == k {
            1int
        } else {
            0int
        }
    }
}

/// Sum of the nodes' `file_count`.
pub open spec fn sum_of_file_counts(nodes: Seq<Node>, kids: Seq<NodeId>) -> int
    decreases kids.len(),
{
    if kids.len() == 0 {
        0
    } else {
        sum_of_file_counts(nodes, kids.drop_last()) + nodes[kids.last().index()].file_count
    }
}

/// Sum of the nodes' `dir_count`.
pub open spec fn sum_of_dir_counts(nodes: Seq<Node>, kids: Seq<NodeId>) -> int
    decreases kids.len(),
{
    if kids.len() == 0 {
        0
    } else {
        sum_of_dir_counts(nodes, kids.drop_last()) + nodes[kids.last().index()].dir_count
    }
}

proof fn lemma_child_counts_by_kind(nodes: Seq<Node>, kids: Seq<NodeId>)
    ensures
        children_file_sum(nodes, kids) == sum_of_file_counts(nodes, kids) + count_of_kind(nodes, kids, NodeKind::File)
            + count_of_kind(nodes, kids, NodeKind::Symlink),
        children_dir_sum(nodes, kids) == sum_of_dir_counts(nodes, kids) + count_of_kind(nodes, kids, NodeKind::Dir),
    decreases kids.len(),
{
    if kids.len() > 0 {
        lemma_child_counts_by_kind(nodes, kids.drop_last());
    }
}

/// After aggregation a node's counts go by the kinds of its children:
/// each child brings its own counts, plus one file when it is a file or a
/// symlink and one directory when it is a directory (saturating at
/// `u64::MAX`).
pub proof fn lemma_counts_go_by_kind(nodes: Seq<Node>, i: int)
    requires
        aggregated(nodes),
        0 <= i < nodes.len(),
    ensures
        nodes[i].file_count == sat(
            sum_of_file_counts(nodes, nodes[i].children@) + count_of_kind(nodes, nodes[i].children@, NodeKind::File)
                + count_of_kind(nodes, nodes[i].children@, NodeKind::Symlink),
        ),
        nodes[i].dir_count == sat(
            sum_of_dir_counts(nodes, nodes[i].children@) + count_of_kind(nodes, nodes[i].children@, NodeKind::Dir),
        ),
{
    assert(totals_ok(nodes, i));
    lemma_child_counts_by_kind(nodes, nodes[i].children@);
}

proof fn lemma_child_sums_cover_each(nodes: Seq<Node>, kids: Seq<NodeId>, k: int)
    requires
        0 <= k < kids.len(),
    ensures
        children_size_sum(nodes, kids) >= nodes[kids[k].index()].size_total,
        children_alloc_sum(nodes, kids) >= alloc_value(nodes[kids[k].index()].alloc_total),
    decreases kids.len(),
{
    lemma_sums_nonneg(nodes, kids.drop_last());
    if k < kids.len() - 1 {
        assert(kids.drop_last()[k] == kids[k]);
        lemma_child_sums_cover_each(nodes, kids.drop_last(), k);
    }
}

proof fn lemma_alloc_known_all(nodes: Seq<Node>, kids: Seq<NodeId>)
    requires
        forall|k: int| 0 <= k < kids.len() ==> (#[trigger] nodes[kids[k].index()]).alloc_total is Some,
    ensures
        children_alloc_known(nodes, kids),
    decreases kids.len(),
{
    if kids.len() > 0 {
        let d = kids.drop_last();
        assert forall|k: int| 0 <= k < d.len() implies (#[trigger] nodes[d[k].index()]).alloc_total is Some by {
            assert(d[k] == kids[k]);
        }
        lemma_alloc_known_all(nodes, d);
        assert(kids.last() == kids[kids.len() - 1]);
    }
}

/// After aggregation a node's totals take in its own values and every
/// child's: a childless node's totals are its own values and its counts
/// zero; a size total is at least the node's own size and each child's
/// total; an allocated total is known exactly when the node's own
/// allocation and every child's total are known, and then it is at least
/// each of them.
pub proof fn lemma_totals_take_in_their_parts(nodes: Seq<Node>, i: int, k: int)
    requires
        aggregated(nodes),
        0 <= i < nodes.len(),
    ensures
        nodes[i].children@.len() == 0 ==> nodes[i].size_total == nodes[i].size_self && nodes[i].alloc_total
            == nodes[i].alloc_self && nodes[i].file_count == 0 && nodes[i].dir_count == 0,
        nodes[i].size_total >= nodes[i].size_self,
        0 <= k < nodes[i].children@.len() ==> nodes[i].size_total >= nodes[nodes[i].children@[k].index()].size_total,
        nodes[i].alloc_total is Some <==> (nodes[i].alloc_self is Some && forall|j: int|
            0 <= j < nodes[i].children@.len() ==> (#[trigger] nodes[nodes[i].children@[j].index()]).alloc_total is Some),
        nodes[i].alloc_total is Some ==> nodes[i].alloc_self->0 <= nodes[i].alloc_total->0,
        nodes[i].alloc_total is Some && 0 <= k < nodes[i].children@.len() ==> nodes[nodes[i].children@[k].index()].alloc_total->0
            <= nodes[i].alloc_total->0,
{
    let kids = nodes[i].children@;
    assert(totals_ok(nodes, i));
    lemma_sums_nonneg(nodes, kids);
    if 0 <= k < kids.len() {
        lemma_child_sums_cover_each(nodes, kids, k);
    }
    if nodes[i].alloc_total is Some {
        assert forall|j: int| 0 <= j < kids.len() implies (#[trigger] nodes[kids[j].index()]).alloc_total is Some by {
            lemma_alloc_known_each(nodes, kids, j);
        }
        if 0 <= k < kids.len() {
            lemma_alloc_known_each(nodes, kids, k);
        }
    }
    if nodes[i].alloc_self is Some && forall|j: int|
        0 <= j < kids.len() ==> (#[trigger] nodes[kids[j].index()]).alloc_total is Some {
        lemma_alloc_known_all(nodes, kids);
    }
    if kids.len() == 0 {
        assert(children_size_sum(nodes, kids) == 0);
        assert(children_alloc_sum(nodes, kids) == 0);
        assert(children_alloc_known(nodes, kids));
    }
}

/// Distance from node `i` to the root, following parent links.
pub open spec fn node_depth(nodes: Seq<Node>, i: int) -> int
    decreases i,
{
    if i <= 0 {
        0
    } else {
        match nodes[i].parent {
            Some(p) => if 0 <= p.index() < i {
                node_depth(nodes, p.index()) + 1
            } else {
                0
            },
            None => 0,
        }
    }
}

/// Every node's depth fits in a `u16`.
pub open spec fn depth_bounded(nodes: Seq<Node>) -> bool {
    forall|i: int| 0 <= i < nodes.len() ==> #[trigger] node_depth(nodes, i) <= u16::MAX
}

pub proof fn lemma_preorder_list_contains(nodes: Seq<Node>, kids: Seq<NodeId>, parent: int, x: NodeId)
    requires
        forall|k: int| 0 <= k < kids.len() ==> parent < (#[trigger] kids[k]).index() < nodes.len(),
    ensures
        preorder_list(nodes, kids, parent).contains(x) <==> exists|k: int|
            0 <= k < kids.len() && #[trigger] preorder(nodes, kids[k].index()).contains(x),
    decreases kids.len(),
{
    if kids.len() > 0 {
        let d = kids.drop_last();
        lemma_preorder_list_contains(nodes, d, parent, x);
        let a = preorder_list(nodes, d, parent);
        let last = kids[kids.len() - 1];
        assert(kids.last() == last);
        let b = preorder(nodes, last.index());
        assert(preorder_list(nodes, kids, parent) == a + b);
        if (a + b).contains(x) {
            let m = choose|m: int| 0 <= m < (a + b).len() && (a + b)[m] == x;
            if m < a.len() {
                assert(a[m] == x);
                assert(a.contains(x));
                let k = choose|k: int| 0 <= k < d.len() && #[trigger] preorder(nodes, d[k].index()).contains(x);
                assert(d[k] == kids[k]);
            } else {
                assert(b[m - a.len()] == x);
                assert(b.contains(x));
            }
        }
        if exists|k: int| 0 <= k < kids.len() && #[trigger] preorder(nodes, kids[k].index()).contains(x) {
            let k = choose|k: int| 0 <= k < kids.len() && #[trigger] preorder(nodes, kids[k].index()).contains(x);
            if k < d.len() {
                assert(d[k] == kids[k]);
                assert(a.contains(x));
                let m = choose|m: int| 0 <= m < a.len() && a[m] == x;
                assert((a + b)[m] == x);
            } else {
                let m = choose|m: int| 0 <= m < b.len() && b[m] == x;
                assert((a + b)[a.len() + m] == x);
            }
        }
    }
}

proof fn lemma_preorder_step(nodes: Seq<Node>, a: int, x: NodeId)
    requires
        tree_wf(nodes),
        0 <= a < nodes.len(),
        preorder(nodes, a).contains(x),
        x != NodeId(a as u32),
    ensures
        exists|k: int|
            0 <= k < nodes[a].children@.len() && #[trigger] preorder(nodes, nodes[a].children@[k].index()).contains(x),
{
    let kids = nodes[a].children@;
    assert(node_ok(nodes, a));
    let below = preorder_list(nodes, kids, a);
    assert(preorder(nodes, a) == seq![NodeId(a as u32)] + below);
    let m = choose|m: int| 0 <= m < preorder(nodes, a).len() && preorder(nodes, a)[m] == x;
    assert(m > 0);
    assert(below[m - 1] == x);
    assert(below.contains(x));
    lemma_preorder_list_contains(nodes, kids, a, x);
}

/// Subtrees nest: what lies below a node of `a`'s subtree lies in `a`'s
/// subtree.
proof fn lemma_preorder_trans(nodes: Seq<Node>, a: int, x: NodeId, y: NodeId)
    requires
        tree_wf(nodes),
        0 <= a < nodes.len(),
        preorder(nodes, a).contains(x),
        preorder(nodes, x.index()).contains(y),
    ensures
        preorder(nodes, a).contains(y),
    decreases nodes.len() - a,
{
    if x != NodeId(a as u32) {
        lemma_preorder_step(nodes, a, x);
        let kids = nodes[a].children@;
        let k = choose|k: int| 0 <= k < kids.len() && #[trigger] preorder(nodes, kids[k].index()).contains(x);
        let c = kids[k].index();
        assert(node_ok(nodes, a));
        lemma_preorder_trans(nodes, c, x, y);
        lemma_preorder_list_contains(nodes, kids, a, y);
        let below = preorder_list(nodes, kids, a);
        assert(preorder(nodes, a) == seq![NodeId(a as u32)] + below);
        let m = choose|m: int| 0 <= m < below.len() && below[m] == y;
        assert(preorder(nodes, a)[m + 1] == y);
    }
}

/// Every node lies in the root's subtree: the root and its descendants are
/// the whole arena.
pub proof fn lemma_root_reaches_every_node(nodes: Seq<Node>, j: int)
    requires
        tree_wf(nodes),
        0 <= j < nodes.len(),
    ensures
        preorder(nodes, 0).contains(NodeId(j as u32)),
    decreases j,
{
    lemma_preorder_nonempty(nodes, j);
    assert(preorder(nodes, j)[0] == NodeId(j as u32));
    if j > 0 {
        assert(node_ok(nodes, j));
        let p = nodes[j].parent->0;
        let pi = p.index();
        lemma_root_reaches_every_node(nodes, pi);
        assert(NodeId(pi as u32) == p);
        assert(node_ok(nodes, pi));
        let kids = nodes[pi].children@;
        assert(kids.contains(NodeId(j as u32)));
        let k = choose|k: int| 0 <= k < kids.len() && kids[k] == NodeId(j as u32);
        assert(preorder(nodes, kids[k].index()).contains(NodeId(j as u32)));
        lemma_preorder_list_contains(nodes, kids, pi, NodeId(j as u32));
        let below = preorder_list(nodes, kids, pi);
        let m = choose|m: int| 0 <= m < below.len() && below[m] == NodeId(j as u32);
        assert(preorder(nodes, pi) == seq![NodeId(pi as u32)] + below);
        assert(preorder(nodes, pi)[m + 1] == NodeId(j as u32));
        lemma_preorder_trans(nodes, 0, p, NodeId(j as u32));
    }
}

/// Node `c` lies on the chain of parents from node `y` (or is `y`).
pub open spec fn on_parent_chain(nodes: Seq<Node>, y: int, c: int) -> bool
    decreases y,
{
    if y == c {
        true
    } else if y <= 0 {
        false
    } else {
        match nodes[y].parent {
            Some(p) => 0 <= p.index() < y && on_parent_chain(nodes, p.index(), c),
            None => false,
        }
    }
}

proof fn lemma_chain_below(nodes: Seq<Node>, y: int, c: int)
    requires
        on_parent_chain(nodes, y, c),
    ensures
        c <= y,
    decreases y,
{
    if y != c && y > 0 {
        if let Some(p) = nodes[y].parent {
            lemma_chain_below(nodes, p.index(), c);
        }
    }
}

proof fn lemma_chain_extend(nodes: Seq<Node>, y: int, k: int, c: int)
    requires
        on_parent_chain(nodes, y, k),
        0 <= c < k,
        nodes[k].parent == Some(NodeId(c as u32)),
        c <= u32::MAX,
    ensures
        on_parent_chain(nodes, y, c),
    decreases y,
{
    if y == k {
        assert(NodeId(c as u32).index() == c);
        assert(on_parent_chain(nodes, c, c));
    } else {
        lemma_chain_below(nodes, y, k);
        let p = nodes[y].parent->0;
        lemma_chain_extend(nodes, p.index(), k, c);
    }
}

/// Everything in a node's subtree has that node on its chain of parents.
proof fn lemma_preorder_chain(nodes: Seq<Node>, c: int, y: NodeId)
    requires
        tree_wf(nodes),
        0 <= c < nodes.len(),
        preorder(nodes, c).contains(y),
    ensures
        on_parent_chain(nodes, y.index(), c),
        y.index() < nodes.len(),
    decreases nodes.len() - c,
{
    if y == NodeId(c as u32) {
        assert(y.index() == c);
    } else {
        lemma_preorder_step(nodes, c, y);
        let kids = nodes[c].children@;
        let k = choose|k: int| 0 <= k < kids.len() && #[trigger] preorder(nodes, kids[k].index()).contains(y);
        assert(node_ok(nodes, c));
        let ki = kids[k].index();
        lemma_preorder_chain(nodes, ki, y);
        lemma_chain_extend(nodes, y.index(), ki, c);
    }
}

/// Two siblings cannot both lie on one chain of parents.
proof fn lemma_chain_siblings(nodes: Seq<Node>, y: int, c1: int, c2: int, p: NodeId)
    requires
        tree_wf(nodes),
        0 <= y < nodes.len(),
        0 <= c1 < nodes.len(),
        0 <= c2 < nodes.len(),
        on_parent_chain(nodes, y, c1),
        on_parent_chain(nodes, y, c2),
        nodes[c1].parent == Some(p),
        nodes[c2].parent == Some(p),
    ensures
        c1 == c2,
    decreases y,
{
    assert(node_ok(nodes, c1));
    assert(node_ok(nodes, c2));
    if y == c1 {
        if y != c2 {
            lemma_chain_below(nodes, p.index(), c2);
        }
    } else if y == c2 {
        lemma_chain_below(nodes, p.index(), c1);
    } else {
        assert(node_ok(nodes, y));
        let q = nodes[y].parent->0;
        lemma_chain_siblings(nodes, q.index(), c1, c2, p);
    }
}

/// Every node of a subtree has an index at least that of the subtree's root.
proof fn lemma_preorder_above(nodes: Seq<Node>, c: int, y: NodeId)
    requires
        tree_wf(nodes),
        0 <= c < nodes.len(),
        preorder(nodes, c).contains(y),
    ensures
        c <= y.index(),
{
    lemma_preorder_chain(nodes, c, y);
    lemma_chain_below(nodes, y.index(), c);
}

/// A pre-order listing names each node of the subtree once.
pub proof fn lemma_preorder_no_duplicates(nodes: Seq<Node>, i: int)
    requires
        tree_wf(nodes),
        0 <= i < nodes.len(),
    ensures
        preorder(nodes, i).no_duplicates(),
    decreases nodes.len() - i, 1int, 0int,
{
    let kids = nodes[i].children@;
    assert(node_ok(nodes, i));
    lemma_preorder_list_no_duplicates(nodes, kids, i);
    let below = preorder_list(nodes, kids, i);
    let me = NodeId(i as u32);
    let all = preorder(nodes, i);
    assert(all == seq![me] + below);
    assert(!below.contains(me)) by {
        if below.contains(me) {
            lemma_preorder_list_contains(nodes, kids, i, me);
            let k = choose|k: int| 0 <= k < kids.len() && #[trigger] preorder(nodes, kids[k].index()).contains(me);
            lemma_preorder_above(nodes, kids[k].index(), me);
        }
    }
    assert forall|a: int, b: int| 0 <= a < all.len() && 0 <= b < all.len() && a != b implies all[a] != all[b] by {
        if a == 0 {
            assert(all[b] == below[b - 1]);
            assert(below.contains(all[b]));
        } else if b == 0 {
            assert(all[a] == below[a - 1]);
            assert(below.contains(all[a]));
        } else {
            assert(all[a] == below[a - 1] && all[b] == below[b - 1]);
        }
    }
}

proof fn lemma_preorder_list_no_duplicates(nodes: Seq<Node>, kids: Seq<NodeId>, parent: int)
    requires
        tree_wf(nodes),
        0 <= parent < nodes.len(),
        kids.no_duplicates(),
        forall|k: int| 0 <= k < kids.len() ==> parent < (#[trigger] kids[k]).index() < nodes.len()
            && nodes[kids[k].index()].parent == Some(NodeId(parent as u32)),
    ensures
        preorder_list(nodes, kids, parent).no_duplicates(),
    decreases nodes.len() - parent, 0int, kids.len(),
{
    if kids.len() > 0 {
        let d = kids.drop_last();
        let last = kids.last();
        assert(last == kids[kids.len() - 1]);
        assert forall|m: int| 0 <= m < d.len() implies parent < (#[trigger] d[m]).index() < nodes.len()
            && nodes[d[m].index()].parent == Some(NodeId(parent as u32)) by {
            assert(d[m] == kids[m]);
        }
        assert(d.no_duplicates()) by {
            assert forall|a: int, b: int| 0 <= a < d.len() && 0 <= b < d.len() && a != b implies d[a] != d[b] by {
                assert(d[a] == kids[a] && d[b] == kids[b]);
            }
        }
        lemma_preorder_list_no_duplicates(nodes, d, parent);
        lemma_preorder_no_duplicates(nodes, last.index());
        let front = preorder_list(nodes, d, parent);
        let sub = preorder(nodes, last.index());
        let all = preorder_list(nodes, kids, parent);
        assert(all == front + sub);
        assert forall|y: NodeId| front.contains(y) implies !sub.contains(y) by {
            if sub.contains(y) {
                lemma_preorder_list_contains(nodes, d, parent, y);
                let k = choose|k: int| 0 <= k < d.len() && #[trigger] preorder(nodes, d[k].index()).contains(y);
                lemma_preorder_chain(nodes, d[k].index(), y);
                lemma_preorder_chain(nodes, last.index(), y);
                lemma_preorder_above(nodes, last.index(), y);
                lemma_chain_siblings(nodes, y.index(), d[k].index(), last.index(), NodeId(parent as u32));
                assert(d[k] == kids[k]);
                assert(kids[k].index() == kids[kids.len() - 1].index());
                assert(kids[k] == kids[kids.len() - 1]);
            }
        }
        assert forall|a: int, b: int| 0 <= a < all.len() && 0 <= b < all.len() && a != b implies all[a] != all[b] by {
            if a < front.len() && b < front.len() {
                assert(all[a] == front[a] && all[b] == front[b]);
            } else if a >= front.len() && b >= front.len() {
                assert(all[a] == sub[a - front.len()] && all[b] == sub[b - front.len()]);
            } else if a < front.len() {
                assert(all[a] == front[a]);
                assert(front.contains(front[a]));
                assert(all[b] == sub[b - front.len()]);
                assert(sub.contains(all[b]));
            } else {
                assert(all[b] == front[b]);
                assert(front.contains(front[b]));
                assert(all[a] == sub[a - front.len()]);
                assert(sub.contains(all[a]));
            }
        }
    }
}

/// The ids of all nodes of an arena of `n` nodes, in index order.
pub open spec fn all_ids(n: nat) -> Seq<NodeId> {
    Seq::new(n, |i: int| NodeId(i as u32))
}

proof fn lemma_entry_sums_remove(nodes: Seq<Node>, s: Seq<NodeId>, k: int)
    requires
        0 <= k < s.len(),
    ensures
        own_size_sum(nodes, s) == own_size_sum(nodes, s.remove(k)) + own_size_sum(nodes, seq![s[k]]),
        file_entries(nodes, s) == file_entries(nodes, s.remove(k)) + file_entries(nodes, seq![s[k]]),
        dir_entries(nodes, s) == dir_entries(nodes, s.remove(k)) + dir_entries(nodes, seq![s[k]]),
{
    let a = s.subrange(0, k);
    let b = s.subrange(k + 1, s.len() as int);
    let x = seq![s[k]];
    assert(s == a + x + b);
    assert(s.remove(k) == a + b);
    lemma_entry_sums_append(nodes, a + x, b);
    lemma_entry_sums_append(nodes, a, x);
    lemma_entry_sums_append(nodes, a, b);
}

/// Sums over two duplicate-free sequences of the same ids agree.
proof fn lemma_entry_sums_permutation(nodes: Seq<Node>, s: Seq<NodeId>, t: Seq<NodeId>)
    requires
        s.no_duplicates(),
        t.no_duplicates(),
        forall|y: NodeId| s.contains(y) <==> t.contains(y),
    ensures
        own_size_sum(nodes, s) == own_size_sum(nodes, t),
        file_entries(nodes, s) == file_entries(nodes, t),
        dir_entries(nodes, s) == dir_entries(nodes, t),
    decreases t.len(),
{
    if t.len() == 0 {
        if s.len() > 0 {
            assert(s.contains(s[0]));
        }
        assert(s =~= t);
    } else {
        let x = t.last();
        let t2 = t.drop_last();
        assert(t.contains(x)) by {
            assert(t[t.len() - 1] == x);
        }
        let k = choose|k: int| 0 <= k < s.len() && s[k] == x;
        let s2 = s.remove(k);
        assert(s2.no_duplicates()) by {
            assert forall|a: int, b: int| 0 <= a < s2.len() && 0 <= b < s2.len() && a != b implies s2[a] != s2[b] by {
                let a1 = if a < k { a } else { a + 1 };
                let b1 = if b < k { b } else { b + 1 };
                assert(s2[a] == s[a1] && s2[b] == s[b1]);
            }
        }
        assert(t2.no_duplicates()) by {
            assert forall|a: int, b: int| 0 <= a < t2.len() && 0 <= b < t2.len() && a != b implies t2[a] != t2[b] by {
                assert(t2[a] == t[a] && t2[b] == t[b]);
            }
        }
        assert forall|y: NodeId| s2.contains(y) <==> t2.contains(y) by {
            if s2.contains(y) {
                let m = choose|m: int| 0 <= m < s2.len() && s2[m] == y;
                let m1 = if m < k { m } else { m + 1 };
                assert(s[m1] == y);
                assert(s.contains(y));
                assert(y != x);
                let n = choose|n: int| 0 <= n < t.len() && t[n] == y;
                assert(n != t.len() - 1);
                assert(t2[n] == y);
            }
            if t2.contains(y) {
                let n = choose|n: int| 0 <= n < t2.len() && t2[n] == y;
                assert(t[n] == y);
                assert(t.contains(y));
                assert(y != x);
                let m = choose|m: int| 0 <= m < s.len() && s[m] == y;
                assert(m != k);
                let m2 = if m < k { m } else { m - 1 };
                assert(s2[m2] == y);
            }
        }
        lemma_entry_sums_permutation(nodes, s2, t2);
        lemma_entry_sums_remove(nodes, s, k);
        lemma_entry_sums_append(nodes, t2, seq![x]);
        assert(t2 + seq![x] == t);
    }
}

/// In an aggregated tree the root's total is the sum of the own sizes of
/// all nodes, and its counts are the numbers of files and of directories
/// among all other nodes, as long as these fit in a `u64`.
pub proof fn lemma_root_totals_cover_the_arena(nodes: Seq<Node>)
    requires
        tree_wf(nodes),
        aggregated(nodes),
        nodes.len() > 0,
        own_size_sum(nodes, all_ids(nodes.len())) <= u64::MAX,
        file_entries(nodes, all_ids(nodes.len())) <= u64::MAX,
        dir_entries(nodes, all_ids(nodes.len())) <= u64::MAX,
    ensures
        nodes[0].size_total == own_size_sum(nodes, all_ids(nodes.len())),
        nodes[0].file_count == file_entries(nodes, all_ids(nodes.len()).drop_first()),
        nodes[0].dir_count == dir_entries(nodes, all_ids(nodes.len()).drop_first()),
{
    let n = nodes.len();
    let all = all_ids(n);
    let pre = preorder(nodes, 0);
    lemma_preorder_no_duplicates(nodes, 0);
    assert(all.no_duplicates()) by {
        assert forall|a: int, b: int| 0 <= a < all.len() && 0 <= b < all.len() && a != b implies all[a] != all[b] by {
            assert(all[a].index() == a && all[b].index() == b);
        }
    }
    assert forall|y: NodeId| pre.contains(y) <==> all.contains(y) by {
        if pre.contains(y) {
            lemma_preorder_chain(nodes, 0, y);
            assert(all[y.index()] == y);
        }
        if all.contains(y) {
            let j = choose|j: int| 0 <= j < all.len() && all[j] == y;
            lemma_root_reaches_every_node(nodes, j);
        }
    }
    lemma_entry_sums_permutation(nodes, pre, all);
    lemma_preorder_nonempty(nodes, 0);
    let pre1 = pre.drop_first();
    let all1 = all.drop_first();
    assert(pre[0] == all[0]);
    assert(pre1.no_duplicates()) by {
        assert forall|a: int, b: int| 0 <= a < pre1.len() && 0 <= b < pre1.len() && a != b implies pre1[a] != pre1[b] by {
            assert(pre1[a] == pre[a + 1] && pre1[b] == pre[b + 1]);
        }
    }
    assert(all1.no_duplicates()) by {
        assert forall|a: int, b: int| 0 <= a < all1.len() && 0 <= b < all1.len() && a != b implies all1[a] != all1[b] by {
            assert(all1[a] == all[a + 1] && all1[b] == all[b + 1]);
        }
    }
    assert forall|y: NodeId| pre1.contains(y) <==> all1.contains(y) by {
        if pre1.contains(y) {
            let m = choose|m: int| 0 <= m < pre1.len() && pre1[m] == y;
            assert(pre[m + 1] == y);
            assert(pre.contains(y));
            assert(all.contains(y));
            let j = choose|j: int| 0 <= j < all.len() && all[j] == y;
            assert(j != 0);
            assert(all1[j - 1] == y);
        }
        if all1.contains(y) {
            let m = choose|m: int| 0 <= m < all1.len() && all1[m] == y;
            assert(all[m + 1] == y);
            assert(all.contains(y));
            assert(pre.contains(y));
            let j = choose|j: int| 0 <= j < pre.len() && pre[j] == y;
            assert(j != 0);
            assert(pre1[j - 1] == y);
        }
    }
    lemma_entry_sums_permutation(nodes, pre1, all1);
    lemma_totals_are_subtree_sums(nodes, 0);
}

/// Total size of the subtrees rooted at `s`.
pub open spec fn subtrees_weight(nodes: Seq<Node>, s: Seq<NodeId>) -> int
    decreases s.len(),
{
    if s.len() == 0 {
        0
    } else {
        subtrees_weight(nodes, s.drop_last()) + preorder(nodes, s.last().index()).len()
    }
}

pub proof fn lemma_weight_nonneg(nodes: Seq<Node>, s: Seq<NodeId>)
    ensures
        subtrees_weight(nodes, s) >= 0,
    decreases s.len(),
{
    if s.len() > 0 {
        lemma_weight_nonneg(nodes, s.drop_last());
    }
}

pub proof fn lemma_weight_append(nodes: Seq<Node>, a: Seq<NodeId>, b: Seq<NodeId>)
    ensures
        subtrees_weight(nodes, a + b) == subtrees_weight(nodes, a) + subtrees_weight(nodes, b),
    decreases b.len(),
{
    if b.len() == 0 {
        assert(a + b == a);
    } else {
        lemma_weight_append(nodes, a, b.drop_last());
        assert((a + b).drop_last() == a + b.drop_last());
        assert((a + b).last() == b.last());
    }
}

pub proof fn lemma_weight_is_preorder_len(nodes: Seq<Node>, kids: Seq<NodeId>, parent: int)
    requires
        forall|k: int| 0 <= k < kids.len() ==> parent < (#[trigger] kids[k]).index() < nodes.len(),
    ensures
        subtrees_weight(nodes, kids) == preorder_list(nodes, kids, parent).len(),
    decreases kids.len(),
{
    if kids.len() > 0 {
        let d = kids.drop_last();
        assert forall|k: int| 0 <= k < d.len() implies parent < (#[trigger] d[k]).index() < nodes.len() by {
            assert(d[k] == kids[k]);
        }
        lemma_weight_is_preorder_len(nodes, d, parent);
        assert(kids.last() == kids[kids.len() - 1]);
    }
}

/// Appending a childless node under an existing parent (or as the root of
/// an empty arena) keeps the arena a tree.
proof fn lemma_insert_keeps_wf(a: Seq<Node>, b: Seq<Node>, parent: Option<NodeId>, id: NodeId)
    requires
        tree_wf(a),
        a.len() < u32::MAX,
        parent matches Some(p) ==> p.index() < a.len(),
        parent.is_none() ==> a.len() == 0,
        id.index() == a.len(),
        b.len() == a.len() + 1,
        b[id.index()].parent == parent,
        b[id.index()].children@.len() == 0,
        forall|j: int| 0 <= j < a.len() && (parent matches Some(p) ==> j != p.index()) ==> b[j] == a[j],
        parent matches Some(p) ==> b[p.index()].parent == a[p.index()].parent,
        parent matches Some(p) ==> b[p.index()].children@ == a[p.index()].children@.push(id),
    ensures
        tree_wf(b),
{
    let n = a.len();
    assert forall|i: int| 0 <= i < b.len() implies #[trigger] node_ok(b, i) by {
        if i < n {
            assert(node_ok(a, i));
            let kids_a = a[i].children@;
            let kids_b = b[i].children@;
            if parent matches Some(p) && i == p.index() {
                assert(kids_b == kids_a.push(id));
                assert forall|k: int| 0 <= k < kids_b.len() implies i < (#[trigger] kids_b[k]).index() < b.len()
                    && b[kids_b[k].index()].parent == Some(NodeId(i as u32)) by {
                    if k < kids_a.len() {
                        assert(kids_b[k] == kids_a[k]);
                    }
                }
                assert forall|j: int| 0 < j < b.len() && #[trigger] b[j].parent == Some(NodeId(i as u32))
                    implies kids_b.contains(NodeId(j as u32)) by {
                    if j < n {
                        assert(a[j].parent == b[j].parent);
                        assert(kids_a.contains(NodeId(j as u32)));
                        let k = choose|k: int| 0 <= k < kids_a.len() && kids_a[k] == NodeId(j as u32);
                        assert(kids_b[k] == NodeId(j as u32));
                    } else {
                        assert(kids_b[kids_a.len() as int] == id);
                    }
                }
                assert(!kids_a.contains(id));
                assert(kids_b.no_duplicates());
            } else {
                assert(b[i] == a[i]);
                assert forall|k: int| 0 <= k < kids_b.len() implies i < (#[trigger] kids_b[k]).index() < b.len()
                    && b[kids_b[k].index()].parent == Some(NodeId(i as u32)) by {
                    assert(kids_b[k] == kids_a[k]);
                    let c = kids_a[k].index();
                    if parent matches Some(p) && c == p.index() {
                    } else {
                        assert(b[c] == a[c]);
                    }
                }
                assert forall|j: int| 0 < j < b.len() && #[trigger] b[j].parent == Some(NodeId(i as u32))
                    implies kids_b.contains(NodeId(j as u32)) by {
                    if j < n {
                        if parent matches Some(p) && j == p.index() {
                        } else {
                            assert(a[j].parent == b[j].parent);
                        }
                    } else {
                        assert(j == n);
                        assert(false);
                    }
                }
            }
        } else {
            assert(i == n);
            assert(b[i].children@.len() == 0);
            assert forall|j: int| 0 < j < b.len() && #[trigger] b[j].parent == Some(NodeId(i as u32))
                implies b[i].children@.contains(NodeId(j as u32)) by {
                if j < n {
                    assert(node_ok(a, j));
                    if parent matches Some(p) && j == p.index() {
                        assert(b[j].parent == a[j].parent);
                    } else {
                        assert(b[j] == a[j]);
                    }
                    assert(false);
                }
            }
            assert(parent_link_ok(b, i));
            assert(children_ok(b, i));
        }
    }
}

/// Arena-backed size tree.
#[derive(Debug)]
pub struct Tree {
    nodes: Vec<Node>,
    root: Option<NodeId>,
}

impl Tree {
    /// The nodes of the arena, in insertion order.
    pub closed spec fn nodes(self) -> Seq<Node> {
        self.nodes@
    }

    pub closed spec fn spec_root(self) -> Option<NodeId> {
        self.root
    }

    /// Well-formedness: the arena is a tree rooted at index 0. Every
    /// `Tree` value satisfies it.
    #[verifier::type_invariant]
    pub open spec fn wf(self) -> bool {
        &&& tree_wf(self.nodes())
        &&& self.spec_root() == (if self.nodes().len() == 0 {
            None::<NodeId>
        } else {
            Some(NodeId(0))
        })
    }

    pub fn new() -> (t: Tree)
        ensures
            t.wf(),
            t.nodes().len() == 0,
            t.spec_root().is_none(),
    {
        Tree { nodes: Vec::new(), root: None }
    }

    pub fn root(&self) -> (r: Option<NodeId>)
        ensures
            r == self.spec_root(),
    {
        self.root
    }

    pub fn len(&self) -> (n: usize)
        ensures
            n == self.nodes().len(),
    {
        self.nodes.len()
    }

    pub fn is_empty(&self) -> (b: bool)
        ensures
            b == (self.nodes().len() == 0),
    {
        self.nodes.len() == 0
    }

    /// Add a node to the arena under `parent`, or as the root when
    /// `parent` is `None`. The node is attached as a leaf: its `parent`
    /// field is overwritten, its child list starts empty (a node's children
    /// are the nodes later inserted under it), and its id is appended to the
    /// parent's children. The new id is the arena's previous length.
    ///
    /// Fails, leaving the tree as it was, with [`TreeError::Full`] when the
    /// arena already holds `u32::MAX` nodes (a `NodeId` is a `u32`), and
    /// with [`TreeError::RootTaken`] when `parent` is `None` but the tree
    /// already has its root.
    pub fn insert(&mut self, parent: Option<NodeId>, node: Node) -> (r: Result<NodeId, TreeError>)
        requires
            parent matches Some(p) ==> p.index() < old(self).nodes().len(),
        ensures
            r is Err <==> (old(self).nodes().len() >= u32::MAX || (parent is None && old(self).spec_root() is Some)),
            r == Err::<NodeId, TreeError>(TreeError::Full) <==> old(self).nodes().len() >= u32::MAX,
            r is Err ==> *final(self) == *old(self),
            r matches Ok(id) ==> {
                &&& id.index() == old(self).nodes().len()
                &&& final(self).nodes().len() == old(self).nodes().len() + 1
                &&& final(self).nodes()[id.index()] == (Node {
                    parent: parent,
                    children: final(self).nodes()[id.index()].children,
                    ..node
                })
                &&& final(self).nodes()[id.index()].children@.len() == 0
                &&& forall|j: int|
                    0 <= j < old(self).nodes().len() && (parent matches Some(p) ==> j != p.index())
                        ==> final(self).nodes()[j] == old(self).nodes()[j]
                &&& parent matches Some(p) ==> final(self).nodes()[p.index()] == (Node {
                    children: final(self).nodes()[p.index()].children,
                    ..old(self).nodes()[p.index()]
                })
                &&& parent matches Some(p) ==> final(self).nodes()[p.index()].children@ == old(
                    self,
                ).nodes()[p.index()].children@.push(id)
                &&& parent matches Some(p) ==> final(self).spec_root() == old(self).spec_root()
                &&& parent is None ==> final(self).spec_root() == Some(id)
            },
    {
        proof {
            use_type_invariant(&*self);
        }
        if self.nodes.len() >= 4294967295 {
            return Err(TreeError::Full);
        }
        if parent.is_none() && self.root.is_some() {
            return Err(TreeError::RootTaken);
        }
        let mut taken = Tree::new();
        std::mem::swap(self, &mut taken);
        let Tree { mut nodes, mut root } = taken;
        let ghost before = nodes@;
        let next_index = nodes.len();
        let id = NodeId(next_index as u32);
        let mut node = node;
        node.parent = parent;
        node.children = Vec::new();
        nodes.push(node);
        match parent {
            Some(p) => {
                nodes[p.0 as usize].children.push(id);
            },
            None => {
                root = Some(id);
            },
        }
        proof {
            lemma_insert_keeps_wf(before, nodes@, parent, id);
        }
        *self = Tree { nodes, root };
        Ok(id)
    }

    /// Every node id in insertion order.
    pub fn iter_ids(&self) -> (ids: Vec<NodeId>)
        ensures
            ids@.len() == self.nodes().len(),
            forall|i: int| 0 <= i < ids@.len() ==> (#[trigger] ids@[i]).index() == i,
    {
        proof {
            use_type_invariant(self);
        }
        let n = self.nodes.len();
        let mut ids: Vec<NodeId> = Vec::new();
        let mut i: usize = 0;
        while i < n
            invariant
                n == self.nodes().len(),
                n <= u32::MAX,
                i <= n,
                ids@.len() == i,
                forall|j: int| 0 <= j < i ==> (#[trigger] ids@[j]).index() == j,
            decreases n - i,
        {
            ids.push(NodeId(i as u32));
            i = i + 1;
        }
        ids
    }

    /// All descendants of `start`, excluding `start` itself, in pre-order.
    pub fn descendants(&self, start: NodeId) -> (out: Vec<NodeId>)
        requires
            start.index() < self.nodes().len(),
        ensures
            out@ == preorder(self.nodes(), start.index()).drop_first(),
    {
        proof {
            use_type_invariant(self);
        }
        let ghost nodes = self.nodes();
        let ghost s = start.index();
        let ghost total = preorder_list(nodes, nodes[s].children@, s);
        proof {
            assert(node_ok(nodes, s));
            assert(preorder(nodes, s).drop_first() == total);
        }
        let mut out: Vec<NodeId> = Vec::new();
        let mut stack: Vec<NodeId> = Vec::new();
        push_reversed(&mut stack, &self.nodes[start.0 as usize].children);
        let ghost mut pending: Seq<NodeId> = nodes[s].children@;
        proof {
            assert forall|k: int| 0 <= k < pending.len() implies #[trigger] stack@[k] == pending[pending.len() - 1 - k] by {
                assert(stack@[0 + k] == pending[pending.len() - 1 - k]);
            }
        }
        while stack.len() > 0
            invariant
                self.wf(),
                nodes == self.nodes(),
                0 <= s < nodes.len(),
                stack@.len() == pending.len(),
                forall|k: int| 0 <= k < pending.len() ==> #[trigger] stack@[k] == pending[pending.len() - 1 - k],
                forall|k: int| 0 <= k < pending.len() ==> s < (#[trigger] pending[k]).index() < nodes.len(),
                out@ + preorder_list(nodes, pending, s) == total,
            decreases preorder_list(nodes, pending, s).len(),
        {
            let ghost stack_before = stack@;
            let x = stack.pop().unwrap();
            let ghost rest = pending.drop_first();
            let ghost popped = stack@;
            proof {
                assert(x == pending[0]);
                assert(pending == seq![x] + rest);
                lemma_preorder_list_cons(nodes, x, rest, s);
                lemma_preorder_nonempty(nodes, x.index());
            }
            out.push(x);
            let ghost xi = x.index();
            proof {
                assert(node_ok(nodes, xi));
            }
            push_reversed(&mut stack, &self.nodes[x.0 as usize].children);
            proof {
                let kids = nodes[xi].children@;
                lemma_preorder_list_parent(nodes, kids, xi, s);
                lemma_preorder_list_append(nodes, kids, rest, s);
                let m = rest.len();
                assert forall|j: int| 0 <= j < kids.len() + m implies #[trigger] stack@[j] == (kids + rest)[kids.len() + m - 1 - j] by {
                    if j < m {
                        assert(stack@[j] == popped[j]);
                        assert(popped[j] == stack_before[j]);
                        assert(stack_before[j] == pending[pending.len() - 1 - j]);
                    } else {
                        let k = j - m;
                        assert(stack@[m + k] == kids[kids.len() - 1 - k]);
                    }
                }
                pending = kids + rest;
                assert(out@ + preorder_list(nodes, pending, s) == total) by {
                    assert(preorder(nodes, xi) == seq![x] + preorder_list(nodes, kids, xi));
                }
            }
        }
        proof {
            assert(pending.len() == 0);
            assert(out@ + Seq::<NodeId>::empty() == out@);
        }
        out
    }

    /// Recompute every node's totals and counts from its own values and
    /// its children's, bottom-up. Nothing else changes.
    pub fn aggregate(&mut self)
        ensures
            final(self).spec_root() == old(self).spec_root(),
            same_shapes(old(self).nodes(), final(self).nodes()),
            aggregated(final(self).nodes()),
    {
        proof {
            use_type_invariant(&*self);
        }
        let mut taken = Tree::new();
        std::mem::swap(self, &mut taken);
        let Tree { mut nodes, root } = taken;
        aggregate_nodes(&mut nodes);
        *self = Tree { nodes, root };
    }

    /// Sort every node's children by `size_total`, largest first. The sort
    /// is stable: equal-sized siblings keep their previous order.
    pub fn sort_children_by_size(&mut self)
        ensures
            final(self).spec_root() == old(self).spec_root(),
            final(self).nodes().len() == old(self).nodes().len(),
            forall|i: int|
                0 <= i < old(self).nodes().len() ==> (#[trigger] final(self).nodes()[i]) == (Node {
                    children: final(self).nodes()[i].children,
                    ..old(self).nodes()[i]
                }),
            forall|i: int|
                0 <= i < old(self).nodes().len() ==> (#[trigger] final(self).nodes()[i]).children@
                    == stable_sorted(old(self).nodes(), old(self).nodes()[i].children@, SortKey::Size, SortDir::Desc),
            forall|i: int|
                0 <= i < final(self).nodes().len() ==> is_sorted_by(
                    final(self).nodes(),
                    (#[trigger] final(self).nodes()[i]).children@,
                    SortKey::Size,
                    SortDir::Desc,
                ),
            aggregated(old(self).nodes()) ==> aggregated(final(self).nodes()),
    {
        proof {
            use_type_invariant(&*self);
        }
        let mut taken = Tree::new();
        std::mem::swap(self, &mut taken);
        let Tree { mut nodes, root } = taken;
        sort_nodes_children(&mut nodes);
        *self = Tree { nodes, root };
    }

    /// The node at `id`.
    pub(crate) fn node(&self, id: NodeId) -> (n: &Node)
        requires
            id.index() < self.nodes().len(),
        ensures
            *n == self.nodes()[id.index()],
    {
        &self.nodes[id.0 as usize]
    }

    /// `ids` stably sorted under the given sibling order.
    pub(crate) fn sorted_ids(&self, ids: &Vec<NodeId>, key: SortKey, dir: SortDir) -> (out: Vec<NodeId>)
        requires
            ids_valid(self.nodes(), ids@),
        ensures
            out@ == stable_sorted(self.nodes(), ids@, key, dir),
    {
        stable_sort_ids(&self.nodes, ids, key, dir)
    }

    /// Whether every node lies at most `u16::MAX` levels below the root,
    /// the deepest level a row of the view records.
    pub fn depths_fit(&self) -> (b: bool)
        ensures
            b == depth_bounded(self.nodes()),
    {
        proof {
            use_type_invariant(self);
        }
        let n = self.nodes.len();
        let mut depths: Vec<u64> = Vec::new();
        let mut i: usize = 0;
        while i < n
            invariant
                n == self.nodes().len(),
                tree_wf(self.nodes()),
                i <= n,
                depths@.len() == i,
                forall|j: int| 0 <= j < i ==> #[trigger] depths@[j] == node_depth(self.nodes(), j) && depths@[j] <= j,
                forall|j: int| 0 <= j < i ==> #[trigger] node_depth(self.nodes(), j) <= u16::MAX,
            decreases n - i,
        {
            proof {
                assert(node_ok(self.nodes(), i as int));
            }
            let d: u64 = if i == 0 {
                0
            } else {
                match self.nodes[i].parent {
                    Some(p) => depths[p.0 as usize] + 1,
                    None => 0,
                }
            };
            assert(d == node_depth(self.nodes(), i as int));
            if d > 65535 {
                return false;
            }
            depths.push(d);
            i = i + 1;
        }
        true
    }

    pub fn get(&self, id: NodeId) -> (r: Option<&Node>)
        ensures
            id.index() < self.nodes().len() ==> r == Some(&self.nodes()[id.index()]),
            id.index() >= self.nodes().len() ==> r.is_none(),
    {
        if (id.0 as usize) < self.nodes.len() {
            Some(&self.nodes[id.0 as usize])
        } else {
            None
        }
    }
}

/// Arenas whose nodes have the same parents and children are trees alike.
proof fn lemma_same_links_wf(a: Seq<Node>, b: Seq<Node>)
    requires
        tree_wf(a),
        a.len() == b.len(),
        forall|i: int| 0 <= i < a.len() ==> (#[trigger] b[i]).parent == a[i].parent && b[i].children@ == a[i].children@,
    ensures
        tree_wf(b),
{
    assert forall|i: int| 0 <= i < b.len() implies #[trigger] node_ok(b, i) by {
        assert(node_ok(a, i));
        assert(b[i].parent == a[i].parent);
        assert forall|k: int| 0 <= k < b[i].children@.len() implies i < (#[trigger] b[i].children@[k]).index() < b.len()
            && b[b[i].children@[k].index()].parent == Some(NodeId(i as u32)) by {
            let c = a[i].children@[k].index();
            assert(b[c].parent == a[c].parent);
        }
        assert forall|j: int| 0 < j < b.len() && #[trigger] b[j].parent == Some(NodeId(i as u32))
            implies b[i].children@.contains(NodeId(j as u32)) by {
            assert(b[j].parent == a[j].parent);
        }
    }
}

/// A copy of a node: the same entry, totals and links.
fn copy_node(n: &Node) -> (c: Node)
    ensures
        c == (Node { children: c.children, ..*n }),
        c.children@ == n.children@,
{
    let mut children: Vec<NodeId> = Vec::new();
    let mut k: usize = 0;
    while k < n.children.len()
        invariant
            k <= n.children@.len(),
            children@ == n.children@.subrange(0, k as int),
        decreases n.children@.len() - k,
    {
        children.push(n.children[k]);
        k = k + 1;
    }
    proof {
        assert(n.children@.subrange(0, n.children@.len() as int) == n.children@);
    }
    let owner = match &n.owner {
        Some(o) => Some(o.clone()),
        None => None,
    };
    Node {
        name: n.name.clone(),
        name_lower: n.name_lower.clone(),
        kind: n.kind,
        size_self: n.size_self,
        size_total: n.size_total,
        alloc_self: n.alloc_self,
        alloc_total: n.alloc_total,
        file_count: n.file_count,
        dir_count: n.dir_count,
        mtime: n.mtime,
        owner,
        parent: n.parent,
        children,
    }
}

impl Clone for Tree {
    /// A copy of the arena: every node the same entry with the same links.
    fn clone(&self) -> (t: Tree)
        ensures
            t.spec_root() == self.spec_root(),
            t.nodes().len() == self.nodes().len(),
            forall|i: int|
                0 <= i < self.nodes().len() ==> (#[trigger] t.nodes()[i]) == (Node {
                    children: t.nodes()[i].children,
                    ..self.nodes()[i]
                }) && t.nodes()[i].children@ == self.nodes()[i].children@,
    {
        proof {
            use_type_invariant(self);
        }
        let n = self.nodes.len();
        let mut nodes: Vec<Node> = Vec::new();
        let mut i: usize = 0;
        while i < n
            invariant
                n == self.nodes().len(),
                i <= n,
                nodes@.len() == i,
                forall|j: int|
                    0 <= j < i ==> (#[trigger] nodes@[j]) == (Node { children: nodes@[j].children, ..self.nodes()[j] })
                        && nodes@[j].children@ == self.nodes()[j].children@,
            decreases n - i,
        {
            let c = copy_node(&self.nodes[i]);
            nodes.push(c);
            i = i + 1;
        }
        proof {
            lemma_same_links_wf(self.nodes(), nodes@);
        }
        Tree { nodes, root: self.root }
    }
}

impl Default for Tree {
    fn default() -> (t: Tree)
        ensures
            t.nodes().len() == 0,
            t.spec_root().is_none(),
    {
        Tree::new()
    }
}

/// `b` is `a` with one node appended under `parent` (or as the root when
/// `parent` is `None`): the new node has no children and the parent lists
/// the new id last among its children; no other node changes.
pub open spec fn appended_under(a: Seq<Node>, b: Seq<Node>, parent: Option<NodeId>) -> bool {
    &&& b.len() == a.len() + 1
    &&& b[a.len() as int].parent == parent
    &&& b[a.len() as int].children@.len() == 0
    &&& forall|j: int|
        0 <= j < a.len() && (parent matches Some(p) ==> j != p.index()) ==> #[trigger] b[j] == a[j]
    &&& parent matches Some(p) ==> {
        &&& b[p.index()] == (Node { children: b[p.index()].children, ..a[p.index()] })
        &&& b[p.index()].children@ == a[p.index()].children@.push(NodeId(a.len() as u32))
    }
}

/// Replacing every node's children by their stable size-descending sort
/// leaves every node's children in order and keeps the totals consistent:
/// a sum over the children does not depend on their order.
pub proof fn lemma_sorted_children(orig: Seq<Node>, fin: Seq<Node>)
    requires
        tree_wf(orig),
        fin.len() == orig.len(),
        forall|i: int| 0 <= i < orig.len() ==> (#[trigger] fin[i]) == (Node { children: fin[i].children, ..orig[i] }),
        forall|i: int|
            0 <= i < orig.len() ==> (#[trigger] fin[i]).children@ == stable_sorted(
                orig,
                orig[i].children@,
                SortKey::Size,
                SortDir::Desc,
            ),
    ensures
        forall|i: int|
            0 <= i < fin.len() ==> is_sorted_by(fin, (#[trigger] fin[i]).children@, SortKey::Size, SortDir::Desc),
        aggregated(orig) ==> aggregated(fin),
{
    let n = orig.len();
    assert(same_sort_keys_all(orig, fin)) by {
        assert forall|i: int| 0 <= i < n implies #[trigger] same_sort_keys(orig[i], fin[i]) by {
            assert(fin[i] == (Node { children: fin[i].children, ..orig[i] }));
        }
    }
    assert forall|i: int| 0 <= i < fin.len() implies is_sorted_by(
        fin,
        (#[trigger] fin[i]).children@,
        SortKey::Size,
        SortDir::Desc,
    ) by {
        assert(node_ok(orig, i));
        let ko = orig[i].children@;
        let kf = fin[i].children@;
        lemma_stable_sorted_sorted(orig, ko, SortKey::Size, SortDir::Desc);
        lemma_stable_sorted_contents(orig, ko, SortKey::Size, SortDir::Desc);
        assert(ids_valid(orig, kf)) by {
            assert forall|k: int| 0 <= k < kf.len() implies (#[trigger] kf[k]).index() < orig.len() by {
                assert(kf.contains(kf[k]));
                assert(ko.contains(kf[k]));
            }
        }
        lemma_sorted_frame(orig, fin, kf, SortKey::Size, SortDir::Desc);
    }
    if aggregated(orig) {
        assert forall|i: int| 0 <= i < n implies #[trigger] totals_ok(fin, i) by {
            assert(totals_ok(orig, i));
            let ko = orig[i].children@;
            let kf = fin[i].children@;
            assert(fin[i] == (Node { children: fin[i].children, ..orig[i] }));
            lemma_stable_sorted_sums(orig, ko, SortKey::Size, SortDir::Desc);
            lemma_stable_sorted_contents(orig, ko, SortKey::Size, SortDir::Desc);
            assert(node_ok(orig, i));
            assert(same_totals_on(orig, fin, kf)) by {
                assert forall|k: int| 0 <= k < kf.len() implies {
                    let c = (#[trigger] kf[k]).index();
                    &&& orig[c].size_total == fin[c].size_total
                    &&& orig[c].alloc_total == fin[c].alloc_total
                    &&& orig[c].file_count == fin[c].file_count
                    &&& orig[c].dir_count == fin[c].dir_count
                    &&& orig[c].kind == fin[c].kind
                } by {
                    let c = kf[k].index();
                    assert(kf.contains(kf[k]));
                    assert(ko.contains(kf[k]));
                    assert(fin[c] == (Node { children: fin[c].children, ..orig[c] }));
                }
            }
            lemma_sums_frame(orig, fin, kf);
        }
    }
}

/// Bottom-up recomputation of every node's totals and counts.
fn aggregate_nodes(nodes: &mut Vec<Node>)
    requires
        tree_wf(old(nodes)@),
    ensures
        tree_wf(final(nodes)@),
        same_shapes(old(nodes)@, final(nodes)@),
        aggregated(final(nodes)@),
{
    let n = nodes.len();
    let ghost orig = nodes@;
    let mut i = n;
    while i > 0
        invariant
            n == nodes@.len(),
            i <= n,
            tree_wf(orig),
            same_shapes(orig, nodes@),
            orig == old(nodes)@,
            forall|j: int| i <= j < n ==> #[trigger] totals_ok(nodes@, j),
        decreases i,
    {
        i = i - 1;
        let ghost before = nodes@;
        proof {
            lemma_same_shapes_wf(orig, before);
            assert(node_ok(before, i as int));
            assert(same_shape(orig[i as int], before[i as int]));
        }
        let ghost kids = before[i as int].children@;
        let kids_len = nodes[i].children.len();
        let mut size_total: u64 = nodes[i].size_self;
        let mut alloc_total: u64 = match nodes[i].alloc_self {
            Some(a) => a,
            None => 0,
        };
        let mut alloc_known: bool = nodes[i].alloc_self.is_some();
        let mut file_count: u64 = 0;
        let mut dir_count: u64 = 0;
        let mut k: usize = 0;
        while k < kids_len
            invariant
                before == nodes@,
                tree_wf(before),
                0 <= i < n,
                n == before.len(),
                kids == before[i as int].children@,
                kids_len == kids.len(),
                node_ok(before, i as int),
                k <= kids_len,
                size_total == sat(before[i as int].size_self + children_size_sum(before, kids.subrange(0, k as int))),
                alloc_total == sat(alloc_value(before[i as int].alloc_self) + children_alloc_sum(before, kids.subrange(0, k as int))),
                alloc_known == (before[i as int].alloc_self is Some && children_alloc_known(before, kids.subrange(0, k as int))),
                file_count == sat(children_file_sum(before, kids.subrange(0, k as int))),
                dir_count == sat(children_dir_sum(before, kids.subrange(0, k as int))),
            decreases kids_len - k,
        {
            let c = nodes[i].children[k];
            proof {
                assert(kids[k as int] == c);
                assert(i < c.index() < n);
                let pre = kids.subrange(0, k as int);
                let post = kids.subrange(0, k as int + 1);
                assert(post.drop_last() == pre);
                assert(post.last() == c);
                lemma_sums_nonneg(before, pre);
            }
            let child = &nodes[c.0 as usize];
            size_total = size_total.saturating_add(child.size_total);
            match child.alloc_total {
                Some(a) => {
                    alloc_total = alloc_total.saturating_add(a);
                },
                None => {
                    alloc_known = false;
                },
            }
            file_count = file_count.saturating_add(child.file_count);
            dir_count = dir_count.saturating_add(child.dir_count);
            match child.kind {
                NodeKind::Dir => {
                    dir_count = dir_count.saturating_add(1);
                },
                _ => {
                    file_count = file_count.saturating_add(1);
                },
            }
            k = k + 1;
        }
        proof {
            assert(kids.subrange(0, kids_len as int) == kids);
        }
        nodes[i].size_total = size_total;
        nodes[i].alloc_total = if alloc_known {
            Some(alloc_total)
        } else {
            None
        };
        nodes[i].file_count = file_count;
        nodes[i].dir_count = dir_count;
        proof {
            let after = nodes@;
            assert forall|j: int| 0 <= j < n implies #[trigger] same_shape(orig[j], after[j]) by {
                assert(same_shape(orig[j], before[j]));
            }
            assert forall|j: int| i <= j < n implies #[trigger] totals_ok(after, j) by {
                assert(node_ok(before, j));
                let kj = before[j].children@;
                assert forall|k2: int| 0 <= k2 < kj.len() implies {
                    let c = (#[trigger] kj[k2]).index();
                    &&& before[c].size_total == after[c].size_total
                    &&& before[c].alloc_total == after[c].alloc_total
                    &&& before[c].file_count == after[c].file_count
                    &&& before[c].dir_count == after[c].dir_count
                    &&& before[c].kind == after[c].kind
                } by {
                    let c = kj[k2].index();
                    assert(j < c);
                }
                lemma_sums_frame(before, after, kj);
                if j > i {
                    assert(totals_ok(before, j));
                }
            }
        }
    }
    proof {
        lemma_same_shapes_wf(orig, nodes@);
    }
}

/// Stable size-descending sort of every node's children.
fn sort_nodes_children(nodes: &mut Vec<Node>)
    requires
        tree_wf(old(nodes)@),
    ensures
        tree_wf(final(nodes)@),
        final(nodes)@.len() == old(nodes)@.len(),
        forall|i: int|
            0 <= i < old(nodes)@.len() ==> (#[trigger] final(nodes)@[i]) == (Node {
                children: final(nodes)@[i].children,
                ..old(nodes)@[i]
            }),
        forall|i: int|
            0 <= i < old(nodes)@.len() ==> (#[trigger] final(nodes)@[i]).children@
                == stable_sorted(old(nodes)@, old(nodes)@[i].children@, SortKey::Size, SortDir::Desc),
        forall|i: int|
            0 <= i < final(nodes)@.len() ==> is_sorted_by(
                final(nodes)@,
                (#[trigger] final(nodes)@[i]).children@,
                SortKey::Size,
                SortDir::Desc,
            ),
        aggregated(old(nodes)@) ==> aggregated(final(nodes)@),
{
    let n = nodes.len();
    let ghost orig = nodes@;
    let mut idx: usize = 0;
    while idx < n
        invariant
            n == nodes@.len(),
            n == orig.len(),
            orig == old(nodes)@,
            tree_wf(orig),
            idx <= n,
            forall|i: int| 0 <= i < n ==> (#[trigger] nodes@[i]) == (Node {
                children: nodes@[i].children,
                ..orig[i]
            }),
            forall|i: int| 0 <= i < idx ==> (#[trigger] nodes@[i]).children@
                == stable_sorted(orig, orig[i].children@, SortKey::Size, SortDir::Desc),
            forall|i: int| idx <= i < n ==> (#[trigger] nodes@[i]).children == orig[i].children,
        decreases n - idx,
    {
        let ghost cur = nodes@;
        proof {
            assert(node_ok(orig, idx as int));
            assert(same_sort_keys_all(orig, cur)) by {
                assert forall|i: int| 0 <= i < n implies #[trigger] same_sort_keys(orig[i], cur[i]) by {
                    assert(cur[i] == (Node { children: cur[i].children, ..orig[i] }));
                }
            }
            assert(ids_valid(orig, orig[idx as int].children@));
            lemma_stable_sorted_frame(orig, cur, orig[idx as int].children@, SortKey::Size, SortDir::Desc);
        }
        let sorted = stable_sort_ids(&*nodes, &nodes[idx].children, SortKey::Size, SortDir::Desc);
        nodes[idx].children = sorted;
        idx = idx + 1;
    }
    proof {
        let fin = nodes@;
        assert forall|i: int| 0 <= i < n implies #[trigger] node_ok(fin, i) by {
            assert(node_ok(orig, i));
            let ko = orig[i].children@;
            let kf = fin[i].children@;
            lemma_stable_sorted_contents(orig, ko, SortKey::Size, SortDir::Desc);
            assert forall|k: int| 0 <= k < kf.len() implies i < (#[trigger] kf[k]).index() < fin.len()
                && fin[kf[k].index()].parent == Some(NodeId(i as u32)) by {
                assert(kf.contains(kf[k]));
                assert(ko.contains(kf[k]));
                let m = choose|m: int| 0 <= m < ko.len() && ko[m] == kf[k];
                assert(fin[kf[k].index()] == (Node { children: fin[kf[k].index()].children, ..orig[kf[k].index()] }));
            }
            assert forall|j: int| 0 < j < fin.len() && #[trigger] fin[j].parent == Some(NodeId(i as u32))
                implies kf.contains(NodeId(j as u32)) by {
                assert(fin[j] == (Node { children: fin[j].children, ..orig[j] }));
            }
            assert(fin[i] == (Node { children: fin[i].children, ..orig[i] }));
        }
        lemma_sorted_children(orig, fin);
    }
}

/// Push `items` onto `stack` in reverse order, so that popping yields them
/// in their given order.
fn push_reversed(stack: &mut Vec<NodeId>, items: &Vec<NodeId>)
    ensures
        final(stack)@.len() == old(stack)@.len() + items@.len(),
        forall|k: int| 0 <= k < old(stack)@.len() ==> #[trigger] final(stack)@[k] == old(stack)@[k],
        forall|k: int|
            0 <= k < items@.len() ==> #[trigger] final(stack)@[old(stack)@.len() + k] == items@[items@.len() - 1 - k],
{
    let mut k = items.len();
    while k > 0
        invariant
            k <= items@.len(),
            stack@.len() == old(stack)@.len() + (items@.len() - k),
            forall|j: int| 0 <= j < old(stack)@.len() ==> #[trigger] stack@[j] == old(stack)@[j],
            forall|j: int|
                0 <= j < items@.len() - k ==> #[trigger] stack@[old(stack)@.len() + j] == items@[items@.len() - 1 - j],
        decreases k,
    {
        k = k - 1;
        stack.push(items[k]);
    }
}

} // verus!
