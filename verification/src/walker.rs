//! Building the size tree from the entries of a filesystem walk.
//!
//! The walk itself (reading directories, stat'ing entries, looking up
//! owners) happens outside; it hands each entry over as plain values and
//! [`TreeBuilder`] decides where it goes. Entries come parent-before-child,
//! so a directory's id is known by the time its children arrive. Entries
//! that cannot be read or placed are skipped and counted as errors.

use vstd::prelude::*;
use vstd::hash_map::StringHashMap;
use crate::events::{ScanError, ScanProgress, TreeError};
use crate::text::lowercase_of;
use crate::order::{ids_valid, is_sorted_by, lemma_stable_sorted_frame, same_sort_keys, same_sort_keys_all, stable_sorted};
use crate::tree::{aggregated, appended_under, node_ok, same_entry, same_shape, sat, Node, NodeId, NodeKind, Tree};
use crate::view::{SortDir, SortKey};

verus! {

/// Metadata the platform reports for one entry.
#[derive(Clone, Debug, Default, PartialEq, Eq)]
pub struct PlatformMetadata {
    /// Bytes the entry occupies on disk; `None` where the platform cannot
    /// tell.
    pub allocated_bytes: Option<u64>,
    /// Modification time in nanoseconds relative to the Unix epoch.
    pub mtime: Option<i128>,
    /// Name of the owning user, when it resolves.
    pub owner: Option<String>,
}

/// Length and platform metadata of an entry that could be stat'd.
#[derive(Clone, Debug)]
pub struct EntryMetadata {
    pub len: u64,
    pub platform: PlatformMetadata,
}

/// One entry of the walk.
#[derive(Clone, Debug)]
pub struct WalkEntry {
    /// Full path of the entry.
    pub path: String,
    /// Full path of the directory that holds it, if the path has one.
    pub parent_path: Option<String>,
    /// Last component of the path.
    pub file_name: String,
    /// Distance from the walk's root (0 for the root itself).
    pub depth: usize,
    pub kind: NodeKind,
    /// The entry is a directory whose children could not be listed.
    pub children_unreadable: bool,
    /// `None` when the entry could not be stat'd.
    pub metadata: Option<EntryMetadata>,
}

/// What the walk yields at each step.
#[derive(Clone, Debug)]
pub enum WalkItem {
    /// The walk reported an error in place of an entry.
    Failed,
    Entry(WalkEntry),
}

/// The node name of an entry: the full path for the root, else the last
/// path component.
pub open spec fn entry_name(e: WalkEntry) -> Seq<char> {
    if e.depth == 0 {
        e.path@
    } else {
        e.file_name@
    }
}

/// Logical bytes of the entry itself: directories count nothing.
pub open spec fn own_size(kind: NodeKind, m: EntryMetadata) -> u64 {
    if kind == NodeKind::Dir {
        0
    } else {
        m.len
    }
}

/// Allocated bytes of the entry itself: directories count nothing of
/// their own (their children do); files and symlinks have what the
/// platform reported, unknown where it reported nothing.
pub open spec fn own_alloc(kind: NodeKind, m: EntryMetadata) -> Option<u64> {
    if kind == NodeKind::Dir {
        Some(0)
    } else {
        m.platform.allocated_bytes
    }
}

/// `n` is the fresh leaf built for entry `e` with metadata `m`.
pub open spec fn leaf_for(n: Node, e: WalkEntry, m: EntryMetadata) -> bool {
    &&& n.name@ == entry_name(e)
    &&& n.name_lower@ == lowercase_of(entry_name(e))
    &&& n.kind == e.kind
    &&& n.size_self == own_size(e.kind, m)
    &&& n.size_total == n.size_self
    &&& n.alloc_self == own_alloc(e.kind, m)
    &&& n.alloc_total == n.alloc_self
    &&& n.file_count == 0
    &&& n.dir_count == 0
    &&& n.mtime == m.platform.mtime
    &&& n.owner == m.platform.owner
}

/// Where an entry attaches: `Some(None)` as the root of an empty tree,
/// `Some(Some(p))` under the directory `p` recorded for its parent path,
/// `None` when it cannot be placed (its parent was never recorded, or a
/// second root).
pub open spec fn placement(len: nat, dirs: Map<Seq<char>, NodeId>, e: WalkEntry) -> Option<Option<NodeId>> {
    if e.depth == 0 {
        if len == 0 {
            Some(None)
        } else {
            None
        }
    } else {
        match e.parent_path {
            Some(pp) => if dirs.contains_key(pp@) {
                Some(Some(dirs[pp@]))
            } else {
                None
            },
            None => None,
        }
    }
}

/// `c` plus one (saturating) when `b` holds.
pub open spec fn bump(c: u64, b: bool) -> u64 {
    if b {
        sat(c + 1)
    } else {
        c
    }
}

/// Sum of `size_self` over the first `k` nodes.
pub open spec fn size_self_prefix(nodes: Seq<Node>, k: int) -> int
    decreases k,
{
    if k <= 0 {
        0
    } else {
        size_self_prefix(nodes, k - 1) + nodes[k - 1].size_self
    }
}

/// Prefix sums of own sizes agree where the nodes' own sizes agree.
proof fn lemma_size_prefix_frame(a: Seq<Node>, b: Seq<Node>, k: int)
    requires
        0 <= k <= a.len(),
        k <= b.len(),
        forall|j: int| 0 <= j < k ==> (#[trigger] a[j]).size_self == b[j].size_self,
    ensures
        size_self_prefix(a, k) == size_self_prefix(b, k),
    decreases k,
{
    if k > 0 {
        lemma_size_prefix_frame(a, b, k - 1);
    }
}

/// Prefix sums of own sizes grow with the prefix.
proof fn lemma_size_prefix_mono(a: Seq<Node>, j: int, k: int)
    requires
        0 <= j <= k,
    ensures
        0 <= size_self_prefix(a, j) <= size_self_prefix(a, k),
    decreases k,
{
    if k > 0 {
        if j < k {
            lemma_size_prefix_mono(a, j, k - 1);
        } else {
            lemma_size_prefix_mono(a, j - 1, k - 1);
        }
    }
}

/// What a call of [`TreeBuilder::add`] that did not fail does to the
/// counts: old nodes keep their own sizes, the byte count is the own bytes
/// of all nodes (saturating), the error count never goes down, and a
/// report comes exactly when a node was added, carrying the new counts.
pub open spec fn add_step(before: TreeBuilder, r: Result<Option<ScanProgress>, ScanError>, after: TreeBuilder) -> bool {
    &&& after.nodes().len() >= before.nodes().len()
    &&& forall|j: int| 0 <= j < before.nodes().len() ==> (#[trigger] after.nodes()[j]).size_self == before.nodes()[j].size_self
    &&& after.byte_count() == sat(size_self_prefix(after.nodes(), after.nodes().len() as int))
    &&& after.error_count() >= before.error_count()
    &&& r matches Ok(Some(p)) ==> {
        &&& after.nodes().len() == before.nodes().len() + 1
        &&& p.entries == after.nodes().len()
        &&& p.bytes == after.byte_count()
        &&& p.errors == after.error_count()
    }
    &&& r matches Ok(None) ==> after.nodes().len() == before.nodes().len()
}

/// The progress reports among the results of a run of calls, in order.
pub open spec fn reports_of(rs: Seq<Result<Option<ScanProgress>, ScanError>>) -> Seq<ScanProgress>
    decreases rs.len(),
{
    if rs.len() == 0 {
        Seq::empty()
    } else {
        let front = reports_of(rs.drop_last());
        match rs.last() {
            Ok(Some(p)) => front.push(p),
            _ => front,
        }
    }
}

/// A walk fed item by item into a fresh builder, every call succeeding
/// (`bs[i]` the builder before call `i`, `rs[i]` its result): the `j`-th
/// report (from 0) counts `j + 1` entries and the own bytes of the first
/// `j + 1` nodes (saturating), reports never go back in bytes or errors,
/// and there is one report per node of the tree built.
pub proof fn lemma_walk_reports(bs: Seq<TreeBuilder>, rs: Seq<Result<Option<ScanProgress>, ScanError>>)
    requires
        bs.len() == rs.len() + 1,
        bs[0].nodes().len() == 0,
        forall|i: int| 0 <= i < rs.len() ==> (#[trigger] rs[i]) is Ok && add_step(bs[i], rs[i], bs[i + 1]),
    ensures
        reports_of(rs).len() == bs.last().nodes().len(),
        forall|j: int|
            0 <= j < reports_of(rs).len() ==> (#[trigger] reports_of(rs)[j]).entries == j + 1 && reports_of(rs)[j].bytes
                == sat(size_self_prefix(bs.last().nodes(), j + 1)),
        forall|j: int| 0 <= j < reports_of(rs).len() ==> (#[trigger] reports_of(rs)[j]).errors <= bs.last().error_count(),
        forall|j: int, l: int|
            0 <= j < l < reports_of(rs).len() ==> (#[trigger] reports_of(rs)[j]).bytes <= (#[trigger] reports_of(rs)[l]).bytes
                && reports_of(rs)[j].errors <= reports_of(rs)[l].errors,
    decreases rs.len(),
{
    let reps = reports_of(rs);
    if rs.len() > 0 {
        let n = rs.len() - 1;
        let bs0 = bs.drop_last();
        let rs0 = rs.drop_last();
        assert forall|i: int| 0 <= i < rs0.len() implies (#[trigger] rs0[i]) is Ok && add_step(bs0[i], rs0[i], bs0[i + 1]) by {
            assert(rs0[i] == rs[i]);
            assert(bs0[i] == bs[i] && bs0[i + 1] == bs[i + 1]);
        }
        lemma_walk_reports(bs0, rs0);
        let prev = reports_of(rs0);
        let a = bs[n].nodes();
        let b = bs[n + 1].nodes();
        assert(bs0.last() == bs[n]);
        assert(bs.last() == bs[n + 1]);
        assert(rs.last() == rs[n]);
        assert(add_step(bs[n], rs[n], bs[n + 1]));
        assert forall|j: int| 0 <= j < prev.len() implies (#[trigger] reps[j]) == prev[j] && size_self_prefix(b, j + 1)
            == size_self_prefix(a, j + 1) by {
            lemma_size_prefix_frame(a, b, j + 1);
        }
        assert forall|j: int, l: int| 0 <= j < l < reps.len() implies (#[trigger] reps[j]).bytes <= (#[trigger] reps[l]).bytes
            && reps[j].errors <= reps[l].errors by {
            lemma_size_prefix_mono(b, j + 1, l + 1);
        }
    }
}

/// Accumulates walk entries into a [`Tree`], with running counts.
pub struct TreeBuilder {
    tree: Tree,
    dirs: StringHashMap<NodeId>,
    entries: u64,
    bytes: u64,
    errors: u64,
}

impl TreeBuilder {
    /// The entry count is the number of nodes, and every recorded
    /// directory path names a directory node of the tree.
    #[verifier::type_invariant]
    spec fn inv(self) -> bool {
        &&& self.entries == self.tree.nodes().len()
        &&& self.bytes == sat(size_self_prefix(self.tree.nodes(), self.tree.nodes().len() as int))
        &&& forall|p: Seq<char>|
            #[trigger] self.dirs@.contains_key(p) ==> {
                &&& self.dirs@[p].index() < self.tree.nodes().len()
                &&& self.tree.nodes()[self.dirs@[p].index()].kind == NodeKind::Dir
            }
    }

    /// The nodes inserted so far.
    pub closed spec fn nodes(self) -> Seq<Node> {
        self.tree.nodes()
    }

    /// Directory paths and the ids of their nodes.
    pub closed spec fn dirs(self) -> Map<Seq<char>, NodeId> {
        self.dirs@
    }

    /// Entries inserted so far.
    pub closed spec fn entry_count(self) -> u64 {
        self.entries
    }

    /// Own bytes of the entries inserted so far (saturating).
    pub closed spec fn byte_count(self) -> u64 {
        self.bytes
    }

    /// Entries skipped or reported unreadable so far (saturating).
    pub closed spec fn error_count(self) -> u64 {
        self.errors
    }

    pub fn new() -> (b: TreeBuilder)
        ensures
            b.nodes().len() == 0,
            b.dirs() == Map::<Seq<char>, NodeId>::empty(),
            b.entry_count() == 0,
            b.byte_count() == 0,
            b.error_count() == 0,
    {
        TreeBuilder { tree: Tree::new(), dirs: StringHashMap::new(), entries: 0, bytes: 0, errors: 0 }
    }

    /// Take in one item of the walk. An entry that is placed in the tree
    /// yields the progress to report; a skipped one yields `None`. The
    /// only failure is an arena that is already full.
    pub fn add(&mut self, item: WalkItem) -> (r: Result<Option<ScanProgress>, ScanError>)
        ensures
            final(self).entry_count() == final(self).nodes().len(),
            r is Ok ==> add_step(*old(self), r, *final(self)),
            item matches WalkItem::Failed ==> {
                &&& r matches Ok(None)
                &&& final(self).error_count() == sat(old(self).error_count() + 1)
                &&& final(self).nodes() == old(self).nodes()
                &&& final(self).dirs() == old(self).dirs()
                &&& final(self).entry_count() == old(self).entry_count()
                &&& final(self).byte_count() == old(self).byte_count()
            },
            item matches WalkItem::Entry(e) ==> {
                let errs = bump(old(self).error_count(), e.children_unreadable);
                let place = placement(old(self).nodes().len(), old(self).dirs(), e);
                if e.metadata is None || place is None {
                    &&& r matches Ok(None)
                    &&& final(self).error_count() == sat(errs + 1)
                    &&& final(self).nodes() == old(self).nodes()
                    &&& final(self).dirs() == old(self).dirs()
                    &&& final(self).entry_count() == old(self).entry_count()
                    &&& final(self).byte_count() == old(self).byte_count()
                } else if old(self).nodes().len() >= u32::MAX {
                    &&& r matches Err(ScanError::TreeFull(TreeError::Full))
                    &&& final(self).error_count() == errs
                    &&& final(self).nodes() == old(self).nodes()
                    &&& final(self).dirs() == old(self).dirs()
                    &&& final(self).entry_count() == old(self).entry_count()
                    &&& final(self).byte_count() == old(self).byte_count()
                } else {
                    let m = e.metadata->0;
                    let id = NodeId(old(self).nodes().len() as u32);
                    &&& appended_under(old(self).nodes(), final(self).nodes(), place->0)
                    &&& leaf_for(final(self).nodes()[id.index()], e, m)
                    &&& final(self).dirs() == (if e.kind == NodeKind::Dir {
                        old(self).dirs().insert(e.path@, id)
                    } else {
                        old(self).dirs()
                    })
                    &&& final(self).entry_count() == sat(old(self).entry_count() + 1)
                    &&& final(self).byte_count() == sat(old(self).byte_count() + own_size(e.kind, m))
                    &&& final(self).error_count() == errs
                    &&& r matches Ok(Some(p)) && p.entries == final(self).entry_count() && p.bytes
                        == final(self).byte_count() && p.errors == final(self).error_count() && p.current_path@
                        == e.path@
                }
            },
    {
        proof {
            use_type_invariant(&*self);
        }
        let e = match item {
            WalkItem::Failed => {
                self.errors = self.errors.saturating_add(1);
                return Ok(None);
            },
            WalkItem::Entry(e) => e,
        };
        if e.children_unreadable {
            self.errors = self.errors.saturating_add(1);
        }
        let m = match e.metadata {
            Some(m) => m,
            None => {
                self.errors = self.errors.saturating_add(1);
                return Ok(None);
            },
        };
        let parent: Option<NodeId> = if e.depth == 0 {
            if !self.tree.is_empty() {
                self.errors = self.errors.saturating_add(1);
                return Ok(None);
            }
            None
        } else {
            let found = match &e.parent_path {
                Some(pp) => match self.dirs.get(pp.as_str()) {
                    Some(id) => Some(*id),
                    None => None,
                },
                None => None,
            };
            match found {
                Some(id) => Some(id),
                None => {
                    self.errors = self.errors.saturating_add(1);
                    return Ok(None);
                },
            }
        };
        let (size_self, alloc_self): (u64, Option<u64>) = match e.kind {
            NodeKind::Dir => (0, Some(0)),
            _ => (m.len, m.platform.allocated_bytes),
        };
        let node = if e.depth == 0 {
            Node::new_leaf(e.path.as_str(), e.kind, size_self, alloc_self, m.platform.mtime, m.platform.owner)
        } else {
            Node::new_leaf(e.file_name.as_str(), e.kind, size_self, alloc_self, m.platform.mtime, m.platform.owner)
        };
        let mut taken = TreeBuilder::new();
        std::mem::swap(self, &mut taken);
        let TreeBuilder { mut tree, mut dirs, entries, bytes, errors } = taken;
        proof {
            use_type_invariant(&tree);
        }
        let ghost before = tree.nodes();
        let id = match tree.insert(parent, node) {
            Ok(id) => id,
            Err(err) => {
                *self = TreeBuilder { tree, dirs, entries, bytes, errors };
                return Err(ScanError::TreeFull(err));
            },
        };
        let is_dir = match e.kind {
            NodeKind::Dir => true,
            _ => false,
        };
        if is_dir {
            dirs.insert(e.path.clone(), id);
        }
        proof {
            assert(appended_under(before, tree.nodes(), parent));
            let after = tree.nodes();
            let k = before.len() as int;
            assert forall|j: int| 0 <= j < k implies (#[trigger] before[j]).size_self == after[j].size_self by {
                match parent {
                    Some(pp) => {
                        if j == pp.index() {
                            assert(after[j] == (Node { children: after[j].children, ..before[j] }));
                        }
                    },
                    None => {},
                }
            }
            lemma_size_prefix_frame(before, after, k);
            assert(size_self_prefix(after, k + 1) == size_self_prefix(after, k) + after[k].size_self);
            lemma_size_prefix_mono(before, k, k);
        }
        *self = TreeBuilder {
            tree,
            dirs,
            entries: entries.saturating_add(1),
            bytes: bytes.saturating_add(size_self),
            errors,
        };
        Ok(Some(ScanProgress { entries: self.entries, bytes: self.bytes, errors: self.errors, current_path: e.path }))
    }

    /// Finish the walk: aggregate the totals bottom-up, then sort every
    /// node's children by size, largest first (stably).
    pub fn finish(self) -> (t: Tree)
        ensures
            t.nodes().len() == self.nodes().len(),
            forall|i: int| 0 <= i < self.nodes().len() ==> same_entry(#[trigger] t.nodes()[i], self.nodes()[i]),
            aggregated(t.nodes()),
            forall|i: int|
                0 <= i < self.nodes().len() ==> (#[trigger] t.nodes()[i]).children@ == stable_sorted(
                    t.nodes(),
                    self.nodes()[i].children@,
                    SortKey::Size,
                    SortDir::Desc,
                ),
            forall|i: int|
                0 <= i < t.nodes().len() ==> is_sorted_by(
                    t.nodes(),
                    (#[trigger] t.nodes()[i]).children@,
                    SortKey::Size,
                    SortDir::Desc,
                ),
    {
        let TreeBuilder { mut tree, .. } = self;
        proof {
            use_type_invariant(&tree);
        }
        let ghost start = tree.nodes();
        tree.aggregate();
        let ghost mid = tree.nodes();
        proof {
            use_type_invariant(&tree);
        }
        tree.sort_children_by_size();
        proof {
            let fin = tree.nodes();
            assert(same_sort_keys_all(mid, fin)) by {
                assert forall|i: int| 0 <= i < mid.len() implies #[trigger] same_sort_keys(mid[i], fin[i]) by {
                    assert(fin[i] == (Node { children: fin[i].children, ..mid[i] }));
                }
            }
            assert forall|i: int| 0 <= i < start.len() implies same_entry(#[trigger] fin[i], start[i]) by {
                assert(same_shape(start[i], mid[i]));
                assert(fin[i] == (Node { children: fin[i].children, ..mid[i] }));
            }
            assert forall|i: int| 0 <= i < start.len() implies (#[trigger] fin[i]).children@ == stable_sorted(
                fin,
                start[i].children@,
                SortKey::Size,
                SortDir::Desc,
            ) by {
                assert(same_shape(start[i], mid[i]));
                assert(node_ok(mid, i));
                assert(ids_valid(mid, mid[i].children@));
                lemma_stable_sorted_frame(mid, fin, mid[i].children@, SortKey::Size, SortDir::Desc);
            }
        }
        tree
    }
}

/// The check made before each entry of the walk: a raised cancel flag
/// stops the scan with [`ScanError::Cancelled`]; otherwise the walk goes on.
pub fn check_cancelled(cancelled: bool) -> (r: Result<(), ScanError>)
    ensures
        !cancelled ==> r is Ok,
        cancelled ==> r matches Err(ScanError::Cancelled),
{
    if cancelled {
        Err(ScanError::Cancelled)
    } else {
        Ok(())
    }
}

} // verus!
