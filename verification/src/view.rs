//! Front-end-agnostic view model: sort keys, search filter, the flattened
//! row list and the expanded/selected set.

use std::cmp::Ordering;
use std::collections::HashSet;
use vstd::prelude::*;
use vstd::std_specs::cmp::OrdSpec;
use crate::events::ScanProgress;
use crate::format::{bytes, elapsed, elapsed_text, humansize_binary, ElapsedTime};
use crate::order::{lemma_numeric_keys_order_by_their_field, node_order, order_bytes, str_bytes, stable_sorted, ids_valid, lemma_stable_sorted_contents, lemma_stable_sorted_weight};
use crate::text::{contains_bytes, decimal, has_substring, push_decimal, push_str, to_lowercase, trim, lowercase_of, trimmed, trimmed_start, trimmed_end, is_unicode_whitespace};
use crate::tree::{
    node_depth, depth_bounded, node_ok, preorder, preorder_list, subtrees_weight, lemma_preorder_list_contains,
    lemma_weight_append, lemma_weight_is_preorder_len, lemma_weight_nonneg, Node, NodeId, Tree,
};

verus! {

/// Sort field for child rows under any given parent.
#[derive(Clone, Copy, Debug, PartialEq, Eq, Structural)]
pub enum SortKey {
    Size,
    Name,
    Allocated,
    FileCount,
    DirCount,
    Mtime,
    Owner,
}

impl Default for SortKey {
    fn default() -> (k: SortKey)
        ensures
            k == SortKey::Size,
    {
        SortKey::Size
    }
}

/// Sort direction; descending by default.
#[derive(Clone, Copy, Debug, PartialEq, Eq, Structural)]
pub enum SortDir {
    Asc,
    Desc,
}

impl Default for SortDir {
    fn default() -> (d: SortDir)
        ensures
            d == SortDir::Desc,
    {
        SortDir::Desc
    }
}

/// One on-screen row: a node id plus its depth in the tree (0 = root).
#[derive(Clone, Copy, Debug, PartialEq, Eq, Structural)]
pub struct RowEntry {
    pub id: NodeId,
    pub depth: u16,
}

/// One displayable column.
#[derive(Clone, Copy, Debug, PartialEq, Eq, Structural)]
pub enum ColumnKind {
    Name,
    Size,
    PercentOfRoot,
    Allocated,
    FileCount,
    DirCount,
    Mtime,
    Owner,
}

pub open spec fn column_label(c: ColumnKind) -> Seq<char> {
    match c {
        ColumnKind::Name => "Name"@,
        ColumnKind::Size => "Size"@,
        ColumnKind::PercentOfRoot => "%"@,
        ColumnKind::Allocated => "Allocated"@,
        ColumnKind::FileCount => "Files"@,
        ColumnKind::DirCount => "Dirs"@,
        ColumnKind::Mtime => "Modified"@,
        ColumnKind::Owner => "Owner"@,
    }
}

pub open spec fn column_sort_key(c: ColumnKind) -> SortKey {
    match c {
        ColumnKind::Name => SortKey::Name,
        ColumnKind::Size | ColumnKind::PercentOfRoot => SortKey::Size,
        ColumnKind::Allocated => SortKey::Allocated,
        ColumnKind::FileCount => SortKey::FileCount,
        ColumnKind::DirCount => SortKey::DirCount,
        ColumnKind::Mtime => SortKey::Mtime,
        ColumnKind::Owner => SortKey::Owner,
    }
}

impl ColumnKind {
    /// Header text of the column.
    pub fn label(self) -> (s: &'static str)
        ensures
            s@ == column_label(self),
    {
        match self {
            ColumnKind::Name => "Name",
            ColumnKind::Size => "Size",
            ColumnKind::PercentOfRoot => "%",
            ColumnKind::Allocated => "Allocated",
            ColumnKind::FileCount => "Files",
            ColumnKind::DirCount => "Dirs",
            ColumnKind::Mtime => "Modified",
            ColumnKind::Owner => "Owner",
        }
    }

    /// Sort key activated by this column's header (or number key).
    pub fn sort_key(self) -> (k: Option<SortKey>)
        ensures
            k == Some(column_sort_key(self)),
    {
        match self {
            ColumnKind::Name => Some(SortKey::Name),
            ColumnKind::Size | ColumnKind::PercentOfRoot => Some(SortKey::Size),
            ColumnKind::Allocated => Some(SortKey::Allocated),
            ColumnKind::FileCount => Some(SortKey::FileCount),
            ColumnKind::DirCount => Some(SortKey::DirCount),
            ColumnKind::Mtime => Some(SortKey::Mtime),
            ColumnKind::Owner => Some(SortKey::Owner),
        }
    }
}

/// A column header sorts by what that column shows: names by their
/// lowercased bytes, sizes and the share of the root by logical size,
/// allocated sizes by allocated bytes with unknown ones last, files and
/// directories by their counts, times and owners with unknown ones last.
pub proof fn lemma_header_sorts_by_its_column(c: ColumnKind, a: Node, b: Node, dir: SortDir)
    ensures
        c == ColumnKind::Name ==> node_order(a, b, column_sort_key(c), SortDir::Asc) == order_bytes(
            str_bytes(a.name_lower@),
            str_bytes(b.name_lower@),
        ),
        (c == ColumnKind::Size || c == ColumnKind::PercentOfRoot) && a.size_total < b.size_total ==> node_order(
            a,
            b,
            column_sort_key(c),
            SortDir::Asc,
        ) < 0 && node_order(a, b, column_sort_key(c), SortDir::Desc) > 0,
        c == ColumnKind::Allocated && a.alloc_total is Some && b.alloc_total is None ==> node_order(
            a,
            b,
            column_sort_key(c),
            dir,
        ) < 0,
        c == ColumnKind::Allocated && (a.alloc_total matches Some(x) && b.alloc_total matches Some(y) && x < y)
            ==> node_order(a, b, column_sort_key(c), SortDir::Asc) < 0 && node_order(a, b, column_sort_key(c), SortDir::Desc) > 0,
        c == ColumnKind::FileCount && a.file_count < b.file_count ==> node_order(a, b, column_sort_key(c), SortDir::Asc) < 0
            && node_order(a, b, column_sort_key(c), SortDir::Desc) > 0,
        c == ColumnKind::DirCount && a.dir_count < b.dir_count ==> node_order(a, b, column_sort_key(c), SortDir::Asc) < 0
            && node_order(a, b, column_sort_key(c), SortDir::Desc) > 0,
        c == ColumnKind::Mtime && a.mtime is Some && b.mtime is None ==> node_order(a, b, column_sort_key(c), dir) < 0,
        c == ColumnKind::Mtime && (a.mtime matches Some(x) && b.mtime matches Some(y) && x < y) ==> node_order(
            a,
            b,
            column_sort_key(c),
            SortDir::Asc,
        ) < 0 && node_order(a, b, column_sort_key(c), SortDir::Desc) > 0,
        c == ColumnKind::Owner && a.owner is Some && b.owner is None ==> node_order(a, b, column_sort_key(c), dir) < 0,
{
    lemma_numeric_keys_order_by_their_field(a, b, dir);
}

/// Display order of the columns shared by every front-end.
pub const COLUMNS: [ColumnKind; 8] = [
    ColumnKind::Name,
    ColumnKind::Size,
    ColumnKind::PercentOfRoot,
    ColumnKind::Allocated,
    ColumnKind::FileCount,
    ColumnKind::DirCount,
    ColumnKind::Mtime,
    ColumnKind::Owner,
];

/// Headline status of the most recent (or in-progress) scan.
#[derive(Debug)]
pub enum Status {
    Idle,
    Scanning,
    Done { elapsed: ElapsedTime, total_bytes: u64, file_count: u64, dir_count: u64 },
    Cancelled,
    Error(String),
}

impl Default for Status {
    fn default() -> (s: Status)
        ensures
            s is Idle,
    {
        Status::Idle
    }
}

/// A set of node ids (the rows the user has expanded).
#[derive(Debug, PartialEq, Eq)]
pub struct ExpandedSet {
    ids: HashSet<u32>,
}

impl View for ExpandedSet {
    type V = Set<NodeId>;

    closed spec fn view(&self) -> Set<NodeId> {
        Set::new(|id: NodeId| self.ids@.contains(id.0))
    }
}

impl ExpandedSet {
    pub fn new() -> (s: ExpandedSet)
        ensures
            s@ == Set::<NodeId>::empty(),
    {
        let s = ExpandedSet { ids: HashSet::new() };
        proof {
            assert(s@ =~= Set::<NodeId>::empty());
        }
        s
    }

    pub fn contains(&self, id: NodeId) -> (b: bool)
        ensures
            b == self@.contains(id),
    {
        broadcast use vstd::std_specs::hash::group_hash_axioms;
        self.ids.contains(&id.0)
    }

    /// Adds `id`; true when it was absent.
    pub fn insert(&mut self, id: NodeId) -> (b: bool)
        ensures
            final(self)@ == old(self)@.insert(id),
            b == !old(self)@.contains(id),
    {
        broadcast use vstd::std_specs::hash::group_hash_axioms;
        let b = self.ids.insert(id.0);
        proof {
            assert forall|x: NodeId| #[trigger] final(self)@.contains(x) == old(self)@.insert(id).contains(x) by {
                if x.0 == id.0 {
                    assert(x == id);
                }
            }
            assert(final(self)@ =~= old(self)@.insert(id));
        }
        b
    }

    /// Removes `id`; true when it was present.
    pub fn remove(&mut self, id: NodeId) -> (b: bool)
        ensures
            final(self)@ == old(self)@.remove(id),
            b == old(self)@.contains(id),
    {
        broadcast use vstd::std_specs::hash::group_hash_axioms;
        let b = self.ids.remove(&id.0);
        proof {
            assert forall|x: NodeId| #[trigger] final(self)@.contains(x) == old(self)@.remove(id).contains(x) by {
                if x.0 == id.0 {
                    assert(x == id);
                }
            }
            assert(final(self)@ =~= old(self)@.remove(id));
        }
        b
    }

    pub fn clear(&mut self)
        ensures
            final(self)@ == Set::<NodeId>::empty(),
    {
        broadcast use vstd::std_specs::hash::group_hash_axioms;
        self.ids.clear();
        proof {
            assert(final(self)@ =~= Set::<NodeId>::empty());
        }
    }

    pub fn is_empty(&self) -> (b: bool)
        ensures
            b == (self@ == Set::<NodeId>::empty()),
    {
        broadcast use vstd::std_specs::hash::group_hash_axioms;
        let b = self.ids.is_empty();
        proof {
            if b {
                assert(self@ =~= Set::<NodeId>::empty());
            } else {
                let x = choose|x: u32| self.ids@.contains(x);
                assert(self@.contains(NodeId(x)));
            }
        }
        b
    }
}

/// Calls `HashSet::clone`, which returns a set with the same elements.
#[verifier::external_body]
fn clone_id_set(s: &HashSet<u32>) -> (r: HashSet<u32>)
    ensures
        r@ == s@,
{
    s.clone()
}

impl Clone for ExpandedSet {
    fn clone(&self) -> (r: ExpandedSet)
        ensures
            r@ == self@,
    {
        ExpandedSet { ids: clone_id_set(&self.ids) }
    }
}

impl Default for ExpandedSet {
    fn default() -> (s: ExpandedSet)
        ensures
            s@ == Set::<NodeId>::empty(),
    {
        ExpandedSet::new()
    }
}

/// `s` with `id` removed if present, added if absent.
pub open spec fn toggled(s: Set<NodeId>, id: NodeId) -> Set<NodeId> {
    if s.contains(id) {
        s.remove(id)
    } else {
        s.insert(id)
    }
}

/// Toggling an id flips whether the set holds it and leaves every other
/// id as it was.
pub proof fn lemma_toggle_flips_only_its_id(s: Set<NodeId>, id: NodeId, other: NodeId)
    ensures
        toggled(s, id).contains(id) == !s.contains(id),
        other != id ==> toggled(s, id).contains(other) == s.contains(other),
{
}

/// Toggling the same id twice gives the set back.
pub proof fn lemma_toggle_twice(s: Set<NodeId>, id: NodeId)
    ensures
        toggled(toggled(s, id), id) == s,
{
    assert(toggled(toggled(s, id), id) =~= s);
}

/// Toggle a node's presence in the expanded set. Returns the new state
/// (`true` = now expanded).
pub fn toggle_expand(expanded: &mut ExpandedSet, id: NodeId) -> (now: bool)
    ensures
        now == !old(expanded)@.contains(id),
        final(expanded)@ == toggled(old(expanded)@, id),
{
    if expanded.remove(id) {
        false
    } else {
        proof {
            assert(old(expanded)@.remove(id) == old(expanded)@);
        }
        expanded.insert(id);
        true
    }
}

pub open spec fn chevron_text(has_children: bool, expanded: bool) -> Seq<char> {
    if !has_children {
        "  "@
    } else if expanded {
        "- "@
    } else {
        "+ "@
    }
}

/// Toggle glyph of a row: blank without children, `- ` when expanded,
/// `+ ` when collapsed.
pub fn chevron_glyph(has_children: bool, expanded: bool) -> (s: &'static str)
    ensures
        s@ == chevron_text(has_children, expanded),
{
    if !has_children {
        "  "
    } else if expanded {
        "- "
    } else {
        "+ "
    }
}

pub open spec fn errors_suffix(errors: u64) -> Seq<char> {
    if errors > 0 {
        " — "@ + decimal(errors as nat) + " i/o errors"@
    } else {
        Seq::empty()
    }
}

/// One-line status text for the header or status bar.
pub open spec fn status_text(status: Status, progress: Option<ScanProgress>) -> Seq<char> {
    match status {
        Status::Idle => "ready"@,
        Status::Scanning => match progress {
            Some(p) => "scanning... "@ + decimal(p.entries as nat) + " entries, "@ + humansize_binary(p.bytes)
                + " so far ("@ + p.current_path@ + ")"@ + errors_suffix(p.errors),
            None => "scanning..."@,
        },
        Status::Done { elapsed, total_bytes, file_count, dir_count } => "done in "@ + elapsed_text(
            elapsed.total_nanos() as nat,
        ) + " | "@ + humansize_binary(total_bytes) + " | "@ + decimal(file_count as nat) + " files, "@
            + decimal(dir_count as nat) + " dirs"@ + match progress {
            Some(p) => errors_suffix(p.errors),
            None => Seq::empty(),
        },
        Status::Cancelled => "cancelled"@,
        Status::Error(e) => "error: "@ + e@,
    }
}

/// The line for a finished scan states the scan's own byte total and its
/// own file and directory counts; a progress report passed along only adds
/// its i/o-error suffix, whatever else it holds.
pub proof fn lemma_done_line_states_its_own_counts(
    elapsed: ElapsedTime,
    total_bytes: u64,
    file_count: u64,
    dir_count: u64,
    p: ScanProgress,
    q: ScanProgress,
)
    ensures
        status_text(Status::Done { elapsed, total_bytes, file_count, dir_count }, Some(p)) == status_text(
            Status::Done { elapsed, total_bytes, file_count, dir_count },
            None,
        ) + errors_suffix(p.errors),
        p.errors == q.errors ==> status_text(Status::Done { elapsed, total_bytes, file_count, dir_count }, Some(p))
            == status_text(Status::Done { elapsed, total_bytes, file_count, dir_count }, Some(q)),
        exists|head: Seq<char>|
            status_text(Status::Done { elapsed, total_bytes, file_count, dir_count }, None) == head + " | "@
                + humansize_binary(total_bytes) + " | "@ + decimal(file_count as nat) + " files, "@ + decimal(
                dir_count as nat,
            ) + " dirs"@,
{
    let st = Status::Done { elapsed, total_bytes, file_count, dir_count };
    let head = "done in "@ + elapsed_text(elapsed.total_nanos() as nat);
    assert(status_text(st, None) == head + " | "@ + humansize_binary(total_bytes) + " | "@ + decimal(file_count as nat)
        + " files, "@ + decimal(dir_count as nat) + " dirs"@ + Seq::<char>::empty());
    assert(status_text(st, None) == head + " | "@ + humansize_binary(total_bytes) + " | "@ + decimal(file_count as nat)
        + " files, "@ + decimal(dir_count as nat) + " dirs"@);
}

/// The status texts: `ready` when idle; while scanning, the entry count,
/// bytes so far and current path of the last report (or just
/// `scanning...` before one), with its i/o-error suffix; `cancelled`; and
/// `error: ` before the message of an error.
pub proof fn lemma_status_texts(p: ScanProgress, e: String)
    ensures
        status_text(Status::Idle, Some(p)) == "ready"@ && status_text(Status::Idle, None) == "ready"@,
        status_text(Status::Scanning, None) == "scanning..."@,
        status_text(Status::Scanning, Some(p)) == "scanning... "@ + decimal(p.entries as nat) + " entries, "@
            + humansize_binary(p.bytes) + " so far ("@ + p.current_path@ + ")"@ + errors_suffix(p.errors),
        status_text(Status::Cancelled, Some(p)) == "cancelled"@ && status_text(Status::Cancelled, None) == "cancelled"@,
        status_text(Status::Error(e), Some(p)) == "error: "@ + e@ && status_text(Status::Error(e), None) == "error: "@
            + e@,
        p.errors == 0 ==> errors_suffix(p.errors).len() == 0,
        p.errors > 0 ==> errors_suffix(p.errors) == " — "@ + decimal(p.errors as nat) + " i/o errors"@,
{
}

fn push_errors_suffix(s: &mut String, errors: u64)
    ensures
        final(s)@ == old(s)@ + errors_suffix(errors),
{
    if errors > 0 {
        push_str(s, " — ");
        push_decimal(s, errors);
        push_str(s, " i/o errors");
    } else {
        proof {
            assert(old(s)@ + Seq::<char>::empty() == old(s)@);
        }
    }
}

/// One-line status text; see [`status_text`].
pub fn status_line(status: &Status, last_progress: Option<&ScanProgress>) -> (s: String)
    ensures
        s@ == status_text(
            *status,
            match last_progress {
                Some(p) => Some(*p),
                None => None,
            },
        ),
{
    match status {
        Status::Idle => String::from_str("ready"),
        Status::Scanning => match last_progress {
            Some(p) => {
                let mut s = String::from_str("scanning... ");
                push_decimal(&mut s, p.entries);
                push_str(&mut s, " entries, ");
                let b = bytes(p.bytes);
                push_str(&mut s, b.as_str());
                push_str(&mut s, " so far (");
                push_str(&mut s, p.current_path.as_str());
                push_str(&mut s, ")");
                push_errors_suffix(&mut s, p.errors);
                s
            },
            None => String::from_str("scanning..."),
        },
        Status::Done { elapsed: e, total_bytes, file_count, dir_count } => {
            let mut s = String::from_str("done in ");
            let et = elapsed(*e);
            push_str(&mut s, et.as_str());
            push_str(&mut s, " | ");
            let b = bytes(*total_bytes);
            push_str(&mut s, b.as_str());
            push_str(&mut s, " | ");
            push_decimal(&mut s, *file_count);
            push_str(&mut s, " files, ");
            push_decimal(&mut s, *dir_count);
            push_str(&mut s, " dirs");
            match last_progress {
                Some(p) => push_errors_suffix(&mut s, p.errors),
                None => {
                    proof {
                        assert(s@ + Seq::<char>::empty() == s@);
                    }
                },
            }
            s
        },
        Status::Cancelled => String::from_str("cancelled"),
        Status::Error(e) => {
            let mut s = String::from_str("error: ");
            push_str(&mut s, e.as_str());
            s
        },
    }
}

/// The lowercased name of `n` contains `needle`.
pub open spec fn name_matches(n: Node, needle: Seq<char>) -> bool {
    has_substring(str_bytes(n.name_lower@), str_bytes(needle))
}

/// Some node in the subtree rooted at `i` (the node itself included) has
/// a name that matches `needle`.
pub open spec fn subtree_has_match(nodes: Seq<Node>, i: int, needle: Seq<char>) -> bool {
    exists|x: NodeId| #[trigger] preorder(nodes, i).contains(x) && name_matches(nodes[x.index()], needle)
}

/// For every node: whether it matches or has a matching descendant.
pub open spec fn match_mask(nodes: Seq<Node>, needle: Seq<char>) -> Seq<bool> {
    Seq::new(nodes.len(), |i: int| subtree_has_match(nodes, i, needle))
}

pub proof fn lemma_subtree_match_step(nodes: Seq<Node>, i: int, needle: Seq<char>)
    requires
        0 <= i < nodes.len(),
        node_ok(nodes, i),
        nodes.len() <= u32::MAX,
    ensures
        subtree_has_match(nodes, i, needle) <==> (name_matches(nodes[i], needle) || exists|k: int|
            0 <= k < nodes[i].children@.len() && #[trigger] subtree_has_match(
                nodes,
                nodes[i].children@[k].index(),
                needle,
            )),
{
    let kids = nodes[i].children@;
    let pl = preorder_list(nodes, kids, i);
    let me = NodeId(i as u32);
    assert(preorder(nodes, i) == seq![me] + pl);
    if subtree_has_match(nodes, i, needle) {
        let x = choose|x: NodeId| #[trigger] preorder(nodes, i).contains(x) && name_matches(nodes[x.index()], needle);
        let m = choose|m: int| 0 <= m < preorder(nodes, i).len() && preorder(nodes, i)[m] == x;
        if m == 0 {
            assert(x == me);
        } else {
            assert(pl[m - 1] == x);
            assert(pl.contains(x));
            lemma_preorder_list_contains(nodes, kids, i, x);
            let k = choose|k: int| 0 <= k < kids.len() && #[trigger] preorder(nodes, kids[k].index()).contains(x);
            assert(subtree_has_match(nodes, kids[k].index(), needle));
        }
    }
    if name_matches(nodes[i], needle) {
        assert(preorder(nodes, i)[0] == me);
        assert(preorder(nodes, i).contains(me));
    }
    if exists|k: int| 0 <= k < kids.len() && #[trigger] subtree_has_match(nodes, kids[k].index(), needle) {
        let k = choose|k: int| 0 <= k < kids.len() && #[trigger] subtree_has_match(nodes, kids[k].index(), needle);
        let x = choose|x: NodeId| #[trigger] preorder(nodes, kids[k].index()).contains(x) && name_matches(nodes[x.index()], needle);
        lemma_preorder_list_contains(nodes, kids, i, x);
        assert(pl.contains(x));
        let m = choose|m: int| 0 <= m < pl.len() && pl[m] == x;
        assert(preorder(nodes, i)[m + 1] == x);
        assert(preorder(nodes, i).contains(x));
    }
}

/// For every node id: whether the node's subtree holds a node whose
/// lowercased name contains `needle` (a match and all its ancestors).
fn compute_subtree_matches(tree: &Tree, needle: &str) -> (mask: Vec<bool>)
    requires
        tree.wf(),
    ensures
        mask@ == match_mask(tree.nodes(), needle@),
{
    let ghost nodes = tree.nodes();
    let n = tree.len();
    let nb = needle.as_bytes();
    let mut mask: Vec<bool> = Vec::new();
    let mut i: usize = 0;
    while i < n
        invariant
            n == nodes.len(),
            nodes == tree.nodes(),
            tree.wf(),
            nb@ == str_bytes(needle@),
            i <= n,
            mask@.len() == i,
            forall|j: int| 0 <= j < i ==> mask@[j] == name_matches(#[trigger] nodes[j], needle@),
        decreases n - i,
    {
        let node = tree.node(NodeId(i as u32));
        let m = contains_bytes(node.name_lower.as_str().as_bytes(), nb);
        mask.push(m);
        i = i + 1;
    }
    let mut i: usize = n;
    proof {
        assert forall|j: int| 0 <= j < n implies mask@[j] == (name_matches(#[trigger] nodes[j], needle@) || exists|k: int|
            0 <= k < nodes[j].children@.len() && nodes[j].children@[k].index() >= n
                && #[trigger] subtree_has_match(nodes, nodes[j].children@[k].index(), needle@)) by {
            assert(node_ok(nodes, j));
        }
    }
    while i > 0
        invariant
            n == nodes.len(),
            nodes == tree.nodes(),
            tree.wf(),
            i <= n,
            mask@.len() == n,
            forall|j: int| i <= j < n ==> mask@[j] == #[trigger] subtree_has_match(nodes, j, needle@),
            forall|j: int|
                0 <= j < i ==> mask@[j] == (name_matches(#[trigger] nodes[j], needle@) || exists|k: int|
                    0 <= k < nodes[j].children@.len() && nodes[j].children@[k].index() >= i
                        && #[trigger] subtree_has_match(nodes, nodes[j].children@[k].index(), needle@)),
        decreases i,
    {
        i = i - 1;
        let ghost j = i as int;
        proof {
            assert(node_ok(nodes, j));
            lemma_subtree_match_step(nodes, j, needle@);
            assert(mask@[j] == subtree_has_match(nodes, j, needle@));
        }
        if i > 0 && mask[i] {
            let p = tree.node(NodeId(i as u32)).parent.unwrap();
            let ghost old_mask = mask@;
            proof {
                assert(node_ok(nodes, p.index()));
                assert(nodes[p.index()].children@.contains(NodeId(i as u32)));
            }
            mask.set(p.0 as usize, true);
            proof {
                assert forall|q: int| 0 <= q < j implies mask@[q] == (name_matches(#[trigger] nodes[q], needle@) || exists|k: int|
                    0 <= k < nodes[q].children@.len() && nodes[q].children@[k].index() >= j
                        && #[trigger] subtree_has_match(nodes, nodes[q].children@[k].index(), needle@)) by {
                    assert(node_ok(nodes, q));
                    if q == p.index() {
                        let k = choose|k: int| 0 <= k < nodes[q].children@.len() && nodes[q].children@[k] == NodeId(i as u32);
                        assert(nodes[q].children@[k].index() == j);
                    } else {
                        assert(mask@[q] == old_mask[q]);
                        if exists|k: int| 0 <= k < nodes[q].children@.len() && nodes[q].children@[k].index() >= j
                            && #[trigger] subtree_has_match(nodes, nodes[q].children@[k].index(), needle@) {
                            let k = choose|k: int| 0 <= k < nodes[q].children@.len() && nodes[q].children@[k].index() >= j
                                && #[trigger] subtree_has_match(nodes, nodes[q].children@[k].index(), needle@);
                            if nodes[q].children@[k].index() == j {
                                assert(nodes[j].parent == Some(NodeId(q as u32)));
                                assert(false);
                            }
                        }
                    }
                }
            }
        } else {
            proof {
                assert forall|q: int| 0 <= q < j implies mask@[q] == (name_matches(#[trigger] nodes[q], needle@) || exists|k: int|
                    0 <= k < nodes[q].children@.len() && nodes[q].children@[k].index() >= j
                        && #[trigger] subtree_has_match(nodes, nodes[q].children@[k].index(), needle@)) by {
                    assert(node_ok(nodes, q));
                    if exists|k: int| 0 <= k < nodes[q].children@.len() && nodes[q].children@[k].index() >= j
                        && #[trigger] subtree_has_match(nodes, nodes[q].children@[k].index(), needle@) {
                        let k = choose|k: int| 0 <= k < nodes[q].children@.len() && nodes[q].children@[k].index() >= j
                            && #[trigger] subtree_has_match(nodes, nodes[q].children@[k].index(), needle@);
                        if nodes[q].children@[k].index() == j {
                            assert(j > 0);
                            assert(!mask@[j]);
                            assert(false);
                        }
                    }
                }
            }
        }
    }
    proof {
        assert(mask@ =~= match_mask(nodes, needle@));
    }
    mask
}

pub open spec fn row_shown(filter: Option<Seq<bool>>, i: int) -> bool {
    match filter {
        Some(m) => m[i],
        None => true,
    }
}

/// Rows shown for the subtree rooted at `i`: nothing when the filter hides
/// the node; otherwise the node itself and, when it is expanded or a filter
/// is active, the rows of its children in sorted order.
pub open spec fn rows_of(
    nodes: Seq<Node>,
    i: int,
    expanded: Set<NodeId>,
    key: SortKey,
    dir: SortDir,
    filter: Option<Seq<bool>>,
) -> Seq<RowEntry>
    decreases nodes.len() - i, 1int, 0int,
{
    if !row_shown(filter, i) {
        Seq::empty()
    } else {
        seq![RowEntry { id: NodeId(i as u32), depth: node_depth(nodes, i) as u16 }] + if expanded.contains(
            NodeId(i as u32),
        ) || filter is Some {
            rows_list(nodes, stable_sorted(nodes, nodes[i].children@, key, dir), i, expanded, key, dir, filter)
        } else {
            Seq::empty()
        }
    }
}

/// Concatenated rows of the subtrees rooted at `kids`.
pub open spec fn rows_list(
    nodes: Seq<Node>,
    kids: Seq<NodeId>,
    parent: int,
    expanded: Set<NodeId>,
    key: SortKey,
    dir: SortDir,
    filter: Option<Seq<bool>>,
) -> Seq<RowEntry>
    decreases nodes.len() - parent, 0int, kids.len(),
{
    if kids.len() == 0 {
        Seq::empty()
    } else {
        let k = kids.last().index();
        rows_list(nodes, kids.drop_last(), parent, expanded, key, dir, filter) + if parent < k < nodes.len() {
            rows_of(nodes, k, expanded, key, dir, filter)
        } else {
            Seq::empty()
        }
    }
}

/// The rows of the whole tree, or none for an empty tree.
pub open spec fn visible_rows_of(
    nodes: Seq<Node>,
    expanded: Set<NodeId>,
    key: SortKey,
    dir: SortDir,
    filter: Option<Seq<bool>>,
) -> Seq<RowEntry> {
    if nodes.len() == 0 {
        Seq::empty()
    } else {
        rows_of(nodes, 0, expanded, key, dir, filter)
    }
}

proof fn lemma_rows_list_append(
    nodes: Seq<Node>,
    a: Seq<NodeId>,
    b: Seq<NodeId>,
    parent: int,
    expanded: Set<NodeId>,
    key: SortKey,
    dir: SortDir,
    filter: Option<Seq<bool>>,
)
    ensures
        rows_list(nodes, a + b, parent, expanded, key, dir, filter) == rows_list(nodes, a, parent, expanded, key, dir, filter)
            + rows_list(nodes, b, parent, expanded, key, dir, filter),
    decreases b.len(),
{
    if b.len() == 0 {
        assert(a + b == a);
    } else {
        lemma_rows_list_append(nodes, a, b.drop_last(), parent, expanded, key, dir, filter);
        assert((a + b).drop_last() == a + b.drop_last());
        assert((a + b).last() == b.last());
    }
}

proof fn lemma_rows_list_parent(
    nodes: Seq<Node>,
    kids: Seq<NodeId>,
    p1: int,
    p2: int,
    expanded: Set<NodeId>,
    key: SortKey,
    dir: SortDir,
    filter: Option<Seq<bool>>,
)
    requires
        forall|k: int| 0 <= k < kids.len() ==> p1 < (#[trigger] kids[k]).index() < nodes.len() && p2 < kids[k].index(),
    ensures
        rows_list(nodes, kids, p1, expanded, key, dir, filter) == rows_list(nodes, kids, p2, expanded, key, dir, filter),
    decreases kids.len(),
{
    if kids.len() > 0 {
        lemma_rows_list_parent(nodes, kids.drop_last(), p1, p2, expanded, key, dir, filter);
        assert(kids.last() == kids[kids.len() - 1]);
    }
}

proof fn lemma_rows_list_cons(
    nodes: Seq<Node>,
    x: NodeId,
    rest: Seq<NodeId>,
    parent: int,
    expanded: Set<NodeId>,
    key: SortKey,
    dir: SortDir,
    filter: Option<Seq<bool>>,
)
    requires
        parent < x.index() < nodes.len(),
    ensures
        rows_list(nodes, seq![x] + rest, parent, expanded, key, dir, filter) == rows_of(nodes, x.index(), expanded, key, dir, filter)
            + rows_list(nodes, rest, parent, expanded, key, dir, filter),
{
    lemma_rows_list_append(nodes, seq![x], rest, parent, expanded, key, dir, filter);
    assert(seq![x].drop_last().len() == 0);
    assert(rows_list(nodes, seq![x].drop_last(), parent, expanded, key, dir, filter) == Seq::<RowEntry>::empty());
}

proof fn lemma_pop_step(
    nodes: Seq<Node>,
    x: NodeId,
    rest: Seq<NodeId>,
    expanded: Set<NodeId>,
    key: SortKey,
    dir: SortDir,
    filter: Option<Seq<bool>>,
)
    requires
        tree_wf_and_valid(nodes, x.index()),
    ensures
        rows_list(nodes, seq![x] + rest, -1, expanded, key, dir, filter) == rows_of(nodes, x.index(), expanded, key, dir, filter)
            + rows_list(nodes, rest, -1, expanded, key, dir, filter),
        subtrees_weight(nodes, seq![x] + rest) == subtrees_weight(nodes, rest) + 1 + subtrees_weight(
            nodes,
            nodes[x.index()].children@,
        ),
        subtrees_weight(nodes, nodes[x.index()].children@) >= 0,
{
    let xi = x.index();
    lemma_rows_list_cons(nodes, x, rest, -1, expanded, key, dir, filter);
    lemma_weight_append(nodes, seq![x], rest);
    assert(seq![x].drop_last() == Seq::<NodeId>::empty());
    assert(seq![x].last() == x);
    assert(subtrees_weight(nodes, Seq::<NodeId>::empty()) == 0);
    assert(subtrees_weight(nodes, seq![x]) == preorder(nodes, xi).len());
    assert(node_ok(nodes, xi));
    assert(preorder(nodes, xi) == seq![x] + preorder_list(nodes, nodes[xi].children@, xi));
    lemma_weight_is_preorder_len(nodes, nodes[xi].children@, xi);
    lemma_weight_nonneg(nodes, rest);
    lemma_weight_nonneg(nodes, nodes[xi].children@);
}

/// Without a filter, every id of `kids` starts a row of theirs.
proof fn lemma_rows_list_shows_kids(
    nodes: Seq<Node>,
    kids: Seq<NodeId>,
    parent: int,
    expanded: Set<NodeId>,
    key: SortKey,
    dir: SortDir,
)
    requires
        forall|k: int| 0 <= k < kids.len() ==> parent < (#[trigger] kids[k]).index() < nodes.len(),
    ensures
        forall|k: int|
            0 <= k < kids.len() ==> exists|j: int|
                0 <= j < rows_list(nodes, kids, parent, expanded, key, dir, None).len()
                    && (#[trigger] rows_list(nodes, kids, parent, expanded, key, dir, None)[j]).id == #[trigger] kids[k],
    decreases kids.len(),
{
    if kids.len() > 0 {
        let d = kids.drop_last();
        let last = kids.last();
        assert(last == kids[kids.len() - 1]);
        assert forall|k: int| 0 <= k < d.len() implies parent < (#[trigger] d[k]).index() < nodes.len() by {
            assert(d[k] == kids[k]);
        }
        lemma_rows_list_shows_kids(nodes, d, parent, expanded, key, dir);
        let r1 = rows_list(nodes, d, parent, expanded, key, dir, None);
        let r2 = rows_of(nodes, last.index(), expanded, key, dir, None);
        let all = rows_list(nodes, kids, parent, expanded, key, dir, None);
        assert(all == r1 + r2);
        assert(r2[0].id == last);
        assert forall|k: int| 0 <= k < kids.len() implies exists|j: int|
            0 <= j < all.len() && (#[trigger] all[j]).id == #[trigger] kids[k] by {
            if k < d.len() {
                assert(d[k] == kids[k]);
                let j = choose|j: int| 0 <= j < r1.len() && (#[trigger] r1[j]).id == d[k];
                assert(all[j] == r1[j]);
            } else {
                assert(all[r1.len() as int] == r2[0]);
            }
        }
    }
}

/// Without a filter, a non-empty tree's rows start with the root at depth
/// 0, and when the root is expanded every child of the root has a row.
pub proof fn lemma_root_rows(nodes: Seq<Node>, expanded: Set<NodeId>, key: SortKey, dir: SortDir)
    requires
        crate::tree::tree_wf(nodes),
        nodes.len() > 0,
    ensures
        visible_rows_of(nodes, expanded, key, dir, None).len() >= 1,
        visible_rows_of(nodes, expanded, key, dir, None)[0] == (RowEntry { id: NodeId(0), depth: 0 }),
        expanded.contains(NodeId(0)) ==> forall|k: int|
            0 <= k < nodes[0].children@.len() ==> exists|j: int|
                0 <= j < visible_rows_of(nodes, expanded, key, dir, None).len()
                    && (#[trigger] visible_rows_of(nodes, expanded, key, dir, None)[j]).id == #[trigger] nodes[0].children@[k],
{
    let rows = visible_rows_of(nodes, expanded, key, dir, None);
    assert(node_depth(nodes, 0) == 0);
    assert(rows[0] == (RowEntry { id: NodeId(0), depth: 0 }));
    if expanded.contains(NodeId(0)) {
        let kids = nodes[0].children@;
        let sk = stable_sorted(nodes, kids, key, dir);
        assert(node_ok(nodes, 0));
        lemma_stable_sorted_contents(nodes, kids, key, dir);
        assert forall|k: int| 0 <= k < sk.len() implies 0 < (#[trigger] sk[k]).index() < nodes.len() by {
            assert(sk.contains(sk[k]));
            assert(kids.contains(sk[k]));
        }
        lemma_rows_list_shows_kids(nodes, sk, 0, expanded, key, dir);
        let tail = rows_list(nodes, sk, 0, expanded, key, dir, None);
        assert(rows == seq![RowEntry { id: NodeId(0), depth: 0 }] + tail);
        assert forall|k: int| 0 <= k < kids.len() implies exists|j: int|
            0 <= j < rows.len() && (#[trigger] rows[j]).id == #[trigger] kids[k] by {
            assert(kids.contains(kids[k]));
            assert(sk.contains(kids[k]));
            let m = choose|m: int| 0 <= m < sk.len() && sk[m] == kids[k];
            let j = choose|j: int| 0 <= j < tail.len() && (#[trigger] tail[j]).id == sk[m];
            assert(rows[j + 1] == tail[j]);
        }
    }
}

pub open spec fn tree_wf_and_valid(nodes: Seq<Node>, i: int) -> bool {
    &&& crate::tree::tree_wf(nodes)
    &&& 0 <= i < nodes.len()
}

proof fn lemma_push_children_step(
    nodes: Seq<Node>,
    x: NodeId,
    sk: Seq<NodeId>,
    rest: Seq<NodeId>,
    expanded: Set<NodeId>,
    key: SortKey,
    dir: SortDir,
    filter: Option<Seq<bool>>,
)
    requires
        tree_wf_and_valid(nodes, x.index()),
        sk == stable_sorted(nodes, nodes[x.index()].children@, key, dir),
        forall|k: int| 0 <= k < sk.len() ==> x.index() < (#[trigger] sk[k]).index() < nodes.len(),
    ensures
        rows_list(nodes, sk + rest, -1, expanded, key, dir, filter) == rows_list(nodes, sk, x.index(), expanded, key, dir, filter)
            + rows_list(nodes, rest, -1, expanded, key, dir, filter),
        subtrees_weight(nodes, sk + rest) == subtrees_weight(nodes, nodes[x.index()].children@) + subtrees_weight(nodes, rest),
{
    lemma_rows_list_parent(nodes, sk, x.index(), -1, expanded, key, dir, filter);
    lemma_rows_list_append(nodes, sk, rest, -1, expanded, key, dir, filter);
    lemma_weight_append(nodes, sk, rest);
    lemma_stable_sorted_weight(nodes, nodes[x.index()].children@, key, dir);
}

/// Flatten the tree into `rows`, in pre-order, following the expansion set,
/// the sort and the filter mask.
#[verifier::rlimit(60)]
fn flatten_rows(
    tree: &Tree,
    expanded: &ExpandedSet,
    key: SortKey,
    dir: SortDir,
    filter: Option<&Vec<bool>>,
    rows: &mut Vec<RowEntry>,
)
    requires
        tree.wf(),
        depth_bounded(tree.nodes()),
        tree.nodes().len() > 0,
        filter matches Some(m) ==> m@.len() == tree.nodes().len(),
        old(rows)@.len() == 0,
    ensures
        final(rows)@ == rows_of(
            tree.nodes(),
            0,
            expanded@,
            key,
            dir,
            match filter {
                Some(m) => Some(m@),
                None => None,
            },
        ),
{
    let ghost nodes = tree.nodes();
    let ghost fv: Option<Seq<bool>> = match filter {
        Some(m) => Some(m@),
        None => None,
    };
    let ghost ex = expanded@;
    let ghost total = rows_of(nodes, 0, ex, key, dir, fv);
    let mut stack: Vec<(NodeId, u16)> = Vec::new();
    stack.push((NodeId(0), 0));
    let ghost mut pending: Seq<NodeId> = seq![NodeId(0)];
    proof {
        lemma_rows_list_cons(nodes, NodeId(0), Seq::empty(), -1, ex, key, dir, fv);
        assert(seq![NodeId(0)] + Seq::<NodeId>::empty() == seq![NodeId(0)]);
        assert(rows@ + rows_list(nodes, pending, -1, ex, key, dir, fv) == total);
    }
    while stack.len() > 0
        invariant
            tree.wf(),
            nodes == tree.nodes(),
            depth_bounded(nodes),
            ex == expanded@,
            fv == match filter {
                Some(m) => Some(m@),
                None => None,
            },
            filter matches Some(m) ==> m@.len() == nodes.len(),
            stack@.len() == pending.len(),
            forall|k: int| 0 <= k < pending.len() ==> (#[trigger] stack@[k]).0 == pending[pending.len() - 1 - k],
            forall|k: int| 0 <= k < pending.len() ==> (#[trigger] stack@[k]).1 as int == node_depth(nodes, stack@[k].0.index()),
            forall|k: int| 0 <= k < pending.len() ==> -1 < (#[trigger] pending[k]).index() < nodes.len(),
            rows@ + rows_list(nodes, pending, -1, ex, key, dir, fv) == total,
        decreases subtrees_weight(nodes, pending),
    {
        let ghost stack_before = stack@;
        let ghost w0 = subtrees_weight(nodes, pending);
        let (x, depth) = stack.pop().unwrap();
        let ghost rest = pending.drop_first();
        let ghost popped = stack@;
        let ghost xi = x.index();
        proof {
            assert(stack_before[stack_before.len() - 1] == (x, depth));
            assert(x == pending[0]);
            assert(pending == seq![x] + rest);
            lemma_pop_step(nodes, x, rest, ex, key, dir, fv);
            assert forall|k: int| 0 <= k < popped.len() implies #[trigger] popped[k] == stack_before[k] by {}
        }
        let shown = match filter {
            Some(m) => m[x.0 as usize],
            None => true,
        };
        if !shown {
            proof {
                assert(rows_of(nodes, xi, ex, key, dir, fv) == Seq::<RowEntry>::empty());
                assert(rows@ + rows_list(nodes, rest, -1, ex, key, dir, fv) == total);
                assert forall|k: int| 0 <= k < rest.len() implies (#[trigger] stack@[k]).0 == rest[rest.len() - 1 - k] by {
                    assert(stack@[k] == stack_before[k]);
                }
                assert forall|k: int| 0 <= k < rest.len() implies (#[trigger] stack@[k]).1 as int == node_depth(nodes, stack@[k].0.index()) by {
                    assert(stack@[k] == stack_before[k]);
                }
                pending = rest;
                assert(subtrees_weight(nodes, pending) < w0);
                lemma_weight_nonneg(nodes, pending);
            }
        } else {
            rows.push(RowEntry { id: x, depth });
            let open = expanded.contains(x) || filter.is_some();
            let node = tree.node(x);
            let ghost kids = nodes[xi].children@;
            if open {
                proof {
                    assert(node_ok(nodes, xi));
                    assert(ids_valid(nodes, kids));
                }
                let children = tree.sorted_ids(&node.children, key, dir);
                let ghost sk = children@;
                proof {
                    lemma_stable_sorted_contents(nodes, kids, key, dir);
                    assert forall|k: int| 0 <= k < sk.len() implies xi < (#[trigger] sk[k]).index() < nodes.len()
                        && nodes[sk[k].index()].parent == Some(x) by {
                        assert(sk.contains(sk[k]));
                        assert(kids.contains(sk[k]));
                    }
                }
                let mut c = children.len();
                while c > 0
                    invariant
                        nodes == tree.nodes(),
                        tree.wf(),
                        depth_bounded(nodes),
                        c <= sk.len(),
                        sk == children@,
                        0 <= xi < nodes.len(),
                        x.index() == xi,
                        depth as int == node_depth(nodes, xi),
                        forall|k: int| 0 <= k < sk.len() ==> xi < (#[trigger] sk[k]).index() < nodes.len()
                            && nodes[sk[k].index()].parent == Some(x),
                        stack@.len() == popped.len() + (sk.len() - c),
                        forall|k: int| 0 <= k < popped.len() ==> #[trigger] stack@[k] == popped[k],
                        forall|k: int| 0 <= k < sk.len() - c ==> (#[trigger] stack@[popped.len() + k]).0 == sk[sk.len() - 1 - k],
                        forall|k: int| 0 <= k < sk.len() - c ==> (#[trigger] stack@[popped.len() + k]).1 as int == node_depth(nodes, sk[sk.len() - 1 - k].index()),
                    decreases c,
                {
                    c = c - 1;
                    let ch = children[c];
                    proof {
                        assert(node_depth(nodes, ch.index()) == node_depth(nodes, xi) + 1);
                        assert(node_depth(nodes, ch.index()) <= u16::MAX);
                    }
                    stack.push((ch, depth + 1));
                }
                proof {
                    lemma_push_children_step(nodes, x, sk, rest, ex, key, dir, fv);
                    let m = rest.len();
                    assert forall|j: int| 0 <= j < sk.len() + m implies (#[trigger] stack@[j]).0 == (sk + rest)[sk.len() + m - 1 - j]
                        && stack@[j].1 as int == node_depth(nodes, stack@[j].0.index()) by {
                        if j < m {
                            assert(stack@[j] == popped[j]);
                            assert(popped[j] == stack_before[j]);
                        } else {
                            let k = j - m;
                            assert(stack@[m + k].0 == sk[sk.len() - 1 - k]);
                        }
                    }
                    pending = sk + rest;
                    assert(rows@ + rows_list(nodes, pending, -1, ex, key, dir, fv) == total);
                    assert(subtrees_weight(nodes, pending) < w0);
                lemma_weight_nonneg(nodes, pending);
                }
            } else {
                proof {
                    assert(rows_of(nodes, xi, ex, key, dir, fv) == seq![RowEntry { id: x, depth }]);
                    assert(rows@ + rows_list(nodes, rest, -1, ex, key, dir, fv) == total);
                    assert forall|k: int| 0 <= k < rest.len() implies (#[trigger] stack@[k]).0 == rest[rest.len() - 1 - k] by {
                        assert(stack@[k] == stack_before[k]);
                    }
                    assert forall|k: int| 0 <= k < rest.len() implies (#[trigger] stack@[k]).1 as int == node_depth(nodes, stack@[k].0.index()) by {
                        assert(stack@[k] == stack_before[k]);
                    }
                    pending = rest;
                    assert(subtrees_weight(nodes, pending) < w0);
                lemma_weight_nonneg(nodes, pending);
                }
            }
        }
    }
    proof {
        assert(pending.len() == 0);
        assert(rows@ + Seq::<RowEntry>::empty() == rows@);
    }
}

/// Memoised search matches: the needle they were computed for, the size of
/// the tree at the time, and the per-node match mask.
#[derive(Debug)]
pub struct SearchCache {
    needle: String,
    tree_len: usize,
    matches: Vec<bool>,
}

impl SearchCache {
    #[verifier::type_invariant]
    spec fn inv(self) -> bool {
        self.matches@.len() == self.tree_len
    }

    pub closed spec fn needle_view(self) -> Seq<char> {
        self.needle@
    }

    pub closed spec fn len_view(self) -> usize {
        self.tree_len
    }

    pub closed spec fn matches_view(self) -> Seq<bool> {
        self.matches@
    }

    /// The lowercased needle the cache was built for.
    pub fn needle(&self) -> (r: &str)
        ensures
            r@ == self.needle_view(),
    {
        self.needle.as_str()
    }

    /// Number of nodes of the tree the cache was built for.
    pub fn tree_len(&self) -> (r: usize)
        ensures
            r == self.len_view(),
    {
        self.tree_len
    }

    /// Per node id: the node matches or has a matching descendant.
    pub fn matches(&self) -> (r: &Vec<bool>)
        ensures
            r@ == self.matches_view(),
    {
        &self.matches
    }
}

/// View state that survives across frames.
#[derive(Debug)]
pub struct UiState {
    pub expanded: ExpandedSet,
    pub selected: Option<NodeId>,
    pub sort_key: SortKey,
    pub sort_dir: SortDir,
    pub search: String,
    pub visible_rows: Vec<RowEntry>,
    /// The most recent progress report of the scan.
    pub last_progress: Option<ScanProgress>,
    /// `visible_rows` no longer reflects the state and must be rebuilt.
    pub rows_dirty: bool,
    /// Search matches reused while the needle and the tree size are
    /// unchanged.
    pub search_cache: Option<SearchCache>,
}

/// A freshly reset view state that keeps the given search and sort.
pub open spec fn reset_state(s: UiState, search: Seq<char>, key: SortKey, dir: SortDir) -> bool {
    &&& s.expanded@ == Set::<NodeId>::empty()
    &&& s.selected is None
    &&& s.sort_key == key
    &&& s.sort_dir == dir
    &&& s.search@ == search
    &&& s.visible_rows@.len() == 0
    &&& s.last_progress is None
    &&& !s.rows_dirty
    &&& s.search_cache is None
}

impl Default for UiState {
    fn default() -> (s: UiState)
        ensures
            reset_state(s, Seq::empty(), SortKey::Size, SortDir::Desc),
    {
        UiState {
            expanded: ExpandedSet::new(),
            selected: None,
            sort_key: SortKey::Size,
            sort_dir: SortDir::Desc,
            search: String::new(),
            visible_rows: Vec::new(),
            last_progress: None,
            rows_dirty: false,
            search_cache: None,
        }
    }
}

impl UiState {
    /// Drop the search-match memo (callers do this when they replace the
    /// tree).
    pub fn invalidate_search_cache(&mut self)
        ensures
            final(self).search_cache is None,
            final(self).expanded == old(self).expanded,
            final(self).selected == old(self).selected,
            final(self).sort_key == old(self).sort_key,
            final(self).sort_dir == old(self).sort_dir,
            final(self).search == old(self).search,
            final(self).visible_rows == old(self).visible_rows,
            final(self).last_progress == old(self).last_progress,
            final(self).rows_dirty == old(self).rows_dirty,
    {
        self.search_cache = None;
    }

    /// Reset the view state for a fresh scan, keeping only the search
    /// string and the sort column and direction.
    pub fn reset_for_new_scan(&mut self)
        ensures
            reset_state(*final(self), old(self).search@, old(self).sort_key, old(self).sort_dir),
    {
        let mut preserved_search = String::new();
        std::mem::swap(&mut preserved_search, &mut self.search);
        let preserved_sort_key = self.sort_key;
        let preserved_sort_dir = self.sort_dir;
        *self = UiState::default();
        self.search = preserved_search;
        self.sort_key = preserved_sort_key;
        self.sort_dir = preserved_sort_dir;
    }
}

/// The search needle: the search string trimmed and lowercased; empty when
/// the trimmed string is empty.
pub open spec fn search_needle(search: Seq<char>) -> Seq<char> {
    if trimmed(search).len() == 0 {
        Seq::empty()
    } else {
        lowercase_of(trimmed(search))
    }
}

/// A string of whitespace only trims to nothing from the front.
proof fn lemma_blank_trims_start(s: Seq<char>)
    requires
        forall|i: int| 0 <= i < s.len() ==> is_unicode_whitespace(#[trigger] s[i]),
    ensures
        trimmed_start(s).len() == 0,
    decreases s.len(),
{
    if s.len() > 0 {
        assert forall|i: int| 0 <= i < s.drop_first().len() implies is_unicode_whitespace(
            #[trigger] s.drop_first()[i],
        ) by {
            assert(s.drop_first()[i] == s[i + 1]);
        }
        lemma_blank_trims_start(s.drop_first());
    }
}

/// A search of whitespace only (the empty search among them) filters
/// nothing: the rows are the unfiltered tree, whatever the cache holds.
pub proof fn lemma_blank_search_is_unfiltered(cache: Option<SearchCache>, nodes: Seq<Node>, search: Seq<char>)
    requires
        forall|i: int| 0 <= i < search.len() ==> is_unicode_whitespace(#[trigger] search[i]),
    ensures
        search_needle(search).len() == 0,
        filter_used(cache, nodes, search) is None,
{
    lemma_blank_trims_start(search);
    assert(trimmed(search) == trimmed_end(trimmed_start(search)));
}

/// The cache holds matches for this needle and this tree size.
pub open spec fn cache_hit(cache: Option<SearchCache>, needle: Seq<char>, len: int) -> bool {
    &&& cache is Some
    &&& cache->0.needle_view() == needle
    &&& cache->0.len_view() == len
}

/// The match mask a rebuild uses: the cached one on a hit, else a fresh one.
pub open spec fn mask_used(cache: Option<SearchCache>, nodes: Seq<Node>, needle: Seq<char>) -> Seq<bool> {
    if cache_hit(cache, needle, nodes.len() as int) {
        cache->0.matches_view()
    } else {
        match_mask(nodes, needle)
    }
}

/// The filter a rebuild applies: none for an empty needle.
pub open spec fn filter_used(cache: Option<SearchCache>, nodes: Seq<Node>, search: Seq<char>) -> Option<Seq<bool>> {
    let needle = search_needle(search);
    if needle.len() == 0 {
        None
    } else {
        Some(mask_used(cache, nodes, needle))
    }
}

/// A cache entry built for a tree of this size holds that tree's matches.
pub open spec fn cache_consistent(cache: Option<SearchCache>, nodes: Seq<Node>) -> bool {
    cache matches Some(c) ==> (c.len_view() == nodes.len() ==> c.matches_view() == match_mask(nodes, c.needle_view()))
}

/// Re-flatten the tree into `visible_rows` according to the expansion set,
/// the sort and the search. While a search is active, matching nodes and
/// their ancestors are shown expanded for this flatten only: the expansion
/// set is not changed.
pub fn rebuild_visible_rows(tree: &Tree, state: &mut UiState)
    requires
        depth_bounded(tree.nodes()),
    ensures
        final(state).visible_rows@ == visible_rows_of(
            tree.nodes(),
            old(state).expanded@,
            old(state).sort_key,
            old(state).sort_dir,
            filter_used(old(state).search_cache, tree.nodes(), old(state).search@),
        ),
        tree.nodes().len() == 0 ==> final(state).search_cache == old(state).search_cache,
        tree.nodes().len() > 0 && search_needle(old(state).search@).len() == 0 ==> final(state).search_cache is None,
        tree.nodes().len() > 0 && search_needle(old(state).search@).len() > 0 ==> {
            &&& final(state).search_cache is Some
            &&& final(state).search_cache->0.needle_view() == search_needle(old(state).search@)
            &&& final(state).search_cache->0.len_view() == tree.nodes().len()
            &&& final(state).search_cache->0.matches_view() == mask_used(
                old(state).search_cache,
                tree.nodes(),
                search_needle(old(state).search@),
            )
        },
        cache_consistent(old(state).search_cache, tree.nodes()) ==> cache_consistent(final(state).search_cache, tree.nodes()),
        cache_consistent(old(state).search_cache, tree.nodes()) && search_needle(old(state).search@).len() > 0
            ==> final(state).visible_rows@ == visible_rows_of(
            tree.nodes(),
            old(state).expanded@,
            old(state).sort_key,
            old(state).sort_dir,
            Some(match_mask(tree.nodes(), search_needle(old(state).search@))),
        ),
        final(state).expanded == old(state).expanded,
        final(state).selected == old(state).selected,
        final(state).sort_key == old(state).sort_key,
        final(state).sort_dir == old(state).sort_dir,
        final(state).search == old(state).search,
        final(state).last_progress == old(state).last_progress,
        final(state).rows_dirty == old(state).rows_dirty,
{
    proof {
        use_type_invariant(tree);
    }
    state.visible_rows.clear();
    if tree.root().is_none() {
        return;
    }
    let needle = to_lowercase(trim(state.search.as_str()));
    let filter_active = !needle.as_str().is_empty();
    let tree_len = tree.len();
    if !filter_active {
        state.search_cache = None;
    } else {
        let needs_recompute = match &state.search_cache {
            Some(c) => !(c.needle == needle) || c.tree_len != tree_len,
            None => true,
        };
        if needs_recompute {
            let matches = compute_subtree_matches(tree, needle.as_str());
            state.search_cache = Some(SearchCache { needle, tree_len, matches });
        }
    }
    let filter: Option<&Vec<bool>> = if filter_active {
        match &state.search_cache {
            Some(c) => {
                proof {
                    use_type_invariant(c);
                }
                Some(&c.matches)
            },
            None => None,
        }
    } else {
        None
    };
    flatten_rows(tree, &state.expanded, state.sort_key, state.sort_dir, filter, &mut state.visible_rows);
}

/// Sort sibling ids in place by the given key and direction. Stable:
/// siblings that compare equal keep their order.
pub fn sort_children(children: &mut Vec<NodeId>, tree: &Tree, key: SortKey, dir: SortDir)
    requires
        ids_valid(tree.nodes(), old(children)@),
    ensures
        final(children)@ == stable_sorted(tree.nodes(), old(children)@, key, dir),
{
    let sorted = tree.sorted_ids(children, key, dir);
    *children = sorted;
}

/// Compare two optional values so that `None` comes after every `Some`
/// in both directions; the direction only orders `Some` values.
pub fn cmp_option_none_last<T: Ord>(a: &Option<T>, b: &Option<T>, dir: SortDir) -> (r: Ordering)
    ensures
        (a, b) matches (Some(x), Some(y)) ==> (T::obeys_cmp_spec() ==> r == match dir {
            SortDir::Asc => x.cmp_spec(y),
            SortDir::Desc => match x.cmp_spec(y) {
                Ordering::Less => Ordering::Greater,
                Ordering::Equal => Ordering::Equal,
                Ordering::Greater => Ordering::Less,
            },
        }),
        (a, b) matches (Some(_), None) ==> r == Ordering::Less,
        (a, b) matches (None, Some(_)) ==> r == Ordering::Greater,
        (a, b) matches (None, None) ==> r == Ordering::Equal,
{
    match (a, b) {
        (Some(x), Some(y)) => {
            let ord = x.cmp(y);
            match dir {
                SortDir::Asc => ord,
                SortDir::Desc => match ord {
                    Ordering::Less => Ordering::Greater,
                    Ordering::Equal => Ordering::Equal,
                    Ordering::Greater => Ordering::Less,
                },
            }
        },
        (Some(_), None) => Ordering::Less,
        (None, Some(_)) => Ordering::Greater,
        (None, None) => Ordering::Equal,
    }
}

} // verus!
