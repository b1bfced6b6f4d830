use rustytree::events::{ScanError, TreeError};
use rustytree::tree::{Node, NodeId, NodeKind, Tree};
use rustytree::walker::{EntryMetadata, PlatformMetadata, TreeBuilder, WalkEntry, WalkItem};

fn dir(name: &str) -> Node {
    Node::new_leaf(name, NodeKind::Dir, 0, Some(0), None, None)
}

fn file(name: &str, size: u64) -> Node {
    Node::new_leaf(name, NodeKind::File, size, Some(size), None, None)
}

/// root (dir)
///   a (dir)
///     a1.bin 100
///     a2.bin 200
///   b (dir)
///     b1.bin  50
///   c.bin 1000
fn sample_tree() -> Tree {
    let mut t = Tree::new();
    let root = t.insert(None, dir("root")).unwrap();
    let a = t.insert(Some(root), dir("a")).unwrap();
    t.insert(Some(a), file("a1.bin", 100)).unwrap();
    t.insert(Some(a), file("a2.bin", 200)).unwrap();
    let b = t.insert(Some(root), dir("b")).unwrap();
    t.insert(Some(b), file("b1.bin", 50)).unwrap();
    t.insert(Some(root), file("c.bin", 1000)).unwrap();
    t
}

#[test]
fn aggregate_bubbles_size_total_up() {
    let mut t = sample_tree();
    t.aggregate();
    let root = t.root().unwrap();
    assert_eq!(t.get(root).unwrap().size_total, 100 + 200 + 50 + 1000);

    let a = t.get(root).unwrap().children[0];
    assert_eq!(t.get(a).unwrap().size_total, 300);

    let b = t.get(root).unwrap().children[1];
    assert_eq!(t.get(b).unwrap().size_total, 50);
}

#[test]
fn aggregate_counts_files_and_dirs_excluding_self() {
    let mut t = sample_tree();
    t.aggregate();
    let root = t.root().unwrap();
    let r = t.get(root).unwrap();
    assert_eq!(r.file_count, 4, "root has four file descendants");
    assert_eq!(r.dir_count, 2, "root has two directory descendants (a, b)");

    let a = r.children[0];
    let a_node = t.get(a).unwrap();
    assert_eq!(a_node.file_count, 2);
    assert_eq!(a_node.dir_count, 0);
}

#[test]
fn aggregate_is_idempotent() {
    let mut t = sample_tree();
    t.aggregate();
    let snapshot: Vec<u64> = t.iter_ids().iter().map(|id| t.get(*id).unwrap().size_total).collect();
    t.aggregate();
    let after: Vec<u64> = t.iter_ids().iter().map(|id| t.get(*id).unwrap().size_total).collect();
    assert_eq!(snapshot, after);
}

#[test]
fn sort_children_by_size_orders_descending() {
    let mut t = sample_tree();
    t.aggregate();
    t.sort_children_by_size();
    let root = t.root().unwrap();
    let kids = &t.get(root).unwrap().children;
    let totals: Vec<u64> = kids.iter().map(|id| t.get(*id).unwrap().size_total).collect();
    assert_eq!(totals, vec![1000, 300, 50]);
}

#[test]
fn empty_tree_aggregate_is_noop() {
    let mut t = Tree::new();
    t.aggregate();
    assert!(t.is_empty());
}

#[test]
fn descendants_excludes_start_node() {
    let mut t = sample_tree();
    t.aggregate();
    let root = t.root().unwrap();
    let desc = t.descendants(root);
    assert_eq!(desc.len(), 6, "5 file descendants + 2 dirs - root self = 6");
    assert!(!desc.contains(&root));
}

#[test]
fn descendants_come_in_preorder() {
    let t = sample_tree();
    let a = t.get(t.root().unwrap()).unwrap().children[0];
    let ids: Vec<u32> = t.descendants(a).iter().map(|id| id.as_u32()).collect();
    assert_eq!(ids, vec![2, 3]);
    let all: Vec<u32> = t.descendants(t.root().unwrap()).iter().map(|id| id.as_u32()).collect();
    assert_eq!(all, vec![1, 2, 3, 4, 5, 6]);
}

#[test]
fn insert_links_parent_and_child() {
    let mut t = Tree::new();
    assert_eq!(t.root(), None);
    let root = t.insert(None, dir("root")).unwrap();
    assert_eq!(root, NodeId(0));
    assert_eq!(t.root(), Some(root));
    let child = t.insert(Some(root), file("x", 5)).unwrap();
    assert_eq!(child, NodeId(1));
    assert_eq!(t.get(child).unwrap().parent, Some(root));
    assert_eq!(t.get(root).unwrap().children, vec![child]);
    assert_eq!(t.len(), 2);
    assert!(t.get(NodeId(2)).is_none());
}

#[test]
fn new_leaf_starts_with_own_totals_and_lowercased_name() {
    let n = Node::new_leaf("ReadMe.TXT", NodeKind::File, 7, Some(4096), Some(5), Some("alice".to_string()));
    assert_eq!(n.name, "ReadMe.TXT");
    assert_eq!(n.name_lower, "readme.txt");
    assert_eq!(n.size_total, 7);
    assert_eq!(n.alloc_total, Some(4096));
    assert_eq!(n.file_count, 0);
    assert_eq!(n.dir_count, 0);
    assert_eq!(n.parent, None);
    assert!(n.children.is_empty());
}

#[test]
fn sorting_children_keeps_totals_consistent() {
    let mut t = sample_tree();
    t.aggregate();
    t.sort_children_by_size();
    let mut again = sample_tree();
    again.aggregate();
    again.sort_children_by_size();
    again.aggregate();
    let a: Vec<u64> = t.iter_ids().iter().map(|id| t.get(*id).unwrap().size_total).collect();
    let b: Vec<u64> = again.iter_ids().iter().map(|id| again.get(*id).unwrap().size_total).collect();
    assert_eq!(a, b);
}

#[test]
fn aggregate_saturates_instead_of_overflowing() {
    let mut t = Tree::new();
    let r = t.insert(None, dir("root")).unwrap();
    t.insert(Some(r), file("huge1", u64::MAX)).unwrap();
    t.insert(Some(r), file("huge2", 10)).unwrap();
    t.aggregate();
    assert_eq!(t.get(r).unwrap().size_total, u64::MAX);
}

#[test]
fn depths_fit_for_a_shallow_tree() {
    let t = sample_tree();
    assert!(t.depths_fit());
    assert!(Tree::new().depths_fit());
}

fn entry(path: &str, parent: Option<&str>, name: &str, depth: usize, kind: NodeKind, len: u64) -> WalkItem {
    WalkItem::Entry(WalkEntry {
        path: path.to_string(),
        parent_path: parent.map(|p| p.to_string()),
        file_name: name.to_string(),
        depth,
        kind,
        children_unreadable: false,
        metadata: Some(EntryMetadata {
            len,
            platform: PlatformMetadata { allocated_bytes: Some(len + 1), mtime: None, owner: None },
        }),
    })
}

/// The walk of:
///   /s/root/a/a1.bin (100 bytes)
///   /s/root/a/a2.bin (200 bytes)
///   /s/root/b/b1.bin ( 50 bytes)
///   /s/root/c.bin    (1000 bytes)
fn fixture_walk() -> Vec<WalkItem> {
    vec![
        entry("/s/root", Some("/s"), "root", 0, NodeKind::Dir, 4096),
        entry("/s/root/a", Some("/s/root"), "a", 1, NodeKind::Dir, 4096),
        entry("/s/root/a/a1.bin", Some("/s/root/a"), "a1.bin", 2, NodeKind::File, 100),
        entry("/s/root/a/a2.bin", Some("/s/root/a"), "a2.bin", 2, NodeKind::File, 200),
        entry("/s/root/b", Some("/s/root"), "b", 1, NodeKind::Dir, 4096),
        entry("/s/root/b/b1.bin", Some("/s/root/b"), "b1.bin", 2, NodeKind::File, 50),
        entry("/s/root/c.bin", Some("/s/root"), "c.bin", 1, NodeKind::File, 1000),
    ]
}

fn build(items: Vec<WalkItem>) -> Result<Tree, ScanError> {
    let mut b = TreeBuilder::new();
    for item in items {
        b.add(item)?;
    }
    Ok(b.finish())
}

#[test]
fn build_tree_reports_correct_root_total() {
    let tree = build(fixture_walk()).expect("scan");
    let root = tree.root().expect("root present");
    assert_eq!(tree.get(root).unwrap().size_total, 100 + 200 + 50 + 1000);
}

#[test]
fn build_tree_sorts_children_by_size_descending() {
    let tree = build(fixture_walk()).expect("scan");
    let root = tree.root().unwrap();
    let kids = &tree.get(root).unwrap().children;
    let totals: Vec<u64> = kids.iter().map(|id| tree.get(*id).unwrap().size_total).collect();
    assert_eq!(totals, vec![1000, 300, 50]);
}

#[test]
fn build_tree_counts_files_and_dirs() {
    let tree = build(fixture_walk()).expect("scan");
    let r = tree.get(tree.root().unwrap()).unwrap();
    assert_eq!(r.file_count, 4);
    assert_eq!(r.dir_count, 2);
}

#[test]
fn build_tree_calls_progress_callback() {
    let mut b = TreeBuilder::new();
    let mut ticks = 0u32;
    for item in fixture_walk() {
        if let Some(p) = b.add(item).expect("add") {
            ticks += 1;
            assert_eq!(p.entries, ticks as u64);
        }
    }
    assert!(ticks > 0, "progress should fire at least once");
}

#[test]
fn build_tree_reports_zero_errors_on_clean_walk() {
    let mut b = TreeBuilder::new();
    let mut last_errors: u64 = u64::MAX;
    for item in fixture_walk() {
        if let Some(p) = b.add(item).expect("add") {
            last_errors = p.errors;
        }
    }
    assert_eq!(last_errors, 0, "clean fixture should not produce any skipped entries");
}

#[test]
fn builder_names_the_root_by_its_path_and_others_by_file_name() {
    let tree = build(fixture_walk()).expect("scan");
    let root = tree.get(tree.root().unwrap()).unwrap();
    assert_eq!(root.name, "/s/root");
    let first = tree.get(root.children[0]).unwrap();
    assert_eq!(first.name, "c.bin");
    assert_eq!(first.alloc_self, Some(1001));
    assert_eq!(root.size_self, 0);
    assert_eq!(root.alloc_self, Some(0));
}

#[test]
fn builder_progress_reports_running_totals_and_path() {
    let mut b = TreeBuilder::new();
    let mut last = None;
    for item in fixture_walk() {
        if let Some(p) = b.add(item).expect("add") {
            last = Some(p);
        }
    }
    let p = last.unwrap();
    assert_eq!(p.entries, 7);
    assert_eq!(p.bytes, 1350);
    assert_eq!(p.current_path, "/s/root/c.bin");
}

#[test]
fn builder_counts_unreadable_and_orphan_entries_as_errors() {
    let mut items = fixture_walk();
    items.insert(1, WalkItem::Failed);
    let mut locked = match entry("/s/root/locked", Some("/s/root"), "locked", 1, NodeKind::Dir, 0) {
        WalkItem::Entry(e) => e,
        WalkItem::Failed => unreachable!(),
    };
    locked.children_unreadable = true;
    items.push(WalkItem::Entry(locked));
    let mut no_meta = match entry("/s/root/gone", Some("/s/root"), "gone", 1, NodeKind::File, 0) {
        WalkItem::Entry(e) => e,
        WalkItem::Failed => unreachable!(),
    };
    no_meta.metadata = None;
    items.push(WalkItem::Entry(no_meta));
    items.push(entry("/s/root/missing/x", Some("/s/root/missing"), "x", 2, NodeKind::File, 9));

    let mut b = TreeBuilder::new();
    let mut skipped = 0;
    let mut last_errors = 0;
    for item in items {
        match b.add(item).expect("add") {
            Some(p) => last_errors = p.errors,
            None => skipped += 1,
        }
    }
    assert_eq!(skipped, 3);
    assert_eq!(last_errors, 2, "the failed item and the unreadable directory");
    let tree = b.finish();
    assert_eq!(tree.len(), 8);
    assert_eq!(tree.get(tree.root().unwrap()).unwrap().size_total, 1350);
}

#[test]
fn builder_skips_a_second_root() {
    let mut b = TreeBuilder::new();
    assert!(b.add(entry("/r", None, "r", 0, NodeKind::Dir, 0)).unwrap().is_some());
    assert!(b.add(entry("/q", None, "q", 0, NodeKind::Dir, 0)).unwrap().is_none());
    let tree = b.finish();
    assert_eq!(tree.len(), 1);
}

#[test]
fn builder_full_error_message() {
    let e = ScanError::TreeFull(TreeError::Full);
    assert_eq!(e.message(), "tree arena exhausted: Tree arena cannot exceed u32::MAX nodes (NodeId is a u32)");
}

#[test]
fn tree_clone_is_an_equal_copy() {
    let mut t = sample_tree();
    t.aggregate();
    let c = t.clone();
    assert_eq!(c.root(), t.root());
    assert_eq!(c.len(), t.len());
    for id in t.iter_ids() {
        let a = t.get(id).unwrap();
        let b = c.get(id).unwrap();
        assert_eq!(a.name, b.name);
        assert_eq!(a.size_total, b.size_total);
        assert_eq!(a.file_count, b.file_count);
        assert_eq!(a.parent, b.parent);
        assert_eq!(a.children, b.children);
    }
    let d: Tree = Default::default();
    assert!(d.is_empty());
}

#[test]
fn insert_rejects_a_second_root_and_leaves_the_tree_as_it_was() {
    let mut t = Tree::new();
    let r = t.insert(None, dir("root")).unwrap();
    t.insert(Some(r), file("x", 5)).unwrap();
    assert_eq!(t.insert(None, dir("other")), Err(TreeError::RootTaken));
    assert_eq!(t.len(), 2);
    assert_eq!(t.root(), Some(r));
    assert_eq!(t.get(r).unwrap().name, "root");
    assert_eq!(TreeError::RootTaken.message(), "Tree already has a root");
}

#[test]
fn scan_error_paths_are_shown_as_debug_strings() {
    let e = ScanError::NotFound(String::from("/tmp/a\"b\\c\n"));
    assert_eq!(e.message(), "scan root \"/tmp/a\\\"b\\\\c\\n\" does not exist");
    let e = ScanError::NotADirectory(String::from("/tmp/plain"));
    assert_eq!(e.message(), "scan root \"/tmp/plain\" is not a directory");
    let e = ScanError::NotFound(String::from("/tmp/it's"));
    assert_eq!(e.message(), "scan root \"/tmp/it's\" does not exist");
}

#[test]
fn a_raised_cancel_flag_stops_the_walk() {
    assert!(matches!(rustytree::walker::check_cancelled(true), Err(ScanError::Cancelled)));
    assert!(rustytree::walker::check_cancelled(false).is_ok());
}

#[test]
fn aggregate_leaves_allocation_unknown_above_an_unknown_entry() {
    let mut t = Tree::new();
    let r = t.insert(None, dir("root")).unwrap();
    let a = t.insert(Some(r), dir("a")).unwrap();
    t.insert(Some(a), Node::new_leaf("known", NodeKind::File, 5, Some(4096), None, None)).unwrap();
    let b = t.insert(Some(r), dir("b")).unwrap();
    t.insert(Some(b), Node::new_leaf("unknown", NodeKind::File, 5, None, None, None)).unwrap();
    t.aggregate();
    assert_eq!(t.get(a).unwrap().alloc_total, Some(4096));
    assert_eq!(t.get(b).unwrap().alloc_total, None);
    assert_eq!(t.get(r).unwrap().alloc_total, None);
    assert_eq!(t.get(r).unwrap().size_total, 10);
}

#[test]
fn insert_attaches_a_node_as_a_leaf() {
    let mut t = Tree::new();
    let r = t.insert(None, dir("root")).unwrap();
    let mut carrying = dir("carrying");
    carrying.children.push(NodeId(0));
    let c = t.insert(Some(r), carrying).unwrap();
    assert!(t.get(c).unwrap().children.is_empty());
    assert_eq!(t.get(c).unwrap().parent, Some(r));
    assert_eq!(t.get(r).unwrap().children, vec![c]);
}
