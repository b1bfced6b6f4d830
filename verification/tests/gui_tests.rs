use rustytree::events::{ScanError, ScanEvent};
use rustytree::format::ElapsedTime;
use rustytree::gui::RustyTreeApp;
use rustytree::tree::{Node, NodeKind, Tree};
use rustytree::view::{ColumnKind, SortDir, SortKey, Status};

fn small_tree() -> Tree {
    let mut t = Tree::new();
    let r = t.insert(None, Node::new_leaf("/data", NodeKind::Dir, 0, Some(0), None, None)).unwrap();
    let d = t.insert(Some(r), Node::new_leaf("docs", NodeKind::Dir, 0, Some(0), None, None)).unwrap();
    t.insert(Some(d), Node::new_leaf("a.txt", NodeKind::File, 10, Some(10), None, None)).unwrap();
    t.insert(Some(r), Node::new_leaf("b.bin", NodeKind::File, 99, Some(99), None, None)).unwrap();
    t.aggregate();
    t.sort_children_by_size();
    t
}

fn names(app: &RustyTreeApp) -> Vec<String> {
    let tree = app.tree.as_ref().unwrap();
    app.ui.visible_rows.iter().map(|r| tree.get(r.id).unwrap().name.clone()).collect()
}

#[test]
fn empty_path_input_reports_an_error() {
    let mut app = RustyTreeApp::new("   ".to_string());
    assert_eq!(app.start_scan_from_input(), None);
    match &app.status {
        Status::Error(m) => assert_eq!(m, "no path entered — type one or click Browse"),
        other => panic!("{other:?}"),
    }
}

#[test]
fn path_input_is_trimmed_and_view_reset() {
    let mut app = RustyTreeApp::new("  /home/me \n".to_string());
    app.ui.search = "keep".to_string();
    app.ui.rows_dirty = true;
    assert_eq!(app.start_scan_from_input().as_deref(), Some("/home/me"));
    assert_eq!(app.ui.search, "keep");
    assert!(!app.ui.rows_dirty);
    assert!(app.tree.is_none());
}

#[test]
fn finished_scan_expands_root_and_rows_follow() {
    let mut app = RustyTreeApp::new("/data".to_string());
    app.start_scan_from_input();
    app.scan_started();
    assert!(app.scanning);
    app.handle_scan_event(ScanEvent::Done { tree: small_tree(), elapsed: ElapsedTime::from_secs(2) });
    assert!(!app.scanning);
    match app.status {
        Status::Done { total_bytes, file_count, dir_count, .. } => {
            assert_eq!((total_bytes, file_count, dir_count), (109, 2, 1));
        },
        ref other => panic!("{other:?}"),
    }
    app.refresh_rows();
    assert_eq!(names(&app), vec!["/data", "b.bin", "docs"]);
    assert!(!app.ui.rows_dirty);
}

#[test]
fn header_clicks_sort_and_flip() {
    let mut app = RustyTreeApp::new("/data".to_string());
    app.click_column_header(ColumnKind::Name);
    assert_eq!((app.ui.sort_key, app.ui.sort_dir), (SortKey::Name, SortDir::Asc));
    app.click_column_header(ColumnKind::Name);
    assert_eq!(app.ui.sort_dir, SortDir::Desc);
    app.click_column_header(ColumnKind::PercentOfRoot);
    assert_eq!((app.ui.sort_key, app.ui.sort_dir), (SortKey::Size, SortDir::Desc));
    assert!(app.ui.rows_dirty);
}

#[test]
fn chevron_and_row_clicks() {
    let mut app = RustyTreeApp::new("/data".to_string());
    app.handle_scan_event(ScanEvent::Done { tree: small_tree(), elapsed: ElapsedTime::from_secs(1) });
    app.refresh_rows();
    let docs = app.ui.visible_rows[2].id;
    app.click_chevron(docs);
    app.refresh_rows();
    assert_eq!(names(&app), vec!["/data", "b.bin", "docs", "a.txt"]);
    app.click_row(docs);
    assert_eq!(app.ui.selected, Some(docs));
    app.click_chevron(docs);
    app.refresh_rows();
    assert_eq!(names(&app), vec!["/data", "b.bin", "docs"]);
}

#[test]
fn gui_search_edit_and_clear() {
    let mut app = RustyTreeApp::new("/data".to_string());
    app.handle_scan_event(ScanEvent::Done { tree: small_tree(), elapsed: ElapsedTime::from_secs(1) });
    app.refresh_rows();
    app.ui.search = "A.T".to_string();
    app.search_edited();
    app.refresh_rows();
    assert_eq!(names(&app), vec!["/data", "docs", "a.txt"]);
    app.clear_search();
    app.refresh_rows();
    assert_eq!(names(&app), vec!["/data", "b.bin", "docs"]);
}

#[test]
fn gui_scan_failures() {
    let mut app = RustyTreeApp::new("/data".to_string());
    app.scan_start_failed(&ScanError::SpawnFailed("out of threads".to_string()));
    match &app.status {
        Status::Error(m) => assert_eq!(m, "could not spawn scan worker thread: out of threads"),
        other => panic!("{other:?}"),
    }
    app.scan_started();
    app.handle_scan_disconnect();
    assert!(matches!(app.status, Status::Error(_)));
    app.handle_scan_event(ScanEvent::Error(ScanError::NotADirectory("/etc/hosts".to_string())));
    match &app.status {
        Status::Error(m) => assert_eq!(m, "scan root \"/etc/hosts\" is not a directory"),
        other => panic!("{other:?}"),
    }
    app.handle_scan_event(ScanEvent::Cancelled);
    assert!(matches!(app.status, Status::Cancelled));
}
