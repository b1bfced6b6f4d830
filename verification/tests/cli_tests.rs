use rustytree::cli::{key_to_command, Action, Command, KeyCode, KeyEvent, Mode, RustyTreeApp, ScanRequest};
use rustytree::events::{ScanError, ScanEvent, ScanProgress};
use rustytree::format::ElapsedTime;
use rustytree::tree::{NodeKind, Tree};
use rustytree::view::{status_line, SortDir, SortKey, Status, COLUMNS};
use rustytree::walker::{EntryMetadata, PlatformMetadata, TreeBuilder, WalkEntry, WalkItem};

fn key(code: KeyCode) -> KeyEvent {
    KeyEvent::new(code, false)
}

fn ctrl(code: KeyCode) -> KeyEvent {
    KeyEvent::new(code, true)
}

fn entry(path: &str, parent: &str, name: &str, depth: usize, kind: NodeKind, len: u64) -> WalkItem {
    WalkItem::Entry(WalkEntry {
        path: path.to_string(),
        parent_path: Some(parent.to_string()),
        file_name: name.to_string(),
        depth,
        kind,
        children_unreadable: false,
        metadata: Some(EntryMetadata {
            len,
            platform: PlatformMetadata { allocated_bytes: Some(len), mtime: None, owner: None },
        }),
    })
}

/// <fx>/alpha.txt (100), beta/{b1.txt (200), b2.txt (300)}, gamma/g1.txt (400)
fn fixture_tree() -> Tree {
    let items = vec![
        entry("/fx", "/", "fx", 0, NodeKind::Dir, 0),
        entry("/fx/alpha.txt", "/fx", "alpha.txt", 1, NodeKind::File, 100),
        entry("/fx/beta", "/fx", "beta", 1, NodeKind::Dir, 0),
        entry("/fx/beta/b1.txt", "/fx/beta", "b1.txt", 2, NodeKind::File, 200),
        entry("/fx/beta/b2.txt", "/fx/beta", "b2.txt", 2, NodeKind::File, 300),
        entry("/fx/gamma", "/fx", "gamma", 1, NodeKind::Dir, 0),
        entry("/fx/gamma/g1.txt", "/fx/gamma", "g1.txt", 2, NodeKind::File, 400),
    ];
    let mut b = TreeBuilder::new();
    for item in items {
        b.add(item).expect("add");
    }
    b.finish()
}

/// Run a scan of the fixture through the state machine: start it, report
/// progress and the finished tree, and refresh the rows.
fn run_scan(app: &mut RustyTreeApp) {
    app.dispatch(Command::StartScan);
    assert_eq!(app.take_scan_request(), Some(ScanRequest::Start));
    app.scan_started();
    assert!(matches!(app.status, Status::Scanning));
    let tree = fixture_tree();
    assert!(tree.depths_fit());
    app.handle_scan_event(ScanEvent::Progress(ScanProgress {
        entries: 7,
        bytes: 1000,
        errors: 0,
        current_path: "/fx/gamma/g1.txt".to_string(),
    }));
    app.handle_scan_event(ScanEvent::Done { tree, elapsed: ElapsedTime::from_millis(5) });
    app.flush_rows();
}

fn scan_fixture() -> RustyTreeApp {
    let mut app = RustyTreeApp::new("/fx".to_string());
    run_scan(&mut app);
    assert!(matches!(app.status, Status::Done { .. }), "expected Status::Done, got {:?}", app.status);
    app
}

fn press(app: &mut RustyTreeApp, code: KeyCode) -> Action {
    app.on_key(key(code))
}

fn selected_name(app: &RustyTreeApp) -> Option<String> {
    let id = app.ui.selected?;
    let tree = app.tree.as_ref()?;
    tree.get(id).map(|n| n.name.clone())
}

fn visible_names(app: &RustyTreeApp) -> Vec<String> {
    let tree = app.tree.as_ref().unwrap();
    app.ui.visible_rows.iter().map(|r| tree.get(r.id).unwrap().name.clone()).collect()
}

#[test]
fn ctrl_c_quits_in_any_mode() {
    assert_eq!(key_to_command(ctrl(KeyCode::Char('c')), Mode::Normal), Some(Command::Quit));
    assert_eq!(key_to_command(ctrl(KeyCode::Char('c')), Mode::Search), Some(Command::Quit));
}

#[test]
fn q_quits_in_normal_but_is_search_input_in_search() {
    assert_eq!(key_to_command(key(KeyCode::Char('q')), Mode::Normal), Some(Command::Quit));
    assert_eq!(key_to_command(key(KeyCode::Char('q')), Mode::Search), Some(Command::SearchPush('q')));
}

#[test]
fn arrow_keys_move_selection_in_normal_mode() {
    assert_eq!(key_to_command(key(KeyCode::Up), Mode::Normal), Some(Command::Move(-1)));
    assert_eq!(key_to_command(key(KeyCode::Down), Mode::Normal), Some(Command::Move(1)));
    assert_eq!(key_to_command(key(KeyCode::PageDown), Mode::Normal), Some(Command::Move(15)));
}

#[test]
fn vim_navigation_works_in_normal_mode() {
    assert_eq!(key_to_command(key(KeyCode::Char('j')), Mode::Normal), Some(Command::Move(1)));
    assert_eq!(key_to_command(key(KeyCode::Char('k')), Mode::Normal), Some(Command::Move(-1)));
    assert_eq!(key_to_command(key(KeyCode::Char('h')), Mode::Normal), Some(Command::Collapse));
    assert_eq!(key_to_command(key(KeyCode::Char('l')), Mode::Normal), Some(Command::Expand));
}

#[test]
fn digit_keys_set_sort() {
    assert_eq!(key_to_command(key(KeyCode::Char('1')), Mode::Normal), Some(Command::SetSort(SortKey::Name)));
    assert_eq!(key_to_command(key(KeyCode::Char('2')), Mode::Normal), Some(Command::SetSort(SortKey::Size)));
    assert_eq!(key_to_command(key(KeyCode::Char('7')), Mode::Normal), Some(Command::SetSort(SortKey::Owner)));
}

#[test]
fn slash_enters_search_and_esc_aborts() {
    assert_eq!(key_to_command(key(KeyCode::Char('/')), Mode::Normal), Some(Command::EnterSearch));
    assert_eq!(key_to_command(key(KeyCode::Esc), Mode::Search), Some(Command::SearchAbort));
    assert_eq!(key_to_command(key(KeyCode::Enter), Mode::Search), Some(Command::SearchApply));
}

#[test]
fn search_typing_pushes_chars() {
    assert_eq!(key_to_command(key(KeyCode::Char('a')), Mode::Search), Some(Command::SearchPush('a')));
    assert_eq!(key_to_command(key(KeyCode::Backspace), Mode::Search), Some(Command::SearchBackspace));
}

#[test]
fn esc_in_normal_mode_cancels_scan() {
    assert_eq!(key_to_command(key(KeyCode::Esc), Mode::Normal), Some(Command::CancelScan));
}

#[test]
fn remaining_key_bindings() {
    assert_eq!(key_to_command(key(KeyCode::Char('s')), Mode::Normal), Some(Command::StartScan));
    assert_eq!(key_to_command(key(KeyCode::Char('r')), Mode::Normal), Some(Command::StartScan));
    assert_eq!(key_to_command(key(KeyCode::PageUp), Mode::Normal), Some(Command::Move(-15)));
    assert_eq!(key_to_command(key(KeyCode::Home), Mode::Normal), Some(Command::MoveFirst));
    assert_eq!(key_to_command(key(KeyCode::Char('G')), Mode::Normal), Some(Command::MoveLast));
    assert_eq!(key_to_command(key(KeyCode::Enter), Mode::Normal), Some(Command::Expand));
    assert_eq!(key_to_command(key(KeyCode::Left), Mode::Normal), Some(Command::Collapse));
    assert_eq!(key_to_command(key(KeyCode::Char('c')), Mode::Normal), Some(Command::SearchClear));
    assert_eq!(key_to_command(key(KeyCode::Char('?')), Mode::Normal), Some(Command::ToggleHelp));
    assert_eq!(key_to_command(key(KeyCode::Char('6')), Mode::Normal), Some(Command::SetSort(SortKey::Mtime)));
    assert_eq!(key_to_command(key(KeyCode::F(1)), Mode::Normal), None);
    assert_eq!(key_to_command(key(KeyCode::Up), Mode::Search), None);
    assert_eq!(key_to_command(ctrl(KeyCode::Char('x')), Mode::Search), Some(Command::SearchPush('x')));
}

#[test]
fn dispatch_set_sort_flips_direction_on_repeat() {
    let mut app = RustyTreeApp::new("/tmp".to_string());
    let initial_dir = app.ui.sort_dir;
    app.dispatch(Command::SetSort(SortKey::Size));
    assert_ne!(app.ui.sort_dir, initial_dir);
    let after_first = app.ui.sort_dir;
    app.dispatch(Command::SetSort(SortKey::Size));
    assert_ne!(app.ui.sort_dir, after_first);
}

#[test]
fn dispatch_quit_returns_quit_action() {
    let mut app = RustyTreeApp::new("/tmp".to_string());
    assert_eq!(app.dispatch(Command::Quit), Action::Quit);
}

#[test]
fn unbound_key_returns_ignore_so_loop_skips_redraw() {
    let mut app = RustyTreeApp::new("/tmp".to_string());
    assert_eq!(app.on_key(key(KeyCode::F(1))), Action::Ignore);
}

#[test]
fn bound_key_returns_redraw() {
    let mut app = RustyTreeApp::new("/tmp".to_string());
    assert_eq!(app.on_key(key(KeyCode::Char('?'))), Action::Redraw);
}

#[test]
fn poll_scan_returns_false_when_no_scan_in_flight() {
    let mut app = RustyTreeApp::new("/tmp".to_string());
    assert!(!app.scanning);
    assert!(!app.flush_rows());
    assert!(!app.handle_scan_disconnect());
    assert!(matches!(app.status, Status::Idle));
}

#[test]
fn question_mark_toggles_help_open_state() {
    let mut app = scan_fixture();
    assert!(!app.help_open, "help starts closed");
    press(&mut app, KeyCode::Char('?'));
    assert!(app.help_open, "first ? opens help");
    press(&mut app, KeyCode::Char('?'));
    assert!(!app.help_open, "second ? closes help");
}

#[test]
fn closed_help_overlay_does_not_obscure_the_tree_view() {
    let mut app = scan_fixture();
    press(&mut app, KeyCode::Char('?'));
    press(&mut app, KeyCode::Char('?'));
    assert!(!app.help_open);
    assert!(visible_names(&app).iter().any(|n| n == "alpha.txt"));
}

#[test]
fn down_arrow_advances_selection_one_row() {
    let mut app = scan_fixture();
    let before = selected_name(&app);
    let action = press(&mut app, KeyCode::Down);
    assert_eq!(action, Action::Redraw, "Down is a bound key");
    let after = selected_name(&app);
    assert_ne!(before, after, "Down should have changed selection; was {before:?}");
}

#[test]
fn j_and_k_match_arrow_keys() {
    let mut app_arrows = scan_fixture();
    let mut app_vim = scan_fixture();
    press(&mut app_arrows, KeyCode::Down);
    press(&mut app_arrows, KeyCode::Down);
    press(&mut app_vim, KeyCode::Char('j'));
    press(&mut app_vim, KeyCode::Char('j'));
    assert_eq!(selected_name(&app_arrows), selected_name(&app_vim));
    press(&mut app_arrows, KeyCode::Up);
    press(&mut app_vim, KeyCode::Char('k'));
    assert_eq!(selected_name(&app_arrows), selected_name(&app_vim));
}

#[test]
fn unbound_letter_returns_action_ignore() {
    let mut app = scan_fixture();
    assert_eq!(app.on_key(key(KeyCode::Char('z'))), Action::Ignore);
}

fn select(app: &mut RustyTreeApp, target: &str) {
    for _ in 0..10 {
        if selected_name(app).as_deref() == Some(target) {
            break;
        }
        press(app, KeyCode::Down);
    }
    assert_eq!(selected_name(app).as_deref(), Some(target));
}

#[test]
fn expanding_a_subdir_reveals_its_children_in_the_render() {
    let mut app = scan_fixture();
    select(&mut app, "beta");
    assert!(!visible_names(&app).iter().any(|n| n == "b1.txt"));
    press(&mut app, KeyCode::Right);
    let names = visible_names(&app);
    assert!(names.iter().any(|n| n == "b1.txt"), "{names:?}");
    assert!(names.iter().any(|n| n == "b2.txt"), "{names:?}");
}

#[test]
fn collapsing_an_expanded_subdir_hides_its_children() {
    let mut app = scan_fixture();
    select(&mut app, "beta");
    press(&mut app, KeyCode::Right);
    assert!(visible_names(&app).iter().any(|n| n == "b1.txt"), "precondition: beta expanded");
    press(&mut app, KeyCode::Left);
    assert!(!visible_names(&app).iter().any(|n| n == "b1.txt"));
}

#[test]
fn expand_twice_drills_into_first_child_and_collapse_steps_out() {
    let mut app = scan_fixture();
    select(&mut app, "beta");
    press(&mut app, KeyCode::Right);
    press(&mut app, KeyCode::Right);
    assert_eq!(selected_name(&app).as_deref(), Some("b2.txt"));
    press(&mut app, KeyCode::Left);
    assert_eq!(selected_name(&app).as_deref(), Some("b2.txt"), "the drilled-into child is collapsed first");
    press(&mut app, KeyCode::Left);
    assert_eq!(selected_name(&app).as_deref(), Some("beta"));
}

#[test]
fn end_key_jumps_to_the_last_visible_row() {
    let mut app = scan_fixture();
    press(&mut app, KeyCode::End);
    let last_id = app.ui.visible_rows.last().map(|r| r.id).expect("at least one visible row");
    assert_eq!(app.ui.selected, Some(last_id));
    press(&mut app, KeyCode::Home);
    let first_id = app.ui.visible_rows.first().map(|r| r.id).expect("at least one visible row");
    assert_eq!(app.ui.selected, Some(first_id));
}

#[test]
fn page_moves_clamp_at_both_ends() {
    let mut app = scan_fixture();
    press(&mut app, KeyCode::PageDown);
    assert_eq!(app.ui.selected, app.ui.visible_rows.last().map(|r| r.id));
    press(&mut app, KeyCode::PageUp);
    assert_eq!(app.ui.selected, app.ui.visible_rows.first().map(|r| r.id));
}

#[test]
fn empty_path_does_not_panic_and_surfaces_a_user_error() {
    let mut app = RustyTreeApp::new(String::new());
    app.dispatch(Command::StartScan);
    match &app.status {
        Status::Error(msg) => assert!(msg.contains("no path"), "{msg:?}"),
        other => panic!("expected Status::Error, got {other:?}"),
    }
    assert_eq!(app.take_scan_request(), None);
}

#[test]
fn cancel_with_no_scan_running_is_a_no_op() {
    let mut app = RustyTreeApp::new("/tmp".to_string());
    let status_before = format!("{:?}", app.status);
    app.dispatch(Command::CancelScan);
    assert_eq!(status_before, format!("{:?}", app.status));
    assert_eq!(app.take_scan_request(), None);
}

#[test]
fn cancel_while_scanning_requests_cancellation() {
    let mut app = RustyTreeApp::new("/tmp".to_string());
    app.dispatch(Command::StartScan);
    app.take_scan_request();
    app.scan_started();
    app.dispatch(Command::CancelScan);
    assert_eq!(app.take_scan_request(), Some(ScanRequest::Cancel));
    assert!(app.handle_scan_event(ScanEvent::Cancelled));
    assert!(matches!(app.status, Status::Cancelled));
    assert!(!app.scanning);
}

#[test]
fn failed_start_and_scan_errors_surface_messages() {
    let mut app = RustyTreeApp::new("/missing".to_string());
    app.dispatch(Command::StartScan);
    app.take_scan_request();
    app.scan_start_failed(&ScanError::NotFound("/missing".to_string()));
    match &app.status {
        Status::Error(m) => assert_eq!(m, "scan root \"/missing\" does not exist"),
        other => panic!("{other:?}"),
    }
    app.scan_started();
    app.handle_scan_event(ScanEvent::Error(ScanError::Cancelled));
    match &app.status {
        Status::Error(m) => assert_eq!(m, "scan was cancelled"),
        other => panic!("{other:?}"),
    }
}

#[test]
fn disconnect_while_scanning_is_an_error() {
    let mut app = RustyTreeApp::new("/tmp".to_string());
    app.dispatch(Command::StartScan);
    app.take_scan_request();
    app.scan_started();
    assert!(app.handle_scan_disconnect());
    match &app.status {
        Status::Error(m) => assert_eq!(m, "scan worker disconnected before reporting completion"),
        other => panic!("{other:?}"),
    }
    assert!(!app.scanning);
}

#[test]
fn rescanning_keeps_search_string_and_rebuilds_visible_rows() {
    let mut app = scan_fixture();
    app.dispatch(Command::EnterSearch);
    for c in "alpha".chars() {
        app.dispatch(Command::SearchPush(c));
    }
    app.dispatch(Command::SearchApply);
    assert_eq!(app.ui.search, "alpha");

    run_scan(&mut app);
    assert!(matches!(app.status, Status::Done { .. }));
    assert_eq!(app.ui.search, "alpha", "search query should survive a rescan");
    assert!(!app.ui.visible_rows.is_empty(), "rescan must rebuild visible_rows");
}

#[test]
fn poll_scan_populates_visible_rows_after_done_event() {
    let app = scan_fixture();
    assert!(!app.ui.visible_rows.is_empty());
    assert!(app.ui.visible_rows.len() >= 4, "got {} rows", app.ui.visible_rows.len());
}

#[test]
fn scanning_a_fixture_finishes_with_status_done_and_correct_totals() {
    let app = scan_fixture();
    let Status::Done { total_bytes, file_count, dir_count, .. } = app.status else {
        panic!("expected Status::Done, got {:?}", app.status);
    };
    assert_eq!(total_bytes, 1000);
    assert_eq!(file_count, 4);
    assert_eq!(dir_count, 2);
}

#[test]
fn done_scan_renders_root_row_and_done_status_line() {
    let app = scan_fixture();
    let status = status_line(&app.status, app.ui.last_progress.as_ref());
    assert!(status.contains("done in"), "{status:?}");
    let labels: Vec<&str> = COLUMNS.iter().map(|c| c.label()).collect();
    assert!(labels.contains(&"Name") && labels.contains(&"Size"));
    assert!(labels.contains(&"Allocated") && labels.contains(&"Modified"));
    assert_eq!(visible_names(&app)[0], "/fx");
}

#[test]
fn fixture_root_is_pre_expanded_so_top_level_children_are_visible() {
    let app = scan_fixture();
    let names = visible_names(&app);
    for n in ["alpha.txt", "beta", "gamma"] {
        assert!(names.iter().any(|x| x == n), "{names:?}");
    }
}

#[test]
fn slash_enters_search_mode_and_esc_aborts_back_to_normal() {
    let mut app = scan_fixture();
    assert_eq!(app.mode, Mode::Normal);
    press(&mut app, KeyCode::Char('/'));
    assert_eq!(app.mode, Mode::Search);
    press(&mut app, KeyCode::Esc);
    assert_eq!(app.mode, Mode::Normal);
    assert!(app.ui.search.is_empty());
}

#[test]
fn typing_in_search_mode_pushes_into_the_query_string() {
    let mut app = scan_fixture();
    press(&mut app, KeyCode::Char('/'));
    for c in "alpha".chars() {
        press(&mut app, KeyCode::Char(c));
    }
    assert_eq!(app.ui.search, "alpha");
    assert_eq!(app.mode, Mode::Search);
    press(&mut app, KeyCode::Backspace);
    assert_eq!(app.ui.search, "alph");
}

#[test]
fn backspace_on_empty_search_changes_nothing() {
    let mut app = scan_fixture();
    press(&mut app, KeyCode::Char('/'));
    press(&mut app, KeyCode::Backspace);
    assert_eq!(app.ui.search, "");
    assert_eq!(app.mode, Mode::Search);
}

fn search_for(app: &mut RustyTreeApp, text: &str) {
    press(app, KeyCode::Char('/'));
    for c in text.chars() {
        press(app, KeyCode::Char(c));
    }
    press(app, KeyCode::Enter);
}

#[test]
fn applying_a_search_filters_visible_rows_to_matching_subtrees() {
    let mut app = scan_fixture();
    search_for(&mut app, "alpha");
    assert_eq!(app.mode, Mode::Normal);
    let names = visible_names(&app);
    assert!(names.iter().any(|n| n == "alpha.txt"), "{names:?}");
    assert!(!names.iter().any(|n| n == "beta"), "{names:?}");
    assert!(!names.iter().any(|n| n == "gamma"), "{names:?}");
}

#[test]
fn clearing_search_restores_the_full_view() {
    let mut app = scan_fixture();
    search_for(&mut app, "alpha");
    assert!(app.ui.visible_rows.len() < 4, "filter should narrow rows");
    press(&mut app, KeyCode::Char('c'));
    assert_eq!(app.ui.search, "");
    let names = visible_names(&app);
    assert!(names.iter().any(|n| n == "beta"), "{names:?}");
    assert!(names.iter().any(|n| n == "gamma"), "{names:?}");
}

#[test]
fn search_match_for_a_nested_file_brings_along_its_ancestors() {
    let mut app = scan_fixture();
    search_for(&mut app, "b1");
    let names = visible_names(&app);
    assert!(names.iter().any(|n| n == "b1.txt"), "{names:?}");
    assert!(names.iter().any(|n| n == "beta"), "{names:?}");
    assert!(!names.iter().any(|n| n == "gamma"), "{names:?}");
}

#[test]
fn search_with_no_match_clears_the_selection() {
    let mut app = scan_fixture();
    search_for(&mut app, "zzz");
    assert!(app.ui.visible_rows.is_empty());
    assert_eq!(app.ui.selected, None);
}

#[test]
fn pressing_digit_keys_switches_sort_key() {
    let mut app = scan_fixture();
    let cases = [
        (KeyCode::Char('1'), SortKey::Name),
        (KeyCode::Char('2'), SortKey::Size),
        (KeyCode::Char('3'), SortKey::Allocated),
        (KeyCode::Char('4'), SortKey::FileCount),
        (KeyCode::Char('5'), SortKey::DirCount),
        (KeyCode::Char('6'), SortKey::Mtime),
        (KeyCode::Char('7'), SortKey::Owner),
    ];
    for (code, expected) in cases {
        press(&mut app, code);
        assert_eq!(app.ui.sort_key, expected, "pressing {code:?}");
    }
}

#[test]
fn pressing_the_same_sort_key_twice_flips_direction() {
    let mut app = scan_fixture();
    press(&mut app, KeyCode::Char('1'));
    let dir_after_first = app.ui.sort_dir;
    assert_eq!(app.ui.sort_key, SortKey::Name);
    press(&mut app, KeyCode::Char('1'));
    assert_eq!(app.ui.sort_key, SortKey::Name);
    assert_ne!(app.ui.sort_dir, dir_after_first);
    press(&mut app, KeyCode::Char('1'));
    assert_eq!(app.ui.sort_dir, dir_after_first);
}

#[test]
fn sort_by_name_orders_visible_children_alphabetically_asc() {
    let mut app = scan_fixture();
    press(&mut app, KeyCode::Char('1'));
    if app.ui.sort_dir != SortDir::Asc {
        press(&mut app, KeyCode::Char('1'));
    }
    assert_eq!(visible_names(&app)[1..].to_vec(), vec!["alpha.txt", "beta", "gamma"]);
}

#[test]
fn sort_by_size_desc_puts_the_largest_top_level_entry_first() {
    let mut app = scan_fixture();
    press(&mut app, KeyCode::Char('2'));
    if app.ui.sort_dir != SortDir::Desc {
        press(&mut app, KeyCode::Char('2'));
    }
    let names = visible_names(&app)[1..].to_vec();
    assert_eq!(names.first().map(String::as_str), Some("beta"));
    assert_eq!(names.last().map(String::as_str), Some("alpha.txt"));
}

#[test]
fn new_sort_keys_start_in_their_natural_direction() {
    let mut app = scan_fixture();
    app.dispatch(Command::SetSort(SortKey::Owner));
    assert_eq!(app.ui.sort_dir, SortDir::Asc);
    app.dispatch(Command::SetSort(SortKey::Mtime));
    assert_eq!(app.ui.sort_dir, SortDir::Desc);
}

#[test]
fn scroll_keeps_the_selection_in_view() {
    let mut app = scan_fixture();
    press(&mut app, KeyCode::End);
    app.scroll_to_selection(2);
    assert_eq!(app.scroll_offset, 2);
    press(&mut app, KeyCode::Home);
    app.scroll_to_selection(2);
    assert_eq!(app.scroll_offset, 0);
    app.scroll_offset = 10;
    app.ui.selected = None;
    app.scroll_to_selection(3);
    assert_eq!(app.scroll_offset, 1);
}
