use rustytree::layout::{column_char_width, compute_widths, format_cell, format_name_cell, pad_to_width, COL_GAP};
use rustytree::tree::{Node, NodeKind};
use rustytree::view::{ColumnKind, COLUMNS};

#[test]
fn compute_widths_assigns_remaining_to_name() {
    let widths = compute_widths(120);
    let total: u16 = widths.iter().sum();
    let gaps = COL_GAP * (COLUMNS.len() as u16 - 1);
    assert_eq!(total + gaps, 120);
}

#[test]
fn compute_widths_keeps_name_at_minimum_when_terminal_is_tiny() {
    let widths = compute_widths(20);
    let name_idx = COLUMNS.iter().position(|c| *c == ColumnKind::Name).unwrap();
    assert!(widths[name_idx] >= 10);
}

#[test]
fn compute_widths_exact_values() {
    assert_eq!(compute_widths(120), vec![38, 12, 7, 12, 8, 7, 17, 12]);
    assert_eq!(compute_widths(20), vec![10, 12, 7, 12, 8, 7, 17, 12]);
    assert_eq!(compute_widths(92), vec![10, 12, 7, 12, 8, 7, 17, 12]);
    assert_eq!(compute_widths(93), vec![11, 12, 7, 12, 8, 7, 17, 12]);
}

#[test]
fn column_char_widths() {
    assert_eq!(column_char_width(ColumnKind::Name), None);
    assert_eq!(column_char_width(ColumnKind::Size), Some(12));
    assert_eq!(column_char_width(ColumnKind::Mtime), Some(17));
}

#[test]
fn pad_to_width_left_pads_numeric_columns() {
    let out = pad_to_width("42", 6, ColumnKind::FileCount);
    assert_eq!(out, "    42");
}

#[test]
fn pad_to_width_right_pads_text_columns() {
    let out = pad_to_width("alice", 8, ColumnKind::Owner);
    assert_eq!(out, "alice   ");
}

#[test]
fn pad_to_width_truncates_with_ellipsis() {
    let out = pad_to_width("very-long-value", 8, ColumnKind::Owner);
    assert_eq!(out.chars().count(), 8);
    assert!(out.ends_with('\u{2026}'));
}

#[test]
fn pad_to_width_edge_cases() {
    assert_eq!(pad_to_width("exact", 5, ColumnKind::Size), "exact");
    assert_eq!(pad_to_width("abc", 1, ColumnKind::Size), "a");
    assert_eq!(pad_to_width("abc", 0, ColumnKind::Name), "");
    assert_eq!(pad_to_width("abc", 2, ColumnKind::Name), "a\u{2026}");
    assert_eq!(pad_to_width("", 3, ColumnKind::Mtime), "   ");
    assert_eq!(pad_to_width("héllo", 4, ColumnKind::Name), "hél\u{2026}");
}

#[test]
fn format_name_cell_indents_and_truncates() {
    let n = Node::new_leaf("documents", NodeKind::Dir, 0, Some(0), None, None);
    assert_eq!(format_name_cell(&n, 0, "+ ", 14), "+ documents   ");
    assert_eq!(format_name_cell(&n, 2, "- ", 14), "    - documen\u{2026}");
    assert_eq!(format_name_cell(&n, 6, "  ", 14), format!("{}\u{2026}", " ".repeat(13)));
}

#[test]
fn format_cell_renders_each_column() {
    let mut n = Node::new_leaf("x.bin", NodeKind::File, 2048, Some(4096), None, Some("bob".to_string()));
    n.file_count = 3;
    n.dir_count = 1;
    assert_eq!(format_cell(&n, ColumnKind::Name, 1, "  ", 10, ""), "    x.bin ");
    assert_eq!(format_cell(&n, ColumnKind::Size, 0, "", 12, ""), "       2 KiB");
    assert_eq!(format_cell(&n, ColumnKind::PercentOfRoot, 0, "", 7, "50.0%"), "  50.0%");
    assert_eq!(format_cell(&n, ColumnKind::Allocated, 0, "", 12, ""), "       4 KiB");
    assert_eq!(format_cell(&n, ColumnKind::FileCount, 0, "", 8, ""), "       3");
    assert_eq!(format_cell(&n, ColumnKind::DirCount, 0, "", 7, ""), "      1");
    assert_eq!(format_cell(&n, ColumnKind::Mtime, 0, "", 17, ""), "                 ");
    assert_eq!(format_cell(&n, ColumnKind::Owner, 0, "", 12, ""), "bob         ");
}

#[test]
fn format_cell_shows_unknown_allocation_as_placeholder() {
    let n = Node::new_leaf("x.bin", NodeKind::File, 2048, None, None, None);
    assert_eq!(format_cell(&n, ColumnKind::Allocated, 0, "", 8, ""), "     N/A");
}
