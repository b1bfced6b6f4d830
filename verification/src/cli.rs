//! The terminal front-end's state machine: key bindings, the commands they
//! map to, and what each command and each scan event does to the state.
//!
//! Scans run elsewhere: when a command wants one started or cancelled, the
//! state records the request and the caller acts on it, then reports back
//! what the scan delivered.

use vstd::prelude::*;
use crate::events::{scan_error_text, ScanError, ScanEvent};
use crate::format::ElapsedTime;
use crate::text::{pop_char, push_char};
use crate::tree::{depth_bounded, Node, NodeId, Tree};
use crate::view::{
    cache_consistent, match_mask, rebuild_visible_rows, reset_state, search_needle, toggle_expand, visible_rows_of,
    RowEntry, SortDir, SortKey, Status, UiState,
};

verus! {

/// Modal input state: most of the time `Normal`; `/` switches to `Search`
/// until Enter or Esc.
#[derive(Clone, Copy, Debug, PartialEq, Eq, Structural)]
pub enum Mode {
    Normal,
    Search,
}

/// What the event loop does after a key: redraw, skip the redraw (the key
/// is unbound), or stop.
#[derive(Clone, Copy, Debug, PartialEq, Eq, Structural)]
pub enum Action {
    Redraw,
    Ignore,
    Quit,
}

/// One command the user can issue.
#[derive(Clone, Copy, Debug, PartialEq, Eq, Structural)]
pub enum Command {
    Quit,
    StartScan,
    CancelScan,
    /// Move the selection by this many rows (negative: up).
    Move(i32),
    MoveFirst,
    MoveLast,
    /// Expand the selected row, or step into its first child.
    Expand,
    /// Collapse the selected row, or step out to its parent.
    Collapse,
    /// Sort by this key; the same key again flips the direction.
    SetSort(SortKey),
    ToggleHelp,
    EnterSearch,
    SearchPush(char),
    SearchBackspace,
    SearchApply,
    SearchClear,
    SearchAbort,
}

/// The keys the front-end tells apart.
#[derive(Clone, Copy, Debug, PartialEq, Eq, Structural)]
pub enum KeyCode {
    Char(char),
    Up,
    Down,
    Left,
    Right,
    PageUp,
    PageDown,
    Home,
    End,
    Enter,
    Esc,
    Backspace,
    /// A function key.
    F(u8),
    /// Any other key.
    Other,
}

/// A key press, and whether Ctrl was held.
#[derive(Clone, Copy, Debug, PartialEq, Eq, Structural)]
pub struct KeyEvent {
    pub code: KeyCode,
    pub ctrl: bool,
}

impl KeyEvent {
    pub fn new(code: KeyCode, ctrl: bool) -> (k: KeyEvent)
        ensures
            k.code == code,
            k.ctrl == ctrl,
    {
        KeyEvent { code, ctrl }
    }
}

/// The key bindings. Ctrl+C quits in either mode; in search mode every
/// character is typed into the query.
pub open spec fn command_for(key: KeyEvent, mode: Mode) -> Option<Command> {
    if key.ctrl && key.code == KeyCode::Char('c') {
        Some(Command::Quit)
    } else {
        match mode {
            Mode::Search => match key.code {
                KeyCode::Esc => Some(Command::SearchAbort),
                KeyCode::Enter => Some(Command::SearchApply),
                KeyCode::Backspace => Some(Command::SearchBackspace),
                KeyCode::Char(c) => Some(Command::SearchPush(c)),
                _ => None,
            },
            Mode::Normal => match key.code {
                KeyCode::Char('q') => Some(Command::Quit),
                KeyCode::Char('s') | KeyCode::Char('r') => Some(Command::StartScan),
                KeyCode::Esc => Some(Command::CancelScan),
                KeyCode::Up | KeyCode::Char('k') => Some(Command::Move(-1i32)),
                KeyCode::Down | KeyCode::Char('j') => Some(Command::Move(1i32)),
                KeyCode::PageUp => Some(Command::Move(-15i32)),
                KeyCode::PageDown => Some(Command::Move(15i32)),
                KeyCode::Home | KeyCode::Char('g') => Some(Command::MoveFirst),
                KeyCode::End | KeyCode::Char('G') => Some(Command::MoveLast),
                KeyCode::Right | KeyCode::Char('l') | KeyCode::Enter => Some(Command::Expand),
                KeyCode::Left | KeyCode::Char('h') => Some(Command::Collapse),
                KeyCode::Char('1') => Some(Command::SetSort(SortKey::Name)),
                KeyCode::Char('2') => Some(Command::SetSort(SortKey::Size)),
                KeyCode::Char('3') => Some(Command::SetSort(SortKey::Allocated)),
                KeyCode::Char('4') => Some(Command::SetSort(SortKey::FileCount)),
                KeyCode::Char('5') => Some(Command::SetSort(SortKey::DirCount)),
                KeyCode::Char('6') => Some(Command::SetSort(SortKey::Mtime)),
                KeyCode::Char('7') => Some(Command::SetSort(SortKey::Owner)),
                KeyCode::Char('/') => Some(Command::EnterSearch),
                KeyCode::Char('c') => Some(Command::SearchClear),
                KeyCode::Char('?') => Some(Command::ToggleHelp),
                _ => None,
            },
        }
    }
}

/// Map a key press in the given mode to the command it is bound to.
pub fn key_to_command(key: KeyEvent, mode: Mode) -> (r: Option<Command>)
    ensures
        r == command_for(key, mode),
{
    if key.ctrl {
        if let KeyCode::Char('c') = key.code {
            return Some(Command::Quit);
        }
    }
    match mode {
        Mode::Search => match key.code {
            KeyCode::Esc => Some(Command::SearchAbort),
            KeyCode::Enter => Some(Command::SearchApply),
            KeyCode::Backspace => Some(Command::SearchBackspace),
            KeyCode::Char(c) => Some(Command::SearchPush(c)),
            _ => None,
        },
        Mode::Normal => match key.code {
            KeyCode::Char('q') => Some(Command::Quit),
            KeyCode::Char('s') | KeyCode::Char('r') => Some(Command::StartScan),
            KeyCode::Esc => Some(Command::CancelScan),
            KeyCode::Up | KeyCode::Char('k') => Some(Command::Move(-1)),
            KeyCode::Down | KeyCode::Char('j') => Some(Command::Move(1)),
            KeyCode::PageUp => Some(Command::Move(-15)),
            KeyCode::PageDown => Some(Command::Move(15)),
            KeyCode::Home | KeyCode::Char('g') => Some(Command::MoveFirst),
            KeyCode::End | KeyCode::Char('G') => Some(Command::MoveLast),
            KeyCode::Right | KeyCode::Char('l') | KeyCode::Enter => Some(Command::Expand),
            KeyCode::Left | KeyCode::Char('h') => Some(Command::Collapse),
            KeyCode::Char('1') => Some(Command::SetSort(SortKey::Name)),
            KeyCode::Char('2') => Some(Command::SetSort(SortKey::Size)),
            KeyCode::Char('3') => Some(Command::SetSort(SortKey::Allocated)),
            KeyCode::Char('4') => Some(Command::SetSort(SortKey::FileCount)),
            KeyCode::Char('5') => Some(Command::SetSort(SortKey::DirCount)),
            KeyCode::Char('6') => Some(Command::SetSort(SortKey::Mtime)),
            KeyCode::Char('7') => Some(Command::SetSort(SortKey::Owner)),
            KeyCode::Char('/') => Some(Command::EnterSearch),
            KeyCode::Char('c') => Some(Command::SearchClear),
            KeyCode::Char('?') => Some(Command::ToggleHelp),
            _ => None,
        },
    }
}

/// Scan work the caller is asked to carry out.
#[derive(Clone, Copy, Debug, PartialEq, Eq, Structural)]
pub enum ScanRequest {
    Start,
    Cancel,
}

/// Everything the front-end keeps between frames.
#[derive(Debug)]
pub struct RustyTreeApp {
    /// Directory to scan.
    pub path: String,
    /// A scan is in flight (the caller holds its handle).
    pub scanning: bool,
    pub tree: Option<Tree>,
    pub status: Status,
    pub ui: UiState,
    pub mode: Mode,
    pub help_open: bool,
    /// Index of the top-most rendered row.
    pub scroll_offset: usize,
    /// Scan work requested by the last command, for the caller to take.
    pub scan_request: Option<ScanRequest>,
}

/// The status text shown when a scan is asked for with no path set.
pub open spec fn no_path_text() -> Seq<char> {
    "no path configured — pass a directory as the first argument"@
}

/// The status text shown when the scan worker goes away without a result.
pub open spec fn disconnected_text() -> Seq<char> {
    "scan worker disconnected before reporting completion"@
}

/// The search filter for this search string: none when the needle is empty.
pub open spec fn search_filter(nodes: Seq<Node>, search: Seq<char>) -> Option<Seq<bool>> {
    let needle = search_needle(search);
    if needle.len() == 0 {
        None
    } else {
        Some(match_mask(nodes, needle))
    }
}

/// The rows the view state shows for this tree.
pub open spec fn rows_for(nodes: Seq<Node>, ui: UiState) -> Seq<RowEntry> {
    visible_rows_of(nodes, ui.expanded@, ui.sort_key, ui.sort_dir, search_filter(nodes, ui.search@))
}

/// Row `i` is the first one showing `id`.
pub open spec fn first_row(rows: Seq<RowEntry>, id: NodeId, i: int) -> bool {
    &&& 0 <= i < rows.len()
    &&& rows[i].id == id
    &&& forall|j: int| 0 <= j < i ==> rows[j].id != id
}

/// Position of the first row showing the selection, when one does.
pub open spec fn selected_row(rows: Seq<RowEntry>, sel: Option<NodeId>) -> Option<int> {
    match sel {
        Some(id) => if exists|i: int| first_row(rows, id, i) {
            Some(choose|i: int| first_row(rows, id, i))
        } else {
            None
        },
        None => None,
    }
}

/// Position of the selection among the rows: the first row showing it,
/// or 0 when nothing shown is selected.
pub open spec fn selected_pos(rows: Seq<RowEntry>, sel: Option<NodeId>) -> int {
    match selected_row(rows, sel) {
        Some(i) => i,
        None => 0,
    }
}

/// `cur + delta`, clamped into `0..len`.
pub open spec fn clamp_index(cur: int, delta: int, len: int) -> int {
    let t = cur + delta;
    if t < 0 {
        0
    } else if t > len - 1 {
        len - 1
    } else {
        t
    }
}

/// The selection after moving by `delta` rows.
pub open spec fn moved_selection(rows: Seq<RowEntry>, sel: Option<NodeId>, delta: int) -> Option<NodeId> {
    if rows.len() == 0 {
        sel
    } else {
        Some(rows[clamp_index(selected_pos(rows, sel), delta, rows.len() as int)].id)
    }
}

/// The selection after jumping to row `idx` (unchanged past the end).
pub open spec fn selection_at(rows: Seq<RowEntry>, sel: Option<NodeId>, idx: int) -> Option<NodeId> {
    if 0 <= idx < rows.len() {
        Some(rows[idx].id)
    } else {
        sel
    }
}

/// The selection kept on a shown row: cleared when nothing is shown,
/// moved to the first row when the selected node is not shown.
pub open spec fn clamped_selection(sel: Option<NodeId>, rows: Seq<RowEntry>) -> Option<NodeId> {
    if rows.len() == 0 {
        None
    } else if sel matches Some(id) && exists|i: int| 0 <= i < rows.len() && rows[i].id == id {
        sel
    } else {
        Some(rows[0].id)
    }
}

/// The scroll offset after bringing the selected row `sel` into a body
/// `height` rows tall, then keeping the offset within the last page of
/// `total` rows.
pub open spec fn scrolled_offset(offset: int, sel: Option<int>, height: int, total: int) -> int {
    let o = match sel {
        Some(i) => if i < offset {
            i
        } else if i >= offset + height {
            i + 1 - height
        } else {
            offset
        },
        None => offset,
    };
    let max = if total > height {
        total - height
    } else {
        0
    };
    if o > max {
        max
    } else {
        o
    }
}

pub open spec fn flipped(d: SortDir) -> SortDir {
    match d {
        SortDir::Asc => SortDir::Desc,
        SortDir::Desc => SortDir::Asc,
    }
}

/// Direction a newly chosen sort key starts in: names ascending, numbers
/// and times descending.
pub open spec fn initial_dir(k: SortKey) -> SortDir {
    match k {
        SortKey::Name | SortKey::Owner => SortDir::Asc,
        _ => SortDir::Desc,
    }
}

/// `b` is `a` with its rows brought up to date: when they are dirty and a
/// tree is present, the rows are recomputed, the dirty flag drops and the
/// selection is kept on a shown row. Nothing else changes.
pub open spec fn rows_refreshed(a: RustyTreeApp, b: RustyTreeApp) -> bool {
    if a.ui.rows_dirty && a.tree is Some {
        &&& b.ui.visible_rows@ == rows_for(a.tree->0.nodes(), a.ui)
        &&& b.ui.selected == clamped_selection(a.ui.selected, b.ui.visible_rows@)
        &&& b == (RustyTreeApp {
            ui: UiState {
                visible_rows: b.ui.visible_rows,
                selected: b.ui.selected,
                rows_dirty: false,
                search_cache: b.ui.search_cache,
                ..a.ui
            },
            ..a
        })
    } else {
        b == a
    }
}

/// `b` is `a` after the selection-based expand step: an expanded node
/// steps into its first child (which gets expanded too), a collapsed one
/// is expanded. Nothing happens without a selected node with children.
pub open spec fn expand_applied(a: RustyTreeApp, b: RustyTreeApp) -> bool {
    match (a.ui.selected, a.tree) {
        (Some(id), Some(t)) => if id.index() < t.nodes().len() && t.nodes()[id.index()].children@.len() > 0 {
            let first = t.nodes()[id.index()].children@[0];
            &&& if a.ui.expanded@.contains(id) {
                &&& b.ui.selected == Some(first)
                &&& b.ui.expanded@ == a.ui.expanded@.insert(first)
            } else {
                &&& b.ui.selected == a.ui.selected
                &&& b.ui.expanded@ == a.ui.expanded@.insert(id)
            }
            &&& b == (RustyTreeApp {
                ui: UiState { expanded: b.ui.expanded, selected: b.ui.selected, rows_dirty: true, ..a.ui },
                ..a
            })
        } else {
            b == a
        },
        _ => b == a,
    }
}

/// `b` is `a` after the selection-based collapse step: an expanded node
/// is collapsed, otherwise the selection steps out to the parent. Nothing
/// happens without a selection and a tree.
pub open spec fn collapse_applied(a: RustyTreeApp, b: RustyTreeApp) -> bool {
    match (a.ui.selected, a.tree) {
        (Some(id), Some(t)) => {
            &&& if a.ui.expanded@.contains(id) {
                &&& b.ui.selected == a.ui.selected
                &&& b.ui.expanded@ == a.ui.expanded@.remove(id)
            } else {
                &&& b.ui.selected == (if id.index() < t.nodes().len() && t.nodes()[id.index()].parent is Some {
                    t.nodes()[id.index()].parent
                } else {
                    a.ui.selected
                })
                &&& b.ui.expanded@ == a.ui.expanded@
            }
            &&& b == (RustyTreeApp {
                ui: UiState { expanded: b.ui.expanded, selected: b.ui.selected, rows_dirty: true, ..a.ui },
                ..a
            })
        },
        _ => b == a,
    }
}

/// `b` is `a` with `cmd` applied, before the rows are refreshed.
pub open spec fn command_applied(a: RustyTreeApp, b: RustyTreeApp, cmd: Command) -> bool {
    let rows = a.ui.visible_rows@;
    match cmd {
        Command::Quit => b == a,
        Command::StartScan => if a.path@.len() == 0 {
            &&& b == (RustyTreeApp { status: b.status, ..a })
            &&& b.status matches Status::Error(m) && m@ == no_path_text()
        } else {
            &&& b == (RustyTreeApp {
                tree: None,
                ui: b.ui,
                scroll_offset: 0,
                scan_request: Some(ScanRequest::Start),
                ..a
            })
            &&& reset_state(b.ui, a.ui.search@, a.ui.sort_key, a.ui.sort_dir)
        },
        Command::CancelScan => b == (RustyTreeApp {
            scan_request: if a.scanning {
                Some(ScanRequest::Cancel)
            } else {
                a.scan_request
            },
            ..a
        }),
        Command::Move(d) => b == (RustyTreeApp {
            ui: UiState { selected: moved_selection(rows, a.ui.selected, d as int), ..a.ui },
            ..a
        }),
        Command::MoveFirst => b == (RustyTreeApp {
            ui: UiState { selected: selection_at(rows, a.ui.selected, 0), ..a.ui },
            ..a
        }),
        Command::MoveLast => b == (RustyTreeApp {
            ui: UiState { selected: selection_at(rows, a.ui.selected, rows.len() - 1), ..a.ui },
            ..a
        }),
        Command::Expand => expand_applied(a, b),
        Command::Collapse => collapse_applied(a, b),
        Command::SetSort(k) => b == (RustyTreeApp {
            ui: UiState {
                sort_key: k,
                sort_dir: if a.ui.sort_key == k {
                    flipped(a.ui.sort_dir)
                } else {
                    initial_dir(k)
                },
                rows_dirty: true,
                ..a.ui
            },
            ..a
        }),
        Command::ToggleHelp => b == (RustyTreeApp { help_open: !a.help_open, ..a }),
        Command::EnterSearch => b == (RustyTreeApp { mode: Mode::Search, ..a }),
        Command::SearchPush(c) => {
            &&& b == (RustyTreeApp { ui: UiState { search: b.ui.search, rows_dirty: true, ..a.ui }, ..a })
            &&& b.ui.search@ == a.ui.search@.push(c)
        },
        Command::SearchBackspace => if a.ui.search@.len() > 0 {
            &&& b == (RustyTreeApp { ui: UiState { search: b.ui.search, rows_dirty: true, ..a.ui }, ..a })
            &&& b.ui.search@ == a.ui.search@.drop_last()
        } else {
            b == a
        },
        Command::SearchApply => b == (RustyTreeApp {
            mode: Mode::Normal,
            ui: UiState { rows_dirty: true, ..a.ui },
            ..a
        }),
        Command::SearchClear => {
            &&& b == (RustyTreeApp { ui: UiState { search: b.ui.search, rows_dirty: true, ..a.ui }, ..a })
            &&& b.ui.search@.len() == 0
        },
        Command::SearchAbort => {
            &&& b == (RustyTreeApp {
                mode: Mode::Normal,
                ui: UiState { search: b.ui.search, rows_dirty: true, ..a.ui },
                ..a
            })
            &&& b.ui.search@.len() == 0
        },
    }
}

proof fn lemma_first_row_unique(rows: Seq<RowEntry>, id: NodeId, i: int, k: int)
    requires
        first_row(rows, id, i),
        first_row(rows, id, k),
    ensures
        i == k,
{
    if i < k {
        assert(rows[i].id != id);
    } else if k < i {
        assert(rows[k].id != id);
    }
}

impl RustyTreeApp {
    /// A present tree can be shown (its depths fit a row) and the search
    /// memo agrees with it.
    pub open spec fn wf(self) -> bool {
        self.tree matches Some(t) ==> {
            &&& depth_bounded(t.nodes())
            &&& cache_consistent(self.ui.search_cache, t.nodes())
        }
    }

    pub fn new(path: String) -> (app: RustyTreeApp)
        ensures
            app.path@ == path@,
            !app.scanning,
            app.tree is None,
            app.status is Idle,
            reset_state(app.ui, Seq::empty(), SortKey::Size, SortDir::Desc),
            app.mode == Mode::Normal,
            !app.help_open,
            app.scroll_offset == 0,
            app.scan_request is None,
            app.wf(),
    {
        RustyTreeApp {
            path,
            scanning: false,
            tree: None,
            status: Status::Idle,
            ui: UiState::default(),
            mode: Mode::Normal,
            help_open: false,
            scroll_offset: 0,
            scan_request: None,
        }
    }

    /// Index of the first row showing the selected node.
    fn selected_index(&self) -> (r: Option<usize>)
        ensures
            r matches Some(i) ==> selected_row(self.ui.visible_rows@, self.ui.selected) == Some(i as int),
            r is None ==> selected_row(self.ui.visible_rows@, self.ui.selected) is None,
            r is None ==> (self.ui.selected matches Some(id) ==> forall|j: int|
                0 <= j < self.ui.visible_rows@.len() ==> self.ui.visible_rows@[j].id != id),
    {
        let id = match self.ui.selected {
            Some(id) => id,
            None => return None,
        };
        let ghost rows = self.ui.visible_rows@;
        let n = self.ui.visible_rows.len();
        let mut i: usize = 0;
        while i < n
            invariant
                n == rows.len(),
                rows == self.ui.visible_rows@,
                self.ui.selected == Some(id),
                i <= n,
                forall|j: int| 0 <= j < i ==> rows[j].id != id,
            decreases n - i,
        {
            if self.ui.visible_rows[i].id == id {
                proof {
                    assert(first_row(rows, id, i as int));
                    let c = choose|k: int| first_row(rows, id, k);
                    lemma_first_row_unique(rows, id, i as int, c);
                }
                return Some(i);
            }
            i = i + 1;
        }
        proof {
            assert(!exists|k: int| first_row(rows, id, k));
        }
        None
    }

    /// The position `selected_pos` names, computed.
    fn selected_position(&self) -> (r: usize)
        ensures
            r == selected_pos(self.ui.visible_rows@, self.ui.selected),
    {
        match self.selected_index() {
            Some(i) => i,
            None => 0,
        }
    }

    fn set_selection_to_index(&mut self, idx: usize)
        ensures
            *final(self) == (RustyTreeApp {
                ui: UiState {
                    selected: selection_at(old(self).ui.visible_rows@, old(self).ui.selected, idx as int),
                    ..old(self).ui
                },
                ..*old(self)
            }),
    {
        if idx < self.ui.visible_rows.len() {
            self.ui.selected = Some(self.ui.visible_rows[idx].id);
        }
    }

    fn move_selection(&mut self, delta: i32)
        ensures
            *final(self) == (RustyTreeApp {
                ui: UiState {
                    selected: moved_selection(old(self).ui.visible_rows@, old(self).ui.selected, delta as int),
                    ..old(self).ui
                },
                ..*old(self)
            }),
    {
        let n = self.ui.visible_rows.len();
        if n == 0 {
            return;
        }
        let cur = self.selected_position();
        proof {
            if let Some(id) = self.ui.selected {
                if exists|k: int| first_row(self.ui.visible_rows@, id, k) {
                    let c = choose|k: int| first_row(self.ui.visible_rows@, id, k);
                    assert(c < n);
                }
            }
        }
        let t: i128 = cur as i128 + delta as i128;
        let last: usize = n - 1;
        let idx: usize = if t < 0 {
            0
        } else if t > last as i128 {
            last
        } else {
            t as usize
        };
        self.set_selection_to_index(idx);
    }

    /// Keep the selection on a shown row (or clear it when none is shown).
    fn clamp_selection(&mut self)
        ensures
            *final(self) == (RustyTreeApp {
                ui: UiState {
                    selected: clamped_selection(old(self).ui.selected, old(self).ui.visible_rows@),
                    ..old(self).ui
                },
                ..*old(self)
            }),
    {
        if self.ui.visible_rows.len() == 0 {
            self.ui.selected = None;
            return;
        }
        if self.selected_index().is_none() {
            self.ui.selected = Some(self.ui.visible_rows[0].id);
        }
    }

    fn expand_selected(&mut self)
        ensures
            expand_applied(*old(self), *final(self)),
    {
        let id = match self.ui.selected {
            Some(id) => id,
            None => return,
        };
        let first: Option<NodeId> = match &self.tree {
            None => return,
            Some(tree) => match tree.get(id) {
                None => return,
                Some(node) => {
                    if node.children.len() == 0 {
                        return;
                    }
                    Some(node.children[0])
                },
            },
        };
        if self.ui.expanded.contains(id) {
            if let Some(c) = first {
                self.ui.selected = Some(c);
                self.ui.expanded.insert(c);
            }
        } else {
            self.ui.expanded.insert(id);
        }
        self.ui.rows_dirty = true;
    }

    fn collapse_selected(&mut self)
        ensures
            collapse_applied(*old(self), *final(self)),
    {
        let id = match self.ui.selected {
            Some(id) => id,
            None => return,
        };
        let parent: Option<NodeId> = match &self.tree {
            None => return,
            Some(tree) => match tree.get(id) {
                Some(node) => node.parent,
                None => None,
            },
        };
        if self.ui.expanded.contains(id) {
            toggle_expand(&mut self.ui.expanded, id);
        } else if let Some(p) = parent {
            self.ui.selected = Some(p);
        }
        self.ui.rows_dirty = true;
    }

    fn start_scan(&mut self)
        ensures
            command_applied(*old(self), *final(self), Command::StartScan),
    {
        if self.path.as_str().is_empty() {
            proof {
                reveal_strlit("no path configured — pass a directory as the first argument");
            }
            self.status = Status::Error(
                String::from_str("no path configured — pass a directory as the first argument"),
            );
            return;
        }
        self.tree = None;
        self.ui.reset_for_new_scan();
        self.scroll_offset = 0;
        self.scan_request = Some(ScanRequest::Start);
    }

    /// Scroll so that the selected row lies within a body `body_height`
    /// rows tall, without scrolling past the last page.
    pub fn scroll_to_selection(&mut self, body_height: usize)
        ensures
            *final(self) == (RustyTreeApp {
                scroll_offset: scrolled_offset(
                    old(self).scroll_offset as int,
                    selected_row(old(self).ui.visible_rows@, old(self).ui.selected),
                    body_height as int,
                    old(self).ui.visible_rows@.len() as int,
                ) as usize,
                ..*old(self)
            }),
            body_height > 0 ==> (selected_row(old(self).ui.visible_rows@, old(self).ui.selected) matches Some(i)
                ==> final(self).scroll_offset <= i < final(self).scroll_offset + body_height),
    {
        let total = self.ui.visible_rows.len();
        if let Some(i) = self.selected_index() {
            if i < self.scroll_offset {
                self.scroll_offset = i;
            } else if i - self.scroll_offset >= body_height {
                self.scroll_offset = i + 1 - body_height;
            }
        }
        let max: usize = if total > body_height {
            total - body_height
        } else {
            0
        };
        if self.scroll_offset > max {
            self.scroll_offset = max;
        }
    }

    /// Recompute the rows if they are dirty and a tree is present; true
    /// when they were recomputed.
    pub fn flush_rows(&mut self) -> (changed: bool)
        requires
            old(self).wf(),
        ensures
            final(self).wf(),
            rows_refreshed(*old(self), *final(self)),
            changed == (old(self).ui.rows_dirty && old(self).tree is Some),
    {
        let rebuilt = match &self.tree {
            Some(tree) => if self.ui.rows_dirty {
                rebuild_visible_rows(tree, &mut self.ui);
                true
            } else {
                false
            },
            None => false,
        };
        if rebuilt {
            self.ui.rows_dirty = false;
            self.clamp_selection();
        }
        rebuilt
    }

    /// Apply a command. Every command but `Quit` asks for a redraw; the
    /// rows are refreshed afterwards if the command dirtied them.
    pub fn dispatch(&mut self, cmd: Command) -> (a: Action)
        requires
            old(self).wf(),
        ensures
            final(self).wf(),
            a == (if cmd is Quit {
                Action::Quit
            } else {
                Action::Redraw
            }),
            cmd is Quit ==> *final(self) == *old(self),
            !(cmd is Quit) ==> exists|mid: RustyTreeApp|
                #[trigger] command_applied(*old(self), mid, cmd) && mid.wf() && rows_refreshed(mid, *final(self)),
            old(self).tree is Some && rows_current(*old(self)) && !(cmd is StartScan) ==> final(self).tree == old(
                self,
            ).tree && rows_current(*final(self)),
    {
        match cmd {
            Command::Quit => {
                return Action::Quit;
            },
            Command::StartScan => {
                self.start_scan();
            },
            Command::CancelScan => {
                if self.scanning {
                    self.scan_request = Some(ScanRequest::Cancel);
                }
            },
            Command::Move(delta) => {
                self.move_selection(delta);
            },
            Command::MoveFirst => {
                self.set_selection_to_index(0);
            },
            Command::MoveLast => {
                let n = self.ui.visible_rows.len();
                let last: usize = if n == 0 {
                    0
                } else {
                    n - 1
                };
                self.set_selection_to_index(last);
            },
            Command::Expand => {
                self.expand_selected();
            },
            Command::Collapse => {
                self.collapse_selected();
            },
            Command::SetSort(key) => {
                if self.ui.sort_key == key {
                    self.ui.sort_dir = match self.ui.sort_dir {
                        SortDir::Asc => SortDir::Desc,
                        SortDir::Desc => SortDir::Asc,
                    };
                } else {
                    self.ui.sort_key = key;
                    self.ui.sort_dir = match key {
                        SortKey::Name | SortKey::Owner => SortDir::Asc,
                        _ => SortDir::Desc,
                    };
                }
                self.ui.rows_dirty = true;
            },
            Command::ToggleHelp => self.help_open = !self.help_open,
            Command::EnterSearch => self.mode = Mode::Search,
            Command::SearchPush(c) => {
                push_char(&mut self.ui.search, c);
                self.ui.rows_dirty = true;
            },
            Command::SearchBackspace => {
                if !self.ui.search.as_str().is_empty() {
                    pop_char(&mut self.ui.search);
                    self.ui.rows_dirty = true;
                }
            },
            Command::SearchApply => {
                self.mode = Mode::Normal;
                self.ui.rows_dirty = true;
            },
            Command::SearchClear => {
                self.ui.search = String::new();
                self.ui.rows_dirty = true;
            },
            Command::SearchAbort => {
                self.ui.search = String::new();
                self.mode = Mode::Normal;
                self.ui.rows_dirty = true;
            },
        }
        let ghost mid = *self;
        assert(command_applied(*old(self), mid, cmd));
        self.flush_rows();
        proof {
            if old(self).tree is Some && rows_current(*old(self)) && !(cmd is StartScan) {
                lemma_commands_keep_rows_current(*old(self), mid, *self, cmd);
            }
        }
        Action::Redraw
    }

    /// Handle a key press: its command is dispatched; an unbound key
    /// changes nothing and asks for no redraw.
    pub fn on_key(&mut self, key: KeyEvent) -> (a: Action)
        requires
            old(self).wf(),
        ensures
            final(self).wf(),
            command_for(key, old(self).mode) is None ==> a == Action::Ignore && *final(self) == *old(self),
            command_for(key, old(self).mode) matches Some(cmd) ==> {
                &&& a == (if cmd is Quit {
                    Action::Quit
                } else {
                    Action::Redraw
                })
                &&& cmd is Quit ==> *final(self) == *old(self)
                &&& !(cmd is Quit) ==> exists|mid: RustyTreeApp|
                    #[trigger] command_applied(*old(self), mid, cmd) && mid.wf() && rows_refreshed(mid, *final(self))
            },
    {
        match key_to_command(key, self.mode) {
            Some(cmd) => self.dispatch(cmd),
            None => Action::Ignore,
        }
    }

    /// Hand over the scan work requested so far, clearing the request.
    pub fn take_scan_request(&mut self) -> (r: Option<ScanRequest>)
        ensures
            r == old(self).scan_request,
            *final(self) == (RustyTreeApp { scan_request: None, ..*old(self) }),
    {
        let r = self.scan_request;
        self.scan_request = None;
        r
    }

    /// The requested scan is now running.
    pub fn scan_started(&mut self)
        ensures
            *final(self) == (RustyTreeApp { status: Status::Scanning, scanning: true, ..*old(self) }),
    {
        self.status = Status::Scanning;
        self.scanning = true;
    }

    /// The requested scan could not be started.
    pub fn scan_start_failed(&mut self, e: &ScanError)
        ensures
            *final(self) == (RustyTreeApp { status: final(self).status, ..*old(self) }),
            final(self).status matches Status::Error(m) && m@ == scan_error_text(*e),
    {
        self.status = Status::Error(e.message());
    }

    /// Take in one event of the running scan; true when something shown
    /// changed (always, for an event). A finished scan's tree replaces
    /// the old one, its root expanded and selected.
    pub fn handle_scan_event(&mut self, ev: ScanEvent) -> (changed: bool)
        requires
            old(self).wf(),
            ev matches ScanEvent::Done { tree, .. } ==> depth_bounded(tree.nodes()),
        ensures
            final(self).wf(),
            changed,
            ev matches ScanEvent::Progress(p) ==> *final(self) == (RustyTreeApp {
                ui: UiState { last_progress: Some(p), ..old(self).ui },
                ..*old(self)
            }),
            ev matches ScanEvent::Done { tree, elapsed } ==> {
                let nodes = tree.nodes();
                let root = tree.spec_root();
                &&& final(self).status == (Status::Done {
                    elapsed,
                    total_bytes: if nodes.len() > 0 { nodes[0].size_total } else { 0 },
                    file_count: if nodes.len() > 0 { nodes[0].file_count } else { 0 },
                    dir_count: if nodes.len() > 0 { nodes[0].dir_count } else { 0 },
                })
                &&& final(self).tree == Some(tree)
                &&& root matches Some(r) ==> final(self).ui.expanded@ == Set::<NodeId>::empty().insert(r)
                    && final(self).ui.selected == Some(r)
                &&& root is None ==> final(self).ui.expanded == old(self).ui.expanded
                    && final(self).ui.selected == old(self).ui.selected
                &&& *final(self) == (RustyTreeApp {
                    scanning: false,
                    tree: final(self).tree,
                    status: final(self).status,
                    ui: UiState {
                        expanded: final(self).ui.expanded,
                        selected: final(self).ui.selected,
                        rows_dirty: true,
                        search_cache: None,
                        ..old(self).ui
                    },
                    scroll_offset: 0,
                    ..*old(self)
                })
            },
            ev is Cancelled ==> *final(self) == (RustyTreeApp {
                status: Status::Cancelled,
                scanning: false,
                ..*old(self)
            }),
            ev matches ScanEvent::Error(e) ==> {
                &&& *final(self) == (RustyTreeApp { status: final(self).status, scanning: false, ..*old(self) })
                &&& final(self).status matches Status::Error(m) && m@ == scan_error_text(e)
            },
    {
        match ev {
            ScanEvent::Progress(p) => {
                self.ui.last_progress = Some(p);
            },
            ScanEvent::Done { tree, elapsed } => {
                proof {
                    use_type_invariant(&tree);
                }
                let root = tree.root();
                let (total_bytes, file_count, dir_count): (u64, u64, u64) = match root {
                    Some(r) => match tree.get(r) {
                        Some(n) => (n.size_total, n.file_count, n.dir_count),
                        None => (0, 0, 0),
                    },
                    None => (0, 0, 0),
                };
                self.status = Status::Done { elapsed, total_bytes, file_count, dir_count };
                if let Some(r) = root {
                    self.ui.expanded.clear();
                    self.ui.expanded.insert(r);
                    self.ui.selected = Some(r);
                }
                self.tree = Some(tree);
                self.ui.search_cache = None;
                self.ui.rows_dirty = true;
                self.scroll_offset = 0;
                self.scanning = false;
            },
            ScanEvent::Cancelled => {
                self.status = Status::Cancelled;
                self.scanning = false;
            },
            ScanEvent::Error(e) => {
                self.status = Status::Error(e.message());
                self.scanning = false;
            },
        }
        true
    }

    /// The scan's event channel closed. A scan still marked running ends in
    /// an error; true when the status changed.
    pub fn handle_scan_disconnect(&mut self) -> (changed: bool)
        ensures
            changed == (old(self).status is Scanning),
            old(self).status is Scanning ==> {
                &&& *final(self) == (RustyTreeApp { status: final(self).status, scanning: false, ..*old(self) })
                &&& final(self).status matches Status::Error(m) && m@ == disconnected_text()
            },
            !(old(self).status is Scanning) ==> *final(self) == (RustyTreeApp { scanning: false, ..*old(self) }),
    {
        let was_scanning = match self.status {
            Status::Scanning => true,
            _ => false,
        };
        if was_scanning {
            proof {
                reveal_strlit("scan worker disconnected before reporting completion");
            }
            self.status = Status::Error(String::from_str("scan worker disconnected before reporting completion"));
        }
        self.scanning = false;
        was_scanning
    }
}

/// Ctrl+C quits whatever the mode.
pub proof fn lemma_ctrl_c_always_quits(mode: Mode)
    ensures
        command_for(KeyEvent { code: KeyCode::Char('c'), ctrl: true }, mode) == Some(Command::Quit),
{
}

/// The selection is empty or names a shown row.
pub open spec fn selection_shown(app: RustyTreeApp) -> bool {
    app.ui.selected matches Some(id) ==> exists|i: int|
        0 <= i < app.ui.visible_rows@.len() && #[trigger] app.ui.visible_rows@[i].id == id
}

/// Every command keeps the selection on a shown row (or empty): a command
/// that moves it picks a shown row, and one that changes the rows snaps it
/// back onto them.
pub proof fn lemma_commands_keep_selection_shown(a: RustyTreeApp, mid: RustyTreeApp, b: RustyTreeApp, cmd: Command)
    requires
        selection_shown(a),
        command_applied(a, mid, cmd),
        rows_refreshed(mid, b),
    ensures
        selection_shown(b),
{
    let rows = a.ui.visible_rows@;
    if mid.ui.rows_dirty && mid.tree is Some {
        if let Some(id) = b.ui.selected {
            if !(mid.ui.selected matches Some(x) && exists|i: int| 0 <= i < b.ui.visible_rows@.len() && b.ui.visible_rows@[i].id == x) {
                assert(b.ui.visible_rows@[0].id == id);
            }
        }
    } else {
        match cmd {
            Command::Move(d) => {
                if rows.len() > 0 {
                    let k = clamp_index(selected_pos(rows, a.ui.selected), d as int, rows.len() as int);
                    assert(b.ui.visible_rows@[k].id == rows[k].id);
                }
            },
            Command::MoveFirst => {
                if rows.len() > 0 {
                    assert(b.ui.visible_rows@[0].id == rows[0].id);
                }
            },
            Command::MoveLast => {
                if rows.len() > 0 {
                    assert(b.ui.visible_rows@[rows.len() - 1].id == rows[rows.len() - 1].id);
                }
            },
            _ => {},
        }
    }
}

/// With a tree shown, the rows are current: not marked stale, equal to
/// the flattening of the tree under the expansion set, sort and search;
/// the selection is empty exactly when no row is shown, and otherwise
/// names a shown row.
pub open spec fn rows_current(app: RustyTreeApp) -> bool {
    app.tree matches Some(t) ==> {
        &&& !app.ui.rows_dirty
        &&& app.ui.visible_rows@ == rows_for(t.nodes(), app.ui)
        &&& (app.ui.selected is None <==> app.ui.visible_rows@.len() == 0)
        &&& selection_shown(app)
    }
}

/// Every command but a new scan keeps the tree and keeps the rows current:
/// a command that dirtied the rows has them flattened again, and a
/// selection that fell out of view snaps to the first row.
pub proof fn lemma_commands_keep_rows_current(a: RustyTreeApp, mid: RustyTreeApp, b: RustyTreeApp, cmd: Command)
    requires
        a.tree is Some,
        rows_current(a),
        !(cmd is StartScan),
        command_applied(a, mid, cmd),
        rows_refreshed(mid, b),
    ensures
        b.tree == a.tree,
        rows_current(b),
{
    lemma_commands_keep_selection_shown(a, mid, b, cmd);
    let rows = a.ui.visible_rows@;
    assert(mid.tree == a.tree);
    if mid.ui.rows_dirty {
        assert(rows_for(mid.tree->0.nodes(), mid.ui) == rows_for(b.tree->0.nodes(), b.ui));
    } else {
        match cmd {
            Command::Move(d) => {
                if rows.len() > 0 {
                    let k = clamp_index(selected_pos(rows, a.ui.selected), d as int, rows.len() as int);
                    assert(0 <= k < rows.len());
                }
            },
            _ => {},
        }
        assert(rows_for(a.tree->0.nodes(), a.ui) == rows_for(b.tree->0.nodes(), b.ui));
    }
}

/// What the bound keys do, over every state. In normal mode without Ctrl:
/// Home and `g` select the first row, End and `G` the last; Down and `j`
/// select the row below the selected one, Up and `k` the row above; the
/// digits 1 to 7 sort by name, size, allocated size, files, directories,
/// modification time and owner; PageDown and PageUp move fifteen rows;
/// Right, `l` and Enter expand, Left and `h` collapse; `/` enters search
/// mode, `c` clears the search, `?` toggles the help, Esc asks a running
/// scan to stop, `s` and `r` start a scan, `q` changes nothing (it quits).
/// In search mode a typed character is appended to the search, Backspace
/// removes the last one, Enter applies the search and Esc drops it.
pub proof fn lemma_bound_keys_act(a: RustyTreeApp, mid: RustyTreeApp, key: KeyEvent, i: int)
    requires
        !key.ctrl,
        command_for(key, a.mode) is Some,
        command_applied(a, mid, command_for(key, a.mode)->0),
    ensures
        ({
            let rows = a.ui.visible_rows@;
            &&& a.mode == Mode::Normal && (key.code == KeyCode::Home || key.code == KeyCode::Char('g')) && rows.len()
                > 0 ==> mid.ui.selected == Some(rows[0].id)
            &&& a.mode == Mode::Normal && (key.code == KeyCode::End || key.code == KeyCode::Char('G')) && rows.len()
                > 0 ==> mid.ui.selected == Some(rows[rows.len() - 1].id)
            &&& a.mode == Mode::Normal && (key.code == KeyCode::Down || key.code == KeyCode::Char('j')) && a.ui.selected
                == Some(rows[i].id) && first_row(rows, rows[i].id, i) && i + 1 < rows.len() ==> mid.ui.selected == Some(
                rows[i + 1].id,
            )
            &&& a.mode == Mode::Normal && (key.code == KeyCode::Up || key.code == KeyCode::Char('k')) && a.ui.selected
                == Some(rows[i].id) && first_row(rows, rows[i].id, i) && i > 0 ==> mid.ui.selected == Some(rows[i - 1].id)
        }),
        a.mode == Mode::Normal && key.code == KeyCode::Char('1') ==> mid.ui.sort_key == SortKey::Name,
        a.mode == Mode::Normal && key.code == KeyCode::Char('2') ==> mid.ui.sort_key == SortKey::Size,
        a.mode == Mode::Normal && key.code == KeyCode::Char('3') ==> mid.ui.sort_key == SortKey::Allocated,
        a.mode == Mode::Normal && key.code == KeyCode::Char('4') ==> mid.ui.sort_key == SortKey::FileCount,
        a.mode == Mode::Normal && key.code == KeyCode::Char('5') ==> mid.ui.sort_key == SortKey::DirCount,
        a.mode == Mode::Normal && key.code == KeyCode::Char('6') ==> mid.ui.sort_key == SortKey::Mtime,
        a.mode == Mode::Normal && key.code == KeyCode::Char('7') ==> mid.ui.sort_key == SortKey::Owner,
        a.mode == Mode::Search ==> (key.code matches KeyCode::Char(c) ==> mid.ui.search@ == a.ui.search@.push(c)),
        a.mode == Mode::Search && key.code == KeyCode::Backspace && a.ui.search@.len() > 0 ==> mid.ui.search@
            == a.ui.search@.take(a.ui.search@.len() - 1),
        a.mode == Mode::Search && key.code == KeyCode::Enter ==> mid.mode == Mode::Normal && mid.ui.search@
            == a.ui.search@,
        a.mode == Mode::Search && key.code == KeyCode::Esc ==> mid.mode == Mode::Normal && mid.ui.search@.len() == 0,
        a.mode == Mode::Normal && key.code == KeyCode::Char('/') ==> mid.mode == Mode::Search && mid.ui == a.ui,
        a.mode == Mode::Normal && key.code == KeyCode::Char('c') ==> mid.mode == Mode::Normal && mid.ui.search@.len()
            == 0,
        a.mode == Mode::Normal && key.code == KeyCode::Char('?') ==> mid.help_open == !a.help_open && mid.ui == a.ui,
        a.mode == Mode::Normal && key.code == KeyCode::Esc ==> mid.tree == a.tree && mid.ui == a.ui && (a.scanning
            ==> mid.scan_request == Some(ScanRequest::Cancel)),
        a.mode == Mode::Normal && (key.code == KeyCode::Char('s') || key.code == KeyCode::Char('r')) && a.path@.len() > 0
            ==> mid.scan_request == Some(ScanRequest::Start) && mid.tree is None,
        a.mode == Mode::Normal && (key.code == KeyCode::Right || key.code == KeyCode::Char('l') || key.code
            == KeyCode::Enter) ==> expand_applied(a, mid),
        a.mode == Mode::Normal && (key.code == KeyCode::Left || key.code == KeyCode::Char('h')) ==> collapse_applied(
            a,
            mid,
        ),
        ({
            let rows = a.ui.visible_rows@;
            &&& a.mode == Mode::Normal && key.code == KeyCode::PageDown && a.ui.selected == Some(rows[i].id)
                && first_row(rows, rows[i].id, i) ==> mid.ui.selected == Some(
                rows[if i + 15 < rows.len() { i + 15 } else { rows.len() - 1 }].id,
            )
            &&& a.mode == Mode::Normal && key.code == KeyCode::PageUp && a.ui.selected == Some(rows[i].id) && first_row(
                rows,
                rows[i].id,
                i,
            ) ==> mid.ui.selected == Some(rows[if i >= 15 { i - 15 } else { 0 }].id)
        }),
        a.mode == Mode::Normal && key.code == KeyCode::Char('q') ==> mid == a && command_for(key, a.mode) == Some(
            Command::Quit,
        ),
{
    let rows = a.ui.visible_rows@;
    if 0 <= i < rows.len() && first_row(rows, rows[i].id, i) && a.ui.selected == Some(rows[i].id) {
        assert(exists|k: int| first_row(rows, rows[i].id, k));
        let k = choose|k: int| first_row(rows, rows[i].id, k);
        lemma_first_row_unique(rows, rows[i].id, i, k);
        assert(selected_row(rows, a.ui.selected) == Some(i));
    }
    if a.mode == Mode::Search && key.code == KeyCode::Backspace && a.ui.search@.len() > 0 {
        assert(a.ui.search@.drop_last() =~= a.ui.search@.take(a.ui.search@.len() - 1));
    }
}

/// Choosing a sort key: a key other than the active one starts ascending
/// for names and owners and descending for sizes, counts and times;
/// choosing the active key again reverses the direction, and doing so twice
/// restores it.
pub proof fn lemma_sort_direction_choice(d: SortDir, k: SortKey)
    ensures
        flipped(d) != d,
        flipped(flipped(d)) == d,
        k == SortKey::Name || k == SortKey::Owner ==> initial_dir(k) == SortDir::Asc,
        k == SortKey::Size || k == SortKey::Allocated || k == SortKey::FileCount || k == SortKey::DirCount || k
            == SortKey::Mtime ==> initial_dir(k) == SortDir::Desc,
{
}

/// Ctrl-C quits in either mode.
pub proof fn lemma_ctrl_c_quits(mode: Mode)
    ensures
        command_for(KeyEvent { code: KeyCode::Char('c'), ctrl: true }, mode) == Some(Command::Quit),
{
}

/// Choosing the active sort key again flips the direction, so doing it
/// twice in a row restores the direction: the key stays, and every row and
/// the selection are as the first choice left them.
pub proof fn lemma_same_sort_key_twice_restores_direction(
    a: RustyTreeApp,
    m1: RustyTreeApp,
    b: RustyTreeApp,
    m2: RustyTreeApp,
    c: RustyTreeApp,
    k: SortKey,
)
    requires
        command_applied(a, m1, Command::SetSort(k)),
        rows_refreshed(m1, b),
        command_applied(b, m2, Command::SetSort(k)),
        rows_refreshed(m2, c),
    ensures
        b.ui.sort_key == k,
        c.ui.sort_key == k,
        c.ui.sort_dir == flipped(b.ui.sort_dir),
        a.ui.sort_key == k ==> c.ui.sort_dir == a.ui.sort_dir,
{
}

} // verus!
