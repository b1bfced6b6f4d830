//! The desktop front-end's state machine: the path box, the scan button,
//! clicks on column headers, chevrons and rows, and what the scan delivers.
//!
//! As for the terminal front-end, scans run elsewhere: a started scan is
//! handed to the caller, which reports back what it delivered.

use vstd::prelude::*;
use crate::cli::{disconnected_text, flipped, initial_dir, rows_for};
use crate::events::{scan_error_text, ScanError, ScanEvent};
use crate::text::{trim, trimmed};
use crate::tree::{depth_bounded, NodeId, Tree};
use crate::view::{
    cache_consistent, rebuild_visible_rows, reset_state, toggle_expand, toggled, ColumnKind, SortDir, SortKey,
    Status, UiState, column_sort_key,
};

verus! {

/// Everything the desktop front-end keeps between frames.
#[derive(Debug)]
pub struct RustyTreeApp {
    /// Contents of the path box.
    pub path_input: String,
    /// A scan is in flight (the caller holds its handle).
    pub scanning: bool,
    pub tree: Option<Tree>,
    pub status: Status,
    pub ui: UiState,
}

/// The status text shown when a scan is asked for with an empty path box.
pub open spec fn no_input_text() -> Seq<char> {
    "no path entered — type one or click Browse"@
}

impl RustyTreeApp {
    /// A present tree can be shown (its depths fit a row) and the search
    /// memo agrees with it.
    pub open spec fn wf(self) -> bool {
        self.tree matches Some(t) ==> {
            &&& depth_bounded(t.nodes())
            &&& cache_consistent(self.ui.search_cache, t.nodes())
        }
    }

    pub fn new(path_input: String) -> (app: RustyTreeApp)
        ensures
            app.path_input@ == path_input@,
            !app.scanning,
            app.tree is None,
            app.status is Idle,
            reset_state(app.ui, Seq::empty(), SortKey::Size, SortDir::Desc),
            app.wf(),
    {
        RustyTreeApp { path_input, scanning: false, tree: None, status: Status::Idle, ui: UiState::default() }
    }

    /// Scan the path typed in the box (surrounding whitespace ignored).
    /// With an empty path only the status changes; otherwise the tree and
    /// the view state are reset (search and sort kept) and the path to scan
    /// is returned.
    pub fn start_scan_from_input(&mut self) -> (r: Option<String>)
        ensures
            trimmed(old(self).path_input@).len() == 0 ==> {
                &&& r is None
                &&& *final(self) == (RustyTreeApp { status: final(self).status, ..*old(self) })
                &&& final(self).status matches Status::Error(m) && m@ == no_input_text()
            },
            trimmed(old(self).path_input@).len() > 0 ==> {
                &&& r matches Some(p) && p@ == trimmed(old(self).path_input@)
                &&& *final(self) == (RustyTreeApp { tree: None, ui: final(self).ui, ..*old(self) })
                &&& reset_state(final(self).ui, old(self).ui.search@, old(self).ui.sort_key, old(self).ui.sort_dir)
            },
    {
        let path = String::from_str(trim(self.path_input.as_str()));
        if path.as_str().is_empty() {
            proof {
                reveal_strlit("no path entered — type one or click Browse");
            }
            self.status = Status::Error(String::from_str("no path entered — type one or click Browse"));
            return None;
        }
        self.tree = None;
        self.ui.reset_for_new_scan();
        Some(path)
    }

    /// The requested scan is now running.
    pub fn scan_started(&mut self)
        ensures
            *final(self) == (RustyTreeApp { status: Status::Scanning, scanning: true, ..*old(self) }),
    {
        self.status = Status::Scanning;
        self.scanning = true;
    }

    /// The requested scan could not be started.
    pub fn scan_start_failed(&mut self, e: &ScanError)
        ensures
            *final(self) == (RustyTreeApp { status: final(self).status, ..*old(self) }),
            final(self).status matches Status::Error(m) && m@ == scan_error_text(*e),
    {
        self.status = Status::Error(e.message());
    }

    /// Take in one event of the running scan. A finished scan's tree
    /// replaces the old one, with its root expanded.
    pub fn handle_scan_event(&mut self, ev: ScanEvent)
        requires
            old(self).wf(),
            ev matches ScanEvent::Done { tree, .. } ==> depth_bounded(tree.nodes()),
        ensures
            final(self).wf(),
            ev matches ScanEvent::Progress(p) ==> *final(self) == (RustyTreeApp {
                ui: UiState { last_progress: Some(p), ..old(self).ui },
                ..*old(self)
            }),
            ev matches ScanEvent::Done { tree, elapsed } ==> {
                let nodes = tree.nodes();
                let root = tree.spec_root();
                &&& final(self).status == (Status::Done {
                    elapsed,
                    total_bytes: if nodes.len() > 0 { nodes[0].size_total } else { 0 },
                    file_count: if nodes.len() > 0 { nodes[0].file_count } else { 0 },
                    dir_count: if nodes.len() > 0 { nodes[0].dir_count } else { 0 },
                })
                &&& final(self).tree == Some(tree)
                &&& root matches Some(r) ==> final(self).ui.expanded@ == Set::<NodeId>::empty().insert(r)
                &&& root is None ==> final(self).ui.expanded == old(self).ui.expanded
                &&& *final(self) == (RustyTreeApp {
                    scanning: false,
                    tree: final(self).tree,
                    status: final(self).status,
                    ui: UiState {
                        expanded: final(self).ui.expanded,
                        rows_dirty: true,
                        search_cache: None,
                        ..old(self).ui
                    },
                    ..*old(self)
                })
            },
            ev is Cancelled ==> *final(self) == (RustyTreeApp { status: Status::Cancelled, scanning: false, ..*old(self) }),
            ev matches ScanEvent::Error(e) ==> {
                &&& *final(self) == (RustyTreeApp { status: final(self).status, scanning: false, ..*old(self) })
                &&& final(self).status matches Status::Error(m) && m@ == scan_error_text(e)
            },
    {
        match ev {
            ScanEvent::Progress(p) => {
                self.ui.last_progress = Some(p);
            },
            ScanEvent::Done { tree, elapsed } => {
                proof {
                    use_type_invariant(&tree);
                }
                let root = tree.root();
                let (total_bytes, file_count, dir_count): (u64, u64, u64) = match root {
                    Some(r) => match tree.get(r) {
                        Some(n) => (n.size_total, n.file_count, n.dir_count),
                        None => (0, 0, 0),
                    },
                    None => (0, 0, 0),
                };
                self.status = Status::Done { elapsed, total_bytes, file_count, dir_count };
                if let Some(r) = root {
                    self.ui.expanded.clear();
                    self.ui.expanded.insert(r);
                }
                self.tree = Some(tree);
                self.ui.search_cache = None;
                self.ui.rows_dirty = true;
                self.scanning = false;
            },
            ScanEvent::Cancelled => {
                self.status = Status::Cancelled;
                self.scanning = false;
            },
            ScanEvent::Error(e) => {
                self.status = Status::Error(e.message());
                self.scanning = false;
            },
        }
    }

    /// The scan's event channel closed; a scan still marked running ends
    /// in an error.
    pub fn handle_scan_disconnect(&mut self)
        ensures
            old(self).status is Scanning ==> {
                &&& *final(self) == (RustyTreeApp { status: final(self).status, scanning: false, ..*old(self) })
                &&& final(self).status matches Status::Error(m) && m@ == disconnected_text()
            },
            !(old(self).status is Scanning) ==> *final(self) == (RustyTreeApp { scanning: false, ..*old(self) }),
    {
        let was_scanning = match self.status {
            Status::Scanning => true,
            _ => false,
        };
        if was_scanning {
            proof {
                reveal_strlit("scan worker disconnected before reporting completion");
            }
            self.status = Status::Error(String::from_str("scan worker disconnected before reporting completion"));
        }
        self.scanning = false;
    }

    /// A click on a column header sorts by its key; clicking the active
    /// key again flips the direction.
    pub fn click_column_header(&mut self, kind: ColumnKind)
        ensures
            *final(self) == (RustyTreeApp {
                ui: UiState {
                    sort_key: column_sort_key(kind),
                    sort_dir: if old(self).ui.sort_key == column_sort_key(kind) {
                        flipped(old(self).ui.sort_dir)
                    } else {
                        initial_dir(column_sort_key(kind))
                    },
                    rows_dirty: true,
                    ..old(self).ui
                },
                ..*old(self)
            }),
    {
        if let Some(new_key) = kind.sort_key() {
            if self.ui.sort_key == new_key {
                self.ui.sort_dir = match self.ui.sort_dir {
                    SortDir::Asc => SortDir::Desc,
                    SortDir::Desc => SortDir::Asc,
                };
            } else {
                self.ui.sort_key = new_key;
                self.ui.sort_dir = match new_key {
                    SortKey::Name | SortKey::Owner => SortDir::Asc,
                    _ => SortDir::Desc,
                };
            }
            self.ui.rows_dirty = true;
        }
    }

    /// A click on a row's chevron expands or collapses it.
    pub fn click_chevron(&mut self, id: NodeId)
        ensures
            final(self).ui.expanded@ == toggled(old(self).ui.expanded@, id),
            *final(self) == (RustyTreeApp {
                ui: UiState { expanded: final(self).ui.expanded, rows_dirty: true, ..old(self).ui },
                ..*old(self)
            }),
    {
        toggle_expand(&mut self.ui.expanded, id);
        self.ui.rows_dirty = true;
    }

    /// A click on a row selects it.
    pub fn click_row(&mut self, id: NodeId)
        ensures
            *final(self) == (RustyTreeApp { ui: UiState { selected: Some(id), ..old(self).ui }, ..*old(self) }),
    {
        self.ui.selected = Some(id);
    }

    /// The search box was edited.
    pub fn search_edited(&mut self)
        ensures
            *final(self) == (RustyTreeApp { ui: UiState { rows_dirty: true, ..old(self).ui }, ..*old(self) }),
    {
        self.ui.rows_dirty = true;
    }

    /// The search box's Clear button: empty the search.
    pub fn clear_search(&mut self)
        ensures
            final(self).ui.search@.len() == 0,
            *final(self) == (RustyTreeApp {
                ui: UiState { search: final(self).ui.search, rows_dirty: true, ..old(self).ui },
                ..*old(self)
            }),
    {
        self.ui.search = String::new();
        self.ui.rows_dirty = true;
    }

    /// Recompute the rows when they are dirty and a tree is present.
    pub fn refresh_rows(&mut self)
        requires
            old(self).wf(),
        ensures
            final(self).wf(),
            old(self).ui.rows_dirty && old(self).tree is Some ==> {
                &&& final(self).ui.visible_rows@ == rows_for(old(self).tree->0.nodes(), old(self).ui)
                &&& *final(self) == (RustyTreeApp {
                    ui: UiState {
                        visible_rows: final(self).ui.visible_rows,
                        rows_dirty: false,
                        search_cache: final(self).ui.search_cache,
                        ..old(self).ui
                    },
                    ..*old(self)
                })
            },
            !(old(self).ui.rows_dirty && old(self).tree is Some) ==> *final(self) == *old(self),
    {
        let rebuilt = match &self.tree {
            Some(tree) => if self.ui.rows_dirty {
                rebuild_visible_rows(tree, &mut self.ui);
                true
            } else {
                false
            },
            None => false,
        };
        if rebuilt {
            self.ui.rows_dirty = false;
        }
    }
}

} // verus!
