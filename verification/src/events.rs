//! Scan progress, results and failure modes, as plain data.

use vstd::prelude::*;
use crate::format::ElapsedTime;
use crate::text::{decimal, decimal_string, push_str};
use crate::tree::Tree;

verus! {

/// Progress of a running scan: cumulative entry and byte counts, the
/// number of I/O error events met so far, and the last path visited.
#[derive(Clone, Debug)]
pub struct ScanProgress {
    pub entries: u64,
    pub bytes: u64,
    pub errors: u64,
    pub current_path: String,
}

/// Why [`Tree::insert`](crate::tree::Tree::insert) refused a node.
#[derive(Clone, Copy, Debug, PartialEq, Eq, Structural)]
pub enum TreeError {
    /// The arena cannot grow further: it already holds `u32::MAX` nodes.
    Full,
    /// A second parentless node was offered; the tree already has its root.
    RootTaken,
}

/// Failure modes a scan can report.
#[derive(Debug)]
pub enum ScanError {
    /// The scan root does not exist.
    NotFound(String),
    /// The scan root exists but is not a directory.
    NotADirectory(String),
    /// The worker thread could not be spawned; the OS error's message.
    SpawnFailed(String),
    /// The tree arena is exhausted.
    TreeFull(TreeError),
    /// The scan was cancelled.
    Cancelled,
}

/// Events the front-end receives from a running scan.
#[derive(Debug)]
pub enum ScanEvent {
    Progress(ScanProgress),
    Done { tree: Tree, elapsed: ElapsedTime },
    Cancelled,
    Error(ScanError),
}

/// What `format!("{:?}", Path::new(s))` gives for a path spelled with
/// these characters: the text in double quotes, with the characters that
/// `Debug` escapes (the double quote and the backslash among them) escaped.
pub uninterp spec fn path_debug_text(s: Seq<char>) -> Seq<char>;

/// Calls `std::path::Path`'s `Debug` formatting on the path spelled `s`.
/// The contract names the result: it depends on the characters of `s`
/// alone.
#[verifier::external_body]
fn path_debug_quote(s: &str) -> (r: String)
    ensures
        r@ == path_debug_text(s@),
{
    format!("{:?}", std::path::Path::new(s))
}

pub open spec fn tree_error_text(e: TreeError) -> Seq<char> {
    match e {
        TreeError::Full => "Tree arena cannot exceed u32::MAX nodes (NodeId is a u32)"@,
        TreeError::RootTaken => "Tree already has a root"@,
    }
}

pub open spec fn scan_error_text(e: ScanError) -> Seq<char> {
    match e {
        ScanError::NotFound(p) => "scan root "@ + path_debug_text(p@) + " does not exist"@,
        ScanError::NotADirectory(p) => "scan root "@ + path_debug_text(p@) + " is not a directory"@,
        ScanError::SpawnFailed(m) => "could not spawn scan worker thread: "@ + m@,
        ScanError::TreeFull(e) => "tree arena exhausted: "@ + tree_error_text(e),
        ScanError::Cancelled => "scan was cancelled"@,
    }
}

impl TreeError {
    /// Human-readable message.
    pub fn message(&self) -> (s: String)
        ensures
            s@ == tree_error_text(*self),
    {
        match self {
            TreeError::Full => String::from_str("Tree arena cannot exceed u32::MAX nodes (NodeId is a u32)"),
            TreeError::RootTaken => String::from_str("Tree already has a root"),
        }
    }
}

impl From<TreeError> for ScanError {
    fn from(e: TreeError) -> (r: ScanError) {
        ScanError::TreeFull(e)
    }
}

impl vstd::std_specs::convert::FromSpecImpl<TreeError> for ScanError {
    open spec fn obeys_from_spec() -> bool {
        true
    }

    open spec fn from_spec(v: TreeError) -> ScanError {
        ScanError::TreeFull(v)
    }
}

impl ScanError {
    /// Human-readable message (what `Display` shows for this error).
    pub fn message(&self) -> (s: String)
        ensures
            s@ == scan_error_text(*self),
    {
        match self {
            ScanError::NotFound(p) => {
                let mut s = String::from_str("scan root ");
                let q = path_debug_quote(p.as_str());
                push_str(&mut s, q.as_str());
                push_str(&mut s, " does not exist");
                proof {
                    assert(s@ == scan_error_text(*self));
                }
                s
            },
            ScanError::NotADirectory(p) => {
                let mut s = String::from_str("scan root ");
                let q = path_debug_quote(p.as_str());
                push_str(&mut s, q.as_str());
                push_str(&mut s, " is not a directory");
                proof {
                    assert(s@ == scan_error_text(*self));
                }
                s
            },
            ScanError::SpawnFailed(m) => {
                let mut s = String::from_str("could not spawn scan worker thread: ");
                push_str(&mut s, m.as_str());
                s
            },
            ScanError::TreeFull(e) => {
                let mut s = String::from_str("tree arena exhausted: ");
                let t = e.message();
                push_str(&mut s, t.as_str());
                s
            },
            ScanError::Cancelled => String::from_str("scan was cancelled"),
        }
    }
}

} // verus!
