//! Column layout of the terminal table: column widths, and cells padded
//! or truncated to exactly their column's width.

use vstd::prelude::*;
use vstd::string::StrSliceExecFns;
use crate::format::{bytes, bytes_opt, humansize_binary, is_mtime_text, mtime, NA_PLACEHOLDER};
use crate::text::{decimal, decimal_string, push_char, push_str};
use crate::tree::Node;
use crate::view::{ColumnKind, COLUMNS};

verus! {

/// Width in characters of each fixed-width column; the name column has
/// none, it takes what is left.
pub open spec fn column_width(kind: ColumnKind) -> Option<u16> {
    match kind {
        ColumnKind::Name => None,
        ColumnKind::Size => Some(12),
        ColumnKind::PercentOfRoot => Some(7),
        ColumnKind::Allocated => Some(12),
        ColumnKind::FileCount => Some(8),
        ColumnKind::DirCount => Some(7),
        ColumnKind::Mtime => Some(17),
        ColumnKind::Owner => Some(12),
    }
}

/// Blank characters between two adjacent columns.
pub const COL_GAP: u16 = 1;

/// The width of a fixed column.
pub fn column_char_width(kind: ColumnKind) -> (w: Option<u16>)
    ensures
        w == column_width(kind),
{
    match kind {
        ColumnKind::Name => None,
        ColumnKind::Size => Some(12),
        ColumnKind::PercentOfRoot => Some(7),
        ColumnKind::Allocated => Some(12),
        ColumnKind::FileCount => Some(8),
        ColumnKind::DirCount => Some(7),
        ColumnKind::Mtime => Some(17),
        ColumnKind::Owner => Some(12),
    }
}

/// Total width of the fixed columns among the first `n` columns.
pub open spec fn fixed_prefix(n: int) -> int
    decreases n,
{
    if n <= 0 || n > 8 {
        0
    } else {
        fixed_prefix(n - 1) + match column_width(COLUMNS[n - 1]) {
            Some(w) => w as int,
            None => 0,
        }
    }
}

/// Width of the name column on a terminal `total` characters wide: what
/// the fixed columns and the gaps leave, but at least 10.
pub open spec fn name_width(total: u16) -> u16 {
    let rest = total - fixed_prefix(8) - 7 * COL_GAP;
    if rest < 10 {
        10
    } else {
        rest as u16
    }
}

/// The width of every column, in display order.
pub open spec fn column_widths(total: u16) -> Seq<u16> {
    Seq::new(
        8,
        |i: int|
            match column_width(COLUMNS[i]) {
                Some(w) => w,
                None => name_width(total),
            },
    )
}

/// Character widths of the columns on a terminal `total` characters wide.
pub fn compute_widths(total: u16) -> (widths: Vec<u16>)
    ensures
        widths@ == column_widths(total),
{
    proof {
        reveal_with_fuel(fixed_prefix, 9);
    }
    let mut widths: Vec<u16> = Vec::new();
    let mut fixed: u16 = 0;
    let mut name_idx: usize = 0;
    let mut i: usize = 0;
    while i < 8
        invariant
            i <= 8,
            widths@.len() == i,
            fixed == fixed_prefix(i as int),
            fixed_prefix(i as int) <= fixed_prefix(8),
            fixed_prefix(8) == 75,
            name_idx == 0,
            forall|j: int|
                0 <= j < i ==> #[trigger] widths@[j] == match column_width(COLUMNS[j]) {
                    Some(w) => w,
                    None => 0,
                },
        decreases 8 - i,
    {
        proof {
            reveal_with_fuel(fixed_prefix, 9);
        }
        match column_char_width(COLUMNS[i]) {
            Some(w) => {
                widths.push(w);
                fixed = fixed + w;
            },
            None => {
                widths.push(0);
                name_idx = i;
            },
        }
        i = i + 1;
    }
    let gaps: u16 = COL_GAP * 7;
    let rest: u16 = if total >= fixed + gaps {
        total - (fixed + gaps)
    } else {
        0
    };
    let name_w: u16 = if rest < 10 {
        10
    } else {
        rest
    };
    widths.set(name_idx, name_w);
    proof {
        assert(widths@ =~= column_widths(total));
    }
    widths
}

/// The name column is never narrower than 10 characters, and on a
/// terminal at least 92 characters wide the columns and the gaps between
/// them fill it exactly.
pub proof fn lemma_widths_fill_terminal(total: u16)
    ensures
        column_widths(total).len() == 8,
        COLUMNS[0] == ColumnKind::Name,
        column_widths(total)[0] >= 10,
        total >= 92 ==> {
            let w = column_widths(total);
            w[0] + w[1] + w[2] + w[3] + w[4] + w[5] + w[6] + w[7] + 7 * COL_GAP == total
        },
{
    reveal_with_fuel(fixed_prefix, 9);
}

/// `n` blanks.
pub open spec fn blanks(n: nat) -> Seq<char> {
    Seq::new(n, |_i: int| ' ')
}

/// Text columns (name, owner, time) are left-aligned; numbers are
/// right-aligned.
pub open spec fn left_aligned(kind: ColumnKind) -> bool {
    kind == ColumnKind::Name || kind == ColumnKind::Owner || kind == ColumnKind::Mtime
}

/// `text` fitted to exactly `width` characters: padded with blanks on the
/// side away from the column's alignment, or cut, ending in an ellipsis
/// when the width leaves room for one.
pub open spec fn padded(text: Seq<char>, width: nat, kind: ColumnKind) -> Seq<char> {
    if text.len() == width {
        text
    } else if text.len() > width {
        if width <= 1 {
            text.take(width as int)
        } else {
            text.take(width - 1).push('\u{2026}')
        }
    } else if left_aligned(kind) {
        text + blanks((width - text.len()) as nat)
    } else {
        blanks((width - text.len()) as nat) + text
    }
}

/// Append `n` blanks to `s`.
fn push_blanks(s: &mut String, n: usize)
    ensures
        final(s)@ == old(s)@ + blanks(n as nat),
{
    let mut i: usize = 0;
    while i < n
        invariant
            i <= n,
            s@ == old(s)@ + blanks(i as nat),
        decreases n - i,
    {
        push_char(s, ' ');
        proof {
            assert(old(s)@ + blanks(i as nat) + seq![' '] =~= old(s)@ + blanks((i + 1) as nat));
        }
        i = i + 1;
    }
}

/// Pad `text` to exactly `width` characters: numeric columns get the blanks
/// on the left so digits line up, text columns on the right. Longer text
/// is cut, ending in an ellipsis.
pub fn pad_to_width(text: &str, width: usize, kind: ColumnKind) -> (s: String)
    ensures
        s@ == padded(text@, width as nat, kind),
        s@.len() == width,
{
    let n = text.unicode_len();
    if n == width {
        return String::from_str(text);
    }
    if n > width {
        if width <= 1 {
            return String::from_str(text.substring_char(0, width));
        }
        let mut s = String::from_str(text.substring_char(0, width - 1));
        push_char(&mut s, '\u{2026}');
        return s;
    }
    let left = match kind {
        ColumnKind::Name | ColumnKind::Owner | ColumnKind::Mtime => true,
        _ => false,
    };
    let mut s = String::new();
    if left {
        push_str(&mut s, text);
        push_blanks(&mut s, width - n);
    } else {
        push_blanks(&mut s, width - n);
        push_str(&mut s, text);
    }
    proof {
        assert(Seq::<char>::empty() + text@ == text@);
        assert(Seq::<char>::empty() + blanks((width - n) as nat) == blanks((width - n) as nat));
    }
    s
}

/// The name cell: two blanks per level of depth, the expand glyph, then
/// the name, cut with an ellipsis when it does not fit; padded to `width`.
pub open spec fn name_cell(name: Seq<char>, depth: nat, chevron: Seq<char>, width: nat) -> Seq<char> {
    let prefix_len = 2 * depth + chevron.len();
    let max_name: nat = if width >= prefix_len {
        (width - prefix_len) as nat
    } else {
        0
    };
    let shown = if name.len() > max_name && max_name >= 1 {
        name.take(max_name - 1).push('\u{2026}')
    } else {
        name
    };
    padded(blanks(2 * depth) + chevron + shown, width, ColumnKind::Name)
}

/// Build the name cell of a row at `depth` showing `chevron`.
pub fn format_name_cell(node: &Node, depth: u16, chevron: &str, width: usize) -> (s: String)
    ensures
        s@ == name_cell(node.name@, depth as nat, chevron@, width as nat),
        s@.len() == width,
{
    let indent_len: usize = 2 * (depth as usize);
    let chevron_len: usize = chevron.unicode_len();
    let max_name: usize = if width >= indent_len && width - indent_len >= chevron_len {
        width - indent_len - chevron_len
    } else {
        0
    };
    let name_chars = node.name.as_str().unicode_len();
    let mut combined = String::new();
    push_blanks(&mut combined, indent_len);
    push_str(&mut combined, chevron);
    if name_chars > max_name && max_name >= 1 {
        push_str(&mut combined, node.name.as_str().substring_char(0, max_name - 1));
        push_char(&mut combined, '\u{2026}');
    } else {
        push_str(&mut combined, node.name.as_str());
    }
    proof {
        let shown = if node.name@.len() > max_name && max_name >= 1 {
            node.name@.take(max_name - 1).push('\u{2026}')
        } else {
            node.name@
        };
        assert(combined@ =~= blanks(2 * depth as nat) + chevron@ + shown);
    }
    pad_to_width(combined.as_str(), width, ColumnKind::Name)
}

/// The text of one cell: the name cell for the name column; otherwise the
/// node's value in that column, fitted to `width`. The share of the root
/// is computed by the caller and passed in as `percent`.
pub fn format_cell(node: &Node, kind: ColumnKind, depth: u16, chevron: &str, width: u16, percent: &str) -> (s: String)
    ensures
        s@.len() == width,
        kind == ColumnKind::Name ==> s@ == name_cell(node.name@, depth as nat, chevron@, width as nat),
        kind == ColumnKind::Size ==> s@ == padded(humansize_binary(node.size_total), width as nat, kind),
        kind == ColumnKind::PercentOfRoot ==> s@ == padded(percent@, width as nat, kind),
        kind == ColumnKind::Allocated && node.alloc_total is Some ==> s@ == padded(
            humansize_binary(node.alloc_total->0),
            width as nat,
            kind,
        ),
        kind == ColumnKind::Allocated && node.alloc_total is None ==> s@ == padded(NA_PLACEHOLDER@, width as nat, kind),
        kind == ColumnKind::FileCount ==> s@ == padded(decimal(node.file_count as nat), width as nat, kind),
        kind == ColumnKind::DirCount ==> s@ == padded(decimal(node.dir_count as nat), width as nat, kind),
        kind == ColumnKind::Mtime && node.mtime is None ==> s@ == padded(Seq::empty(), width as nat, kind),
        kind == ColumnKind::Mtime ==> exists|m: Seq<char>|
            #[trigger] is_mtime_text(node.mtime, m) && s@ == padded(m, width as nat, kind),
        kind == ColumnKind::Owner ==> s@ == padded(
            match node.owner {
                Some(o) => o@,
                None => Seq::empty(),
            },
            width as nat,
            kind,
        ),
{
    let w = width as usize;
    match kind {
        ColumnKind::Name => format_name_cell(node, depth, chevron, w),
        ColumnKind::Size => pad_to_width(bytes(node.size_total).as_str(), w, kind),
        ColumnKind::PercentOfRoot => pad_to_width(percent, w, kind),
        ColumnKind::Allocated => pad_to_width(bytes_opt(node.alloc_total).as_str(), w, kind),
        ColumnKind::FileCount => pad_to_width(decimal_string(node.file_count).as_str(), w, kind),
        ColumnKind::DirCount => pad_to_width(decimal_string(node.dir_count).as_str(), w, kind),
        ColumnKind::Mtime => {
            let m = mtime(node.mtime);
            let cell = pad_to_width(m.as_str(), w, kind);
            proof {
                assert(is_mtime_text(node.mtime, m@));
            }
            cell
        },
        ColumnKind::Owner => match &node.owner {
            Some(o) => pad_to_width(o.as_str(), w, kind),
            None => {
                proof {
                    reveal_strlit("");
                }
                pad_to_width("", w, kind)
            },
        },
    }
}

} // verus!
