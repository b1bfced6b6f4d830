# rustytree

A disk-usage analyser: scan a directory, see which folders and files take
the space, sort, search, drill in. The library is written in Verus: every
function in `src/` is verified against its contract, except the few
wrappers marked `external_body` that call into `std`, `humansize` and
`chrono`, whose contracts are trusted.

## Layout

- `src/tree.rs` – the size tree: an arena of nodes where every child comes
  after its parent. Its shape invariant is a type invariant. Aggregation of
  totals and counts and the size sort of children, with the laws that hold of
  them (a node's total is the sum over its subtree, as long as that sum fits
  a `u64`, and the root's the sum over every entry; aggregation is
  idempotent; sorting keeps the totals consistent). An allocated size the
  platform does not report stays unknown, and so does every total above it.
- `src/walker.rs` – builds the tree from the entries of a filesystem walk,
  counting the entries it has to skip; over a whole walk the `i`-th progress
  report counts `i` entries and the own bytes of the first `i` nodes, and the
  reports never go back.
- `src/order.rs` – the sibling orders (size, name, counts, allocated size,
  time, owner; unknown values last in both directions) and a stable sort
  proved against its specification: its output is in order, holds the same
  ids, and keeps siblings that compare equal in their input order.
- `src/view.rs` – the view model: expansion set, search filter with its memo,
  the flattened row list, status line.
- `src/cli.rs`, `src/gui.rs` – the state machines of the terminal and desktop
  front-ends: key bindings, commands and scan events.
- `src/layout.rs` – column widths and cell padding of the terminal table.
- `src/format.rs`, `src/text.rs` – byte counts, durations, times, text helpers.
- `app/` – the terminal program: the filesystem walk on a worker thread, the
  event loop and the ratatui renderer.
- `tests/` – tests of the library.
