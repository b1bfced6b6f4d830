//! Orderings used to sort sibling rows, and a stable sort over node ids.
//!
//! Comparisons return -1, 0 or 1. Every ordering here is a total
//! preorder, and the sort keeps siblings that compare equal in their
//! input order.

use vstd::prelude::*;
use vstd::utf8::encode_utf8;
use crate::tree::{
    alloc_value,
    children_alloc_known, children_alloc_sum, children_dir_sum, children_file_sum, children_size_sum, preorder, subtrees_weight, Node, NodeId,
};
use crate::view::{SortDir, SortKey};

verus! {

pub open spec fn order_int(a: int, b: int) -> int {
    if a < b {
        -1
    } else if a == b {
        0
    } else {
        1
    }
}

/// Lexicographic comparison of byte strings (the order of `str`).
pub open spec fn order_bytes(a: Seq<u8>, b: Seq<u8>) -> int
    decreases a.len(),
{
    if a.len() == 0 {
        if b.len() == 0 {
            0
        } else {
            -1
        }
    } else if b.len() == 0 {
        1
    } else if a[0] < b[0] {
        -1
    } else if a[0] > b[0] {
        1
    } else {
        order_bytes(a.drop_first(), b.drop_first())
    }
}

pub open spec fn directed(c: int, dir: SortDir) -> int {
    match dir {
        SortDir::Asc => c,
        SortDir::Desc => -c,
    }
}

pub open spec fn str_bytes(s: Seq<char>) -> Seq<u8> {
    encode_utf8(s)
}

/// Optional modification times: known values ordered by `dir`, unknown
/// values after every known one whatever the direction.
pub open spec fn order_time_none_last(a: Option<i128>, b: Option<i128>, dir: SortDir) -> int {
    match (a, b) {
        (Some(x), Some(y)) => directed(order_int(x as int, y as int), dir),
        (Some(_), None) => -1,
        (None, Some(_)) => 1,
        (None, None) => 0,
    }
}

/// Optional allocated byte counts, ordered like [`order_time_none_last`].
pub open spec fn order_alloc_none_last(a: Option<u64>, b: Option<u64>, dir: SortDir) -> int {
    match (a, b) {
        (Some(x), Some(y)) => directed(order_int(x as int, y as int), dir),
        (Some(_), None) => -1,
        (None, Some(_)) => 1,
        (None, None) => 0,
    }
}

/// Optional owner names, ordered like [`order_time_none_last`].
pub open spec fn order_text_none_last(a: Option<Seq<char>>, b: Option<Seq<char>>, dir: SortDir) -> int {
    match (a, b) {
        (Some(x), Some(y)) => directed(order_bytes(str_bytes(x), str_bytes(y)), dir),
        (Some(_), None) => -1,
        (None, Some(_)) => 1,
        (None, None) => 0,
    }
}

pub open spec fn owner_view(o: Option<String>) -> Option<Seq<char>> {
    match o {
        Some(s) => Some(s@),
        None => None,
    }
}

/// How sibling `a` compares to sibling `b` under the given sort.
pub open spec fn node_order(a: Node, b: Node, key: SortKey, dir: SortDir) -> int {
    match key {
        SortKey::Size => directed(order_int(a.size_total as int, b.size_total as int), dir),
        SortKey::Name => directed(order_bytes(str_bytes(a.name_lower@), str_bytes(b.name_lower@)), dir),
        SortKey::Allocated => order_alloc_none_last(a.alloc_total, b.alloc_total, dir),
        SortKey::FileCount => directed(order_int(a.file_count as int, b.file_count as int), dir),
        SortKey::DirCount => directed(order_int(a.dir_count as int, b.dir_count as int), dir),
        SortKey::Mtime => order_time_none_last(a.mtime, b.mtime, dir),
        SortKey::Owner => order_text_none_last(owner_view(a.owner), owner_view(b.owner), dir),
    }
}

pub proof fn lemma_order_bytes_props(a: Seq<u8>, b: Seq<u8>, c: Seq<u8>)
    ensures
        order_bytes(a, b) == -order_bytes(b, a),
        -1 <= order_bytes(a, b) <= 1,
        order_bytes(a, b) <= 0 && order_bytes(b, c) <= 0 ==> order_bytes(a, c) <= 0,
    decreases a.len(),
{
    if a.len() > 0 && b.len() > 0 && c.len() > 0 {
        lemma_order_bytes_props(a.drop_first(), b.drop_first(), c.drop_first());
    } else if a.len() > 0 && b.len() > 0 {
        lemma_order_bytes_props(a.drop_first(), b.drop_first(), c);
    }
}

/// The sibling order is a total preorder.
pub proof fn lemma_node_order_props(a: Node, b: Node, c: Node, key: SortKey, dir: SortDir)
    ensures
        node_order(a, b, key, dir) == -node_order(b, a, key, dir),
        -1 <= node_order(a, b, key, dir) <= 1,
        node_order(a, b, key, dir) <= 0 && node_order(b, c, key, dir) <= 0 ==> node_order(a, c, key, dir) <= 0,
{
    match key {
        SortKey::Name => {
            lemma_order_bytes_props(str_bytes(a.name_lower@), str_bytes(b.name_lower@), str_bytes(c.name_lower@));
            lemma_order_bytes_props(str_bytes(c.name_lower@), str_bytes(b.name_lower@), str_bytes(a.name_lower@));
            lemma_order_bytes_props(str_bytes(a.name_lower@), str_bytes(c.name_lower@), str_bytes(b.name_lower@));
            lemma_order_bytes_props(str_bytes(b.name_lower@), str_bytes(a.name_lower@), str_bytes(c.name_lower@));
        },
        SortKey::Owner => {
            match (owner_view(a.owner), owner_view(b.owner), owner_view(c.owner)) {
                (Some(x), Some(y), Some(z)) => {
                    lemma_order_bytes_props(str_bytes(x), str_bytes(y), str_bytes(z));
                    lemma_order_bytes_props(str_bytes(z), str_bytes(y), str_bytes(x));
                    lemma_order_bytes_props(str_bytes(x), str_bytes(z), str_bytes(y));
                    lemma_order_bytes_props(str_bytes(y), str_bytes(x), str_bytes(z));
                },
                (Some(x), Some(y), None) => {
                    lemma_order_bytes_props(str_bytes(x), str_bytes(y), str_bytes(x));
                },
                _ => {},
            }
        },
        _ => {},
    }
}

/// Every id names a node of the arena.
pub open spec fn ids_valid(nodes: Seq<Node>, s: Seq<NodeId>) -> bool {
    forall|k: int| 0 <= k < s.len() ==> (#[trigger] s[k]).index() < nodes.len()
}

/// `s` is ordered: no element comes after a later one.
pub open spec fn is_sorted_by(nodes: Seq<Node>, s: Seq<NodeId>, key: SortKey, dir: SortDir) -> bool {
    forall|i: int, j: int|
        0 <= i < j < s.len() ==> node_order(nodes[(#[trigger] s[i]).index()], nodes[(#[trigger] s[j]).index()], key, dir) <= 0
}

/// `x` inserted into `t` just after the last element that does not come
/// after it.
pub open spec fn insert_stable(nodes: Seq<Node>, t: Seq<NodeId>, x: NodeId, key: SortKey, dir: SortDir) -> Seq<NodeId>
    decreases t.len(),
{
    if t.len() == 0 {
        seq![x]
    } else if node_order(nodes[t.last().index()], nodes[x.index()], key, dir) <= 0 {
        t.push(x)
    } else {
        insert_stable(nodes, t.drop_last(), x, key, dir).push(t.last())
    }
}

/// Stable sort of `s`: insertion of each element in input order.
pub open spec fn stable_sorted(nodes: Seq<Node>, s: Seq<NodeId>, key: SortKey, dir: SortDir) -> Seq<NodeId>
    decreases s.len(),
{
    if s.len() == 0 {
        Seq::empty()
    } else {
        insert_stable(nodes, stable_sorted(nodes, s.drop_last(), key, dir), s.last(), key, dir)
    }
}

pub proof fn lemma_insert_stable_at(nodes: Seq<Node>, t: Seq<NodeId>, x: NodeId, key: SortKey, dir: SortDir, p: int)
    requires
        0 <= p <= t.len(),
        forall|i: int| 0 <= i < p ==> node_order(nodes[(#[trigger] t[i]).index()], nodes[x.index()], key, dir) <= 0,
        forall|i: int| p <= i < t.len() ==> node_order(nodes[(#[trigger] t[i]).index()], nodes[x.index()], key, dir) > 0,
    ensures
        insert_stable(nodes, t, x, key, dir) == t.insert(p, x),
    decreases t.len(),
{
    if t.len() == 0 {
        assert(t.insert(p, x) =~= seq![x]);
    } else if node_order(nodes[t.last().index()], nodes[x.index()], key, dir) <= 0 {
        assert(t.last() == t[t.len() - 1]);
        assert(p == t.len());
        assert(t.insert(p, x) =~= t.push(x));
    } else {
        assert(t.last() == t[t.len() - 1]);
        let d = t.drop_last();
        assert forall|i: int| 0 <= i < p implies node_order(nodes[(#[trigger] d[i]).index()], nodes[x.index()], key, dir) <= 0 by {
            assert(d[i] == t[i]);
        }
        assert forall|i: int| p <= i < d.len() implies node_order(nodes[(#[trigger] d[i]).index()], nodes[x.index()], key, dir) > 0 by {
            assert(d[i] == t[i]);
        }
        lemma_insert_stable_at(nodes, d, x, key, dir, p);
        assert(d.insert(p, x).push(t.last()) =~= t.insert(p, x));
    }
}

pub proof fn lemma_insert_stable_contents(nodes: Seq<Node>, t: Seq<NodeId>, x: NodeId, key: SortKey, dir: SortDir)
    ensures
        insert_stable(nodes, t, x, key, dir).len() == t.len() + 1,
        forall|y: NodeId| #[trigger] insert_stable(nodes, t, x, key, dir).contains(y) <==> (t.contains(y) || y == x),
        t.no_duplicates() && !t.contains(x) ==> insert_stable(nodes, t, x, key, dir).no_duplicates(),
    decreases t.len(),
{
    let r = insert_stable(nodes, t, x, key, dir);
    if t.len() == 0 {
        assert forall|y: NodeId| r.contains(y) <==> (t.contains(y) || y == x) by {
            if r.contains(y) {
                assert(r[0] == x);
            } else {
                assert(r[0] == x);
            }
        }
    } else if node_order(nodes[t.last().index()], nodes[x.index()], key, dir) <= 0 {
        assert forall|y: NodeId| r.contains(y) <==> (t.contains(y) || y == x) by {
            if r.contains(y) {
                let k = choose|k: int| 0 <= k < r.len() && r[k] == y;
                if k < t.len() {
                    assert(t[k] == y);
                }
            }
            if t.contains(y) {
                let k = choose|k: int| 0 <= k < t.len() && t[k] == y;
                assert(r[k] == y);
            }
            if y == x {
                assert(r[t.len() as int] == x);
            }
        }
    } else {
        let d = t.drop_last();
        lemma_insert_stable_contents(nodes, d, x, key, dir);
        let q = insert_stable(nodes, d, x, key, dir);
        assert(r == q.push(t.last()));
        assert forall|y: NodeId| r.contains(y) <==> (t.contains(y) || y == x) by {
            if r.contains(y) {
                let k = choose|k: int| 0 <= k < r.len() && r[k] == y;
                if k < q.len() {
                    assert(q[k] == y);
                    assert(q.contains(y));
                    if d.contains(y) {
                        let m = choose|m: int| 0 <= m < d.len() && d[m] == y;
                        assert(t[m] == y);
                    }
                } else {
                    assert(t[t.len() - 1] == y);
                }
            }
            if t.contains(y) {
                let k = choose|k: int| 0 <= k < t.len() && t[k] == y;
                if k < d.len() {
                    assert(d[k] == y);
                    assert(q.contains(y));
                    let m = choose|m: int| 0 <= m < q.len() && q[m] == y;
                    assert(r[m] == y);
                } else {
                    assert(r[q.len() as int] == y);
                }
            }
            if y == x {
                assert(q.contains(x));
                let m = choose|m: int| 0 <= m < q.len() && q[m] == x;
                assert(r[m] == x);
            }
        }
        if t.no_duplicates() && !t.contains(x) {
            assert(d.no_duplicates()) by {
                assert forall|i: int, j: int| 0 <= i < d.len() && 0 <= j < d.len() && i != j implies d[i] != d[j] by {
                    assert(d[i] == t[i] && d[j] == t[j]);
                }
            }
            assert(!d.contains(x)) by {
                if d.contains(x) {
                    let m = choose|m: int| 0 <= m < d.len() && d[m] == x;
                    assert(t[m] == x);
                }
            }
            let last = t.last();
            assert(!q.contains(last)) by {
                if q.contains(last) {
                    if d.contains(last) {
                        let m = choose|m: int| 0 <= m < d.len() && d[m] == last;
                        assert(t[m] == t[t.len() - 1]);
                    } else {
                        assert(last == x);
                        assert(t[t.len() - 1] == x);
                    }
                }
            }
            assert forall|i: int, j: int| 0 <= i < r.len() && 0 <= j < r.len() && i != j implies r[i] != r[j] by {
                if i < q.len() && j < q.len() {
                    assert(r[i] == q[i] && r[j] == q[j]);
                } else if i < q.len() {
                    assert(r[i] == q[i]);
                    assert(q.contains(q[i]));
                } else if j < q.len() {
                    assert(r[j] == q[j]);
                    assert(q.contains(q[j]));
                }
            }
        }
    }
}

pub proof fn lemma_stable_sorted_contents(nodes: Seq<Node>, s: Seq<NodeId>, key: SortKey, dir: SortDir)
    ensures
        stable_sorted(nodes, s, key, dir).len() == s.len(),
        forall|y: NodeId| #[trigger] stable_sorted(nodes, s, key, dir).contains(y) <==> s.contains(y),
        s.no_duplicates() ==> stable_sorted(nodes, s, key, dir).no_duplicates(),
    decreases s.len(),
{
    if s.len() > 0 {
        let d = s.drop_last();
        lemma_stable_sorted_contents(nodes, d, key, dir);
        let t = stable_sorted(nodes, d, key, dir);
        lemma_insert_stable_contents(nodes, t, s.last(), key, dir);
        assert forall|y: NodeId| #[trigger] stable_sorted(nodes, s, key, dir).contains(y) <==> s.contains(y) by {
            if s.contains(y) {
                let k = choose|k: int| 0 <= k < s.len() && s[k] == y;
                if k < d.len() {
                    assert(d[k] == y);
                }
            }
            if d.contains(y) {
                let k = choose|k: int| 0 <= k < d.len() && d[k] == y;
                assert(s[k] == y);
            }
        }
        if s.no_duplicates() {
            assert(d.no_duplicates()) by {
                assert forall|i: int, j: int| 0 <= i < d.len() && 0 <= j < d.len() && i != j implies d[i] != d[j] by {
                    assert(d[i] == s[i] && d[j] == s[j]);
                }
            }
            assert(!d.contains(s.last())) by {
                if d.contains(s.last()) {
                    let m = choose|m: int| 0 <= m < d.len() && d[m] == s.last();
                    assert(s[m] == s[s.len() - 1]);
                }
            }
        }
    }
}

/// Three-way comparison of two byte strings in lexicographic order.
fn compare_bytes(a: &[u8], b: &[u8]) -> (r: i8)
    ensures
        r == order_bytes(a@, b@),
{
    let mut i: usize = 0;
    proof {
        assert(a@.subrange(0, a@.len() as int) == a@);
        assert(b@.subrange(0, b@.len() as int) == b@);
    }
    while i < a.len() && i < b.len() && a[i] == b[i]
        invariant
            i <= a@.len(),
            i <= b@.len(),
            order_bytes(a@, b@) == order_bytes(a@.subrange(i as int, a@.len() as int), b@.subrange(i as int, b@.len() as int)),
        decreases a@.len() - i,
    {
        proof {
            let sa = a@.subrange(i as int, a@.len() as int);
            let sb = b@.subrange(i as int, b@.len() as int);
            assert(sa.drop_first() == a@.subrange(i + 1, a@.len() as int));
            assert(sb.drop_first() == b@.subrange(i + 1, b@.len() as int));
        }
        i = i + 1;
    }
    if i == a.len() {
        if i == b.len() {
            0
        } else {
            -1
        }
    } else if i == b.len() {
        1
    } else if a[i] < b[i] {
        -1
    } else {
        1
    }
}

fn compare_u64(a: u64, b: u64, dir: SortDir) -> (r: i8)
    ensures
        r == directed(order_int(a as int, b as int), dir),
{
    let c: i8 = if a < b {
        -1
    } else if a == b {
        0
    } else {
        1
    };
    match dir {
        SortDir::Asc => c,
        SortDir::Desc => -c,
    }
}

fn compare_text(a: &String, b: &String) -> (r: i8)
    ensures
        r == order_bytes(str_bytes(a@), str_bytes(b@)),
        -1 <= r <= 1,
{
    proof {
        lemma_order_bytes_props(str_bytes(a@), str_bytes(b@), str_bytes(b@));
    }
    compare_bytes(a.as_str().as_bytes(), b.as_str().as_bytes())
}

/// Three-way comparison of two siblings under the given sort.
pub fn compare_nodes(a: &Node, b: &Node, key: SortKey, dir: SortDir) -> (r: i8)
    ensures
        r == node_order(*a, *b, key, dir),
{
    match key {
        SortKey::Size => compare_u64(a.size_total, b.size_total, dir),
        SortKey::Allocated => match (a.alloc_total, b.alloc_total) {
            (Some(x), Some(y)) => compare_u64(x, y, dir),
            (Some(_), None) => -1,
            (None, Some(_)) => 1,
            (None, None) => 0,
        },
        SortKey::FileCount => compare_u64(a.file_count, b.file_count, dir),
        SortKey::DirCount => compare_u64(a.dir_count, b.dir_count, dir),
        SortKey::Name => {
            let c = compare_text(&a.name_lower, &b.name_lower);
            match dir {
                SortDir::Asc => c,
                SortDir::Desc => -c,
            }
        },
        SortKey::Mtime => match (a.mtime, b.mtime) {
            (Some(x), Some(y)) => {
                let c: i8 = if x < y {
                    -1
                } else if x == y {
                    0
                } else {
                    1
                };
                match dir {
                    SortDir::Asc => c,
                    SortDir::Desc => -c,
                }
            },
            (Some(_), None) => -1,
            (None, Some(_)) => 1,
            (None, None) => 0,
        },
        SortKey::Owner => match (&a.owner, &b.owner) {
            (Some(x), Some(y)) => {
                let c = compare_text(x, y);
                match dir {
                    SortDir::Asc => c,
                    SortDir::Desc => -c,
                }
            },
            (Some(_), None) => -1,
            (None, Some(_)) => 1,
            (None, None) => 0,
        },
    }
}

/// Stable sort of `ids` under the sibling order: equal siblings keep
/// their relative order.
pub(crate) fn stable_sort_ids(nodes: &Vec<Node>, ids: &Vec<NodeId>, key: SortKey, dir: SortDir) -> (out: Vec<NodeId>)
    requires
        ids_valid(nodes@, ids@),
    ensures
        out@ == stable_sorted(nodes@, ids@, key, dir),
{
    let n = ids.len();
    let mut out: Vec<NodeId> = Vec::new();
    let mut k: usize = 0;
    while k < n
        invariant
            n == ids@.len(),
            k <= n,
            ids_valid(nodes@, ids@),
            ids_valid(nodes@, out@),
            is_sorted_by(nodes@, out@, key, dir),
            out@ == stable_sorted(nodes@, ids@.subrange(0, k as int), key, dir),
        decreases n - k,
    {
        let x = ids[k];
        let ghost t = out@;
        let ghost xn = nodes@[x.index()];
        let mut lo: usize = 0;
        let mut hi: usize = out.len();
        while lo < hi
            invariant
                t == out@,
                lo <= hi <= t.len(),
                ids_valid(nodes@, t),
                x.index() < nodes@.len(),
                xn == nodes@[x.index()],
                is_sorted_by(nodes@, t, key, dir),
                forall|i: int| 0 <= i < lo ==> node_order(nodes@[(#[trigger] t[i]).index()], xn, key, dir) <= 0,
                forall|i: int| hi <= i < t.len() ==> node_order(nodes@[(#[trigger] t[i]).index()], xn, key, dir) > 0,
            decreases hi - lo,
        {
            let mid = lo + (hi - lo) / 2;
            let c = compare_nodes(&nodes[out[mid].0 as usize], &nodes[x.0 as usize], key, dir);
            if c <= 0 {
                proof {
                    assert forall|i: int| 0 <= i <= mid implies node_order(nodes@[(#[trigger] t[i]).index()], xn, key, dir) <= 0 by {
                        if i < mid {
                            lemma_node_order_props(nodes@[t[i].index()], nodes@[t[mid as int].index()], xn, key, dir);
                        }
                    }
                }
                lo = mid + 1;
            } else {
                proof {
                    assert forall|i: int| mid <= i < t.len() implies node_order(nodes@[(#[trigger] t[i]).index()], xn, key, dir) > 0 by {
                        if i > mid {
                            lemma_node_order_props(nodes@[t[mid as int].index()], nodes@[t[i].index()], xn, key, dir);
                        }
                    }
                }
                hi = mid;
            }
        }
        proof {
            lemma_insert_stable_at(nodes@, t, x, key, dir, lo as int);
            let r = t.insert(lo as int, x);
            assert forall|i: int, j: int| 0 <= i < j < r.len() implies node_order(nodes@[(#[trigger] r[i]).index()], nodes@[(#[trigger] r[j]).index()], key, dir) <= 0 by {
                if j < lo {
                    assert(r[i] == t[i] && r[j] == t[j]);
                } else if j == lo {
                    assert(r[i] == t[i] && r[j] == x);
                } else if i < lo {
                    assert(r[i] == t[i] && r[j] == t[j - 1]);
                    lemma_node_order_props(nodes@[t[i].index()], nodes@[x.index()], nodes@[t[j - 1].index()], key, dir);
                    lemma_node_order_props(nodes@[t[j - 1].index()], nodes@[x.index()], nodes@[t[i].index()], key, dir);
                } else if i == lo {
                    assert(r[i] == x && r[j] == t[j - 1]);
                    lemma_node_order_props(nodes@[t[j - 1].index()], nodes@[x.index()], nodes@[x.index()], key, dir);
                } else {
                    assert(r[i] == t[i - 1] && r[j] == t[j - 1]);
                }
            }
            let pre = ids@.subrange(0, k as int);
            let post = ids@.subrange(0, k as int + 1);
            assert(post.drop_last() == pre);
            assert(post.last() == x);
        }
        out.insert(lo, x);
        k = k + 1;
    }
    proof {
        assert(ids@.subrange(0, n as int) == ids@);
    }
    out
}

/// The two nodes agree on every field a sibling order can look at.
pub open spec fn same_sort_keys(a: Node, b: Node) -> bool {
    &&& a.size_total == b.size_total
    &&& a.alloc_total == b.alloc_total
    &&& a.file_count == b.file_count
    &&& a.dir_count == b.dir_count
    &&& a.name_lower@ == b.name_lower@
    &&& a.mtime == b.mtime
    &&& owner_view(a.owner) == owner_view(b.owner)
}

pub open spec fn same_sort_keys_all(a: Seq<Node>, b: Seq<Node>) -> bool {
    &&& a.len() == b.len()
    &&& forall|i: int| 0 <= i < a.len() ==> #[trigger] same_sort_keys(a[i], b[i])
}

pub proof fn lemma_insert_stable_frame(n1: Seq<Node>, n2: Seq<Node>, t: Seq<NodeId>, x: NodeId, key: SortKey, dir: SortDir)
    requires
        same_sort_keys_all(n1, n2),
        ids_valid(n1, t),
        x.index() < n1.len(),
    ensures
        insert_stable(n1, t, x, key, dir) == insert_stable(n2, t, x, key, dir),
    decreases t.len(),
{
    if t.len() > 0 {
        assert(t.last() == t[t.len() - 1]);
        assert(same_sort_keys(n1[t.last().index()], n2[t.last().index()]));
        assert(same_sort_keys(n1[x.index()], n2[x.index()]));
        let d = t.drop_last();
        assert(ids_valid(n1, d)) by {
            assert forall|k: int| 0 <= k < d.len() implies (#[trigger] d[k]).index() < n1.len() by {
                assert(d[k] == t[k]);
            }
        }
        lemma_insert_stable_frame(n1, n2, d, x, key, dir);
    }
}

pub proof fn lemma_stable_sorted_frame(n1: Seq<Node>, n2: Seq<Node>, s: Seq<NodeId>, key: SortKey, dir: SortDir)
    requires
        same_sort_keys_all(n1, n2),
        ids_valid(n1, s),
    ensures
        stable_sorted(n1, s, key, dir) == stable_sorted(n2, s, key, dir),
    decreases s.len(),
{
    if s.len() > 0 {
        let d = s.drop_last();
        assert(ids_valid(n1, d)) by {
            assert forall|k: int| 0 <= k < d.len() implies (#[trigger] d[k]).index() < n1.len() by {
                assert(d[k] == s[k]);
            }
        }
        lemma_stable_sorted_frame(n1, n2, d, key, dir);
        let t = stable_sorted(n1, d, key, dir);
        lemma_stable_sorted_contents(n1, d, key, dir);
        assert(ids_valid(n1, t)) by {
            assert forall|k: int| 0 <= k < t.len() implies (#[trigger] t[k]).index() < n1.len() by {
                assert(t.contains(t[k]));
                assert(d.contains(t[k]));
            }
        }
        assert(s.last() == s[s.len() - 1]);
        lemma_insert_stable_frame(n1, n2, t, s.last(), key, dir);
    }
}

pub proof fn lemma_insert_stable_weight(nodes: Seq<Node>, t: Seq<NodeId>, x: NodeId, key: SortKey, dir: SortDir)
    ensures
        subtrees_weight(nodes, insert_stable(nodes, t, x, key, dir)) == subtrees_weight(nodes, t) + preorder(nodes, x.index()).len(),
    decreases t.len(),
{
    let r = insert_stable(nodes, t, x, key, dir);
    if t.len() == 0 {
        assert(r.drop_last() == Seq::<NodeId>::empty());
        assert(r.last() == x);
        assert(subtrees_weight(nodes, Seq::<NodeId>::empty()) == 0);
    } else if node_order(nodes[t.last().index()], nodes[x.index()], key, dir) <= 0 {
        assert(r.drop_last() == t);
        assert(r.last() == x);
    } else {
        lemma_insert_stable_weight(nodes, t.drop_last(), x, key, dir);
        assert(r.drop_last() == insert_stable(nodes, t.drop_last(), x, key, dir));
        assert(r.last() == t.last());
    }
}

pub proof fn lemma_stable_sorted_weight(nodes: Seq<Node>, s: Seq<NodeId>, key: SortKey, dir: SortDir)
    ensures
        subtrees_weight(nodes, stable_sorted(nodes, s, key, dir)) == subtrees_weight(nodes, s),
    decreases s.len(),
{
    if s.len() > 0 {
        lemma_stable_sorted_weight(nodes, s.drop_last(), key, dir);
        lemma_insert_stable_weight(nodes, stable_sorted(nodes, s.drop_last(), key, dir), s.last(), key, dir);
    }
}

/// Appending `x` adds `x`'s share to every children sum.
pub proof fn lemma_sums_push(nodes: Seq<Node>, t: Seq<NodeId>, x: NodeId)
    ensures
        children_size_sum(nodes, t.push(x)) == children_size_sum(nodes, t) + children_size_sum(nodes, seq![x]),
        children_alloc_sum(nodes, t.push(x)) == children_alloc_sum(nodes, t) + children_alloc_sum(nodes, seq![x]),
        children_alloc_known(nodes, t.push(x)) == (children_alloc_known(nodes, t) && children_alloc_known(nodes, seq![x])),
        children_file_sum(nodes, t.push(x)) == children_file_sum(nodes, t) + children_file_sum(nodes, seq![x]),
        children_dir_sum(nodes, t.push(x)) == children_dir_sum(nodes, t) + children_dir_sum(nodes, seq![x]),
{
    let one = seq![x];
    assert(one.drop_last() == Seq::<NodeId>::empty());
    assert(one.last() == x);
    assert(t.push(x).drop_last() == t);
    assert(t.push(x).last() == x);
    let e = Seq::<NodeId>::empty();
    assert(children_size_sum(nodes, e) == 0);
    assert(children_alloc_sum(nodes, e) == 0);
    assert(children_file_sum(nodes, e) == 0);
    assert(children_dir_sum(nodes, e) == 0);
    assert(children_size_sum(nodes, one) == nodes[x.index()].size_total);
    assert(children_alloc_known(nodes, e));
    assert(children_alloc_sum(nodes, one) == children_alloc_sum(nodes, e) + alloc_value(nodes[x.index()].alloc_total));
    assert(children_alloc_known(nodes, one) == (nodes[x.index()].alloc_total is Some));
}

/// Stable insertion of `x` adds `x`'s share to every children sum.
pub proof fn lemma_insert_stable_sums(nodes: Seq<Node>, t: Seq<NodeId>, x: NodeId, key: SortKey, dir: SortDir)
    ensures
        children_size_sum(nodes, insert_stable(nodes, t, x, key, dir)) == children_size_sum(nodes, t)
            + children_size_sum(nodes, seq![x]),
        children_alloc_sum(nodes, insert_stable(nodes, t, x, key, dir)) == children_alloc_sum(nodes, t)
            + children_alloc_sum(nodes, seq![x]),
        children_alloc_known(nodes, insert_stable(nodes, t, x, key, dir)) == (children_alloc_known(nodes, t)
            && children_alloc_known(nodes, seq![x])),
        children_file_sum(nodes, insert_stable(nodes, t, x, key, dir)) == children_file_sum(nodes, t)
            + children_file_sum(nodes, seq![x]),
        children_dir_sum(nodes, insert_stable(nodes, t, x, key, dir)) == children_dir_sum(nodes, t)
            + children_dir_sum(nodes, seq![x]),
    decreases t.len(),
{
    let r = insert_stable(nodes, t, x, key, dir);
    if t.len() == 0 {
        assert(t == Seq::<NodeId>::empty());
        assert(r == Seq::<NodeId>::empty().push(x));
        lemma_sums_push(nodes, t, x);
    } else if node_order(nodes[t.last().index()], nodes[x.index()], key, dir) <= 0 {
        lemma_sums_push(nodes, t, x);
    } else {
        let d = t.drop_last();
        let q = insert_stable(nodes, d, x, key, dir);
        lemma_insert_stable_sums(nodes, d, x, key, dir);
        lemma_sums_push(nodes, q, t.last());
        lemma_sums_push(nodes, d, t.last());
        assert(d.push(t.last()) == t);
    }
}

/// A stable sort keeps every children sum.
pub proof fn lemma_stable_sorted_sums(nodes: Seq<Node>, s: Seq<NodeId>, key: SortKey, dir: SortDir)
    ensures
        children_size_sum(nodes, stable_sorted(nodes, s, key, dir)) == children_size_sum(nodes, s),
        children_alloc_sum(nodes, stable_sorted(nodes, s, key, dir)) == children_alloc_sum(nodes, s),
        children_alloc_known(nodes, stable_sorted(nodes, s, key, dir)) == children_alloc_known(nodes, s),
        children_file_sum(nodes, stable_sorted(nodes, s, key, dir)) == children_file_sum(nodes, s),
        children_dir_sum(nodes, stable_sorted(nodes, s, key, dir)) == children_dir_sum(nodes, s),
    decreases s.len(),
{
    if s.len() > 0 {
        let d = s.drop_last();
        lemma_stable_sorted_sums(nodes, d, key, dir);
        lemma_insert_stable_sums(nodes, stable_sorted(nodes, d, key, dir), s.last(), key, dir);
        lemma_sums_push(nodes, d, s.last());
        assert(d.push(s.last()) == s);
    }
}

/// Inserting into a sorted sequence keeps it sorted.
pub proof fn lemma_insert_stable_sorted(nodes: Seq<Node>, t: Seq<NodeId>, x: NodeId, key: SortKey, dir: SortDir)
    requires
        is_sorted_by(nodes, t, key, dir),
    ensures
        is_sorted_by(nodes, insert_stable(nodes, t, x, key, dir), key, dir),
    decreases t.len(),
{
    let r = insert_stable(nodes, t, x, key, dir);
    if t.len() == 0 {
        assert(r == seq![x]);
    } else if node_order(nodes[t.last().index()], nodes[x.index()], key, dir) <= 0 {
        let n = t.len();
        assert(r == t.push(x));
        assert forall|i: int, j: int| 0 <= i < j < r.len() implies node_order(
            nodes[(#[trigger] r[i]).index()],
            nodes[(#[trigger] r[j]).index()],
            key,
            dir,
        ) <= 0 by {
            assert(r[i] == t[i]);
            if j < n {
                assert(r[j] == t[j]);
            } else {
                assert(r[j] == x);
                assert(t.last() == t[n - 1]);
                if i < n - 1 {
                    lemma_node_order_props(nodes[t[i].index()], nodes[t[n - 1].index()], nodes[x.index()], key, dir);
                }
            }
        }
    } else {
        let n = t.len();
        let d = t.drop_last();
        let last = t.last();
        assert(last == t[n - 1]);
        assert(is_sorted_by(nodes, d, key, dir)) by {
            assert forall|i: int, j: int| 0 <= i < j < d.len() implies node_order(
                nodes[(#[trigger] d[i]).index()],
                nodes[(#[trigger] d[j]).index()],
                key,
                dir,
            ) <= 0 by {
                assert(d[i] == t[i] && d[j] == t[j]);
            }
        }
        lemma_insert_stable_sorted(nodes, d, x, key, dir);
        let q = insert_stable(nodes, d, x, key, dir);
        lemma_insert_stable_contents(nodes, d, x, key, dir);
        assert(r == q.push(last));
        assert forall|i: int, j: int| 0 <= i < j < r.len() implies node_order(
            nodes[(#[trigger] r[i]).index()],
            nodes[(#[trigger] r[j]).index()],
            key,
            dir,
        ) <= 0 by {
            assert(r[i] == q[i]);
            if j < q.len() {
                assert(r[j] == q[j]);
            } else {
                assert(r[j] == last);
                assert(q.contains(q[i]));
                if q[i] == x {
                    lemma_node_order_props(nodes[last.index()], nodes[x.index()], nodes[x.index()], key, dir);
                } else {
                    assert(d.contains(q[i]));
                    let m = choose|m: int| 0 <= m < d.len() && d[m] == q[i];
                    assert(t[m] == q[i]);
                }
            }
        }
    }
}

/// The stable sort's output is in order.
pub proof fn lemma_stable_sorted_sorted(nodes: Seq<Node>, s: Seq<NodeId>, key: SortKey, dir: SortDir)
    ensures
        is_sorted_by(nodes, stable_sorted(nodes, s, key, dir), key, dir),
    decreases s.len(),
{
    if s.len() > 0 {
        lemma_stable_sorted_sorted(nodes, s.drop_last(), key, dir);
        lemma_insert_stable_sorted(nodes, stable_sorted(nodes, s.drop_last(), key, dir), s.last(), key, dir);
    }
}

/// `a` stands somewhere before `b` in `s`.
pub open spec fn precedes(s: Seq<NodeId>, a: NodeId, b: NodeId) -> bool {
    exists|i: int, j: int| #![trigger s[i], s[j]] 0 <= i < j < s.len() && s[i] == a && s[j] == b
}

/// Inserting `x` stably puts it at some position `p`, after which every
/// element comes strictly after `x`.
proof fn lemma_insert_stable_shape(nodes: Seq<Node>, t: Seq<NodeId>, x: NodeId, key: SortKey, dir: SortDir) -> (p: int)
    ensures
        0 <= p <= t.len(),
        insert_stable(nodes, t, x, key, dir) == t.insert(p, x),
        forall|k: int| p <= k < t.len() ==> node_order(nodes[(#[trigger] t[k]).index()], nodes[x.index()], key, dir) > 0,
    decreases t.len(),
{
    if t.len() == 0 {
        assert(t.insert(0, x) =~= seq![x]);
        0
    } else if node_order(nodes[t.last().index()], nodes[x.index()], key, dir) <= 0 {
        assert(t.insert(t.len() as int, x) =~= t.push(x));
        t.len() as int
    } else {
        let d = t.drop_last();
        let p = lemma_insert_stable_shape(nodes, d, x, key, dir);
        assert(d.insert(p, x).push(t.last()) =~= t.insert(p, x));
        assert forall|k: int| p <= k < t.len() implies node_order(nodes[(#[trigger] t[k]).index()], nodes[x.index()], key, dir) > 0 by {
            if k < d.len() {
                assert(d[k] == t[k]);
            }
        }
        p
    }
}

/// The sort is stable: of two siblings that compare equal, the one given
/// first comes out first.
pub proof fn lemma_stable_sorted_keeps_ties_in_order(
    nodes: Seq<Node>,
    s: Seq<NodeId>,
    key: SortKey,
    dir: SortDir,
    i: int,
    j: int,
)
    requires
        0 <= i < j < s.len(),
        node_order(nodes[s[i].index()], nodes[s[j].index()], key, dir) == 0,
    ensures
        precedes(stable_sorted(nodes, s, key, dir), s[i], s[j]),
    decreases s.len(),
{
    let d = s.drop_last();
    let x = s.last();
    let t = stable_sorted(nodes, d, key, dir);
    let r = stable_sorted(nodes, s, key, dir);
    let p = lemma_insert_stable_shape(nodes, t, x, key, dir);
    assert(r == t.insert(p, x));
    assert(d[i] == s[i]);
    if j == s.len() - 1 {
        lemma_stable_sorted_contents(nodes, d, key, dir);
        assert(d.contains(s[i]));
        assert(t.contains(s[i]));
        let ia = choose|k: int| 0 <= k < t.len() && t[k] == s[i];
        assert(ia < p) by {
            if ia >= p {
                assert(node_order(nodes[t[ia].index()], nodes[x.index()], key, dir) > 0);
            }
        }
        assert(r[ia] == s[i]);
        assert(r[p] == s[j]);
    } else {
        assert(d[j] == s[j]);
        lemma_stable_sorted_keeps_ties_in_order(nodes, d, key, dir, i, j);
        let (ia, ib) = choose|ia: int, ib: int| #![trigger t[ia], t[ib]] 0 <= ia < ib < t.len() && t[ia] == s[i] && t[ib] == s[j];
        let ra = if ia < p { ia } else { ia + 1 };
        let rb = if ib < p { ib } else { ib + 1 };
        assert(r[ra] == s[i]);
        assert(r[rb] == s[j]);
    }
}

/// Each numeric column orders siblings by its own value: smaller first
/// ascending, larger first descending, ties equal. Known allocated sizes
/// compare by their byte counts, and an unknown one comes after a known one
/// in both directions.
pub proof fn lemma_numeric_keys_order_by_their_field(a: Node, b: Node, dir: SortDir)
    ensures
        a.size_total < b.size_total ==> node_order(a, b, SortKey::Size, SortDir::Asc) < 0 && node_order(
            a,
            b,
            SortKey::Size,
            SortDir::Desc,
        ) > 0,
        a.size_total == b.size_total ==> node_order(a, b, SortKey::Size, dir) == 0,
        a.file_count < b.file_count ==> node_order(a, b, SortKey::FileCount, SortDir::Asc) < 0 && node_order(
            a,
            b,
            SortKey::FileCount,
            SortDir::Desc,
        ) > 0,
        a.file_count == b.file_count ==> node_order(a, b, SortKey::FileCount, dir) == 0,
        a.dir_count < b.dir_count ==> node_order(a, b, SortKey::DirCount, SortDir::Asc) < 0 && node_order(
            a,
            b,
            SortKey::DirCount,
            SortDir::Desc,
        ) > 0,
        a.dir_count == b.dir_count ==> node_order(a, b, SortKey::DirCount, dir) == 0,
        (a.alloc_total matches Some(x) && b.alloc_total matches Some(y) && x < y) ==> node_order(
            a,
            b,
            SortKey::Allocated,
            SortDir::Asc,
        ) < 0 && node_order(a, b, SortKey::Allocated, SortDir::Desc) > 0,
        a.alloc_total == b.alloc_total ==> node_order(a, b, SortKey::Allocated, dir) == 0,
        a.alloc_total is Some && b.alloc_total is None ==> node_order(a, b, SortKey::Allocated, dir) < 0,
        (a.mtime matches Some(x) && b.mtime matches Some(y) && x < y) ==> node_order(
            a,
            b,
            SortKey::Mtime,
            SortDir::Asc,
        ) < 0 && node_order(a, b, SortKey::Mtime, SortDir::Desc) > 0,
        a.mtime is Some && b.mtime is None ==> node_order(a, b, SortKey::Mtime, dir) < 0,
        a.owner is Some && b.owner is None ==> node_order(a, b, SortKey::Owner, dir) < 0,
        node_order(a, b, SortKey::Name, SortDir::Asc) == order_bytes(str_bytes(a.name_lower@), str_bytes(b.name_lower@)),
        node_order(a, b, SortKey::Name, SortDir::Desc) == -order_bytes(str_bytes(a.name_lower@), str_bytes(b.name_lower@)),
        a.owner is Some && b.owner is Some ==> node_order(a, b, SortKey::Owner, SortDir::Asc) == order_bytes(
            str_bytes(a.owner->0@),
            str_bytes(b.owner->0@),
        ) && node_order(a, b, SortKey::Owner, SortDir::Desc) == -order_bytes(
            str_bytes(a.owner->0@),
            str_bytes(b.owner->0@),
        ),
        a.owner is None && b.owner is None ==> node_order(a, b, SortKey::Owner, dir) == 0,
        a.mtime is None && b.mtime is None ==> node_order(a, b, SortKey::Mtime, dir) == 0,
        a.mtime == b.mtime ==> node_order(a, b, SortKey::Mtime, dir) == 0,
{
}

/// In a sequence in order, a sibling that comes strictly before another
/// under the order stands before it.
pub proof fn lemma_sorted_places_lesser_first(nodes: Seq<Node>, s: Seq<NodeId>, key: SortKey, dir: SortDir, i: int, j: int)
    requires
        is_sorted_by(nodes, s, key, dir),
        0 <= i < s.len(),
        0 <= j < s.len(),
        node_order(nodes[s[i].index()], nodes[s[j].index()], key, dir) < 0,
    ensures
        i < j,
{
    lemma_node_order_props(nodes[s[i].index()], nodes[s[j].index()], nodes[s[j].index()], key, dir);
    lemma_node_order_props(nodes[s[i].index()], nodes[s[i].index()], nodes[s[i].index()], key, dir);
    if j < i {
        assert(node_order(nodes[s[j].index()], nodes[s[i].index()], key, dir) <= 0);
    }
}

/// Sorting siblings by a count descending puts the sibling with the larger
/// count first, ascending the one with the smaller count, whatever the
/// other columns hold.
pub proof fn lemma_count_sort_places_by_count(nodes: Seq<Node>, kids: Seq<NodeId>, i: int, j: int)
    requires
        0 <= i < kids.len(),
        0 <= j < kids.len(),
    ensures
        ({
            let r = stable_sorted(nodes, kids, SortKey::DirCount, SortDir::Desc);
            0 <= i < r.len() && 0 <= j < r.len() && nodes[r[i].index()].dir_count > nodes[r[j].index()].dir_count ==> i < j
        }),
        ({
            let r = stable_sorted(nodes, kids, SortKey::DirCount, SortDir::Asc);
            0 <= i < r.len() && 0 <= j < r.len() && nodes[r[i].index()].dir_count < nodes[r[j].index()].dir_count ==> i < j
        }),
        ({
            let r = stable_sorted(nodes, kids, SortKey::FileCount, SortDir::Desc);
            0 <= i < r.len() && 0 <= j < r.len() && nodes[r[i].index()].file_count > nodes[r[j].index()].file_count ==> i < j
        }),
        ({
            let r = stable_sorted(nodes, kids, SortKey::FileCount, SortDir::Asc);
            0 <= i < r.len() && 0 <= j < r.len() && nodes[r[i].index()].file_count < nodes[r[j].index()].file_count ==> i < j
        }),
        ({
            let r = stable_sorted(nodes, kids, SortKey::Size, SortDir::Desc);
            0 <= i < r.len() && 0 <= j < r.len() && nodes[r[i].index()].size_total > nodes[r[j].index()].size_total ==> i < j
        }),
        ({
            let r = stable_sorted(nodes, kids, SortKey::Size, SortDir::Asc);
            0 <= i < r.len() && 0 <= j < r.len() && nodes[r[i].index()].size_total < nodes[r[j].index()].size_total ==> i < j
        }),
{
    lemma_stable_sorted_contents(nodes, kids, SortKey::DirCount, SortDir::Desc);
    lemma_stable_sorted_contents(nodes, kids, SortKey::DirCount, SortDir::Asc);
    lemma_stable_sorted_contents(nodes, kids, SortKey::FileCount, SortDir::Desc);
    lemma_stable_sorted_contents(nodes, kids, SortKey::FileCount, SortDir::Asc);
    lemma_stable_sorted_contents(nodes, kids, SortKey::Size, SortDir::Desc);
    lemma_stable_sorted_contents(nodes, kids, SortKey::Size, SortDir::Asc);
    let keys = seq![
        (SortKey::DirCount, SortDir::Desc),
        (SortKey::DirCount, SortDir::Asc),
        (SortKey::FileCount, SortDir::Desc),
        (SortKey::FileCount, SortDir::Asc),
        (SortKey::Size, SortDir::Desc),
        (SortKey::Size, SortDir::Asc)
    ];
    assert forall|m: int| 0 <= m < 6 implies {
        let (key, dir) = #[trigger] keys[m];
        let r = stable_sorted(nodes, kids, key, dir);
        0 <= i < r.len() && 0 <= j < r.len() && node_order(nodes[r[i].index()], nodes[r[j].index()], key, dir) < 0 ==> i < j
    } by {
        let (key, dir) = keys[m];
        let r = stable_sorted(nodes, kids, key, dir);
        lemma_stable_sorted_sorted(nodes, kids, key, dir);
        if 0 <= i < r.len() && 0 <= j < r.len() && node_order(nodes[r[i].index()], nodes[r[j].index()], key, dir) < 0 {
            lemma_sorted_places_lesser_first(nodes, r, key, dir, i, j);
        }
    }
    assert(keys[0] == (SortKey::DirCount, SortDir::Desc));
    assert(keys[1] == (SortKey::DirCount, SortDir::Asc));
    assert(keys[2] == (SortKey::FileCount, SortDir::Desc));
    assert(keys[3] == (SortKey::FileCount, SortDir::Asc));
    assert(keys[4] == (SortKey::Size, SortDir::Desc));
    assert(keys[5] == (SortKey::Size, SortDir::Asc));
}

/// Whether a sequence is in order depends only on the nodes' sort keys.
pub proof fn lemma_sorted_frame(n1: Seq<Node>, n2: Seq<Node>, s: Seq<NodeId>, key: SortKey, dir: SortDir)
    requires
        same_sort_keys_all(n1, n2),
        ids_valid(n1, s),
        is_sorted_by(n1, s, key, dir),
    ensures
        is_sorted_by(n2, s, key, dir),
{
    assert forall|i: int, j: int| 0 <= i < j < s.len() implies node_order(
        n2[(#[trigger] s[i]).index()],
        n2[(#[trigger] s[j]).index()],
        key,
        dir,
    ) <= 0 by {
        assert(same_sort_keys(n1[s[i].index()], n2[s[i].index()]));
        assert(same_sort_keys(n1[s[j].index()], n2[s[j].index()]));
        assert(node_order(n1[s[i].index()], n1[s[j].index()], key, dir) <= 0);
    }
}

/// An entry whose allocated size, modification time or owner is unknown
/// sorts after every entry where it is known, in either direction.
pub proof fn lemma_unknown_sorts_last(a: Node, b: Node, dir: SortDir)
    ensures
        a.alloc_total is Some && b.alloc_total is None ==> node_order(a, b, SortKey::Allocated, dir) < 0,
        a.mtime is Some && b.mtime is None ==> node_order(a, b, SortKey::Mtime, dir) < 0,
        a.owner is Some && b.owner is None ==> node_order(a, b, SortKey::Owner, dir) < 0,
{
}

} // verus!
