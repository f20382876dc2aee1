use vstd::prelude::*;
use crate::cell::CellView;
use crate::heap::occupied;

verus! {

/// Slot `i` holds a live root.
pub open spec fn is_root_at(h: Seq<CellView>, i: int) -> bool {
    occupied(h, i) && h[i].is_root
}

/// A traversable edge: `b` is live and listed in `a`'s outgoing references.
pub open spec fn edge(h: Seq<CellView>, a: int, b: int) -> bool {
    0 <= a < h.len() && occupied(h, b) && h[a].will_ref.contains(b as usize)
}

/// `p` is a walk that starts at a root and follows edges.
pub open spec fn is_path(h: Seq<CellView>, p: Seq<int>) -> bool {
    &&& p.len() > 0
    &&& is_root_at(h, p[0])
    &&& forall|k: int| 0 <= k < p.len() - 1 ==> #[trigger] edge(h, p[k], p[k + 1])
}

/// Slot `i` can be reached from some root.
pub open spec fn reachable(h: Seq<CellView>, i: int) -> bool {
    exists|p: Seq<int>| #[trigger] is_path(h, p) && p.last() == i
}

/// Every root is reachable.
pub proof fn lemma_root_reachable(h: Seq<CellView>, i: int)
    requires
        is_root_at(h, i),
    ensures
        reachable(h, i),
{
    let p = seq![i];
    assert(is_path(h, p));
}

/// Following an edge from a reachable cell stays reachable.
pub proof fn lemma_edge_reachable(h: Seq<CellView>, a: int, b: int)
    requires
        reachable(h, a),
        edge(h, a, b),
    ensures
        reachable(h, b),
{
    let p = choose|p: Seq<int>| #[trigger] is_path(h, p) && p.last() == a;
    let q = p.push(b);
    assert forall|k: int| 0 <= k < q.len() - 1 implies #[trigger] edge(h, q[k], q[k + 1]) by {
        if k < p.len() - 1 {
            assert(q[k] == p[k] && q[k + 1] == p[k + 1]);
        }
    }
    assert(is_path(h, q));
}

/// Only live cells are reachable.
pub proof fn lemma_reachable_occupied(h: Seq<CellView>, i: int)
    requires
        reachable(h, i),
    ensures
        occupied(h, i),
{
    let p = choose|p: Seq<int>| #[trigger] is_path(h, p) && p.last() == i;
    if p.len() > 1 {
        assert(edge(h, p[p.len() - 2], p[p.len() - 2 + 1]));
    }
}

/// A set of slots that holds every root and is closed under edges holds
/// every reachable slot.
pub proof fn lemma_closed_covers(h: Seq<CellView>, m: spec_fn(int) -> bool, i: int)
    requires
        forall|r: int| is_root_at(h, r) ==> #[trigger] m(r),
        forall|a: int, b: int| m(a) && #[trigger] edge(h, a, b) ==> m(b),
        reachable(h, i),
    ensures
        m(i),
{
    let p = choose|p: Seq<int>| #[trigger] is_path(h, p) && p.last() == i;
    lemma_path_covered(h, m, p, p.len() - 1);
}

proof fn lemma_path_covered(h: Seq<CellView>, m: spec_fn(int) -> bool, p: Seq<int>, k: int)
    requires
        forall|r: int| is_root_at(h, r) ==> #[trigger] m(r),
        forall|a: int, b: int| m(a) && #[trigger] edge(h, a, b) ==> m(b),
        is_path(h, p),
        0 <= k < p.len(),
    ensures
        m(p[k]),
    decreases k,
{
    if k > 0 {
        lemma_path_covered(h, m, p, k - 1);
        assert(edge(h, p[k - 1], p[k - 1 + 1]));
    }
}

} // verus!
