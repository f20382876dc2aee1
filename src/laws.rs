//! Properties that relate several heap operations, proved over the
//! models that the operations' own contracts use.
use vstd::prelude::*;
use crate::cell::{allocated_cell, free_cell, CellView};
use crate::graph::{edge, is_path, is_root_at, lemma_edge_reachable, lemma_root_reachable, reachable};
use crate::heap::collector::{collected, unreached_in};
use crate::cell::AllocError;
use crate::heap::{
    add_once, allocated_first_free, freed_at, heap_ok, linked, root_pair, rooted, symmetric,
};
use crate::refs::{lemma_kept_contains, same_index};

verus! {

/// A heap of free cells has symmetric edges.
pub proof fn lemma_fresh_heap_symmetric(h: Seq<CellView>)
    requires
        forall|i: int| 0 <= i < h.len() ==> h[i] == free_cell(),
    ensures
        symmetric(h),
{
}

/// Membership after appending an index unless already present.
proof fn lemma_add_once_contains(s: Seq<usize>, x: usize, y: usize)
    ensures
        add_once(s, x).contains(y) <==> s.contains(y) || y == x,
{
    if !s.contains(x) {
        assert(s.push(x)[s.len() as int] == x);
        if s.contains(y) {
            let k = choose|k: int| 0 <= k < s.len() && s[k] == y;
            assert(s.push(x)[k] == y);
        }
        if s.push(x).contains(y) && y != x {
            let k = choose|k: int| 0 <= k < s.len() + 1 && s.push(x)[k] == y;
            assert(s[k] == y);
        }
    }
}

/// The lists of a linked heap, read cell by cell.
proof fn lemma_linked_lists(h: Seq<CellView>, from: usize, to: usize, i: int)
    requires
        from < h.len(),
        to < h.len(),
        0 <= i < h.len(),
    ensures
        linked(h, from, to)[i].will_ref == if i == from {
            add_once(h[from as int].will_ref, to)
        } else {
            h[i].will_ref
        },
        linked(h, from, to)[i].by_ref == if i == to {
            add_once(h[to as int].by_ref, from)
        } else {
            h[i].by_ref
        },
        linked(h, from, to)[i].freed == h[i].freed,
        linked(h, from, to)[i].is_root == h[i].is_root,
{
}

/// Linking two cells keeps edge symmetry.
pub proof fn lemma_link_keeps_symmetry(h: Seq<CellView>, from: usize, to: usize)
    requires
        symmetric(h),
        from < h.len(),
        to < h.len(),
    ensures
        symmetric(linked(h, from, to)),
{
    let h2 = linked(h, from, to);
    assert forall|a: usize, b: usize| a < h2.len() && b < h2.len() implies (
    #[trigger] h2[a as int].will_ref.contains(b) <==> #[trigger] h2[b as int].by_ref.contains(a)) by {
        assert(h[a as int].will_ref.contains(b) <==> h[b as int].by_ref.contains(a));
        lemma_linked_lists(h, from, to, a as int);
        lemma_linked_lists(h, from, to, b as int);
        lemma_add_once_contains(h[from as int].will_ref, to, b);
        lemma_add_once_contains(h[to as int].by_ref, from, a);
    }
}

/// The heap after `link` is called on each pair in turn; a refused link
/// (an endpoint free or out of range) changes nothing.
pub open spec fn link_all(h: Seq<CellView>, pairs: Seq<(usize, usize)>) -> Seq<CellView>
    decreases pairs.len(),
{
    if pairs.len() == 0 {
        h
    } else {
        let prev = link_all(h, pairs.drop_last());
        let (a, b) = pairs.last();
        if a < prev.len() && b < prev.len() && !prev[a as int].freed && !prev[b as int].freed {
            linked(prev, a, b)
        } else {
            prev
        }
    }
}

/// Any sequence of links keeps edge symmetry; from a fresh heap every
/// heap built by links alone is symmetric.
pub proof fn lemma_links_keep_symmetry(h: Seq<CellView>, pairs: Seq<(usize, usize)>)
    requires
        symmetric(h),
    ensures
        symmetric(link_all(h, pairs)),
    decreases pairs.len(),
{
    if pairs.len() > 0 {
        lemma_links_keep_symmetry(h, pairs.drop_last());
        let prev = link_all(h, pairs.drop_last());
        let (a, b) = pairs.last();
        if a < prev.len() && b < prev.len() && !prev[a as int].freed && !prev[b as int].freed {
            lemma_link_keeps_symmetry(prev, a, b);
        }
    }
}

/// Freeing a slot keeps edge symmetry, since its index is excised from
/// every list.
pub proof fn lemma_free_keeps_symmetry(h: Seq<CellView>, x: usize)
    requires
        symmetric(h),
        heap_ok(h),
        x < h.len(),
    ensures
        symmetric(freed_at(h, x)),
{
    let h2 = freed_at(h, x);
    assert forall|a: usize, b: usize| a < h2.len() && b < h2.len() implies (
    #[trigger] h2[a as int].will_ref.contains(b) <==> #[trigger] h2[b as int].by_ref.contains(a)) by {
        assert(h[a as int].will_ref.contains(b) <==> h[b as int].by_ref.contains(a));
        lemma_kept_contains(h[a as int].will_ref, same_index(x), b);
        lemma_kept_contains(h[b as int].by_ref, same_index(x), a);
    }
}

/// A collection keeps edge symmetry: reclaimed slots lose both lists and
/// their indices leave the lists of the survivors.
pub proof fn lemma_collect_keeps_symmetry(h: Seq<CellView>)
    requires
        symmetric(h),
    ensures
        symmetric(collected(h)),
{
    let h2 = collected(h);
    assert forall|a: usize, b: usize| a < h2.len() && b < h2.len() implies (
    #[trigger] h2[a as int].will_ref.contains(b) <==> #[trigger] h2[b as int].by_ref.contains(a)) by {
        assert(h[a as int].will_ref.contains(b) <==> h[b as int].by_ref.contains(a));
        lemma_kept_contains(h[a as int].will_ref, unreached_in(h), b);
        lemma_kept_contains(h[b as int].by_ref, unreached_in(h), a);
    }
}

/// Linking the same pair twice leaves the adjacency lists as one link left
/// them: `to` stands once in `from`'s outgoing list and `from` once in
/// `to`'s incoming list.
pub proof fn lemma_link_idempotent(h: Seq<CellView>, from: usize, to: usize)
    requires
        heap_ok(h),
        from < h.len(),
        to < h.len(),
    ensures
        ({
            let once = linked(h, from, to);
            let twice = linked(once, from, to);
            &&& twice[from as int].will_ref == once[from as int].will_ref
            &&& twice[to as int].by_ref == once[to as int].by_ref
            &&& twice[from as int].will_ref.contains(to)
            &&& twice[to as int].by_ref.contains(from)
            &&& twice[from as int].will_ref.no_duplicates()
            &&& twice[to as int].by_ref.no_duplicates()
        }),
{
    let once = linked(h, from, to);
    let wf = h[from as int].will_ref;
    let bt = h[to as int].by_ref;
    if !wf.contains(to) {
        assert(wf.push(to)[wf.len() as int] == to);
    }
    if !bt.contains(from) {
        assert(bt.push(from)[bt.len() as int] == from);
    }
    assert(once[from as int].will_ref.contains(to));
    assert(once[to as int].by_ref.contains(from));
}

/// A first-fit allocation on a heap whose every slot is occupied fails with
/// `NoFreeMemory` and leaves the heap as it was.
pub proof fn lemma_full_heap_refuses(
    h0: Seq<CellView>,
    value: i32,
    target: Option<usize>,
    h1: Seq<CellView>,
    r: Result<usize, AllocError>,
)
    requires
        forall|i: int| 0 <= i < h0.len() ==> !h0[i].freed,
        allocated_first_free(h0, value, target, h1, r),
    ensures
        r == Err::<usize, AllocError>(AllocError::NoFreeMemory),
        h1 == h0,
{
}

/// Rooting an out-of-range pair roots slots 0 and 1 instead and leaves every
/// other slot as it was.
pub proof fn lemma_roots_fall_back(h: Seq<CellView>, a: usize, b: usize)
    requires
        a >= h.len() || b >= h.len(),
        h.len() >= 2,
    ensures
        ({
            let (x, y) = root_pair(h.len(), a, b);
            let h2 = rooted(rooted(h, x), y);
            &&& x == 0 && y == 1
            &&& h2[0].is_root && h2[1].is_root
            &&& forall|k: int| 2 <= k < h.len() ==> h2[k] == h[k]
        }),
{
}

/// A two-cell cycle hanging from a root survives a collection: after
/// `link(x, y)` and `link(y, x)` with `x` a root, both stay occupied.
pub proof fn lemma_cycle_survives(h: Seq<CellView>, x: usize, y: usize)
    requires
        heap_ok(h),
        x < h.len(),
        y < h.len(),
        h[x as int].is_root,
        !h[y as int].freed,
    ensures
        ({
            let cyc = linked(linked(h, x, y), y, x);
            let after = collected(cyc);
            &&& !after[x as int].freed && after[x as int].marked
            &&& !after[y as int].freed && after[y as int].marked
        }),
{
    let h1 = linked(h, x, y);
    let cyc = linked(h1, y, x);
    assert(h1[x as int].will_ref.contains(y)) by {
        let w = h[x as int].will_ref;
        if !w.contains(y) {
            assert(w.push(y)[w.len() as int] == y);
        }
    }
    assert(cyc[x as int].will_ref.contains(y)) by {
        if x == y {
            let w = h1[y as int].will_ref;
            if !w.contains(x) {
                assert(w.push(x)[w.len() as int] == x);
            }
        }
    }
    assert(is_root_at(cyc, x as int));
    lemma_root_reachable(cyc, x as int);
    assert(edge(cyc, x as int, y as int));
    lemma_edge_reachable(cyc, x as int, y as int);
}

/// A slot that no root reaches is back in the free state after a
/// collection: no value, no edges, not occupied.
pub proof fn lemma_unreachable_reclaimed(h: Seq<CellView>, i: int)
    requires
        0 <= i < h.len(),
        !reachable(h, i),
    ensures
        collected(h)[i] == free_cell(),
{
}

/// A freshly allocated cell that nothing references and that is no root
/// is reclaimed by the next collection.
pub proof fn lemma_fresh_unreferenced_reclaimed(
    h: Seq<CellView>,
    pos: usize,
    value: i32,
    target: Option<usize>,
)
    requires
        pos < h.len(),
        forall|j: int| 0 <= j < h.len() ==> !(#[trigger] h[j]).will_ref.contains(pos),
    ensures
        collected(h.update(pos as int, allocated_cell(value, target)))[pos as int] == free_cell(),
{
    let h1 = h.update(pos as int, allocated_cell(value, target));
    if reachable(h1, pos as int) {
        let p = choose|p: Seq<int>| #[trigger] is_path(h1, p) && p.last() == pos as int;
        lemma_path_avoids(h, h1, pos, value, target, p, p.len() - 1);
    }
}

proof fn lemma_path_avoids(
    h: Seq<CellView>,
    h1: Seq<CellView>,
    pos: usize,
    value: i32,
    target: Option<usize>,
    p: Seq<int>,
    k: int,
)
    requires
        pos < h.len(),
        h1 == h.update(pos as int, allocated_cell(value, target)),
        forall|j: int| 0 <= j < h.len() ==> !(#[trigger] h[j]).will_ref.contains(pos),
        is_path(h1, p),
        0 <= k < p.len(),
    ensures
        p[k] != pos as int,
    decreases k,
{
    if k > 0 {
        lemma_path_avoids(h, h1, pos, value, target, p, k - 1);
        assert(edge(h1, p[k - 1], p[k - 1 + 1]));
        assert(h1[p[k - 1]] == h[p[k - 1]]);
    }
}

} // verus!
