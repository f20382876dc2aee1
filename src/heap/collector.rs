use vstd::prelude::*;
use vstd::set_lib::{lemma_int_range, lemma_len_subset, set_int_range};
use crate::cell::{cell_ok, free_cell, Cell, CellView};
use crate::graph::{
    edge, is_root_at, lemma_closed_covers, lemma_edge_reachable, lemma_reachable_occupied,
    lemma_root_reachable, reachable,
};
use crate::heap::{heap_ok, occupied, without_refs, Heap};
use crate::refs::flagged_in;

verus! {

/// The heap after a mark pass: a cell is marked exactly when it is reachable.
pub open spec fn marked_from(h: Seq<CellView>) -> Seq<CellView> {
    Seq::new(h.len(), |i: int| CellView { marked: reachable(h, i), ..h[i] })
}

/// Selects the in-range slots whose mark bit is clear.
pub open spec fn unmarked_in(h: Seq<CellView>) -> spec_fn(usize) -> bool {
    |y: usize| y < h.len() && !h[y as int].marked
}

/// Selects the in-range slots that no root reaches.
pub open spec fn unreached_in(h: Seq<CellView>) -> spec_fn(usize) -> bool {
    |y: usize| y < h.len() && !reachable(h, y as int)
}

/// The heap after a sweep: unmarked cells are freed and excised from the
/// lists of the survivors, which are otherwise untouched.
pub open spec fn swept(h: Seq<CellView>) -> Seq<CellView> {
    Seq::new(
        h.len(),
        |i: int|
            if h[i].marked {
                without_refs(h[i], unmarked_in(h))
            } else {
                free_cell()
            },
    )
}

/// The heap after a full collection.
pub open spec fn collected(h: Seq<CellView>) -> Seq<CellView> {
    Seq::new(
        h.len(),
        |i: int|
            if reachable(h, i) {
                without_refs(CellView { marked: true, ..h[i] }, unreached_in(h))
            } else {
                free_cell()
            },
    )
}

impl Heap {
    fn set_marked(&mut self, i: usize, v: bool)
        requires
            i < old(self)@.len(),
        ensures
            final(self)@ == old(self)@.update(i as int, CellView { marked: v, ..old(self)@[i as int] }),
    {
        self.cells[i].marked = v;
        assert(self@ =~= old(self)@.update(i as int, CellView { marked: v, ..old(self)@[i as int] }));
    }

    /// Mark phase: clears every mark bit, then sets it on each cell reachable
    /// from a root along outgoing edges (roots included). The traversal keeps
    /// a worklist and expands each cell once, so cycles are safe; listed
    /// indices that are out of range or name a free slot are skipped.
    pub fn mark(&mut self)
        requires
            old(self).wf(),
        ensures
            final(self).wf(),
            final(self)@ == marked_from(old(self)@),
    {
        let ghost g = self@;
        let n = self.cells.len();
        let mut stack: Vec<usize> = Vec::new();
        let ghost mut seen: Set<int> = Set::empty();
        proof {
            lemma_int_range(0, n as int);
        }
        let mut i: usize = 0;
        while i < n
            invariant
                n == g.len(),
                self@.len() == n,
                heap_ok(g),
                i <= n,
                set_int_range(0, n as int).finite(),
                set_int_range(0, n as int).len() == n,
                forall|k: int| 0 <= k < n ==> #[trigger] self@[k] == (CellView { marked: self@[k].marked, ..g[k] }),
                forall|k: int| 0 <= k < i ==> self@[k].marked == is_root_at(g, k),
                forall|k: int| i <= k < n ==> self@[k] == g[k],
                forall|m: int| 0 <= m < stack@.len() ==> #[trigger] stack@[m] < i,
                forall|m: int| 0 <= m < stack@.len() ==> self@[#[trigger] stack@[m] as int].marked,
                stack@.no_duplicates(),
                forall|k: int| 0 <= k < i && self@[k].marked ==> stack@.contains(k as usize),
                forall|k: int| seen.contains(k) <==> 0 <= k < i && self@[k].marked,
            decreases n - i,
        {
            let r = self.cells[i].is_root;
            self.set_marked(i, r);
            proof {
                assert(cell_ok(g[i as int]));
            }
            if r {
                let ghost before_push = stack@;
                stack.push(i);
                proof {
                    seen = seen.insert(i as int);
                    assert(stack@[stack@.len() - 1] == i);
                    assert forall|k: int| 0 <= k < i && self@[k].marked implies stack@.contains(k as usize) by {
                        let m = choose|m: int| 0 <= m < before_push.len() && before_push[m] == k as usize;
                        assert(stack@[m] == before_push[m]);
                    }
                }
            }
            i = i + 1;
        }
        proof {
            assert(seen.subset_of(set_int_range(0, n as int)));
            lemma_len_subset(seen, set_int_range(0, n as int));
            assert forall|k: int| 0 <= k < n && self@[k].marked implies reachable(g, k) by {
                lemma_root_reachable(g, k);
            }
        }
        while stack.len() > 0
            invariant
                n == g.len(),
                self@.len() == n,
                heap_ok(g),
                set_int_range(0, n as int).finite(),
                set_int_range(0, n as int).len() == n,
                forall|k: int| 0 <= k < n ==> #[trigger] self@[k] == (CellView { marked: self@[k].marked, ..g[k] }),
                forall|k: int| 0 <= k < n && self@[k].marked ==> reachable(g, k),
                forall|k: int| is_root_at(g, k) ==> self@[k].marked,
                forall|m: int| 0 <= m < stack@.len() ==> #[trigger] stack@[m] < n,
                forall|m: int| 0 <= m < stack@.len() ==> self@[#[trigger] stack@[m] as int].marked,
                stack@.no_duplicates(),
                forall|a: int, b: int|
                    0 <= a < n && self@[a].marked && !stack@.contains(a as usize) && #[trigger] edge(g, a, b)
                        ==> self@[b].marked,
                forall|k: int| seen.contains(k) <==> 0 <= k < n && self@[k].marked,
                seen.finite(),
                seen.len() <= n,
            decreases n - seen.len(), stack@.len(),
        {
            let ghost before = stack@;
            let cur = stack.pop().unwrap();
            let ghost seen0 = seen;
            let ghost s0 = stack@.len();
            proof {
                assert(stack@ == before.drop_last());
                assert forall|m: int| 0 <= m < stack@.len() implies stack@[m] == before[m] by {}
                if stack@.contains(cur) {
                    let m = choose|m: int| 0 <= m < stack@.len() && stack@[m] == cur;
                    assert(before[m] == before[before.len() - 1]);
                }
            }
            let out_len = self.cells[cur].will_ref.len();
            let mut t: usize = 0;
            while t < out_len
                invariant
                    n == g.len(),
                    self@.len() == n,
                    heap_ok(g),
                    set_int_range(0, n as int).finite(),
                set_int_range(0, n as int).len() == n,
                    cur < n,
                    self@[cur as int].marked,
                    !stack@.contains(cur),
                    out_len == g[cur as int].will_ref.len(),
                    t <= out_len,
                    forall|k: int| 0 <= k < n ==> #[trigger] self@[k] == (CellView { marked: self@[k].marked, ..g[k] }),
                    forall|k: int| 0 <= k < n && self@[k].marked ==> reachable(g, k),
                    forall|k: int| is_root_at(g, k) ==> self@[k].marked,
                    forall|m: int| 0 <= m < stack@.len() ==> #[trigger] stack@[m] < n,
                    forall|m: int| 0 <= m < stack@.len() ==> self@[#[trigger] stack@[m] as int].marked,
                    stack@.no_duplicates(),
                    forall|a: int, b: int|
                        0 <= a < n && a != cur && self@[a].marked && !stack@.contains(a as usize) && #[trigger] edge(g, a, b)
                            ==> self@[b].marked,
                    forall|u: int| 0 <= u < t ==> occupied(g, #[trigger] g[cur as int].will_ref[u] as int)
                        ==> self@[g[cur as int].will_ref[u] as int].marked,
                    forall|k: int| seen.contains(k) <==> 0 <= k < n && self@[k].marked,
                    seen.finite(),
                    seen.len() <= n,
                    seen.len() - seen0.len() == stack@.len() - s0,
                    stack@.len() >= s0,
                decreases out_len - t,
            {
                let j = self.cells[cur].will_ref[t];
                proof {
                    assert(self@[cur as int].will_ref == g[cur as int].will_ref);
                }
                if j < n && !self.cells[j].freed && !self.cells[j].marked {
                    proof {
                        assert(self@[j as int].freed == g[j as int].freed);
                        assert(g[cur as int].will_ref.contains(j));
                        assert(edge(g, cur as int, j as int));
                        lemma_edge_reachable(g, cur as int, j as int);
                        if stack@.contains(j) {
                            let m = choose|m: int| 0 <= m < stack@.len() && stack@[m] == j;
                            assert(self@[stack@[m] as int].marked);
                        }
                    }
                    let ghost before_push = stack@;
                    let ghost before_marks = self@;
                    self.set_marked(j, true);
                    stack.push(j);
                    proof {
                        assert(!seen.contains(j as int));
                        seen = seen.insert(j as int);
                        assert(seen.len() == seen0.len() + (stack@.len() - s0));
                        assert(seen.subset_of(set_int_range(0, n as int)));
                        lemma_len_subset(seen, set_int_range(0, n as int));
                        assert forall|m: int| 0 <= m < stack@.len() implies self@[#[trigger] stack@[m] as int].marked by {
                            if m < stack@.len() - 1 {
                                assert(stack@[m] == before_push[m]);
                            }
                        }
                        assert forall|a: usize| !#[trigger] stack@.contains(a)
                            implies !before_push.contains(a) by {
                            if before_push.contains(a) {
                                let m = choose|m: int| 0 <= m < before_push.len() && before_push[m] == a;
                                assert(stack@[m] == before_push[m]);
                            }
                        }
                        assert forall|a: int, b: int|
                            0 <= a < n && a != cur && self@[a].marked && !stack@.contains(a as usize) && #[trigger] edge(g, a, b)
                                implies self@[b].marked by {
                            if a == j as int {
                                assert(stack@[stack@.len() - 1] == j);
                            }
                            assert(before_marks[a].marked);
                            assert(!before_push.contains(a as usize));
                            assert(before_marks[b].marked);
                        }
                    }
                }
                proof {
                    if j < n {
                        assert(self@[j as int].freed == g[j as int].freed);
                    }
                }
                t = t + 1;
            }
            proof {
                assert forall|a: int, b: int|
                    0 <= a < n && self@[a].marked && !stack@.contains(a as usize) && #[trigger] edge(g, a, b)
                        implies self@[b].marked by {
                    if a == cur {
                        let u = choose|u: int| 0 <= u < g[cur as int].will_ref.len() && g[cur as int].will_ref[u] == b as usize;
                        assert(occupied(g, g[cur as int].will_ref[u] as int));
                    }
                }
            }
        }
        proof {
            let fin = self@;
            let m = |k: int| 0 <= k < n && fin[k].marked;
            assert forall|k: int| 0 <= k < n implies #[trigger] self@[k] == marked_from(g)[k] by {
                if reachable(g, k) {
                    lemma_closed_covers(g, m, k);
                }
            }
            assert(self@ =~= marked_from(g));
            assert forall|k: int| 0 <= k < n implies cell_ok(#[trigger] self@[k]) by {
                assert(cell_ok(g[k]));
                if reachable(g, k) {
                    lemma_reachable_occupied(g, k);
                }
                if g[k].is_root {
                    lemma_root_reachable(g, k);
                }
            }
        }
    }

    /// Sweep phase: every unmarked cell is freed and excised from the lists
    /// of the others; marked cells keep their mark bit.
    pub fn sweep(&mut self)
        requires
            old(self).wf(),
        ensures
            final(self).wf(),
            final(self)@ == swept(old(self)@),
    {
        let ghost g = self@;
        let n = self.cells.len();
        let mut doomed: Vec<bool> = Vec::new();
        let mut k: usize = 0;
        while k < n
            invariant
                n == g.len(),
                self@ == g,
                k <= n,
                doomed@.len() == k,
                forall|m: int| 0 <= m < k ==> doomed@[m] == !g[m].marked,
            decreases n - k,
        {
            doomed.push(!self.cells[k].marked);
            k = k + 1;
        }
        assert(flagged_in(doomed@) =~= unmarked_in(g));
        self.drop_refs(&doomed);
        let mut k: usize = 0;
        while k < n
            invariant
                n == g.len(),
                self@.len() == n,
                k <= n,
                doomed@.len() == n,
                forall|m: int| 0 <= m < n ==> doomed@[m] == !g[m].marked,
                heap_ok(self@),
                forall|m: int| 0 <= m < k ==> self@[m] == swept(g)[m],
                forall|m: int| k <= m < n ==> self@[m] == without_refs(g[m], unmarked_in(g)),
            decreases n - k,
        {
            let ghost pre = self@;
            if doomed[k] {
                self.put(k, Cell::new());
            }
            proof {
                assert(cell_ok(free_cell()));
                assert forall|m: int| 0 <= m < n implies cell_ok(#[trigger] self@[m]) by {
                    if m != k {
                        assert(cell_ok(pre[m]));
                    }
                }
            }
            k = k + 1;
        }
        assert(self@ =~= swept(g));
    }

    /// A full collection: mark, then sweep. Exactly the cells reachable from
    /// a root survive, marked and with every reclaimed index excised from
    /// their lists; every other slot is returned to the free state.
    pub fn collect(&mut self)
        requires
            old(self).wf(),
        ensures
            final(self).wf(),
            final(self)@ == collected(old(self)@),
    {
        let ghost g = self@;
        self.mark();
        let ghost mid = self@;
        self.sweep();
        proof {
            assert(unmarked_in(mid) =~= unreached_in(g));
            assert(self@ =~= collected(g));
        }
    }
}

} // verus!
