use vstd::prelude::*;
use crate::cell::{allocated_cell, cell_ok, free_cell, AllocError, Cell, CellView};
pub mod collector;

use crate::refs::{
    flagged_in, kept_list, kept_refs, lemma_kept_empty, lemma_kept_no_duplicates, list_contains,
    same_index,
};

verus! {

/// The heap invariant: every cell satisfies [`cell_ok`].
pub open spec fn heap_ok(h: Seq<CellView>) -> bool {
    forall|i: int| 0 <= i < h.len() ==> cell_ok(#[trigger] h[i])
}

/// Slot `i` exists and holds a live cell.
pub open spec fn occupied(h: Seq<CellView>, i: int) -> bool {
    0 <= i < h.len() && !h[i].freed
}

/// Edge symmetry: `b` is in `a`'s outgoing list exactly when `a` is in
/// `b`'s incoming list.
pub open spec fn symmetric(h: Seq<CellView>) -> bool {
    forall|a: usize, b: usize|
        a < h.len() && b < h.len() ==> (#[trigger] h[a as int].will_ref.contains(b)
            <==> #[trigger] h[b as int].by_ref.contains(a))
}

/// `c` with the indices selected by `gone` dropped from both of its lists.
pub open spec fn without_refs(c: CellView, gone: spec_fn(usize) -> bool) -> CellView {
    CellView { will_ref: kept_refs(c.will_ref, gone), by_ref: kept_refs(c.by_ref, gone), ..c }
}

/// The heap after freeing slot `x`: the slot is default and `x` is excised
/// from every other cell's adjacency lists.
pub open spec fn freed_at(h: Seq<CellView>, x: usize) -> Seq<CellView> {
    Seq::new(
        h.len(),
        |j: int|
            if j == x {
                free_cell()
            } else {
                without_refs(h[j], same_index(x))
            },
    )
}

/// A counter incremented without overflow.
pub open spec fn saturating_inc(n: u64) -> u64 {
    if n == u64::MAX {
        n
    } else {
        (n + 1) as u64
    }
}

/// `s` with `x` appended unless already present.
pub open spec fn add_once(s: Seq<usize>, x: usize) -> Seq<usize> {
    if s.contains(x) {
        s
    } else {
        s.push(x)
    }
}

/// The heap after creating the edge `from -> to` on two occupied cells.
pub open spec fn linked(h: Seq<CellView>, from: usize, to: usize) -> Seq<CellView> {
    let f = h[from as int];
    let h1 = h.update(
        from as int,
        CellView {
            reference_count: saturating_inc(f.reference_count),
            will_ref: add_once(f.will_ref, to),
            ..f
        },
    );
    let t = h1[to as int];
    h1.update(
        to as int,
        CellView {
            reference_count: saturating_inc(t.reference_count),
            by_ref: add_once(t.by_ref, from),
            ..t
        },
    )
}

/// The heap after making slot `i` a root: occupied, rooted and marked.
pub open spec fn rooted(h: Seq<CellView>, i: usize) -> Seq<CellView> {
    h.update(i as int, CellView { is_root: true, freed: false, marked: true, ..h[i as int] })
}

/// The pair actually rooted by `set_roots(a, b)` on a heap of `len` cells.
pub open spec fn root_pair(len: nat, a: usize, b: usize) -> (usize, usize) {
    if a < len && b < len {
        (a, b)
    } else {
        (0, 1)
    }
}

/// The heap with every root flag cleared.
pub open spec fn unrooted(h: Seq<CellView>) -> Seq<CellView> {
    Seq::new(h.len(), |i: int| CellView { is_root: false, ..h[i] })
}

/// The heap with every free slot made live and holding `value`.
pub open spec fn populated(h: Seq<CellView>, value: i32) -> Seq<CellView> {
    Seq::new(
        h.len(),
        |i: int|
            if h[i].freed {
                CellView { data: Some(value), freed: false, ..h[i] }
            } else {
                h[i]
            },
    )
}

/// First-fit allocation of `value` took `h0` to `h1` with result `r`.
pub open spec fn allocated_first_free(
    h0: Seq<CellView>,
    value: i32,
    target: Option<usize>,
    h1: Seq<CellView>,
    r: Result<usize, AllocError>,
) -> bool {
    match r {
        Ok(i) => {
            &&& i < h0.len()
            &&& h0[i as int].freed
            &&& forall|j: int| 0 <= j < i ==> !h0[j].freed
            &&& h1 == h0.update(i as int, allocated_cell(value, target))
        },
        Err(e) => {
            &&& e == AllocError::NoFreeMemory
            &&& forall|j: int| 0 <= j < h0.len() ==> !h0[j].freed
            &&& h1 == h0
        },
    }
}

/// Allocation of `value` at slot `pos` took `h0` to `h1` with result `r`.
pub open spec fn allocated_at(
    h0: Seq<CellView>,
    value: i32,
    target: Option<usize>,
    pos: usize,
    h1: Seq<CellView>,
    r: Result<usize, AllocError>,
) -> bool {
    if h0[pos as int].freed {
        r == Ok::<usize, AllocError>(pos) && h1 == h0.update(pos as int, allocated_cell(value, target))
    } else {
        r == Err::<usize, AllocError>(AllocError::Occupied) && h1 == h0
    }
}

/// What a snapshot shows of one cell.
#[derive(Debug, Clone, Copy, PartialEq, Eq, Structural)]
pub struct CellSummary {
    pub has_data: bool,
    pub freed: bool,
    pub is_root: bool,
    pub reference_count: u64,
    /// The cell references at least one other cell.
    pub refs_other: bool,
    /// At least one cell references this cell.
    pub referenced_by: bool,
    pub marked: bool,
}

/// The summary of a cell.
pub open spec fn summary_of(c: CellView) -> CellSummary {
    CellSummary {
        has_data: c.data is Some,
        freed: c.freed,
        is_root: c.is_root,
        reference_count: c.reference_count,
        refs_other: c.will_ref.len() > 0,
        referenced_by: c.by_ref.len() > 0,
        marked: c.marked,
    }
}

/// `rs.len()` first-fit allocations of `value` referencing `target`, one
/// after another, took `h0` to `h1` with results `rs`.
pub open spec fn allocation_chain(
    h0: Seq<CellView>,
    value: i32,
    target: Option<usize>,
    h1: Seq<CellView>,
    rs: Seq<Result<usize, AllocError>>,
) -> bool {
    exists|hs: Seq<Seq<CellView>>|
        {
            &&& hs.len() == rs.len() + 1
            &&& hs[0] == h0
            &&& hs[rs.len() as int] == h1
            &&& forall|m: int|
                0 <= m < rs.len() ==> allocated_first_free(#[trigger] hs[m], value, target, hs[m + 1], rs[m])
        }
}

/// A fixed-capacity virtual heap of cells addressed by stable indices.
///
/// Its model is the sequence of cell views; every operation keeps
/// [`heap_ok`]. Edge symmetry is kept by linking, freeing and collecting
/// (see the laws module), but allocation with a target records only the
/// outgoing side.
pub struct Heap {
    cells: Vec<Cell>,
}

impl View for Heap {
    type V = Seq<CellView>;

    closed spec fn view(&self) -> Seq<CellView> {
        self.cells@.map_values(|c: Cell| c@)
    }
}

impl Heap {
    /// The heap invariant holds.
    pub open spec fn wf(&self) -> bool {
        heap_ok(self@)
    }

    /// A heap of `capacity` free cells.
    pub fn new(capacity: usize) -> (h: Heap)
        ensures
            h.wf(),
            h@.len() == capacity,
            forall|i: int| 0 <= i < capacity ==> h@[i] == free_cell(),
    {
        let mut cells: Vec<Cell> = Vec::new();
        let mut i: usize = 0;
        while i < capacity
            invariant
                i <= capacity,
                cells@.len() == i,
                forall|k: int| 0 <= k < i ==> cells@[k]@ == free_cell(),
            decreases capacity - i,
        {
            cells.push(Cell::new());
            i = i + 1;
        }
        Heap { cells }
    }

    /// The number of slots.
    pub fn len(&self) -> (r: usize)
        ensures
            r == self@.len(),
    {
        self.cells.len()
    }

    /// The cell in slot `i`.
    pub fn cell(&self, i: usize) -> (c: &Cell)
        requires
            i < self@.len(),
        ensures
            c@ == self@[i as int],
    {
        &self.cells[i]
    }

    /// Puts `c` into slot `i`.
    fn put(&mut self, i: usize, c: Cell)
        requires
            i < old(self)@.len(),
        ensures
            final(self)@ == old(self)@.update(i as int, c@),
    {
        self.cells[i] = c;
        assert(self@ =~= old(self)@.update(i as int, c@));
    }

    /// Allocates `value` in the lowest-indexed free slot, optionally
    /// referencing `target` (outgoing side only). Fails with `NoFreeMemory`
    /// when every slot is occupied, leaving the heap unchanged.
    pub fn allocate_first_free(&mut self, value: i32, target: Option<usize>) -> (r: Result<
        usize,
        AllocError,
    >)
        requires
            old(self).wf(),
        ensures
            final(self).wf(),
            allocated_first_free(old(self)@, value, target, final(self)@, r),
    {
        let mut i: usize = 0;
        while i < self.cells.len()
            invariant
                self@ == old(self)@,
                heap_ok(self@),
                i <= self@.len(),
                forall|j: int| 0 <= j < i ==> !self@[j].freed,
            decreases self@.len() - i,
        {
            if self.cells[i].freed {
                self.put(i, Cell::allocated(value, target));
                proof {
                    assert(cell_ok(allocated_cell(value, target)));
                    assert(heap_ok(self@));
                }
                return Ok(i);
            }
            i = i + 1;
        }
        Err(AllocError::NoFreeMemory)
    }

    /// Allocates `value` in slot `position`, optionally referencing
    /// `target`. Fails with `Occupied` when the slot is live, leaving the
    /// heap unchanged.
    pub fn allocate_at(&mut self, value: i32, target: Option<usize>, position: usize) -> (r:
        Result<usize, AllocError>)
        requires
            old(self).wf(),
            position < old(self)@.len(),
        ensures
            final(self).wf(),
            allocated_at(old(self)@, value, target, position, final(self)@, r),
    {
        if self.cells[position].freed {
            self.put(position, Cell::allocated(value, target));
            proof {
                assert(cell_ok(allocated_cell(value, target)));
                assert(heap_ok(self@));
            }
            Ok(position)
        } else {
            Err(AllocError::Occupied)
        }
    }

    /// Allocates at `position` when one is given, else in the first free slot.
    pub fn allocate(&mut self, value: i32, target: Option<usize>, position: Option<usize>) -> (r:
        Result<usize, AllocError>)
        requires
            old(self).wf(),
            position matches Some(p) ==> p < old(self)@.len(),
        ensures
            final(self).wf(),
            match position {
                Some(p) => allocated_at(old(self)@, value, target, p, final(self)@, r),
                None => allocated_first_free(old(self)@, value, target, final(self)@, r),
            },
    {
        match position {
            Some(p) => self.allocate_at(value, target, p),
            None => self.allocate_first_free(value, target),
        }
    }

    /// Drops the indices flagged in `doomed` from every cell's lists.
    fn drop_refs(&mut self, doomed: &Vec<bool>)
        requires
            old(self).wf(),
        ensures
            final(self).wf(),
            final(self)@.len() == old(self)@.len(),
            forall|j: int|
                0 <= j < old(self)@.len() ==> final(self)@[j] == without_refs(
                    #[trigger] old(self)@[j],
                    flagged_in(doomed@),
                ),
    {
        let ghost g = self@;
        let mut j: usize = 0;
        while j < self.cells.len()
            invariant
                self@.len() == g.len(),
                j <= g.len(),
                heap_ok(g),
                heap_ok(self@),
                forall|k: int| 0 <= k < j ==> self@[k] == without_refs(#[trigger] g[k], flagged_in(doomed@)),
                forall|k: int| j <= k < g.len() ==> self@[k] == g[k],
            decreases g.len() - j,
        {
            let will_ref = kept_list(&self.cells[j].will_ref, doomed);
            let by_ref = kept_list(&self.cells[j].by_ref, doomed);
            self.cells[j].will_ref = will_ref;
            self.cells[j].by_ref = by_ref;
            proof {
                let c = g[j as int];
                assert(self.cells@[j as int]@ == without_refs(c, flagged_in(doomed@)));
                lemma_kept_no_duplicates(c.will_ref, flagged_in(doomed@));
                lemma_kept_no_duplicates(c.by_ref, flagged_in(doomed@));
                lemma_kept_empty(flagged_in(doomed@));
                assert(cell_ok(without_refs(c, flagged_in(doomed@))));
                assert forall|k: int| 0 <= k < g.len() implies #[trigger] self@[k] == (if k <= j {
                    without_refs(g[k], flagged_in(doomed@))
                } else {
                    g[k]
                }) by {}
            }
            j = j + 1;
        }
    }

    /// Resets slot `index` to the free state and excises `index` from every
    /// other cell's adjacency lists.
    pub fn free(&mut self, index: usize)
        requires
            old(self).wf(),
            index < old(self)@.len(),
        ensures
            final(self).wf(),
            final(self)@ == freed_at(old(self)@, index),
    {
        let n = self.cells.len();
        let mut doomed: Vec<bool> = Vec::new();
        let mut k: usize = 0;
        while k < n
            invariant
                k <= n,
                doomed@.len() == k,
                forall|m: int| 0 <= m < k ==> doomed@[m] == (m == index),
            decreases n - k,
        {
            doomed.push(k == index);
            k = k + 1;
        }
        assert(flagged_in(doomed@) =~= same_index(index));
        self.drop_refs(&doomed);
        self.put(index, Cell::new());
        assert(self@ =~= freed_at(old(self)@, index));
    }

    /// Succeeds when every slot named in `indices` is occupied; otherwise
    /// fails with `DataIsFree`.
    pub fn viable(&self, indices: &Vec<usize>) -> (r: Result<(), AllocError>)
        requires
            forall|k: int| 0 <= k < indices@.len() ==> indices@[k] < self@.len(),
        ensures
            r is Ok <==> forall|k: int|
                0 <= k < indices@.len() ==> !self@[#[trigger] indices@[k] as int].freed,
            r is Err ==> r == Err::<(), AllocError>(AllocError::DataIsFree),
    {
        let mut k: usize = 0;
        while k < indices.len()
            invariant
                k <= indices@.len(),
                forall|m: int| 0 <= m < indices@.len() ==> indices@[m] < self@.len(),
                forall|m: int| 0 <= m < k ==> !self@[#[trigger] indices@[m] as int].freed,
            decreases indices@.len() - k,
        {
            if self.cells[indices[k]].freed {
                return Err(AllocError::DataIsFree);
            }
            k = k + 1;
        }
        Ok(())
    }

    /// Creates the edge `from -> to`: both counters are bumped (saturating),
    /// `to` joins `from`'s outgoing list and `from` joins `to`'s incoming
    /// list, each only if absent. Fails with `DataIsFree`, changing nothing,
    /// when either cell is free.
    pub fn link(&mut self, from: usize, to: usize) -> (r: Result<(), AllocError>)
        requires
            old(self).wf(),
            from < old(self)@.len(),
            to < old(self)@.len(),
        ensures
            final(self).wf(),
            if old(self)@[from as int].freed || old(self)@[to as int].freed {
                r == Err::<(), AllocError>(AllocError::DataIsFree) && final(self)@ == old(self)@
            } else {
                r == Ok::<(), AllocError>(()) && final(self)@ == linked(old(self)@, from, to)
            },
    {
        let endpoints: Vec<usize> = vec![from, to];
        let check = self.viable(&endpoints);
        if check.is_err() {
            proof {
                assert(endpoints@[0] == from && endpoints@[1] == to);
            }
            return check;
        }
        proof {
            assert(endpoints@[0] == from && endpoints@[1] == to);
            assert(!self@[endpoints@[0] as int].freed && !self@[endpoints@[1] as int].freed);
        }
        let ghost h0 = self@;
        let count = self.cells[from].reference_count;
        self.cells[from].reference_count = if count < u64::MAX { count + 1 } else { count };
        if !list_contains(&self.cells[from].will_ref, to) {
            self.cells[from].will_ref.push(to);
        }
        let ghost h1 = self@;
        assert(h1 =~= h0.update(
            from as int,
            CellView {
                reference_count: saturating_inc(h0[from as int].reference_count),
                will_ref: add_once(h0[from as int].will_ref, to),
                ..h0[from as int]
            },
        ));
        let count = self.cells[to].reference_count;
        self.cells[to].reference_count = if count < u64::MAX { count + 1 } else { count };
        if !list_contains(&self.cells[to].by_ref, from) {
            self.cells[to].by_ref.push(from);
        }
        assert(self@ =~= linked(h0, from, to));
        proof {
            assert forall|i: int| 0 <= i < self@.len() implies cell_ok(#[trigger] self@[i]) by {
                assert(cell_ok(h0[i]));
                assert(cell_ok(h1[i]));
            }
        }
        Ok(())
    }

    /// Makes slots `a` and `b` roots: each becomes occupied, rooted and
    /// marked. When either index is out of range, slots 0 and 1 are rooted
    /// instead and `a`, `b` are left alone.
    pub fn set_roots(&mut self, a: usize, b: usize)
        requires
            old(self).wf(),
            (a < old(self)@.len() && b < old(self)@.len()) || old(self)@.len() >= 2,
        ensures
            final(self).wf(),
            final(self)@ == rooted(
                rooted(old(self)@, root_pair(old(self)@.len(), a, b).0),
                root_pair(old(self)@.len(), a, b).1,
            ),
            ({
                let (x, y) = root_pair(old(self)@.len(), a, b);
                &&& !final(self)@[x as int].freed && final(self)@[x as int].marked
                &&& final(self)@[x as int].is_root
                &&& !final(self)@[y as int].freed && final(self)@[y as int].marked
                &&& final(self)@[y as int].is_root
            }),
    {
        let (x, y) = self.root_pair_for(a, b);
        self.root_one(x);
        self.root_one(y);
    }

    /// The pair that `set_roots(a, b)` roots: `(a, b)` when both are in
    /// range, else `(0, 1)`.
    pub fn root_pair_for(&self, a: usize, b: usize) -> (r: (usize, usize))
        ensures
            r == root_pair(self@.len(), a, b),
    {
        let n = self.cells.len();
        if a < n && b < n {
            (a, b)
        } else {
            (0, 1)
        }
    }

    fn root_one(&mut self, i: usize)
        requires
            old(self).wf(),
            i < old(self)@.len(),
        ensures
            final(self).wf(),
            final(self)@ == rooted(old(self)@, i),
    {
        self.cells[i].is_root = true;
        self.cells[i].freed = false;
        self.cells[i].marked = true;
        assert(self@ =~= rooted(old(self)@, i));
        assert(forall|j: int| 0 <= j < self@.len() && j != i ==> self@[j] == old(self)@[j]);
    }

    /// Clears every root flag; mark bits are left as they are.
    pub fn unroot_all(&mut self)
        requires
            old(self).wf(),
        ensures
            final(self).wf(),
            final(self)@ == unrooted(old(self)@),
    {
        let ghost g = self@;
        let mut i: usize = 0;
        while i < self.cells.len()
            invariant
                self@.len() == g.len(),
                i <= g.len(),
                heap_ok(g),
                forall|k: int| 0 <= k < i ==> self@[k] == unrooted(g)[k],
                forall|k: int| i <= k < g.len() ==> self@[k] == g[k],
            decreases g.len() - i,
        {
            if self.cells[i].is_root {
                self.cells[i].is_root = false;
            }
            proof {
                assert(self@[i as int] == unrooted(g)[i as int]);
            }
            i = i + 1;
        }
        assert(self@ =~= unrooted(g));
        assert forall|k: int| 0 <= k < self@.len() implies cell_ok(#[trigger] self@[k]) by {
            assert(cell_ok(g[k]));
        }
    }

    /// Makes every free slot live, holding `value`.
    pub fn populate_remaining_with(&mut self, value: i32)
        requires
            old(self).wf(),
        ensures
            final(self).wf(),
            final(self)@ == populated(old(self)@, value),
    {
        let ghost g = self@;
        let mut i: usize = 0;
        while i < self.cells.len()
            invariant
                self@.len() == g.len(),
                i <= g.len(),
                heap_ok(g),
                forall|k: int| 0 <= k < i ==> self@[k] == populated(g, value)[k],
                forall|k: int| i <= k < g.len() ==> self@[k] == g[k],
            decreases g.len() - i,
        {
            if self.cells[i].freed {
                self.cells[i].data = Some(value);
                self.cells[i].freed = false;
            }
            proof {
                assert(self@[i as int] == populated(g, value)[i as int]);
            }
            i = i + 1;
        }
        assert(self@ =~= populated(g, value));
        assert forall|k: int| 0 <= k < self@.len() implies cell_ok(#[trigger] self@[k]) by {
            assert(cell_ok(g[k]));
        }
    }

    /// The indices of the root cells, in increasing order.
    pub fn root_indices(&self) -> (r: Vec<usize>)
        ensures
            forall|m: int, q: int| 0 <= m < q < r@.len() ==> r@[m] < r@[q],
            forall|m: int| 0 <= m < r@.len() ==> #[trigger] r@[m] < self@.len(),
            forall|i: usize| i < self@.len() ==> (r@.contains(i) <==> self@[i as int].is_root),
    {
        let mut r: Vec<usize> = Vec::new();
        let mut i: usize = 0;
        while i < self.cells.len()
            invariant
                i <= self@.len(),
                forall|m: int, q: int| 0 <= m < q < r@.len() ==> r@[m] < r@[q],
                forall|m: int| 0 <= m < r@.len() ==> #[trigger] r@[m] < i,
                forall|k: usize| k < i ==> (r@.contains(k) <==> self@[k as int].is_root),
            decreases self@.len() - i,
        {
            if self.cells[i].is_root {
                let ghost before = r@;
                r.push(i);
                proof {
                    assert(r@[r@.len() - 1] == i);
                    assert forall|k: usize| k <= i implies (r@.contains(k) <==> self@[k as int].is_root) by {
                        if before.contains(k) {
                            let m = choose|m: int| 0 <= m < before.len() && before[m] == k;
                            assert(r@[m] == k);
                        }
                        if r@.contains(k) && k < i {
                            let m = choose|m: int| 0 <= m < r@.len() && r@[m] == k;
                            assert(before[m] == k);
                        }
                    }
                }
            } else {
                proof {
                    if r@.contains(i) {
                        let m = choose|m: int| 0 <= m < r@.len() && r@[m] == i;
                    }
                }
            }
            i = i + 1;
        }
        r
    }

    /// Stores `value` in the live cell at slot `i`.
    pub fn set_data(&mut self, i: usize, value: i32)
        requires
            old(self).wf(),
            i < old(self)@.len(),
            !old(self)@[i as int].freed,
        ensures
            final(self).wf(),
            final(self)@ == old(self)@.update(i as int, CellView { data: Some(value), ..old(self)@[i as int] }),
    {
        self.cells[i].data = Some(value);
        assert(self@ =~= old(self)@.update(i as int, CellView { data: Some(value), ..old(self)@[i as int] }));
        assert(forall|j: int| 0 <= j < self@.len() && j != i ==> self@[j] == old(self)@[j]);
    }

    /// Runs `times` first-fit allocations of `value` referencing `target`,
    /// one result per allocation, in order.
    pub fn allocate_many(&mut self, value: i32, target: Option<usize>, times: usize) -> (r: Vec<
        Result<usize, AllocError>,
    >)
        requires
            old(self).wf(),
        ensures
            final(self).wf(),
            r@.len() == times,
            allocation_chain(old(self)@, value, target, final(self)@, r@),
    {
        let mut r: Vec<Result<usize, AllocError>> = Vec::new();
        let ghost mut hs: Seq<Seq<CellView>> = seq![self@];
        let mut k: usize = 0;
        while k < times
            invariant
                self.wf(),
                k <= times,
                r@.len() == k,
                hs.len() == k + 1,
                hs[0] == old(self)@,
                hs[k as int] == self@,
                forall|m: int|
                    0 <= m < k ==> allocated_first_free(
                        #[trigger] hs[m],
                        value,
                        target,
                        hs[m + 1],
                        r@[m],
                    ),
            decreases times - k,
        {
            let res = self.allocate_first_free(value, target);
            r.push(res);
            proof {
                let prev = hs;
                hs = hs.push(self@);
                assert forall|m: int| 0 <= m < k + 1 implies allocated_first_free(
                    #[trigger] hs[m],
                    value,
                    target,
                    hs[m + 1],
                    r@[m],
                ) by {
                    if m < k {
                        assert(hs[m] == prev[m] && hs[m + 1] == prev[m + 1]);
                    }
                }
            }
            k = k + 1;
        }
        assert(hs.len() == r@.len() + 1);
        r
    }

    /// A per-cell summary of the whole heap, for display.
    pub fn snapshot(&self) -> (r: Vec<CellSummary>)
        ensures
            r@.len() == self@.len(),
            forall|i: int| 0 <= i < r@.len() ==> r@[i] == summary_of(#[trigger] self@[i]),
    {
        let mut r: Vec<CellSummary> = Vec::new();
        let mut i: usize = 0;
        while i < self.cells.len()
            invariant
                i <= self@.len(),
                r@.len() == i,
                forall|k: int| 0 <= k < i ==> r@[k] == summary_of(#[trigger] self@[k]),
            decreases self@.len() - i,
        {
            let c = &self.cells[i];
            r.push(
                CellSummary {
                    has_data: c.data.is_some(),
                    freed: c.freed,
                    is_root: c.is_root,
                    reference_count: c.reference_count,
                    refs_other: c.will_ref.len() > 0,
                    referenced_by: c.by_ref.len() > 0,
                    marked: c.marked,
                },
            );
            i = i + 1;
        }
        r
    }
}

} // verus!
