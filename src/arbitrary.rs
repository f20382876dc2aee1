//! Heap operations that fill cells with arbitrary values drawn at random.
use vstd::prelude::*;
use crate::cell::{AllocError, CellView};
use crate::heap::{allocated_at, allocation_chain, heap_ok, populated, Heap};

verus! {

/// Relies on rand::random_range: an integer drawn from `lo..hi` by the
/// thread-local generator (it panics on an empty range).
#[verifier::external_body]
fn draw_in(lo: usize, hi: usize) -> (r: usize)
    requires
        lo < hi,
    ensures
        lo <= r < hi,
{
    rand::random_range(lo..hi)
}

/// `h1` is `h0` with every root given a value in `1..50`, nothing else changed.
pub open spec fn roots_seeded(h0: Seq<CellView>, h1: Seq<CellView>) -> bool {
    &&& h1.len() == h0.len()
    &&& forall|i: int|
        0 <= i < h0.len() ==> #[trigger] h1[i] == (CellView { data: h1[i].data, ..h0[i] })
    &&& forall|i: int|
        0 <= i < h0.len() && h0[i].is_root ==> (#[trigger] h1[i].data matches Some(d) && 1 <= d < 50)
    &&& forall|i: int| 0 <= i < h0.len() && !h0[i].is_root ==> #[trigger] h1[i].data == h0[i].data
}

impl Heap {
    /// Makes every free slot live, all holding one arbitrary value in
    /// `0..1000`, which is returned.
    pub fn populate_remaining(&mut self) -> (v: i32)
        requires
            old(self).wf(),
        ensures
            final(self).wf(),
            0 <= v < 1000,
            final(self)@ == populated(old(self)@, v),
    {
        let v = draw_in(0, 1000) as i32;
        self.populate_remaining_with(v);
        v
    }

    /// Allocates an arbitrary value in `0..50`, with no reference, at slot
    /// `position`.
    pub fn allocate_arbitrary_at(&mut self, position: usize) -> (r: Result<usize, AllocError>)
        requires
            old(self).wf(),
            position < old(self)@.len(),
        ensures
            final(self).wf(),
            exists|v: i32| 0 <= v < 50 && allocated_at(old(self)@, v, None, position, final(self)@, r),
    {
        let v = draw_in(0, 50) as i32;
        self.allocate_at(v, None, position)
    }

    /// Gives every root an arbitrary value in `1..50`, picks one root at
    /// random, and makes `times` first-fit allocations that reference it and
    /// hold the square of its value. Without a root nothing changes.
    pub fn create_free_ref(&mut self, times: usize) -> (r: Vec<Result<usize, AllocError>>)
        requires
            old(self).wf(),
        ensures
            final(self).wf(),
            (forall|i: int| 0 <= i < old(self)@.len() ==> !old(self)@[i].is_root) ==> {
                &&& final(self)@ == old(self)@
                &&& r@.len() == 0
            },
            (exists|i: int| 0 <= i < old(self)@.len() && old(self)@[i].is_root) ==> {
                &&& r@.len() == times
                &&& exists|mid: Seq<CellView>, x: usize, d: i32|
                    {
                        &&& roots_seeded(old(self)@, mid)
                        &&& x < mid.len() && mid[x as int].is_root
                        &&& mid[x as int].data == Some(d)
                        &&& 1 <= d < 50
                        &&& allocation_chain(mid, (d * d) as i32, Some(x), final(self)@, r@)
                    }
            },
    {
        let ghost h0 = self@;
        let n = self.len();
        let roots = self.root_indices();
        if roots.len() == 0 {
            proof {
                assert forall|i: int| 0 <= i < h0.len() implies !h0[i].is_root by {
                    if h0[i].is_root {
                        assert(roots@.contains(i as usize));
                    }
                }
            }
            return Vec::new();
        }
        let mut values: Vec<i32> = Vec::new();
        let mut k: usize = 0;
        while k < roots.len()
            invariant
                self.wf(),
                heap_ok(h0),
                n == h0.len(),
                k <= roots@.len(),
                values@.len() == k,
                self@.len() == h0.len(),
                forall|m: int, q: int| 0 <= m < q < roots@.len() ==> roots@[m] < roots@[q],
                forall|m: int| 0 <= m < roots@.len() ==> #[trigger] roots@[m] < h0.len(),
                forall|i: usize| i < h0.len() ==> (roots@.contains(i) <==> h0[i as int].is_root),
                forall|i: int|
                    0 <= i < h0.len() ==> #[trigger] self@[i] == (CellView { data: self@[i].data, ..h0[i] }),
                forall|m: int| 0 <= m < k ==> self@[roots@[m] as int].data == Some(#[trigger] values@[m]),
                forall|m: int| 0 <= m < k ==> 1 <= #[trigger] values@[m] < 50,
                forall|i: int|
                    0 <= i < h0.len() && (forall|m: int| 0 <= m < k ==> roots@[m] != i) ==> #[trigger] self@[i].data
                        == h0[i].data,
            decreases roots@.len() - k,
        {
            let d = draw_in(1, 50) as i32;
            let slot = roots[k];
            proof {
                assert(roots@.contains(slot));
                assert(h0[slot as int].is_root);
            }
            self.set_data(slot, d);
            values.push(d);
            proof {
                assert forall|m: int| 0 <= m < k + 1 implies self@[roots@[m] as int].data == Some(
                    #[trigger] values@[m],
                ) by {
                    if m < k {
                        assert(roots@[m] != slot);
                    }
                }
            }
            k = k + 1;
        }
        let ghost mid = self@;
        proof {
            assert forall|i: int| 0 <= i < h0.len() && h0[i].is_root implies (#[trigger] mid[i].data matches Some(
                d,
            ) && 1 <= d < 50) by {
                assert(roots@.contains(i as usize));
                let m = choose|m: int| 0 <= m < roots@.len() && roots@[m] == i as usize;
                assert(mid[roots@[m] as int].data == Some(values@[m]));
            }
            assert forall|i: int| 0 <= i < h0.len() && !h0[i].is_root implies #[trigger] mid[i].data
                == h0[i].data by {
                assert forall|m: int| 0 <= m < roots@.len() implies roots@[m] != i by {
                    if roots@[m] == i {
                        assert(roots@.contains(i as usize));
                    }
                }
            }
            assert(roots_seeded(h0, mid));
        }
        let c = draw_in(0, roots.len());
        let d = values[c];
        proof {
            assert(roots@.contains(roots@[c as int]));
            assert(d * d < 2500) by (nonlinear_arith)
                requires
                    1 <= d < 50,
            ;
        }
        let r = self.allocate_many(d * d, Some(roots[c]), times);
        proof {
            assert(mid[roots@[c as int] as int].data == Some(d));
        }
        r
    }
}

} // verus!
