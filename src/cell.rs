use vstd::prelude::*;

verus! {

/// Why a heap operation was refused.
#[derive(Debug, Clone, Copy, PartialEq, Eq, Structural)]
pub enum AllocError {
    /// The requested slot already holds a live cell.
    Occupied,
    /// No free slot is left for a first-fit allocation.
    NoFreeMemory,
    /// An operation that needs occupied cells was handed a free one.
    DataIsFree,
}

impl AllocError {
    /// A short human-readable cause.
    pub fn describe(&self) -> (r: &'static str)
        ensures
            r@ == match self {
                AllocError::Occupied => "Space is occupied"@,
                AllocError::NoFreeMemory => "No free memory available"@,
                AllocError::DataIsFree => "The memory was free, not suitable for use"@,
            },
    {
        match self {
            AllocError::Occupied => "Space is occupied",
            AllocError::NoFreeMemory => "No free memory available",
            AllocError::DataIsFree => "The memory was free, not suitable for use",
        }
    }
}

/// One slot of the virtual heap.
pub struct Cell {
    /// The scalar stored in the slot; `None` while the slot is free.
    pub data: Option<i32>,
    /// Advisory count of edge insertions touching this cell (saturating).
    pub reference_count: u64,
    /// True while the slot is free.
    pub freed: bool,
    /// True when the cell is an entry point of the object graph.
    pub is_root: bool,
    /// Indices of the cells that reference this cell.
    pub by_ref: Vec<usize>,
    /// Indices of the cells this cell references.
    pub will_ref: Vec<usize>,
    /// Reachability flag set by the mark phase.
    pub marked: bool,
}

/// The mathematical model of a [`Cell`].
pub struct CellView {
    pub data: Option<i32>,
    pub reference_count: u64,
    pub freed: bool,
    pub is_root: bool,
    pub by_ref: Seq<usize>,
    pub will_ref: Seq<usize>,
    pub marked: bool,
}

impl View for Cell {
    type V = CellView;

    open spec fn view(&self) -> CellView {
        CellView {
            data: self.data,
            reference_count: self.reference_count,
            freed: self.freed,
            is_root: self.is_root,
            by_ref: self.by_ref@,
            will_ref: self.will_ref@,
            marked: self.marked,
        }
    }
}

/// The state of a slot that holds nothing.
pub open spec fn free_cell() -> CellView {
    CellView {
        data: None,
        reference_count: 0,
        freed: true,
        is_root: false,
        by_ref: Seq::empty(),
        will_ref: Seq::empty(),
        marked: false,
    }
}

/// What a cell holds right after allocation with `value` and an optional
/// outgoing reference.
pub open spec fn allocated_cell(value: i32, target: Option<usize>) -> CellView {
    CellView {
        data: Some(value),
        reference_count: if target is Some { 1 } else { 0 },
        freed: false,
        is_root: false,
        by_ref: Seq::empty(),
        will_ref: match target {
            Some(t) => seq![t],
            None => Seq::empty(),
        },
        marked: false,
    }
}

/// The per-cell invariant: a free cell is fully default, a root is occupied
/// and marked, and adjacency lists hold no duplicates.
pub open spec fn cell_ok(c: CellView) -> bool {
    &&& c.freed ==> c == free_cell()
    &&& c.is_root ==> !c.freed && c.marked
    &&& c.will_ref.no_duplicates()
    &&& c.by_ref.no_duplicates()
}

impl Cell {
    /// A free cell.
    pub fn new() -> (c: Cell)
        ensures
            c@ == free_cell(),
    {
        Cell {
            data: None,
            reference_count: 0,
            freed: true,
            is_root: false,
            by_ref: Vec::new(),
            will_ref: Vec::new(),
            marked: false,
        }
    }

    /// A freshly allocated cell holding `value`, referencing `target` if given.
    pub fn allocated(value: i32, target: Option<usize>) -> (c: Cell)
        ensures
            c@ == allocated_cell(value, target),
    {
        let mut will_ref: Vec<usize> = Vec::new();
        let mut reference_count: u64 = 0;
        if let Some(t) = target {
            will_ref.push(t);
            reference_count = 1;
        }
        proof {
            if target is Some {
                assert(will_ref@ =~= seq![target->Some_0]);
            }
        }
        Cell {
            data: Some(value),
            reference_count,
            freed: false,
            is_root: false,
            by_ref: Vec::new(),
            will_ref,
            marked: false,
        }
    }
}

} // verus!
