//! The visited marker grid of one search.

use vstd::prelude::*;
use crate::grid::{Coord, Extent};

verus! {

/// One boolean mark per cell of a volume. The marks are held in an
/// `ndarray::Array3`, indexed `(x, y, z)`. Verus cannot take the array type
/// itself, which is bounded by a trait of `ndarray`, so this struct is opaque,
/// and the contracts of the three private functions below speak of the array
/// through [`marked_cells`] and [`mark_extent`]. Nothing of what those three
/// say is proved.
#[verifier::external_body]
#[derive(Debug, PartialEq, Eq)]
pub struct MarkGrid {
    cells: ndarray::Array3<bool>,
}

/// The indices inside the shape of the array of `m` at which it holds `true`.
pub uninterp spec fn marked_cells(m: MarkGrid) -> Set<Coord>;

/// The shape of the array of `m`.
pub uninterp spec fn mark_extent(m: MarkGrid) -> Extent;

/// `ndarray::Array3::from_elem`: an array of the given shape with `fill` at
/// every index. It panics when the product of the non-empty axis lengths
/// exceeds `isize::MAX`, which the precondition leaves out.
#[verifier::external_body]
fn marks_from_elem(extent: Extent, fill: bool) -> (m: MarkGrid)
    requires
        extent.allocatable(),
    ensures
        mark_extent(m) == extent,
        forall|c: Coord| extent.contains(c) ==> marked_cells(m).contains(c) == fill,
{
    MarkGrid { cells: ndarray::Array3::from_elem((extent.width, extent.height, extent.depth), fill) }
}

/// Indexing an `ndarray` array by a tuple: the element at that index. It
/// panics when the index is outside the shape, which the precondition leaves out.
#[verifier::external_body]
fn marks_index(m: &MarkGrid, c: Coord) -> (b: bool)
    requires
        mark_extent(*m).contains(c),
    ensures
        b == marked_cells(*m).contains(c),
{
    m.cells[(c.x, c.y, c.z)]
}

/// Assigning through a tuple index of an `ndarray` array: the element at that
/// index is replaced, every other element and the shape stay. It panics when
/// the index is outside the shape, which the precondition leaves out.
#[verifier::external_body]
fn marks_index_mut(m: &mut MarkGrid, c: Coord, value: bool)
    requires
        mark_extent(*old(m)).contains(c),
    ensures
        mark_extent(*final(m)) == mark_extent(*old(m)),
        marked_cells(*final(m)).contains(c) == value,
        forall|o: Coord|
            o != c && mark_extent(*old(m)).contains(o) ==> marked_cells(*final(m)).contains(o)
                == marked_cells(*old(m)).contains(o),
{
    m.cells[(c.x, c.y, c.z)] = value;
}

impl MarkGrid {
    /// The extents that the marks cover.
    pub open spec fn extent(&self) -> Extent {
        mark_extent(*self)
    }

    /// Whether the cell at `c` is marked.
    pub open spec fn has(&self, c: Coord) -> bool {
        self.extent().contains(c) && marked_cells(*self).contains(c)
    }

    /// The marked cells.
    pub open spec fn marked(&self) -> Set<Coord> {
        Set::new(|c: Coord| self.has(c))
    }

    /// A grid of the given extents with no cell marked.
    pub fn new(extent: Extent) -> (m: MarkGrid)
        requires
            extent.allocatable(),
        ensures
            m.extent() == extent,
            m.marked() == Set::<Coord>::empty(),
    {
        let m = marks_from_elem(extent, false);
        assert(m.marked() =~= Set::<Coord>::empty());
        m
    }

    /// Whether the cell at `c` is marked.
    pub fn is_marked(&self, c: Coord) -> (b: bool)
        requires
            self.extent().contains(c),
        ensures
            b == self.marked().contains(c),
    {
        marks_index(self, c)
    }

    /// Marks the cell at `c`.
    pub fn mark(&mut self, c: Coord)
        requires
            old(self).extent().contains(c),
        ensures
            final(self).extent() == old(self).extent(),
            final(self).marked() == old(self).marked().insert(c),
    {
        marks_index_mut(self, c, true);
        assert(final(self).marked() =~= old(self).marked().insert(c));
    }
}

} // verus!
