//! The label grid: a dense three-dimensional array with one label per cell.

use vstd::prelude::*;
use vstd::arithmetic::div_mod::lemma_fundamental_div_mod_converse;
use vstd::relations::injective_on;
use vstd::set_lib::{lemma_int_range, lemma_len_subset, lemma_map_size, set_int_range};
use crate::label::Label;

verus! {

/// A position in the volume.
#[derive(Clone, Copy, PartialEq, Eq, Structural, Debug)]
pub struct Coord {
    pub x: usize,
    pub y: usize,
    pub z: usize,
}

/// The fixed extents of a volume: `width` along x, `height` along y, `depth` along z.
#[derive(Clone, Copy, PartialEq, Eq, Structural, Debug)]
pub struct Extent {
    pub width: usize,
    pub height: usize,
    pub depth: usize,
}

/// An axis length, with an empty axis counted as one.
pub open spec fn span(n: usize) -> int {
    if n == 0 {
        1
    } else {
        n as int
    }
}

impl Extent {
    /// Whether `c` lies inside the volume.
    pub open spec fn contains(self, c: Coord) -> bool {
        c.x < self.width && c.y < self.height && c.z < self.depth
    }

    /// The number of cells.
    pub open spec fn volume(self) -> int {
        self.width * self.height * self.depth
    }

    /// An array of these extents can be allocated: the product of the
    /// non-empty axis lengths does not exceed `isize::MAX`.
    pub open spec fn allocatable(self) -> bool {
        span(self.width) * span(self.height) * span(self.depth) <= isize::MAX
    }

    /// Whether `c` lies inside the volume.
    pub fn holds(&self, c: Coord) -> (b: bool)
        ensures
            b == self.contains(c),
    {
        c.x < self.width && c.y < self.height && c.z < self.depth
    }

    /// Whether an array of these extents can be allocated.
    pub fn fits(&self) -> (b: bool)
        ensures
            b == self.allocatable(),
    {
        let w: usize = if self.width == 0 { 1 } else { self.width };
        let h: usize = if self.height == 0 { 1 } else { self.height };
        let d: usize = if self.depth == 0 { 1 } else { self.depth };
        let limit: usize = isize::MAX as usize;
        match w.checked_mul(h) {
            None => {
                assert(w * h * d >= w * h) by (nonlinear_arith)
                    requires
                        d >= 1,
                        w * h >= 0,
                ;
                false
            },
            Some(wh) => match wh.checked_mul(d) {
                None => false,
                Some(whd) => whd <= limit,
            },
        }
    }

    /// The number of cells, or `None` where it does not fit a `usize`.
    pub fn count(&self) -> (n: Option<usize>)
        ensures
            n is Some <==> self.volume() <= usize::MAX,
            n matches Some(k) ==> k == self.volume(),
    {
        if self.width == 0 || self.height == 0 || self.depth == 0 {
            assert(self.volume() == 0) by (nonlinear_arith)
                requires
                    self.volume() == self.width * self.height * self.depth,
                    self.width == 0 || self.height == 0 || self.depth == 0,
            ;
            return Some(0);
        }
        match self.width.checked_mul(self.height) {
            None => {
                assert(self.width * self.height * self.depth >= self.width * self.height)
                    by (nonlinear_arith)
                    requires
                        self.depth >= 1,
                        self.width * self.height >= 0,
                ;
                None
            },
            Some(area) => area.checked_mul(self.depth),
        }
    }
}

impl Extent {
    /// The place of `c` when the cells are counted with z running fastest and
    /// x slowest.
    pub open spec fn rank(self, c: Coord) -> int {
        (c.x * self.height + c.y) * self.depth + c.z
    }
}

/// The rank of a cell of the volume is below the number of cells.
pub proof fn lemma_rank_bounds(extent: Extent, c: Coord)
    requires
        extent.contains(c),
    ensures
        0 <= extent.rank(c) < extent.volume(),
{
    let w = extent.width as int;
    let h = extent.height as int;
    let d = extent.depth as int;
    let x = c.x as int;
    let y = c.y as int;
    let z = c.z as int;
    assert(x * h + y <= w * h - 1) by (nonlinear_arith)
        requires
            0 <= x < w,
            0 <= y < h,
    ;
    assert(0 <= x * h + y) by (nonlinear_arith)
        requires
            0 <= x,
            0 <= y,
            0 <= h,
    ;
    assert((x * h + y) * d + z <= w * h * d - 1) by (nonlinear_arith)
        requires
            0 <= x * h + y <= w * h - 1,
            0 <= z < d,
    ;
    assert(0 <= (x * h + y) * d + z) by (nonlinear_arith)
        requires
            0 <= x * h + y,
            0 <= z,
            0 <= d,
    ;
}

/// Two cells of the volume with the same rank are the same cell.
pub proof fn lemma_rank_injective(extent: Extent, a: Coord, b: Coord)
    requires
        extent.contains(a),
        extent.contains(b),
        extent.rank(a) == extent.rank(b),
    ensures
        a == b,
{
    let h = extent.height as int;
    let d = extent.depth as int;
    let r = extent.rank(a);
    lemma_fundamental_div_mod_converse(r, d, a.x * h + a.y, a.z as int);
    lemma_fundamental_div_mod_converse(r, d, b.x * h + b.y, b.z as int);
    let q = a.x * h + a.y;
    lemma_fundamental_div_mod_converse(q, h, a.x as int, a.y as int);
    lemma_fundamental_div_mod_converse(q, h, b.x as int, b.y as int);
}

/// A finite set of cells of a volume has at most as many members as the
/// volume has cells.
pub proof fn lemma_cells_bounded(extent: Extent, s: Set<Coord>)
    requires
        s.finite(),
        forall|c: Coord| s.contains(c) ==> extent.contains(c),
    ensures
        s.len() <= extent.volume(),
{
    let f = |c: Coord| extent.rank(c);
    let image = s.map(f);
    assert(injective_on(f, s)) by {
        assert forall|a: Coord, b: Coord|
            s.contains(a) && s.contains(b) && #[trigger] f(a) == #[trigger] f(b) implies a
            == b by {
            lemma_rank_injective(extent, a, b);
        }
    }
    lemma_map_size(s, image, f);
    assert(0 <= extent.volume()) by (nonlinear_arith)
        requires
            extent.volume() == extent.width * extent.height * extent.depth,
            0 <= extent.width,
            0 <= extent.height,
            0 <= extent.depth,
    ;
    lemma_int_range(0, extent.volume());
    assert(image.subset_of(set_int_range(0, extent.volume()))) by {
        assert forall|i: int| image.contains(i) implies set_int_range(0, extent.volume()).contains(
            i,
        ) by {
            let c = choose|c: Coord| s.contains(c) && f(c) == i;
            lemma_rank_bounds(extent, c);
        }
    }
    lemma_len_subset(image, set_int_range(0, extent.volume()));
}

/// The mathematical model of a label grid: its extents and the label of each
/// cell inside them.
pub struct Volume {
    pub extent: Extent,
    pub cells: Map<Coord, Label>,
}

impl Volume {
    /// The label at `c`.
    #[verifier::inline]
    pub open spec fn label(self, c: Coord) -> Label {
        self.cells[c]
    }

    /// The volume with the label at `c` replaced.
    pub open spec fn with(self, c: Coord, label: Label) -> Volume {
        Volume { extent: self.extent, cells: self.cells.insert(c, label) }
    }

    /// Exactly the cells inside the extents carry a label.
    pub open spec fn wf(self) -> bool {
        forall|c: Coord| self.cells.dom().contains(c) <==> self.extent.contains(c)
    }
}

/// A three-dimensional array of labels: an `ndarray::Array3`, indexed
/// `(x, y, z)`. Verus cannot take the array type itself, which is bounded by
/// a trait of `ndarray`, so the array is held behind this opaque struct, and
/// the contracts below speak of it through [`label_cells`] and
/// [`label_extent`]. Nothing of what they say is proved.
#[verifier::external_body]
#[derive(Debug, PartialEq, Eq)]
pub struct LabelArray {
    cells: ndarray::Array3<Label>,
}

/// The label that the array holds at each index inside its shape.
pub uninterp spec fn label_cells(a: LabelArray) -> Map<Coord, Label>;

/// The shape of the array.
pub uninterp spec fn label_extent(a: LabelArray) -> Extent;

/// `ndarray::Array3::from_elem`: an array of the given shape with `fill` at
/// every index. It panics when the product of the non-empty axis lengths
/// exceeds `isize::MAX`, which the precondition leaves out.
#[verifier::external_body]
fn labels_from_elem(extent: Extent, fill: Label) -> (a: LabelArray)
    requires
        extent.allocatable(),
    ensures
        label_extent(a) == extent,
        forall|c: Coord| extent.contains(c) ==> label_cells(a)[c] == fill,
{
    LabelArray { cells: ndarray::Array3::from_elem((extent.width, extent.height, extent.depth), fill) }
}

/// `ndarray::ArrayBase::dim`: the shape of the array, as the three axis lengths.
#[verifier::external_body]
fn labels_dim(a: &LabelArray) -> (e: Extent)
    ensures
        e == label_extent(*a),
{
    let (width, height, depth) = a.cells.dim();
    Extent { width, height, depth }
}

/// `ndarray::ArrayBase::len`: the total number of elements, which is the
/// product of the axis lengths.
#[verifier::external_body]
fn labels_len(a: &LabelArray) -> (n: usize)
    ensures
        n == label_extent(*a).volume(),
{
    a.cells.len()
}

/// Indexing an `ndarray` array by a tuple: the element at that index. It
/// panics when the index is outside the shape, which the precondition leaves out.
#[verifier::external_body]
fn labels_index(a: &LabelArray, c: Coord) -> (l: Label)
    requires
        label_extent(*a).contains(c),
    ensures
        l == label_cells(*a)[c],
{
    a.cells[(c.x, c.y, c.z)]
}

/// Assigning through a tuple index of an `ndarray` array: the element at that
/// index is replaced, every other element and the shape stay. It panics only
/// when the index is outside the shape, which the precondition leaves out, so
/// under it the call does not unwind.
#[verifier::external_body]
fn labels_index_mut(a: &mut LabelArray, c: Coord, label: Label)
    requires
        label_extent(*old(a)).contains(c),
    ensures
        label_extent(*final(a)) == label_extent(*old(a)),
        label_cells(*final(a))[c] == label,
        forall|o: Coord|
            o != c && label_extent(*old(a)).contains(o) ==> label_cells(*final(a))[o]
                == label_cells(*old(a))[o],
    no_unwind
{
    a.cells[(c.x, c.y, c.z)] = label;
}

/// The label grid: one label per cell of a volume of fixed extents.
#[derive(Debug, PartialEq, Eq)]
pub struct LabelGrid {
    store: LabelArray,
}

impl View for LabelGrid {
    type V = Volume;

    closed spec fn view(&self) -> Volume {
        Volume {
            extent: label_extent(self.store),
            cells: Map::new(
                |c: Coord| label_extent(self.store).contains(c),
                |c: Coord| label_cells(self.store)[c],
            ),
        }
    }
}

impl LabelGrid {
    /// Every grid was allocated, so its extents are allocatable.
    #[verifier::type_invariant]
    spec fn allocated(self) -> bool {
        label_extent(self.store).allocatable()
    }

    /// A grid of the given extents with `fill` in every cell, or `None` when
    /// the extents are too large to allocate.
    pub fn new(extent: Extent, fill: Label) -> (r: Option<LabelGrid>)
        ensures
            r is Some <==> extent.allocatable(),
            r matches Some(g) ==> g@.extent == extent && forall|c: Coord|
                extent.contains(c) ==> #[trigger] g@.label(c) == fill,
    {
        if extent.fits() {
            Some(LabelGrid { store: labels_from_elem(extent, fill) })
        } else {
            None
        }
    }

    /// The extents of the grid.
    pub fn extent(&self) -> (e: Extent)
        ensures
            e == self@.extent,
            e.allocatable(),
    {
        proof {
            use_type_invariant(self);
        }
        labels_dim(&self.store)
    }

    /// The number of cells.
    pub fn cell_count(&self) -> (n: usize)
        ensures
            n == self@.extent.volume(),
    {
        labels_len(&self.store)
    }

    /// The label at `c`.
    pub fn get(&self, c: Coord) -> (l: Label)
        requires
            self@.extent.contains(c),
        ensures
            l == self@.label(c),
    {
        labels_index(&self.store, c)
    }

    /// Replaces the label at `c`.
    pub fn set(&mut self, c: Coord, label: Label)
        requires
            old(self)@.extent.contains(c),
        ensures
            final(self)@ == old(self)@.with(c, label),
    {
        proof {
            use_type_invariant(&*self);
        }
        labels_index_mut(&mut self.store, c, label);
        assert(self@.cells =~= old(self)@.cells.insert(c, label));
    }

    /// The label at `c`, or `None` when `c` lies outside the grid.
    pub fn label_at(&self, c: Coord) -> (r: Option<Label>)
        ensures
            r == if self@.extent.contains(c) {
                Some(self@.label(c))
            } else {
                None
            },
    {
        let e = self.extent();
        if e.holds(c) {
            Some(self.get(c))
        } else {
            None
        }
    }
}

/// The model of a grid is well formed.
pub broadcast proof fn lemma_view_wf(g: LabelGrid)
    ensures
        #[trigger] g@.wf(),
{
}

} // verus!
