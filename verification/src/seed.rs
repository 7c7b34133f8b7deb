//! The constraint seeder: turns rasterized curves into the initial labels.
//!
//! A curve arrives as an opacity mask. A wire curve is stamped into one
//! z-layer of the grid: in each column the cells above its ink become blue
//! anchors, the cells from its first to its last ink become barrier, and the
//! cells below become red anchors. A cut curve is drawn over x and z and
//! forbids the cells under its ink, on every level, to one territory.

use vstd::prelude::*;
use crate::grid::{lemma_view_wf, Coord, Extent, LabelGrid, Volume};
use crate::label::{Color, Label};

verus! {

/// A pixel counts as ink where its opacity is above this value.
pub const ALPHA_THRESHOLD: u8 = 128;

/// The number of levels that the grid has above and below a wire mask.
pub const MARGIN: usize = 2;

/// The mathematical model of an opacity mask: rows of `width` pixels, the
/// first row first.
pub struct Ink {
    pub width: usize,
    pub height: usize,
    pub alpha: Seq<u8>,
}

impl Ink {
    /// The opacity of the pixel in column `x` of row `y`.
    pub open spec fn alpha_at(self, x: int, y: int) -> u8 {
        self.alpha[y * self.width + x]
    }

    /// The pixel in column `x` of row `y` is inside the mask and is ink.
    pub open spec fn inked(self, x: int, y: int) -> bool {
        0 <= x < self.width && 0 <= y < self.height && self.alpha_at(x, y) > ALPHA_THRESHOLD
    }
}

/// An opacity mask: one opacity value for each pixel of a raster.
#[derive(Debug)]
pub struct Mask {
    width: usize,
    height: usize,
    alpha: Vec<u8>,
}

impl View for Mask {
    type V = Ink;

    closed spec fn view(&self) -> Ink {
        Ink { width: self.width, height: self.height, alpha: self.alpha@ }
    }
}

impl Mask {
    /// There is one opacity value for each pixel.
    #[verifier::type_invariant]
    spec fn dense(self) -> bool {
        self.alpha@.len() == self.width * self.height
    }

    /// The mask of `width` by `height` pixels with the opacities `alpha`,
    /// given row by row, or `None` unless there is one value for each pixel.
    pub fn from_alpha(width: usize, height: usize, alpha: Vec<u8>) -> (r: Option<Mask>)
        ensures
            r is Some <==> alpha@.len() == width * height,
            r matches Some(m) ==> m@ == (Ink { width, height, alpha: alpha@ }),
    {
        let len = alpha.len();
        match (Extent { width, height, depth: 1 }).count() {
            Some(n) => {
                assert(width * height * 1 == width * height) by (nonlinear_arith);
                if len == n {
                    Some(Mask { width, height, alpha })
                } else {
                    None
                }
            },
            None => {
                assert(width * height * 1 == width * height) by (nonlinear_arith);
                None
            },
        }
    }

    /// The number of pixels in a row.
    pub fn width(&self) -> (w: usize)
        ensures
            w == self@.width,
    {
        self.width
    }

    /// The number of rows.
    pub fn height(&self) -> (h: usize)
        ensures
            h == self@.height,
    {
        self.height
    }

    /// Whether the pixel in column `x` of row `y` is ink.
    pub fn is_ink(&self, x: usize, y: usize) -> (b: bool)
        requires
            x < self@.width,
            y < self@.height,
        ensures
            b == self@.inked(x as int, y as int),
    {
        proof {
            use_type_invariant(self);
            assert(self.alpha.len() == self.alpha@.len());
            let w = self.width as int;
            let h = self.height as int;
            assert(0 <= y * w <= y * w + x < w * h) by (nonlinear_arith)
                requires
                    0 <= x < w,
                    0 <= y < h,
            ;
        }
        self.alpha[y * self.width + x] > ALPHA_THRESHOLD
    }
}

/// The wire mask `m`, laid over the levels `MARGIN ..` of a grid, has ink at
/// level `y` of column `x`.
pub open spec fn wire_ink(m: Ink, x: int, y: int) -> bool {
    m.inked(x, y - MARGIN)
}

/// The label that the wire mask `m` stamps at level `y` of column `x`.
pub open spec fn wire_label(m: Ink, x: int, y: int) -> Label {
    if forall|a: int| 0 <= a <= y ==> !#[trigger] wire_ink(m, x, a) {
        Label::BlueAnchor
    } else if exists|b: int| y <= b && #[trigger] wire_ink(m, x, b) {
        Label::Barrier
    } else {
        Label::RedAnchor
    }
}

/// The label at level `y` of a column while the stamp has worked through the
/// levels below `upto` only.
spec fn wire_label_upto(m: Ink, x: int, y: int, upto: int) -> Label {
    if forall|a: int| 0 <= a <= y ==> !#[trigger] wire_ink(m, x, a) {
        Label::BlueAnchor
    } else if exists|b: int| y <= b < upto && #[trigger] wire_ink(m, x, b) {
        Label::Barrier
    } else {
        Label::RedAnchor
    }
}

/// Stamps one column of a wire mask into the layer `z` of the grid.
fn stamp_column(grid: &mut LabelGrid, mask: &Mask, x: usize, z: usize)
    requires
        old(grid)@.extent.width == mask@.width,
        old(grid)@.extent.height == mask@.height + 2 * MARGIN,
        x < old(grid)@.extent.width,
        z < old(grid)@.extent.depth,
    ensures
        final(grid)@.extent == old(grid)@.extent,
        forall|c: Coord|
            old(grid)@.extent.contains(c) ==> #[trigger] final(grid)@.label(c) == if c.x == x && c.z
                == z {
                wire_label(mask@, x as int, c.y as int)
            } else {
                old(grid)@.label(c)
            },
{
    let extent = grid.extent();
    let rows = mask.height();
    let mut above = false;
    let mut above_last = false;
    let mut y: usize = 0;
    while y < extent.height
        invariant
            extent == old(grid)@.extent,
            grid@.extent == extent,
            extent.width == mask@.width,
            extent.height == rows + 2 * MARGIN,
            rows == mask@.height,
            x < extent.width,
            z < extent.depth,
            y <= extent.height,
            above == (exists|a: int| 0 <= a < y && #[trigger] wire_ink(mask@, x as int, a)),
            above_last == (above && !wire_ink(mask@, x as int, y - 1)),
            forall|c: Coord|
                extent.contains(c) ==> #[trigger] grid@.label(c) == if c.x == x && c.z == z && c.y
                    < y {
                    wire_label_upto(mask@, x as int, c.y as int, y as int)
                } else {
                    old(grid)@.label(c)
                },
        decreases extent.height - y,
    {
        let ghost prior = grid@;
        let c = Coord { x, y, z };
        let ink = y >= MARGIN && y < rows + MARGIN && mask.is_ink(x, y - MARGIN);
        assert(ink == wire_ink(mask@, x as int, y as int));
        if ink {
            grid.set(c, Label::Barrier);
            if above_last {
                above_last = false;
                let mut y2: usize = y - 1;
                let ghost last = choose|a: int| 0 <= a < y && wire_ink(mask@, x as int, a);
                loop
                    invariant
                        extent == old(grid)@.extent,
                        grid@.extent == extent,
                        extent.width == mask@.width,
                        extent.height == rows + 2 * MARGIN,
                        rows == mask@.height,
                        x < extent.width,
                        z < extent.depth,
                        y < extent.height,
                        y < rows + MARGIN,
                        y2 < y,
                        exists|a: int| 0 <= a <= y2 && #[trigger] wire_ink(mask@, x as int, a),
                        forall|a: int| y2 < a < y ==> !#[trigger] wire_ink(mask@, x as int, a),
                        forall|o: Coord|
                            extent.contains(o) ==> #[trigger] grid@.label(o) == if o.x == x && o.z
                                == z && y2 < o.y <= y {
                                Label::Barrier
                            } else {
                                prior.label(o)
                            },
                    ensures
                        wire_ink(mask@, x as int, y2 as int),
                    decreases y2,
                {
                    proof {
                        let a = choose|a: int| 0 <= a <= y2 && wire_ink(mask@, x as int, a);
                        assert(a >= MARGIN);
                    }
                    if mask.is_ink(x, y2 - MARGIN) {
                        break;
                    }
                    let ghost inner = grid@;
                    grid.set(Coord { x, y: y2, z }, Label::Barrier);
                    proof {
                        assert forall|o: Coord| extent.contains(o) implies #[trigger] grid@.label(o)
                            == if o.x == x && o.z == z && y2 - 1 < o.y <= y {
                            Label::Barrier
                        } else {
                            prior.label(o)
                        } by {
                            if o != (Coord { x, y: y2, z }) {
                                assert(grid@.label(o) == inner.label(o));
                            }
                        }
                        let a = choose|a: int| 0 <= a <= y2 && wire_ink(mask@, x as int, a);
                        assert(0 <= a <= y2 - 1 && wire_ink(mask@, x as int, a));
                    }
                    y2 -= 1;
                }
                proof {
                    assert(wire_ink(mask@, x as int, y2 as int));
                    assert forall|o: Coord| extent.contains(o) implies #[trigger] grid@.label(o)
                        == if o.x == x && o.z == z && o.y < y + 1 {
                        wire_label_upto(mask@, x as int, o.y as int, y + 1)
                    } else {
                        old(grid)@.label(o)
                    } by {
                        if o.x == x && o.z == z && o.y <= y {
                            assert(o.y <= y && wire_ink(mask@, x as int, y as int));
                            if o.y > y2 {
                                assert(wire_ink(mask@, x as int, y2 as int));
                            } else {
                                assert(prior.label(o) == wire_label_upto(
                                    mask@,
                                    x as int,
                                    o.y as int,
                                    y as int,
                                ));
                                if exists|b: int| o.y <= b < y && #[trigger] wire_ink(mask@, x as int, b) {
                                    let b = choose|b: int|
                                        o.y <= b < y && #[trigger] wire_ink(mask@, x as int, b);
                                    assert(o.y <= b < y + 1 && wire_ink(mask@, x as int, b));
                                }
                            }
                        } else {
                            assert(grid@.label(o) == prior.label(o));
                        }
                    }
                }
            } else {
                proof {
                    assert forall|o: Coord| extent.contains(o) implies #[trigger] grid@.label(o)
                        == if o.x == x && o.z == z && o.y < y + 1 {
                        wire_label_upto(mask@, x as int, o.y as int, y + 1)
                    } else {
                        old(grid)@.label(o)
                    } by {
                        if o == c {
                            assert(o.y <= y && wire_ink(mask@, x as int, y as int));
                        } else {
                            assert(grid@.label(o) == prior.label(o));
                            if o.x == x && o.z == z && o.y < y {
                                if above {
                                    assert(o.y <= y - 1 < y && wire_ink(mask@, x as int, y - 1));
                                    assert(o.y <= y - 1 < y + 1 && wire_ink(mask@, x as int, y - 1));
                                }
                            }
                        }
                    }
                }
            }
            above = true;
        } else if above {
            above_last = true;
            grid.set(c, Label::RedAnchor);
            proof {
                let a = choose|a: int| 0 <= a < y && wire_ink(mask@, x as int, a);
                assert(0 <= a <= y && wire_ink(mask@, x as int, a));
                assert forall|o: Coord| extent.contains(o) implies #[trigger] grid@.label(o)
                    == if o.x == x && o.z == z && o.y < y + 1 {
                    wire_label_upto(mask@, x as int, o.y as int, y + 1)
                } else {
                    old(grid)@.label(o)
                } by {
                    if o != c {
                        assert(grid@.label(o) == prior.label(o));
                        if o.x == x && o.z == z && o.y < y {
                            lemma_upto_step(mask@, x as int, o.y as int, y as int);
                        }
                    }
                }
            }
        } else {
            grid.set(c, Label::BlueAnchor);
            proof {
                assert forall|o: Coord| extent.contains(o) implies #[trigger] grid@.label(o)
                    == if o.x == x && o.z == z && o.y < y + 1 {
                    wire_label_upto(mask@, x as int, o.y as int, y + 1)
                } else {
                    old(grid)@.label(o)
                } by {
                    if o != c {
                        assert(grid@.label(o) == prior.label(o));
                        if o.x == x && o.z == z && o.y < y {
                            lemma_upto_step(mask@, x as int, o.y as int, y as int);
                        }
                    }
                }
            }
        }
        proof {
            if above {
                if ink {
                    assert(0 <= y < y + 1 && wire_ink(mask@, x as int, y as int));
                } else {
                    let a = choose|a: int| 0 <= a < y && wire_ink(mask@, x as int, a);
                    assert(0 <= a < y + 1 && wire_ink(mask@, x as int, a));
                }
            }
        }
        y += 1;
    }
    proof {
        assert forall|c: Coord| extent.contains(c) && c.x == x && c.z == z implies wire_label_upto(
            mask@,
            x as int,
            c.y as int,
            extent.height as int,
        ) == wire_label(mask@, x as int, c.y as int) by {
            if exists|b: int| c.y <= b && #[trigger] wire_ink(mask@, x as int, b) {
                let b = choose|b: int| c.y <= b && #[trigger] wire_ink(mask@, x as int, b);
                assert(c.y <= b < extent.height && wire_ink(mask@, x as int, b));
            }
        }
    }
}

/// Working through a level without ink leaves the labels above it as they are.
proof fn lemma_upto_step(m: Ink, x: int, y: int, upto: int)
    requires
        !wire_ink(m, x, upto),
    ensures
        wire_label_upto(m, x, y, upto + 1) == wire_label_upto(m, x, y, upto),
{
    if exists|b: int| y <= b < upto + 1 && #[trigger] wire_ink(m, x, b) {
        let b = choose|b: int| y <= b < upto + 1 && #[trigger] wire_ink(m, x, b);
        assert(y <= b < upto && wire_ink(m, x, b));
    }
}

/// The volume after the wire mask `m` has been stamped into its layer `z`.
pub open spec fn wired(v: Volume, m: Ink, z: usize) -> Volume {
    Volume {
        extent: v.extent,
        cells: Map::new(
            |c: Coord| v.extent.contains(c),
            |c: Coord|
                if c.z == z {
                    wire_label(m, c.x as int, c.y as int)
                } else {
                    v.label(c)
                },
        ),
    }
}

/// Stamps the wire mask into the layer `z` of the grid: in each column of
/// that layer the cells above the first ink become blue anchors, the cells
/// from the first to the last ink become barrier, and the cells below the
/// last ink become red anchors. The mask covers the levels from `MARGIN` on.
pub fn apply_path(grid: &mut LabelGrid, mask: &Mask, z: usize)
    requires
        old(grid)@.extent.width == mask@.width,
        old(grid)@.extent.height == mask@.height + 2 * MARGIN,
        z < old(grid)@.extent.depth,
    ensures
        final(grid)@ == wired(old(grid)@, mask@, z),
{
    let extent = grid.extent();
    let mut x: usize = 0;
    while x < extent.width
        invariant
            extent == old(grid)@.extent,
            grid@.extent == extent,
            extent.width == mask@.width,
            extent.height == mask@.height + 2 * MARGIN,
            z < extent.depth,
            x <= extent.width,
            forall|c: Coord|
                extent.contains(c) ==> #[trigger] grid@.label(c) == if c.z == z && c.x < x {
                    wire_label(mask@, c.x as int, c.y as int)
                } else {
                    old(grid)@.label(c)
                },
        decreases extent.width - x,
    {
        stamp_column(grid, mask, x, z);
        x += 1;
    }
    proof {
        lemma_view_wf(*grid);
        assert forall|c: Coord| extent.contains(c) implies grid@.cells[c] == wired(
            old(grid)@,
            mask@,
            z,
        ).cells[c] by {
            assert(grid@.label(c) == wired(old(grid)@, mask@, z).cells[c]);
        }
        assert(grid@.cells =~= wired(old(grid)@, mask@, z).cells);
    }
}

/// The label of a cell under the ink of a curve that cuts for `color`: it
/// becomes forbidden to `color`, and barrier where it was barrier or was
/// forbidden to the rival already.
pub open spec fn cut_label(label: Label, color: Color) -> Label {
    if label == Label::Barrier || label == Label::forbidden_to(color.rival()) {
        Label::Barrier
    } else {
        Label::forbidden_to(color)
    }
}

/// The volume after the cut mask `m`, drawn over x and z, has been applied
/// for `color`.
pub open spec fn cut(v: Volume, m: Ink, color: Color) -> Volume {
    Volume {
        extent: v.extent,
        cells: Map::new(
            |c: Coord| v.extent.contains(c),
            |c: Coord|
                if m.inked(c.x as int, c.z as int) {
                    cut_label(v.label(c), color)
                } else {
                    v.label(c)
                },
        ),
    }
}

/// Applies a cut mask, whose rows run along z: every cell under its ink, on
/// every level, becomes forbidden to `color`, or barrier where it was barrier
/// or forbidden to the rival.
pub fn apply_cut_path(grid: &mut LabelGrid, mask: &Mask, color: Color)
    requires
        old(grid)@.extent.width == mask@.width,
        old(grid)@.extent.depth == mask@.height,
    ensures
        final(grid)@ == cut(old(grid)@, mask@, color),
{
    let extent = grid.extent();
    let mut x: usize = 0;
    while x < extent.width
        invariant
            extent == old(grid)@.extent,
            grid@.extent == extent,
            extent.width == mask@.width,
            extent.depth == mask@.height,
            x <= extent.width,
            forall|c: Coord|
                extent.contains(c) ==> #[trigger] grid@.label(c) == if c.x < x {
                    cut(old(grid)@, mask@, color).cells[c]
                } else {
                    old(grid)@.label(c)
                },
        decreases extent.width - x,
    {
        let mut z: usize = 0;
        while z < extent.depth
            invariant
                extent == old(grid)@.extent,
                grid@.extent == extent,
                extent.width == mask@.width,
                extent.depth == mask@.height,
                x < extent.width,
                z <= extent.depth,
                forall|c: Coord|
                    extent.contains(c) ==> #[trigger] grid@.label(c) == if c.x < x || (c.x == x
                        && c.z < z) {
                        cut(old(grid)@, mask@, color).cells[c]
                    } else {
                        old(grid)@.label(c)
                    },
            decreases extent.depth - z,
        {
            if mask.is_ink(x, z) {
                let mut y: usize = 0;
                while y < extent.height
                    invariant
                        extent == old(grid)@.extent,
                        grid@.extent == extent,
                        x < extent.width,
                        z < extent.depth,
                        y <= extent.height,
                        mask@.inked(x as int, z as int),
                        forall|c: Coord|
                            extent.contains(c) ==> #[trigger] grid@.label(c) == if c.x < x || (c.x
                                == x && (c.z < z || (c.z == z && c.y < y))) {
                                cut(old(grid)@, mask@, color).cells[c]
                            } else {
                                old(grid)@.label(c)
                            },
                    decreases extent.height - y,
                {
                    let c = Coord { x, y, z };
                    let ghost prior = grid@;
                    let was = grid.get(c);
                    let rival_zone = Label::forbidden(color.opposite());
                    let now = if was == Label::Barrier || was == rival_zone {
                        Label::Barrier
                    } else {
                        Label::forbidden(color)
                    };
                    grid.set(c, now);
                    proof {
                        assert forall|o: Coord| extent.contains(o) implies #[trigger] grid@.label(o)
                            == if o.x < x || (o.x == x && (o.z < z || (o.z == z && o.y < y + 1))) {
                            cut(old(grid)@, mask@, color).cells[o]
                        } else {
                            old(grid)@.label(o)
                        } by {
                            if o != c {
                                assert(grid@.label(o) == prior.label(o));
                            }
                        }
                    }
                    y += 1;
                }
            }
            z += 1;
        }
        x += 1;
    }
    proof {
        lemma_view_wf(*grid);
        assert forall|c: Coord| extent.contains(c) implies grid@.cells[c] == cut(
            old(grid)@,
            mask@,
            color,
        ).cells[c] by {
            assert(grid@.label(c) == cut(old(grid)@, mask@, color).cells[c]);
        }
        assert(grid@.cells =~= cut(old(grid)@, mask@, color).cells);
    }
}

/// The volume with its first `MARGIN` levels made blue anchors and its last
/// `MARGIN` levels made red anchors.
pub open spec fn sealed(v: Volume) -> Volume {
    Volume {
        extent: v.extent,
        cells: Map::new(
            |c: Coord| v.extent.contains(c),
            |c: Coord|
                if c.y + MARGIN >= v.extent.height {
                    Label::RedAnchor
                } else if c.y < MARGIN {
                    Label::BlueAnchor
                } else {
                    v.label(c)
                },
        ),
    }
}

/// Sets every cell of the level `y` to `label`.
fn fill_level(grid: &mut LabelGrid, y: usize, label: Label)
    requires
        y < old(grid)@.extent.height,
    ensures
        final(grid)@.extent == old(grid)@.extent,
        forall|c: Coord|
            old(grid)@.extent.contains(c) ==> #[trigger] final(grid)@.label(c) == if c.y == y {
                label
            } else {
                old(grid)@.label(c)
            },
{
    let extent = grid.extent();
    let mut x: usize = 0;
    while x < extent.width
        invariant
            extent == old(grid)@.extent,
            grid@.extent == extent,
            y < extent.height,
            x <= extent.width,
            forall|c: Coord|
                extent.contains(c) ==> #[trigger] grid@.label(c) == if c.y == y && c.x < x {
                    label
                } else {
                    old(grid)@.label(c)
                },
        decreases extent.width - x,
    {
        let mut z: usize = 0;
        while z < extent.depth
            invariant
                extent == old(grid)@.extent,
                grid@.extent == extent,
                y < extent.height,
                x < extent.width,
                z <= extent.depth,
                forall|c: Coord|
                    extent.contains(c) ==> #[trigger] grid@.label(c) == if c.y == y && (c.x < x || (
                    c.x == x && c.z < z)) {
                        label
                    } else {
                        old(grid)@.label(c)
                    },
            decreases extent.depth - z,
        {
            let ghost prior = grid@;
            let c = Coord { x, y, z };
            grid.set(c, label);
            proof {
                assert forall|o: Coord| extent.contains(o) implies #[trigger] grid@.label(o) == if o.y
                    == y && (o.x < x || (o.x == x && o.z < z + 1)) {
                    label
                } else {
                    old(grid)@.label(o)
                } by {
                    if o != c {
                        assert(grid@.label(o) == prior.label(o));
                    }
                }
            }
            z += 1;
        }
        x += 1;
    }
}

/// Forces the anchors at the two ends of the y-axis: the first `MARGIN`
/// levels become blue anchors, then the last `MARGIN` levels become red anchors.
pub fn seal_ends(grid: &mut LabelGrid)
    requires
        old(grid)@.extent.height >= MARGIN,
    ensures
        final(grid)@ == sealed(old(grid)@),
{
    let extent = grid.extent();
    let mut y: usize = 0;
    while y < MARGIN
        invariant
            extent == old(grid)@.extent,
            grid@.extent == extent,
            extent.height >= MARGIN,
            y <= MARGIN,
            forall|c: Coord|
                extent.contains(c) ==> #[trigger] grid@.label(c) == if c.y < y {
                    Label::BlueAnchor
                } else {
                    old(grid)@.label(c)
                },
        decreases MARGIN - y,
    {
        fill_level(grid, y, Label::BlueAnchor);
        y += 1;
    }
    let mut k: usize = 0;
    while k < MARGIN
        invariant
            extent == old(grid)@.extent,
            grid@.extent == extent,
            extent.height >= MARGIN,
            k <= MARGIN,
            forall|c: Coord|
                extent.contains(c) ==> #[trigger] grid@.label(c) == if extent.height - MARGIN <= c.y
                    < extent.height - MARGIN + k {
                    Label::RedAnchor
                } else if c.y < MARGIN {
                    Label::BlueAnchor
                } else {
                    old(grid)@.label(c)
                },
        decreases MARGIN - k,
    {
        fill_level(grid, extent.height - MARGIN + k, Label::RedAnchor);
        k += 1;
    }
    proof {
        lemma_view_wf(*grid);
        assert forall|c: Coord| extent.contains(c) implies grid@.cells[c] == sealed(
            old(grid)@,
        ).cells[c] by {
            assert(grid@.label(c) == sealed(old(grid)@).cells[c]);
        }
        assert(grid@.cells =~= sealed(old(grid)@).cells);
    }
}

} // verus!
