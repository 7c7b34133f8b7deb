//! The column classifier: resolves every open cell to one of the two areas.
//!
//! Each column is scanned from `y = 0` on. Until the scan has passed a red
//! anchor, a barrier cell or an open cell with negative influence, an open
//! cell goes to blue unless its own influence is negative; after that, every
//! open cell goes to red.

use vstd::prelude::*;
use crate::grid::{lemma_view_wf, Coord, LabelGrid, Volume};
use crate::label::Label;
use crate::signs::{Sign, SignField, Signs};

verus! {

/// Scanning past the cell at `(x, y, z)` turns the rest of its column red.
pub open spec fn turns(v: Volume, s: Signs, x: usize, y: usize, z: usize) -> bool {
    let c = Coord { x, y, z };
    v.label(c) == Label::RedAnchor || v.label(c) == Label::Barrier || (v.label(c).is_open()
        && s.sign(c) == Sign::Negative)
}

/// The scan of the column of `c` has turned red before it reaches `c`.
pub open spec fn crossed(v: Volume, s: Signs, c: Coord) -> bool {
    exists|y: usize| y < c.y && #[trigger] turns(v, s, c.x, y, c.z)
}

/// The label of `c` after a classification pass over `v` with the signs `s`.
pub open spec fn resolved(v: Volume, s: Signs, c: Coord) -> Label {
    if !v.label(c).is_open() {
        v.label(c)
    } else if crossed(v, s, c) || s.sign(c) == Sign::Negative {
        Label::RedArea
    } else {
        Label::BlueArea
    }
}

/// The volume after a classification pass over `v` with the signs `s`.
pub open spec fn classified(v: Volume, s: Signs) -> Volume {
    Volume {
        extent: v.extent,
        cells: Map::new(|c: Coord| v.extent.contains(c), |c: Coord| resolved(v, s, c)),
    }
}

/// Resolves the open cells of the column at `(x, z)`.
fn classify_column(grid: &mut LabelGrid, signs: &SignField, x: usize, z: usize)
    requires
        old(grid)@.extent == signs@.extent,
        x < old(grid)@.extent.width,
        z < old(grid)@.extent.depth,
    ensures
        final(grid)@.extent == old(grid)@.extent,
        forall|c: Coord|
            old(grid)@.extent.contains(c) ==> #[trigger] final(grid)@.label(c) == if c.x == x && c.z == z {
                resolved(old(grid)@, signs@, c)
            } else {
                old(grid)@.label(c)
            },
{
    let extent = grid.extent();
    let mut red_below = false;
    let mut y: usize = 0;
    while y < extent.height
        invariant
            extent == old(grid)@.extent,
            extent == signs@.extent,
            grid@.extent == extent,
            x < extent.width,
            z < extent.depth,
            y <= extent.height,
            red_below == crossed(old(grid)@, signs@, Coord { x, y, z }),
            forall|c: Coord|
                extent.contains(c) ==> #[trigger] grid@.label(c) == if c.x == x && c.z == z && c.y < y {
                    resolved(old(grid)@, signs@, c)
                } else {
                    old(grid)@.label(c)
                },
        decreases extent.height - y,
    {
        let c = Coord { x, y, z };
        let label = grid.get(c);
        let ghost was_red = red_below;
        assert(label == old(grid)@.label(c));
        if label.open() {
            if red_below {
                grid.set(c, Label::RedArea);
            } else {
                match signs.get(c) {
                    Sign::Negative => {
                        red_below = true;
                        grid.set(c, Label::RedArea);
                    },
                    _ => {
                        grid.set(c, Label::BlueArea);
                    },
                }
            }
        } else if label == Label::RedAnchor || label == Label::Barrier {
            red_below = true;
        }
        proof {
            let next = Coord { x, y: (y + 1) as usize, z };
            let v = old(grid)@;
            assert(was_red == crossed(v, signs@, c));
            assert(red_below == (was_red || turns(v, signs@, x, y, z)));
            if crossed(v, signs@, c) {
                let w = choose|w: usize| w < c.y && turns(v, signs@, c.x, w, c.z);
                assert(w < next.y && turns(v, signs@, next.x, w, next.z));
            }
            if turns(v, signs@, x, y, z) {
                assert(y < next.y && turns(v, signs@, next.x, y, next.z));
            }
            if crossed(v, signs@, next) {
                let w = choose|w: usize| w < next.y && turns(v, signs@, next.x, w, next.z);
                if w < y {
                    assert(w < c.y && turns(v, signs@, c.x, w, c.z));
                }
            }
            assert(red_below == crossed(v, signs@, next));
        }
        y += 1;
    }
}

/// One classification pass: every open cell of `grid` becomes a red or a blue
/// area cell, as the signs of the influence and the scan of its column
/// decide; every other cell keeps its label.
pub fn classify(grid: &mut LabelGrid, signs: &SignField)
    requires
        old(grid)@.extent == signs@.extent,
    ensures
        final(grid)@ == classified(old(grid)@, signs@),
        forall|c: Coord|
            final(grid)@.extent.contains(c) ==> #[trigger] final(grid)@.label(c)
                != Label::Undetermined,
        forall|c: Coord|
            final(grid)@.extent.contains(c) && old(grid)@.label(c).is_fixed()
                ==> #[trigger] final(grid)@.label(c) == old(grid)@.label(c),
{
    let extent = grid.extent();
    let mut x: usize = 0;
    while x < extent.width
        invariant
            extent == old(grid)@.extent,
            extent == signs@.extent,
            grid@.extent == extent,
            x <= extent.width,
            forall|c: Coord|
                extent.contains(c) ==> #[trigger] grid@.label(c) == if c.x < x {
                    resolved(old(grid)@, signs@, c)
                } else {
                    old(grid)@.label(c)
                },
        decreases extent.width - x,
    {
        let mut z: usize = 0;
        while z < extent.depth
            invariant
                extent == old(grid)@.extent,
                extent == signs@.extent,
                grid@.extent == extent,
                x < extent.width,
                z <= extent.depth,
                forall|c: Coord|
                    extent.contains(c) ==> #[trigger] grid@.label(c) == if c.x < x || (c.x == x && c.z < z) {
                        resolved(old(grid)@, signs@, c)
                    } else {
                        old(grid)@.label(c)
                    },
            decreases extent.depth - z,
        {
            let ghost before = grid@;
            classify_column(grid, signs, x, z);
            proof {
                assert forall|c: Coord| extent.contains(c) && c.x == x && c.z == z implies resolved(
                    before,
                    signs@,
                    c,
                ) == resolved(old(grid)@, signs@, c) by {
                    lemma_column_decides(before, old(grid)@, signs@, c);
                }
            }
            z += 1;
        }
        x += 1;
    }
    proof {
        lemma_view_wf(*grid);
        assert forall|c: Coord| extent.contains(c) implies grid@.cells[c] == resolved(
            old(grid)@,
            signs@,
            c,
        ) by {
            assert(grid@.label(c) == resolved(old(grid)@, signs@, c));
        }
        assert(grid@.cells =~= classified(old(grid)@, signs@).cells);
    }
}

/// What a pass makes of a cell depends on the labels of its column only.
proof fn lemma_column_decides(a: Volume, b: Volume, s: Signs, c: Coord)
    requires
        forall|y: usize|
            y <= c.y ==> a.label(Coord { x: c.x, y, z: c.z }) == b.label(
                Coord { x: c.x, y, z: c.z },
            ),
    ensures
        resolved(a, s, c) == resolved(b, s, c),
{
    assert(a.label(c) == b.label(Coord { x: c.x, y: c.y, z: c.z }));
    assert forall|y: usize| y <= c.y implies turns(a, s, c.x, y, c.z) == turns(
        b,
        s,
        c.x,
        y,
        c.z,
    ) by {
        assert(a.label(Coord { x: c.x, y, z: c.z }) == b.label(Coord { x: c.x, y, z: c.z }));
    }
    if crossed(a, s, c) {
        let y = choose|y: usize| y < c.y && turns(a, s, c.x, y, c.z);
        assert(turns(b, s, c.x, y, c.z));
    }
    if crossed(b, s, c) {
        let y = choose|y: usize| y < c.y && turns(b, s, c.x, y, c.z);
        assert(turns(a, s, c.x, y, c.z));
    }
}

/// After a pass no cell is undetermined.
pub proof fn lemma_pass_is_total(v: Volume, s: Signs, c: Coord)
    requires
        v.extent.contains(c),
    ensures
        classified(v, s).label(c) != Label::Undetermined,
{
}

/// A pass leaves anchors and barrier cells as they are, and relabels nothing
/// but open cells.
pub proof fn lemma_pass_keeps_closed(v: Volume, s: Signs, c: Coord)
    requires
        v.extent.contains(c),
        !v.label(c).is_open(),
    ensures
        classified(v, s).label(c) == v.label(c),
{
}

/// Once a pass has made a cell of a column a red area cell, it makes every
/// open cell further down that column a red area cell too.
pub proof fn lemma_red_below(v: Volume, s: Signs, a: Coord, b: Coord)
    requires
        v.extent.contains(a),
        v.extent.contains(b),
        a.x == b.x,
        a.z == b.z,
        a.y < b.y,
        classified(v, s).label(a) == Label::RedArea,
        v.label(b).is_open(),
    ensures
        classified(v, s).label(b) == Label::RedArea,
{
    if crossed(v, s, a) {
        let y = choose|y: usize| y < a.y && turns(v, s, a.x, y, a.z);
        assert(y < b.y && turns(v, s, b.x, y, b.z));
    } else {
        assert(turns(v, s, b.x, a.y, b.z));
    }
}

/// A pass reads the influence through its sign only, and only inside the
/// volume: two fields that agree in sign at every cell give the same labels.
pub proof fn lemma_signs_decide(v: Volume, s: Signs, t: Signs)
    requires
        forall|c: Coord| v.extent.contains(c) ==> s.sign(c) == t.sign(c),
    ensures
        classified(v, s) == classified(v, t),
{
    assert forall|c: Coord| v.extent.contains(c) implies resolved(v, s, c) == resolved(
        v,
        t,
        c,
    ) by {
        assert forall|y: usize| y < c.y implies turns(v, s, c.x, y, c.z) == turns(
            v,
            t,
            c.x,
            y,
            c.z,
        ) by {
            let above = Coord { x: c.x, y, z: c.z };
            assert(v.extent.contains(above));
        }
        if crossed(v, s, c) {
            let y = choose|y: usize| y < c.y && turns(v, s, c.x, y, c.z);
            assert(y < c.y && turns(v, t, c.x, y, c.z));
        }
        if crossed(v, t, c) {
            let y = choose|y: usize| y < c.y && turns(v, t, c.x, y, c.z);
            assert(y < c.y && turns(v, s, c.x, y, c.z));
        }
    }
    assert(classified(v, s).cells =~= classified(v, t).cells);
}

} // verus!
