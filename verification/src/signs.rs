//! The sign of the influence at each cell.

use vstd::prelude::*;
use crate::grid::{lemma_rank_bounds, lemma_rank_injective, Coord, Extent};

verus! {

/// The sign of the net influence at a cell: which territory's anchors weigh
/// more there.
#[derive(Clone, Copy, PartialEq, Eq, Structural, Debug)]
pub enum Sign {
    /// Red weighs more.
    Negative,
    /// Neither weighs more.
    Zero,
    /// Blue weighs more.
    Positive,
}

/// The mathematical model of a sign field: its extents and the sign at each
/// cell inside them.
pub struct Signs {
    pub extent: Extent,
    pub cells: Map<Coord, Sign>,
}

impl Signs {
    /// The sign at `c`.
    #[verifier::inline]
    pub open spec fn sign(self, c: Coord) -> Sign {
        self.cells[c]
    }
}

/// A dense field with one sign per cell of a volume, held with z running
/// fastest and x slowest.
#[derive(Debug)]
pub struct SignField {
    extent: Extent,
    cells: Vec<Sign>,
}

impl View for SignField {
    type V = Signs;

    closed spec fn view(&self) -> Signs {
        Signs {
            extent: self.extent,
            cells: Map::new(
                |c: Coord| self.extent.contains(c),
                |c: Coord| self.cells@[self.extent.rank(c)],
            ),
        }
    }
}

impl SignField {
    /// There is one sign for each cell.
    #[verifier::type_invariant]
    spec fn dense(self) -> bool {
        self.cells@.len() == self.extent.volume()
    }

    /// The field that holds `cells`, which lists the signs with z running
    /// fastest and x slowest, or `None` unless there is one sign for each
    /// cell of `extent`.
    pub fn from_cells(extent: Extent, cells: Vec<Sign>) -> (r: Option<SignField>)
        ensures
            r is Some <==> cells@.len() == extent.volume(),
            r matches Some(f) ==> f@.extent == extent && forall|c: Coord|
                extent.contains(c) ==> #[trigger] f@.sign(c) == cells@[extent.rank(c)],
    {
        let len = cells.len();
        match extent.count() {
            Some(n) => {
                if len == n {
                    Some(SignField { extent, cells })
                } else {
                    None
                }
            },
            None => None,
        }
    }

    /// The field with `sign` at every cell, or `None` where the number of
    /// cells does not fit a `usize`.
    pub fn uniform(extent: Extent, sign: Sign) -> (r: Option<SignField>)
        ensures
            r is Some <==> extent.volume() <= usize::MAX,
            r matches Some(f) ==> f@.extent == extent && forall|c: Coord|
                extent.contains(c) ==> #[trigger] f@.sign(c) == sign,
    {
        match extent.count() {
            Some(n) => {
                let mut cells: Vec<Sign> = Vec::new();
                let mut i: usize = 0;
                while i < n
                    invariant
                        i <= n,
                        cells@.len() == i,
                        forall|k: int| 0 <= k < i ==> cells@[k] == sign,
                    decreases n - i,
                {
                    cells.push(sign);
                    i += 1;
                }
                proof {
                    assert forall|c: Coord| extent.contains(c) implies cells@[extent.rank(c)]
                        == sign by {
                        lemma_rank_bounds(extent, c);
                    }
                }
                Some(SignField { extent, cells })
            },
            None => None,
        }
    }

    /// The extents of the field.
    pub fn extent(&self) -> (e: Extent)
        ensures
            e == self@.extent,
    {
        self.extent
    }

    /// Where the sign of `c` is held.
    fn slot(&self, c: Coord) -> (i: usize)
        requires
            self@.extent.contains(c),
        ensures
            i == self@.extent.rank(c),
            i < self.cells@.len(),
    {
        proof {
            use_type_invariant(self);
            assert(self.cells.len() == self.cells@.len());
            lemma_rank_bounds(self.extent, c);
            let w = self.extent.width as int;
            let h = self.extent.height as int;
            let d = self.extent.depth as int;
            assert(0 <= c.x * h <= c.x * h + c.y < w * h) by (nonlinear_arith)
                requires
                    0 <= c.x < w,
                    0 <= c.y < h,
            ;
            assert(w * h <= w * h * d) by (nonlinear_arith)
                requires
                    1 <= d,
                    0 <= w * h,
            ;
            assert(0 <= (c.x * h + c.y) * d) by (nonlinear_arith)
                requires
                    0 <= c.x * h + c.y,
                    0 <= d,
            ;
        }
        (c.x * self.extent.height + c.y) * self.extent.depth + c.z
    }

    /// The sign at `c`.
    pub fn get(&self, c: Coord) -> (s: Sign)
        requires
            self@.extent.contains(c),
        ensures
            s == self@.sign(c),
    {
        let i = self.slot(c);
        self.cells[i]
    }

    /// The field with the sign at `c` replaced.
    pub fn with_sign(self, c: Coord, sign: Sign) -> (f: SignField)
        requires
            self@.extent.contains(c),
        ensures
            f@.extent == self@.extent,
            f@.cells == self@.cells.insert(c, sign),
    {
        let i = self.slot(c);
        proof {
            use_type_invariant(&self);
        }
        let ghost before = self.cells@;
        let SignField { extent, mut cells } = self;
        cells.set(i, sign);
        let f = SignField { extent, cells };
        proof {
            assert forall|o: Coord| extent.contains(o) && o != c implies f.cells@[extent.rank(o)]
                == before[extent.rank(o)] by {
                lemma_rank_bounds(extent, o);
                if extent.rank(o) == extent.rank(c) {
                    lemma_rank_injective(extent, o, c);
                }
            }
            assert(f@.cells =~= self@.cells.insert(c, sign));
        }
        f
    }
}

} // verus!
