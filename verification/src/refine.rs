//! The iteration controller: a fixed number of refinement passes.
//!
//! A pass has two halves. The caller runs the waves of the jobs that the
//! controller hands out and weighs what they recorded; the controller then
//! classifies the grid by the signs of the resulting influence.

use vstd::prelude::*;
use crate::classify::{classified, classify};
use crate::grid::{Coord, LabelGrid, Volume};
use crate::jobs::{anchor_jobs, lists_anchors};
use crate::label::Label;
use crate::postfill::{pocketed, postfill, Limits};
use crate::signs::{SignField, Signs};
use crate::wave::Job;

verus! {

/// What the caller is to do next.
#[derive(Debug)]
pub enum Step {
    /// Run these waves, then hand the signs of their summed influence to
    /// [`Refinement::complete_pass`].
    Propagate(Vec<Job>),
    /// All passes are done.
    Finished,
}

/// A label grid under refinement, and the number of passes still to run.
#[derive(Debug)]
pub struct Refinement {
    grid: LabelGrid,
    remaining: usize,
}

impl Refinement {
    /// The grid as it stands.
    pub closed spec fn volume(&self) -> Volume {
        self.grid@
    }

    /// The number of passes still to run.
    pub closed spec fn passes_left(&self) -> nat {
        self.remaining as nat
    }

    /// Starts the refinement of `grid` with `passes` passes to run.
    pub fn new(grid: LabelGrid, passes: usize) -> (r: Refinement)
        ensures
            r.volume() == grid@,
            r.passes_left() == passes,
    {
        Refinement { grid, remaining: passes }
    }

    /// The next step: the jobs of the next pass while passes are left to run.
    pub fn next(&self) -> (s: Step)
        ensures
            match s {
                Step::Propagate(jobs) => self.passes_left() > 0 && lists_anchors(
                    jobs@,
                    self.volume(),
                ),
                Step::Finished => self.passes_left() == 0,
            },
    {
        if self.remaining > 0 {
            Step::Propagate(anchor_jobs(&self.grid))
        } else {
            Step::Finished
        }
    }

    /// Completes the pass under way: classifies the grid by `signs`.
    pub fn complete_pass(&mut self, signs: &SignField)
        requires
            old(self).passes_left() > 0,
            old(self).volume().extent == signs@.extent,
        ensures
            final(self).volume() == classified(old(self).volume(), signs@),
            final(self).passes_left() == old(self).passes_left() - 1,
    {
        classify(&mut self.grid, signs);
        self.remaining = self.remaining - 1;
    }

    /// The number of passes still to run.
    pub fn remaining(&self) -> (n: usize)
        ensures
            n == self.passes_left(),
    {
        self.remaining
    }

    /// The grid as it stands.
    pub fn grid(&self) -> (g: &LabelGrid)
        ensures
            g@ == self.volume(),
    {
        &self.grid
    }

    /// Ends a refinement whose passes are done: runs postfill and hands the
    /// grid back.
    pub fn finish(self, limits: Limits) -> (g: LabelGrid)
        requires
            self.passes_left() == 0,
        ensures
            g@ == pocketed(self.volume(), limits),
    {
        let mut grid = self.grid;
        postfill(&mut grid, limits);
        grid
    }

    /// Ends the refinement as it stands and hands the grid back.
    pub fn into_grid(self) -> (g: LabelGrid)
        ensures
            g@ == self.volume(),
    {
        self.grid
    }
}

/// The volume after one classification pass for each field of `passes`, in turn.
pub open spec fn refined(v: Volume, passes: Seq<Signs>) -> Volume
    decreases passes.len(),
{
    if passes.len() == 0 {
        v
    } else {
        classified(refined(v, passes.drop_last()), passes.last())
    }
}

/// Anchors and barrier cells are the same before and after any number of
/// passes, whatever the influence.
pub proof fn lemma_fixed_cells_stay(v: Volume, passes: Seq<Signs>, c: Coord)
    requires
        v.extent.contains(c),
        v.label(c).is_fixed(),
    ensures
        refined(v, passes).extent == v.extent,
        refined(v, passes).label(c) == v.label(c),
    decreases passes.len(),
{
    if passes.len() > 0 {
        lemma_fixed_cells_stay(v, passes.drop_last(), c);
    }
}

/// Passes relabel open cells only: every other cell is the same before and
/// after any number of passes.
pub proof fn lemma_closed_cells_stay(v: Volume, passes: Seq<Signs>, c: Coord)
    requires
        v.extent.contains(c),
        !v.label(c).is_open(),
    ensures
        refined(v, passes).extent == v.extent,
        refined(v, passes).label(c) == v.label(c),
    decreases passes.len(),
{
    if passes.len() > 0 {
        lemma_closed_cells_stay(v, passes.drop_last(), c);
    }
}

/// After at least one pass no cell is undetermined.
pub proof fn lemma_refined_is_total(v: Volume, passes: Seq<Signs>, c: Coord)
    requires
        v.extent.contains(c),
        passes.len() > 0,
    ensures
        refined(v, passes).label(c) != Label::Undetermined,
{
    lemma_extent_stays(v, passes.drop_last());
}

/// Passes keep the extents of the volume.
pub proof fn lemma_extent_stays(v: Volume, passes: Seq<Signs>)
    ensures
        refined(v, passes).extent == v.extent,
    decreases passes.len(),
{
    if passes.len() > 0 {
        lemma_extent_stays(v, passes.drop_last());
    }
}

/// A cell that is not undetermined never becomes undetermined again.
pub proof fn lemma_stays_determined(v: Volume, passes: Seq<Signs>, c: Coord)
    requires
        v.extent.contains(c),
        v.label(c) != Label::Undetermined,
    ensures
        refined(v, passes).label(c) != Label::Undetermined,
    decreases passes.len(),
{
    if passes.len() > 0 {
        lemma_extent_stays(v, passes.drop_last());
    }
}

} // verus!
