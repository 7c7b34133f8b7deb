//! The jobs of one pass: one wave for each anchor cell.

use vstd::prelude::*;
use crate::grid::{Coord, LabelGrid, Volume};
use crate::wave::Job;

verus! {

/// `a` comes before the position `(x, y, z)` when the volume is walked with x
/// slowest and z fastest.
pub open spec fn before(a: Coord, x: int, y: int, z: int) -> bool {
    a.x < x || (a.x == x && (a.y < y || (a.y == y && a.z < z)))
}

/// `a` comes before `b` in that walk.
pub open spec fn precedes(a: Coord, b: Coord) -> bool {
    before(a, b.x as int, b.y as int, b.z as int)
}

/// `job` starts at an anchor cell of `v` and spreads that anchor's territory.
pub open spec fn is_anchor_job(v: Volume, job: Job) -> bool {
    v.extent.contains(job.origin) && v.label(job.origin).seeded() == Some(job.color)
}

/// `jobs` holds one job for each anchor cell of `v`, in the order of the walk.
pub open spec fn lists_anchors(jobs: Seq<Job>, v: Volume) -> bool {
    &&& forall|i: int| 0 <= i < jobs.len() ==> is_anchor_job(v, #[trigger] jobs[i])
    &&& forall|i: int, j: int|
        0 <= i < j < jobs.len() ==> precedes((#[trigger] jobs[i]).origin, (#[trigger] jobs[j]).origin)
    &&& forall|job: Job| #[trigger] is_anchor_job(v, job) ==> jobs.contains(job)
}

/// `jobs` holds the anchor jobs of `v` that start before `(x, y, z)`, in the
/// order of the walk.
spec fn lists_anchors_before(jobs: Seq<Job>, v: Volume, x: int, y: int, z: int) -> bool {
    &&& forall|i: int|
        0 <= i < jobs.len() ==> is_anchor_job(v, #[trigger] jobs[i]) && before(
            jobs[i].origin,
            x,
            y,
            z,
        )
    &&& forall|i: int, j: int|
        0 <= i < j < jobs.len() ==> precedes((#[trigger] jobs[i]).origin, (#[trigger] jobs[j]).origin)
    &&& forall|job: Job| #[trigger]
        is_anchor_job(v, job) && before(job.origin, x, y, z) ==> jobs.contains(job)
}

/// The jobs of one pass over `grid`: one for each anchor cell, with the
/// territory that the anchor seeds, in the order in which a walk with x
/// slowest and z fastest meets them.
pub fn anchor_jobs(grid: &LabelGrid) -> (jobs: Vec<Job>)
    ensures
        lists_anchors(jobs@, grid@),
{
    let extent = grid.extent();
    let mut jobs: Vec<Job> = Vec::new();
    let mut x: usize = 0;
    while x < extent.width
        invariant
            extent == grid@.extent,
            x <= extent.width,
            lists_anchors_before(jobs@, grid@, x as int, 0, 0),
        decreases extent.width - x,
    {
        let mut y: usize = 0;
        while y < extent.height
            invariant
                extent == grid@.extent,
                x < extent.width,
                y <= extent.height,
                lists_anchors_before(jobs@, grid@, x as int, y as int, 0),
            decreases extent.height - y,
        {
            let mut z: usize = 0;
            while z < extent.depth
                invariant
                    extent == grid@.extent,
                    x < extent.width,
                    y < extent.height,
                    z <= extent.depth,
                    lists_anchors_before(jobs@, grid@, x as int, y as int, z as int),
                decreases extent.depth - z,
            {
                let origin = Coord { x, y, z };
                let ghost listed = jobs@;
                match grid.get(origin).seed_color() {
                    Some(color) => {
                        let job = Job { origin, color };
                        jobs.push(job);
                        proof {
                            assert(jobs@[listed.len() as int] == job);
                            assert forall|other: Job| #[trigger]
                                is_anchor_job(grid@, other) && before(
                                    other.origin,
                                    x as int,
                                    y as int,
                                    z + 1,
                                ) implies jobs@.contains(other) by {
                                if before(other.origin, x as int, y as int, z as int) {
                                    let i = choose|i: int| 0 <= i < listed.len() && listed[i] == other;
                                    assert(jobs@[i] == other);
                                } else {
                                    assert(other.origin == origin);
                                    assert(other == job);
                                }
                            }
                        }
                    },
                    None => {
                        proof {
                            assert forall|other: Job| #[trigger]
                                is_anchor_job(grid@, other) && before(
                                    other.origin,
                                    x as int,
                                    y as int,
                                    z + 1,
                                ) implies jobs@.contains(other) by {
                                if !before(other.origin, x as int, y as int, z as int) {
                                    assert(other.origin == origin);
                                }
                            }
                        }
                    },
                }
                z += 1;
            }
            y += 1;
        }
        x += 1;
    }
    jobs
}

} // verus!
