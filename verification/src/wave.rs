//! One wave: the layered expansion from a single anchor cell.
//!
//! A wave visits the cells of the volume in synchronous layers. The cells of a
//! layer pass the wave on to their neighbours, which become due one layer
//! later, or three layers later where the wave crosses the rival's territory.
//! What a wave records is, for each layer, the cells that it visited there and
//! the role in which it met each of them; weighing that record is left to the
//! caller. The cells of a layer are met at the same strength, so the order in
//! which a layer lists them carries no meaning.

use vstd::prelude::*;
use crate::grid::{lemma_cells_bounded, Coord, LabelGrid, Volume};
use crate::label::{Color, Label};
use crate::marks::MarkGrid;
use crate::neighbours::{
    adjacent, adjacent_flat, flat_neighbours, lemma_concat_contains, lemma_concat_set,
    lemma_empty_set, lemma_neighbours, neighbours, push_flat_neighbours, push_neighbours,
};

verus! {

/// How a wave of one territory treats a cell.
#[derive(Clone, Copy, PartialEq, Eq, Structural, Debug)]
pub enum Role {
    /// Unresolved or own territory: full strength, passed on to all six neighbours.
    Free,
    /// The rival's anchor or area: reduced strength, passed on with a delay.
    Stranger,
    /// A zone forbidden to the rival, or an own pocket: nothing is
    /// contributed, and the wave moves on along x and z only.
    Transit,
    /// Barrier, a zone forbidden to this territory, or a pocket that the rival
    /// took out of it: the wave ends here.
    Absorbing,
}

impl Role {
    /// Whether meeting a cell in this role counts as meeting an obstruction.
    pub open spec fn obstructs(self) -> bool {
        self == Role::Stranger || self == Role::Absorbing
    }

    /// Whether meeting a cell in this role counts as meeting an obstruction.
    pub fn is_obstruction(self) -> (b: bool)
        ensures
            b == self.obstructs(),
    {
        match self {
            Role::Stranger | Role::Absorbing => true,
            _ => false,
        }
    }
}

/// The role in which a wave of `color` meets a cell labelled `label`.
pub open spec fn role_of(label: Label, color: Color) -> Role {
    if label == Label::Undetermined || label == Label::anchor_of(color) || label == Label::area_of(
        color,
    ) {
        Role::Free
    } else if label == Label::anchor_of(color.rival()) || label == Label::area_of(color.rival()) {
        Role::Stranger
    } else if label == Label::forbidden_to(color.rival()) || label == Label::pocket_of(color) {
        Role::Transit
    } else {
        Role::Absorbing
    }
}

/// The role in which a wave of `color` meets a cell labelled `label`.
pub fn role(label: Label, color: Color) -> (r: Role)
    ensures
        r == role_of(label, color),
{
    match color {
        Color::Blue => match label {
            Label::Undetermined | Label::BlueAnchor | Label::BlueArea => Role::Free,
            Label::RedAnchor | Label::RedArea => Role::Stranger,
            Label::RedForbidden | Label::BluePocket => Role::Transit,
            Label::Barrier | Label::BlueForbidden | Label::RedPocket => Role::Absorbing,
        },
        Color::Red => match label {
            Label::Undetermined | Label::RedAnchor | Label::RedArea => Role::Free,
            Label::BlueAnchor | Label::BlueArea => Role::Stranger,
            Label::BlueForbidden | Label::RedPocket => Role::Transit,
            Label::Barrier | Label::RedForbidden | Label::BluePocket => Role::Absorbing,
        },
    }
}

/// One wave to run: where it starts and which territory it spreads.
#[derive(Clone, Copy, PartialEq, Eq, Structural, Debug)]
pub struct Job {
    pub origin: Coord,
    pub color: Color,
}

/// One cell that a wave visited, and the role in which it met it.
#[derive(Clone, Copy, PartialEq, Eq, Structural, Debug)]
pub struct Visit {
    pub cell: Coord,
    pub role: Role,
}

/// A wave of `color` visiting `p` makes `c` due in the next layer.
pub open spec fn passes(v: Volume, color: Color, p: Coord, c: Coord) -> bool {
    v.extent.contains(c) && match role_of(v.label(p), color) {
        Role::Free => adjacent(p, c),
        Role::Transit => adjacent_flat(p, c),
        _ => false,
    }
}

/// A wave of `color` visiting `p` makes `c` due three layers later.
pub open spec fn passes_late(v: Volume, color: Color, p: Coord, c: Coord) -> bool {
    v.extent.contains(c) && role_of(v.label(p), color) == Role::Stranger && adjacent(p, c)
}

/// The cells that the cells of `from` make due in the next layer.
pub open spec fn spread(v: Volume, color: Color, from: Set<Coord>) -> Set<Coord> {
    Set::new(|c: Coord| exists|p: Coord| from.contains(p) && #[trigger] passes(v, color, p, c))
}

/// The cells that the cells of `from` make due three layers later.
pub open spec fn spread_late(v: Volume, color: Color, from: Set<Coord>) -> Set<Coord> {
    Set::new(
        |c: Coord| exists|p: Coord| from.contains(p) && #[trigger] passes_late(v, color, p, c),
    )
}

/// The state of a wave before one of its layers: the cells visited so far,
/// and the cells that are due in this layer, in the next, and in the one after.
pub struct Front {
    pub seen: Set<Coord>,
    pub due: Set<Coord>,
    pub later: Set<Coord>,
    pub latest: Set<Coord>,
}

impl Front {
    /// The cells that the wave visits in this layer: those due and not visited before.
    pub open spec fn fresh(self) -> Set<Coord> {
        self.due.difference(self.seen)
    }

    /// Nothing is due any more: the wave has ended.
    pub open spec fn quiet(self) -> bool {
        self.due.is_empty() && self.later.is_empty() && self.latest.is_empty()
    }

    /// The state before the next layer.
    pub open spec fn advance(self, v: Volume, color: Color) -> Front {
        Front {
            seen: self.seen.union(self.fresh()),
            due: self.later.union(spread(v, color, self.fresh())),
            later: self.latest,
            latest: spread_late(v, color, self.fresh()),
        }
    }
}

/// How many of the three pending sets may still hold a cell, counted from the
/// nearest one: what is left of a wave that visits no new cell.
spec fn pending_tiers(f: Front) -> int {
    if !f.latest.is_empty() {
        3
    } else if !f.later.is_empty() {
        2
    } else if !f.due.is_empty() {
        1
    } else {
        0
    }
}

/// The state of the wave of `job` before its layer `n`.
pub open spec fn front(v: Volume, job: Job, n: nat) -> Front
    decreases n,
{
    if n == 0 {
        Front {
            seen: Set::empty(),
            due: Set::empty().insert(job.origin),
            later: Set::empty(),
            latest: Set::empty(),
        }
    } else {
        front(v, job, (n - 1) as nat).advance(v, job.color)
    }
}

/// The cells that the wave of `job` visits in its layer `n`.
pub open spec fn wavefront(v: Volume, job: Job, n: nat) -> Set<Coord> {
    front(v, job, n).fresh()
}

/// `layer` lists each cell of `cells` once, with the role in which a wave of
/// `color` meets it.
pub open spec fn records(layer: Seq<Visit>, v: Volume, color: Color, cells: Set<Coord>) -> bool {
    &&& forall|i: int, j: int| 0 <= i < j < layer.len() ==> layer[i].cell != layer[j].cell
    &&& forall|i: int|
        0 <= i < layer.len() ==> cells.contains((#[trigger] layer[i]).cell) && layer[i].role
            == role_of(v.label(layer[i].cell), color)
    &&& forall|c: Coord| #[trigger]
        cells.contains(c) ==> exists|i: int| 0 <= i < layer.len() && (#[trigger] layer[i]).cell == c
}

/// What a set of cells passes on when one more cell joins it.
proof fn lemma_spread_insert(v: Volume, color: Color, from: Set<Coord>, p: Coord)
    ensures
        spread(v, color, from.insert(p)) == spread(v, color, from).union(
            Set::new(|c: Coord| passes(v, color, p, c)),
        ),
        spread_late(v, color, from.insert(p)) == spread_late(v, color, from).union(
            Set::new(|c: Coord| passes_late(v, color, p, c)),
        ),
{
    let grown = from.insert(p);
    assert forall|c: Coord|
        spread(v, color, grown).contains(c) <==> spread(v, color, from).contains(c) || passes(
            v,
            color,
            p,
            c,
        ) by {
        if spread(v, color, grown).contains(c) {
            let q = choose|q: Coord| grown.contains(q) && passes(v, color, q, c);
            if q != p {
                assert(from.contains(q) && passes(v, color, q, c));
            }
        }
        if spread(v, color, from).contains(c) {
            let q = choose|q: Coord| from.contains(q) && passes(v, color, q, c);
            assert(grown.contains(q) && passes(v, color, q, c));
        }
        if passes(v, color, p, c) {
            assert(grown.contains(p) && passes(v, color, p, c));
        }
    }
    assert(spread(v, color, grown) =~= spread(v, color, from).union(
        Set::new(|c: Coord| passes(v, color, p, c)),
    ));
    assert forall|c: Coord|
        spread_late(v, color, grown).contains(c) <==> spread_late(v, color, from).contains(c)
            || passes_late(v, color, p, c) by {
        if spread_late(v, color, grown).contains(c) {
            let q = choose|q: Coord| grown.contains(q) && passes_late(v, color, q, c);
            if q != p {
                assert(from.contains(q) && passes_late(v, color, q, c));
            }
        }
        if spread_late(v, color, from).contains(c) {
            let q = choose|q: Coord| from.contains(q) && passes_late(v, color, q, c);
            assert(grown.contains(q) && passes_late(v, color, q, c));
        }
        if passes_late(v, color, p, c) {
            assert(grown.contains(p) && passes_late(v, color, p, c));
        }
    }
    assert(spread_late(v, color, grown) =~= spread_late(v, color, from).union(
        Set::new(|c: Coord| passes_late(v, color, p, c)),
    ));
}

/// Nothing is passed on from no cell.
proof fn lemma_spread_empty(v: Volume, color: Color)
    ensures
        spread(v, color, Set::empty()) == Set::<Coord>::empty(),
        spread_late(v, color, Set::empty()) == Set::<Coord>::empty(),
{
    assert(spread(v, color, Set::empty()) =~= Set::<Coord>::empty());
    assert(spread_late(v, color, Set::empty()) =~= Set::<Coord>::empty());
}

/// The neighbours that a visited cell has appended, as sets.
proof fn lemma_passed_on(v: Volume, color: Color, p: Coord)
    requires
        v.extent.contains(p),
    ensures
        role_of(v.label(p), color) == Role::Free ==> neighbours(v.extent, p).to_set() == Set::new(
            |c: Coord| passes(v, color, p, c),
        ),
        role_of(v.label(p), color) == Role::Transit ==> flat_neighbours(v.extent, p).to_set()
            == Set::new(|c: Coord| passes(v, color, p, c)),
        role_of(v.label(p), color) == Role::Stranger ==> neighbours(v.extent, p).to_set()
            == Set::new(|c: Coord| passes_late(v, color, p, c)),
        role_of(v.label(p), color) != Role::Free && role_of(v.label(p), color) != Role::Transit
            ==> Set::new(|c: Coord| passes(v, color, p, c)) == Set::<Coord>::empty(),
        role_of(v.label(p), color) != Role::Stranger ==> Set::new(
            |c: Coord| passes_late(v, color, p, c),
        ) == Set::<Coord>::empty(),
{
    let r = role_of(v.label(p), color);
    assert forall|c: Coord|
        (neighbours(v.extent, p).contains(c) <==> v.extent.contains(c) && adjacent(p, c)) && (
        flat_neighbours(v.extent, p).contains(c) <==> v.extent.contains(c) && adjacent_flat(
            p,
            c,
        )) by {
        lemma_neighbours(v.extent, p, c);
    }
    if r == Role::Free {
        assert(neighbours(v.extent, p).to_set() =~= Set::new(|c: Coord| passes(v, color, p, c)));
    }
    if r == Role::Transit {
        assert(flat_neighbours(v.extent, p).to_set() =~= Set::new(
            |c: Coord| passes(v, color, p, c),
        ));
    }
    if r == Role::Stranger {
        assert(neighbours(v.extent, p).to_set() =~= Set::new(
            |c: Coord| passes_late(v, color, p, c),
        ));
    }
    if r != Role::Free && r != Role::Transit {
        assert(Set::new(|c: Coord| passes(v, color, p, c)) =~= Set::<Coord>::empty());
    }
    if r != Role::Stranger {
        assert(Set::new(|c: Coord| passes_late(v, color, p, c)) =~= Set::<Coord>::empty());
    }
}

/// Visits the cells of `todo` that are not marked yet: marks each, lists it
/// with its role, and appends what it passes on to `next` and `delayed`.
fn sweep(
    grid: &LabelGrid,
    color: Color,
    todo: &Vec<Coord>,
    visited: &mut MarkGrid,
    next: &mut Vec<Coord>,
    delayed: &mut Vec<Coord>,
) -> (layer: Vec<Visit>)
    requires
        old(visited).extent() == grid@.extent,
        forall|i: int| 0 <= i < todo.len() ==> grid@.extent.contains(todo[i]),
    ensures
        final(visited).extent() == old(visited).extent(),
        final(visited).marked() == old(visited).marked().union(
            todo@.to_set().difference(old(visited).marked()),
        ),
        records(layer@, grid@, color, todo@.to_set().difference(old(visited).marked())),
        final(next)@.to_set() == old(next)@.to_set().union(
            spread(grid@, color, todo@.to_set().difference(old(visited).marked())),
        ),
        final(delayed)@.to_set() == old(delayed)@.to_set().union(
            spread_late(grid@, color, todo@.to_set().difference(old(visited).marked())),
        ),
{
    let extent = grid.extent();
    let mut layer: Vec<Visit> = Vec::new();
    let ghost marked0 = visited.marked();
    let ghost next0 = next@;
    let ghost delayed0 = delayed@;
    let mut i: usize = 0;
    proof {
        assert(todo@.take(0).to_set().difference(marked0) =~= Set::<Coord>::empty());
        lemma_spread_empty(grid@, color);
        assert(visited.marked() =~= marked0.union(Set::<Coord>::empty()));
        assert(next@.to_set() =~= next0.to_set().union(Set::<Coord>::empty()));
        assert(delayed@.to_set() =~= delayed0.to_set().union(Set::<Coord>::empty()));
    }
    while i < todo.len()
        invariant
            i <= todo.len(),
            extent == grid@.extent,
            visited.extent() == extent,
            forall|k: int| 0 <= k < todo.len() ==> extent.contains(todo[k]),
            visited.marked() == marked0.union(todo@.take(i as int).to_set().difference(marked0)),
            records(layer@, grid@, color, todo@.take(i as int).to_set().difference(marked0)),
            next@.to_set() == next0.to_set().union(
                spread(grid@, color, todo@.take(i as int).to_set().difference(marked0)),
            ),
            delayed@.to_set() == delayed0.to_set().union(
                spread_late(grid@, color, todo@.take(i as int).to_set().difference(marked0)),
            ),
        decreases todo.len() - i,
    {
        let p = todo[i];
        let ghost done = todo@.take(i as int).to_set().difference(marked0);
        let ghost taken = todo@.take(i + 1).to_set().difference(marked0);
        proof {
            assert(todo@.take(i + 1) =~= todo@.take(i as int).push(p));
            assert forall|c: Coord|
                todo@.take(i + 1).to_set().contains(c) <==> todo@.take(i as int).to_set().contains(
                    c,
                ) || c == p by {
                lemma_concat_contains(todo@.take(i as int), seq![p], c);
                assert(todo@.take(i as int).push(p) =~= todo@.take(i as int) + seq![p]);
                assert(seq![p].contains(c) <==> c == p) by {
                    if c == p {
                        assert(seq![p][0] == c);
                    }
                }
            }
        }
        if !visited.is_marked(p) {
            let ghost before = layer@;
            let ghost next1 = next@;
            let ghost delayed1 = delayed@;
            visited.mark(p);
            let r = role(grid.get(p), color);
            layer.push(Visit { cell: p, role: r });
            match r {
                Role::Free => {
                    push_neighbours(extent, p, next);
                    proof {
                        lemma_concat_set(next1, neighbours(extent, p));
                    }
                },
                Role::Transit => {
                    push_flat_neighbours(extent, p, next);
                    proof {
                        lemma_concat_set(next1, flat_neighbours(extent, p));
                    }
                },
                Role::Stranger => {
                    push_neighbours(extent, p, delayed);
                    proof {
                        lemma_concat_set(delayed1, neighbours(extent, p));
                    }
                },
                Role::Absorbing => {},
            }
            proof {
                assert(taken =~= done.insert(p));
                lemma_spread_insert(grid@, color, done, p);
                lemma_passed_on(grid@, color, p);
                assert(visited.marked() =~= marked0.union(taken));
                assert(next@.to_set() =~= next0.to_set().union(spread(grid@, color, taken)));
                assert(delayed@.to_set() =~= delayed0.to_set().union(
                    spread_late(grid@, color, taken),
                ));
                assert(layer@ == before.push(Visit { cell: p, role: r }));
                assert(layer@[before.len() as int].cell == p);
                assert forall|c: Coord| #[trigger] taken.contains(c) implies exists|k: int|
                    0 <= k < layer@.len() && (#[trigger] layer@[k]).cell == c by {
                    if c == p {
                        assert(layer@[before.len() as int].cell == c);
                    } else {
                        assert(done.contains(c));
                        let k = choose|k: int| 0 <= k < before.len() && (#[trigger] before[k]).cell
                            == c;
                        assert(layer@[k].cell == c);
                    }
                }
            }
        } else {
            proof {
                assert(taken =~= done);
            }
        }
        i += 1;
    }
    proof {
        assert(todo@.take(i as int) =~= todo@);
    }
    layer
}

/// Runs the wave of `job` over `grid` and returns, layer by layer, the cells
/// that it visited and the role in which it met each.
///
/// The wave ends at the first layer before which nothing is due any more. Each
/// layer of the result lists the cells of that layer once each; the order
/// inside a layer carries no meaning.
pub fn trace_wave(grid: &LabelGrid, job: Job) -> (trace: Vec<Vec<Visit>>)
    requires
        grid@.extent.contains(job.origin),
    ensures
        front(grid@, job, trace.len() as nat).quiet(),
        forall|n: nat| n < trace.len() ==> !front(grid@, job, n).quiet(),
        forall|n: int|
            0 <= n < trace.len() ==> records(
                #[trigger] trace[n]@,
                grid@,
                job.color,
                wavefront(grid@, job, n as nat),
            ),
        trace.len() <= 3 * grid@.extent.volume() + 1,
{
    let extent = grid.extent();
    let mut visited = MarkGrid::new(extent);
    let mut due: Vec<Coord> = Vec::new();
    due.push(job.origin);
    let mut later: Vec<Coord> = Vec::new();
    let mut latest: Vec<Coord> = Vec::new();
    let mut trace: Vec<Vec<Visit>> = Vec::new();
    proof {
        assert(due@.to_set() =~= Set::empty().insert(job.origin)) by {
            assert(due@[0] == job.origin);
        }
        assert(later@.to_set() =~= Set::<Coord>::empty());
        assert(latest@.to_set() =~= Set::<Coord>::empty());
        lemma_cells_bounded(extent, Set::empty());
        assert(pending_tiers(front(grid@, job, 0)) == 1) by {
            assert(front(grid@, job, 0).due.contains(job.origin));
        }
    }
    while due.len() > 0 || later.len() > 0 || latest.len() > 0
        invariant
            extent == grid@.extent,
            visited.extent() == extent,
            visited.marked() == front(grid@, job, trace.len() as nat).seen,
            due@.to_set() == front(grid@, job, trace.len() as nat).due,
            later@.to_set() == front(grid@, job, trace.len() as nat).later,
            latest@.to_set() == front(grid@, job, trace.len() as nat).latest,
            front(grid@, job, trace.len() as nat).seen.finite(),
            forall|c: Coord|
                front(grid@, job, trace.len() as nat).seen.contains(c) ==> extent.contains(c),
            forall|k: int| 0 <= k < due.len() ==> extent.contains(due[k]),
            forall|k: int| 0 <= k < later.len() ==> extent.contains(later[k]),
            forall|k: int| 0 <= k < latest.len() ==> extent.contains(latest[k]),
            forall|n: nat| n < trace.len() ==> !front(grid@, job, n).quiet(),
            forall|n: int|
                0 <= n < trace.len() ==> records(
                    #[trigger] trace[n]@,
                    grid@,
                    job.color,
                    wavefront(grid@, job, n as nat),
                ),
            trace.len() + 3 * (extent.volume() - front(grid@, job, trace.len() as nat).seen.len())
                + pending_tiers(front(grid@, job, trace.len() as nat)) <= 3 * extent.volume() + 1,
            front(grid@, job, trace.len() as nat).seen.len() <= extent.volume(),
        decreases
                3 * (extent.volume() - front(grid@, job, trace.len() as nat).seen.len())
                    + pending_tiers(front(grid@, job, trace.len() as nat)),
    {
        let ghost n = trace.len() as nat;
        let ghost f = front(grid@, job, n);
        let ghost old_trace = trace@;
        proof {
            lemma_empty_set(due@);
            lemma_empty_set(later@);
            lemma_empty_set(latest@);
        }
        let todo = due;
        due = later;
        later = latest;
        latest = Vec::new();
        let ghost passed = due@;
        let layer = sweep(grid, job.color, &todo, &mut visited, &mut due, &mut latest);
        trace.push(layer);
        proof {
            let g = front(grid@, job, n + 1);
            assert(g == f.advance(grid@, job.color));
            assert(latest@.to_set() =~= g.latest) by {
                assert(Seq::<Coord>::empty().to_set() =~= Set::<Coord>::empty());
            }
            assert(todo@.to_set().finite());
            assert(f.fresh().subset_of(todo@.to_set()));
            vstd::set_lib::lemma_len_subset(f.fresh(), todo@.to_set());
            assert forall|c: Coord| g.seen.contains(c) implies extent.contains(c) by {
                if !f.seen.contains(c) {
                    let k = choose|k: int| 0 <= k < todo@.len() && todo@[k] == c;
                }
            }
            lemma_cells_bounded(extent, g.seen);
            assert forall|k: int| 0 <= k < due.len() implies extent.contains(due[k]) by {
                let c = due[k];
                assert(due@.to_set().contains(c));
                if passed.to_set().contains(c) {
                    let j = choose|j: int| 0 <= j < passed.len() && passed[j] == c;
                } else {
                    assert(spread(grid@, job.color, f.fresh()).contains(c));
                }
            }
            assert forall|k: int| 0 <= k < latest.len() implies extent.contains(latest[k]) by {
                let c = latest[k];
                assert(latest@.to_set().contains(c));
                assert(spread_late(grid@, job.color, f.fresh()).contains(c));
            }
            assert forall|m: int| 0 <= m < trace.len() implies records(
                #[trigger] trace[m]@,
                grid@,
                job.color,
                wavefront(grid@, job, m as nat),
            ) by {
                if m < n {
                    assert(trace[m] == old_trace[m]);
                }
            }
            if f.fresh().is_empty() {
                lemma_spread_empty(grid@, job.color);
                assert(f.fresh() =~= Set::<Coord>::empty());
                assert(g.seen =~= f.seen);
                assert(g.due =~= f.later);
                assert(g.latest =~= Set::<Coord>::empty());
            } else {
                let c = f.fresh().choose();
                assert(f.seen.insert(c).subset_of(g.seen));
                vstd::set_lib::lemma_len_subset(f.seen.insert(c), g.seen);
            }
        }
    }
    proof {
        lemma_empty_set(due@);
        lemma_empty_set(later@);
        lemma_empty_set(latest@);
    }
    trace
}

/// Two records of the same cells hold the same visits, each once: they differ
/// in order at most.
pub proof fn lemma_records_agree(
    a: Seq<Visit>,
    b: Seq<Visit>,
    v: Volume,
    color: Color,
    cells: Set<Coord>,
)
    requires
        records(a, v, color, cells),
        records(b, v, color, cells),
    ensures
        a.to_multiset() == b.to_multiset(),
{
    lemma_record_counts(a, v, color, cells);
    lemma_record_counts(b, v, color, cells);
    assert(a.to_multiset() =~= b.to_multiset());
}

/// A record holds a visit once if its cell is one of the recorded cells and
/// its role is the one in which the wave meets that cell, and not at all otherwise.
proof fn lemma_record_counts(a: Seq<Visit>, v: Volume, color: Color, cells: Set<Coord>)
    requires
        records(a, v, color, cells),
    ensures
        forall|t: Visit|
            #[trigger] a.to_multiset().count(t) == if cells.contains(t.cell) && t.role == role_of(
                v.label(t.cell),
                color,
            ) {
                1nat
            } else {
                0nat
            },
{
    broadcast use vstd::seq_lib::group_to_multiset_ensures;

    assert(a.no_duplicates()) by {
        assert forall|i: int, j: int| 0 <= i < a.len() && 0 <= j < a.len() && i != j implies a[i]
            != a[j] by {
            if i < j {
                assert(a[i].cell != a[j].cell);
            } else {
                assert(a[j].cell != a[i].cell);
            }
        }
    }
    a.lemma_multiset_has_no_duplicates();
    assert forall|t: Visit|
        #[trigger] a.to_multiset().count(t) == if cells.contains(t.cell) && t.role == role_of(
            v.label(t.cell),
            color,
        ) {
            1nat
        } else {
            0nat
        } by {
        if cells.contains(t.cell) && t.role == role_of(v.label(t.cell), color) {
            let i = choose|i: int| 0 <= i < a.len() && (#[trigger] a[i]).cell == t.cell;
            assert(a[i] == t);
            assert(a.contains(t));
            assert(a.to_multiset().count(t) > 0);
        } else {
            if a.to_multiset().count(t) > 0 {
                assert(a.contains(t));
                let i = choose|i: int| 0 <= i < a.len() && a[i] == t;
                assert(cells.contains(a[i].cell));
            }
        }
    }
}

/// A wave visits no cell twice: the cells of two different layers are distinct.
pub proof fn lemma_visited_once(v: Volume, job: Job, m: nat, n: nat, c: Coord)
    requires
        m < n,
        wavefront(v, job, m).contains(c),
    ensures
        !wavefront(v, job, n).contains(c),
{
    lemma_seen_grows(v, job, m + 1, n, c);
}

/// A cell that a wave has visited stays visited.
proof fn lemma_seen_grows(v: Volume, job: Job, m: nat, n: nat, c: Coord)
    requires
        m <= n,
        front(v, job, m).seen.contains(c),
    ensures
        front(v, job, n).seen.contains(c),
    decreases n - m,
{
    if m < n {
        lemma_seen_grows(v, job, m, (n - 1) as nat, c);
    }
}

} // verus!
