//! Postfill: cells of a forbidden zone that the rival territory encloses
//! become pockets of that territory.
//!
//! From each forbidden cell a breadth search moves along x and z, one hop per
//! layer. It passes through cells of the same forbidden zone and through
//! pockets already taken out of it, succeeds when a layer holds a cell of the
//! rival's anchor or area, and counts every other cell that it meets. A layer
//! is examined only while the count of the other cells met in the layers
//! before it is below the cap, and only within the hop budget; the cells of
//! one layer are equally far from the origin, so the other cells of a layer
//! do not count against a target in that same layer.

use vstd::prelude::*;
use crate::grid::{lemma_view_wf, Coord, LabelGrid, Volume};
use crate::label::{Color, Label};
use crate::marks::MarkGrid;
use crate::neighbours::{
    adjacent_flat, flat_neighbours, lemma_concat_contains, lemma_concat_set, lemma_empty_set,
    lemma_neighbours, push_flat_neighbours,
};

verus! {

/// The bounds of a search.
#[derive(Clone, Copy, PartialEq, Eq, Structural, Debug)]
pub struct Limits {
    /// The largest number of hops from the origin at which a cell is still examined.
    pub max_distance: usize,
    /// The number of other cells met at which a search is abandoned.
    pub max_other: usize,
}

/// How a search from a cell forbidden to one territory treats a cell.
#[derive(Clone, Copy, PartialEq, Eq, Structural, Debug)]
pub enum Standing {
    /// Anchor or area of the rival: reaching it ends the search with success.
    Target,
    /// The same forbidden zone, or a pocket taken out of it: the search goes on from it.
    Permeable,
    /// Any other cell: counted, and the search does not go on from it.
    Other,
}

/// How a search from a cell forbidden to `color` treats a cell labelled `label`.
pub open spec fn standing_of(label: Label, color: Color) -> Standing {
    if label == Label::anchor_of(color.rival()) || label == Label::area_of(color.rival()) {
        Standing::Target
    } else if label == Label::forbidden_to(color) || label == Label::pocket_of(color.rival()) {
        Standing::Permeable
    } else {
        Standing::Other
    }
}

/// How a search from a cell forbidden to `color` treats a cell labelled `label`.
pub fn standing(label: Label, color: Color) -> (s: Standing)
    ensures
        s == standing_of(label, color),
{
    match color {
        Color::Red => match label {
            Label::BlueAnchor | Label::BlueArea => Standing::Target,
            Label::RedForbidden | Label::BluePocket => Standing::Permeable,
            _ => Standing::Other,
        },
        Color::Blue => match label {
            Label::RedAnchor | Label::RedArea => Standing::Target,
            Label::BlueForbidden | Label::RedPocket => Standing::Permeable,
            _ => Standing::Other,
        },
    }
}

/// A search for `color` that examines `p` examines `c` one hop later.
pub open spec fn seeps(v: Volume, color: Color, p: Coord, c: Coord) -> bool {
    v.extent.contains(c) && standing_of(v.label(p), color) == Standing::Permeable && adjacent_flat(
        p,
        c,
    )
}

/// The cells that a search reaches in one hop from the cells of `from`.
pub open spec fn seep(v: Volume, color: Color, from: Set<Coord>) -> Set<Coord> {
    Set::new(|c: Coord| exists|p: Coord| from.contains(p) && #[trigger] seeps(v, color, p, c))
}

/// The cells of `among` that a search for `color` counts as other cells.
pub open spec fn strays_of(v: Volume, color: Color, among: Set<Coord>) -> Set<Coord> {
    Set::new(|c: Coord| among.contains(c) && standing_of(v.label(c), color) == Standing::Other)
}

/// The state of a search before one of its layers: the cells examined so
/// far, the cells due in this layer, and the other cells met so far.
pub struct Probe {
    pub seen: Set<Coord>,
    pub due: Set<Coord>,
    pub strays: Set<Coord>,
}

impl Probe {
    /// The state of a search before its first layer.
    pub open spec fn start(origin: Coord) -> Probe {
        Probe { seen: Set::empty(), due: Set::empty().insert(origin), strays: Set::empty() }
    }

    /// The cells that the search examines in this layer.
    pub open spec fn fresh(self) -> Set<Coord> {
        self.due.difference(self.seen)
    }

    /// This layer holds a cell of the rival's anchor or area.
    pub open spec fn found(self, v: Volume, color: Color) -> bool {
        exists|c: Coord|
            self.fresh().contains(c) && #[trigger] standing_of(v.label(c), color)
                == Standing::Target
    }

    /// The state before the next layer.
    pub open spec fn advance(self, v: Volume, color: Color) -> Probe {
        Probe {
            seen: self.seen.union(self.fresh()),
            due: seep(v, color, self.fresh()),
            strays: self.strays.union(strays_of(v, color, self.fresh())),
        }
    }
}

/// Whether a search for `color` in the state `probe`, with `hops` hops left,
/// succeeds.
pub open spec fn search(v: Volume, color: Color, limits: Limits, probe: Probe, hops: nat) -> bool
    decreases hops,
{
    if probe.strays.len() >= limits.max_other {
        false
    } else if probe.found(v, color) {
        true
    } else if hops == 0 {
        false
    } else {
        search(v, color, limits, probe.advance(v, color), (hops - 1) as nat)
    }
}

/// Whether the rival of `color` encloses `origin`: the search from `origin`
/// succeeds within the limits.
pub open spec fn enclosed(v: Volume, origin: Coord, color: Color, limits: Limits) -> bool {
    search(v, color, limits, Probe::start(origin), limits.max_distance as nat)
}

/// What a set of cells reaches when one more cell joins it.
proof fn lemma_seep_insert(v: Volume, color: Color, from: Set<Coord>, p: Coord)
    ensures
        seep(v, color, from.insert(p)) == seep(v, color, from).union(
            Set::new(|c: Coord| seeps(v, color, p, c)),
        ),
{
    let grown = from.insert(p);
    assert forall|c: Coord|
        seep(v, color, grown).contains(c) <==> seep(v, color, from).contains(c) || seeps(
            v,
            color,
            p,
            c,
        ) by {
        if seep(v, color, grown).contains(c) {
            let q = choose|q: Coord| grown.contains(q) && seeps(v, color, q, c);
            if q != p {
                assert(from.contains(q) && seeps(v, color, q, c));
            }
        }
        if seep(v, color, from).contains(c) {
            let q = choose|q: Coord| from.contains(q) && seeps(v, color, q, c);
            assert(grown.contains(q) && seeps(v, color, q, c));
        }
        if seeps(v, color, p, c) {
            assert(grown.contains(p) && seeps(v, color, p, c));
        }
    }
    assert(seep(v, color, grown) =~= seep(v, color, from).union(
        Set::new(|c: Coord| seeps(v, color, p, c)),
    ));
}

/// The cells that an examined cell has appended, as a set.
proof fn lemma_reached(v: Volume, color: Color, p: Coord)
    requires
        v.extent.contains(p),
    ensures
        standing_of(v.label(p), color) == Standing::Permeable ==> flat_neighbours(
            v.extent,
            p,
        ).to_set() == Set::new(|c: Coord| seeps(v, color, p, c)),
        standing_of(v.label(p), color) != Standing::Permeable ==> Set::new(
            |c: Coord| seeps(v, color, p, c),
        ) == Set::<Coord>::empty(),
{
    assert forall|c: Coord|
        flat_neighbours(v.extent, p).contains(c) <==> v.extent.contains(c) && adjacent_flat(
            p,
            c,
        ) by {
        lemma_neighbours(v.extent, p, c);
    }
    if standing_of(v.label(p), color) == Standing::Permeable {
        assert(flat_neighbours(v.extent, p).to_set() =~= Set::new(
            |c: Coord| seeps(v, color, p, c),
        ));
    } else {
        assert(Set::new(|c: Coord| seeps(v, color, p, c)) =~= Set::<Coord>::empty());
    }
}

/// A search with nothing due finds nothing, however many hops it has left.
proof fn lemma_search_spent(v: Volume, color: Color, limits: Limits, probe: Probe, hops: nat)
    requires
        probe.due.is_empty(),
    ensures
        !search(v, color, limits, probe, hops),
    decreases hops,
{
    assert(probe.fresh() =~= Set::<Coord>::empty());
    if hops > 0 {
        let next = probe.advance(v, color);
        assert(next.due =~= Set::<Coord>::empty());
        lemma_search_spent(v, color, limits, next, (hops - 1) as nat);
    }
}

/// The smaller of a count and its cap.
spec fn capped(count: nat, cap: usize) -> int {
    if count < cap {
        count as int
    } else {
        cap as int
    }
}

/// Examines the cells of `todo` that are not marked yet. Returns `true` as
/// soon as one of them is a target. Otherwise every one of them is marked,
/// what it reaches is appended to `next`, and the other cells among them are
/// added to the count, which stops at `cap`.
fn scan(
    grid: &LabelGrid,
    color: Color,
    cap: usize,
    todo: &Vec<Coord>,
    visited: &mut MarkGrid,
    next: &mut Vec<Coord>,
    others: usize,
    Ghost(strays): Ghost<Set<Coord>>,
) -> (r: (bool, usize))
    requires
        old(visited).extent() == grid@.extent,
        forall|i: int| 0 <= i < todo.len() ==> grid@.extent.contains(todo[i]),
        strays.finite(),
        strays.subset_of(old(visited).marked()),
        others == capped(strays.len(), cap),
    ensures
        r.0 == (exists|c: Coord|
            todo@.to_set().difference(old(visited).marked()).contains(c) && #[trigger] standing_of(
                grid@.label(c),
                color,
            ) == Standing::Target),
        final(visited).extent() == old(visited).extent(),
        !r.0 ==> final(visited).marked() == old(visited).marked().union(
            todo@.to_set().difference(old(visited).marked()),
        ),
        !r.0 ==> final(next)@.to_set() == old(next)@.to_set().union(
            seep(grid@, color, todo@.to_set().difference(old(visited).marked())),
        ),
        !r.0 ==> r.1 == capped(
            strays.union(
                strays_of(grid@, color, todo@.to_set().difference(old(visited).marked())),
            ).len(),
            cap,
        ),
        strays.union(
            strays_of(grid@, color, todo@.to_set().difference(old(visited).marked())),
        ).finite(),
{
    let extent = grid.extent();
    let ghost marked0 = visited.marked();
    let ghost next0 = next@;
    let ghost whole = todo@.to_set().difference(marked0);
    let mut count = others;
    let mut i: usize = 0;
    proof {
        assert(todo@.take(0).to_set().difference(marked0) =~= Set::<Coord>::empty());
        assert(seep(grid@, color, Set::empty()) =~= Set::<Coord>::empty());
        assert(strays_of(grid@, color, Set::empty()) =~= Set::<Coord>::empty());
        assert(visited.marked() =~= marked0.union(Set::<Coord>::empty()));
        assert(next@.to_set() =~= next0.to_set().union(Set::<Coord>::empty()));
        assert(strays.union(Set::<Coord>::empty()) =~= strays);
        assert(strays_of(grid@, color, whole).subset_of(todo@.to_set()));
        vstd::set_lib::lemma_len_subset(strays_of(grid@, color, whole), todo@.to_set());
    }
    while i < todo.len()
        invariant
            i <= todo.len(),
            extent == grid@.extent,
            visited.extent() == extent,
            visited.extent() == old(visited).extent(),
            marked0 == old(visited).marked(),
            whole == todo@.to_set().difference(marked0),
            forall|k: int| 0 <= k < todo.len() ==> extent.contains(todo[k]),
            strays.finite(),
            strays.subset_of(marked0),
            strays_of(grid@, color, whole).finite(),
            visited.marked() == marked0.union(todo@.take(i as int).to_set().difference(marked0)),
            forall|c: Coord|
                todo@.take(i as int).to_set().difference(marked0).contains(c) ==> standing_of(
                    grid@.label(c),
                    color,
                ) != Standing::Target,
            next@.to_set() == next0.to_set().union(
                seep(grid@, color, todo@.take(i as int).to_set().difference(marked0)),
            ),
            strays.union(
                strays_of(grid@, color, todo@.take(i as int).to_set().difference(marked0)),
            ).finite(),
            count == capped(
                strays.union(
                    strays_of(grid@, color, todo@.take(i as int).to_set().difference(marked0)),
                ).len(),
                cap,
            ),
        decreases todo.len() - i,
    {
        let p = todo[i];
        let ghost done = todo@.take(i as int).to_set().difference(marked0);
        let ghost taken = todo@.take(i + 1).to_set().difference(marked0);
        proof {
            assert(todo@.take(i + 1) =~= todo@.take(i as int).push(p));
            assert forall|c: Coord|
                todo@.take(i + 1).to_set().contains(c) <==> todo@.take(i as int).to_set().contains(
                    c,
                ) || c == p by {
                lemma_concat_contains(todo@.take(i as int), seq![p], c);
                assert(todo@.take(i as int).push(p) =~= todo@.take(i as int) + seq![p]);
                assert(seq![p].contains(c) <==> c == p) by {
                    if c == p {
                        assert(seq![p][0] == c);
                    }
                }
            }
        }
        if !visited.is_marked(p) {
            let ghost next1 = next@;
            let s = standing(grid.get(p), color);
            proof {
                assert(taken =~= done.insert(p));
                assert(todo@[i as int] == p);
                assert(whole.contains(p));
            }
            match s {
                Standing::Target => {
                    proof {
                        assert(whole.contains(p) && standing_of(grid@.label(p), color)
                            == Standing::Target);
                    }
                    return (true, count);
                },
                Standing::Permeable => {
                    visited.mark(p);
                    push_flat_neighbours(extent, p, next);
                    proof {
                        lemma_seep_insert(grid@, color, done, p);
                        lemma_reached(grid@, color, p);
                        lemma_concat_set(next1, flat_neighbours(extent, p));
                        assert(next@.to_set() =~= next0.to_set().union(seep(grid@, color, taken)));
                        assert(strays_of(grid@, color, taken) =~= strays_of(grid@, color, done));
                    }
                },
                Standing::Other => {
                    visited.mark(p);
                    if count < cap {
                        count += 1;
                    }
                    proof {
                        lemma_seep_insert(grid@, color, done, p);
                        lemma_reached(grid@, color, p);
                        assert(next@.to_set() =~= next0.to_set().union(seep(grid@, color, taken)));
                        let met = strays.union(strays_of(grid@, color, done));
                        assert(strays.union(strays_of(grid@, color, taken)) =~= met.insert(p));
                        assert(!met.contains(p));
                    }
                },
            }
            proof {
                assert(visited.marked() =~= marked0.union(taken));
            }
        } else {
            proof {
                assert(taken =~= done);
            }
        }
        i += 1;
    }
    proof {
        assert(todo@.take(i as int) =~= todo@);
    }
    (false, count)
}

/// Whether the rival of `color` encloses the cell at `origin`: whether the
/// search from `origin` reaches an anchor or area cell of the rival within
/// the limits.
pub fn is_enclosed(grid: &LabelGrid, origin: Coord, color: Color, limits: Limits) -> (b: bool)
    requires
        grid@.extent.contains(origin),
    ensures
        b == enclosed(grid@, origin, color, limits),
{
    let extent = grid.extent();
    let mut visited = MarkGrid::new(extent);
    let mut due: Vec<Coord> = Vec::new();
    due.push(origin);
    let mut others: usize = 0;
    let mut hops: usize = limits.max_distance;
    let ghost mut probe = Probe::start(origin);
    proof {
        assert(due@.to_set() =~= probe.due) by {
            assert(due@[0] == origin);
        }
    }
    loop
        invariant
            extent == grid@.extent,
            visited.extent() == extent,
            visited.marked() == probe.seen,
            due@.to_set() == probe.due,
            forall|k: int| 0 <= k < due.len() ==> extent.contains(due[k]),
            probe.strays.finite(),
            probe.strays.subset_of(probe.seen),
            others == capped(probe.strays.len(), limits.max_other),
            enclosed(grid@, origin, color, limits) == search(
                grid@,
                color,
                limits,
                probe,
                hops as nat,
            ),
        decreases hops,
    {
        if others >= limits.max_other {
            return false;
        }
        if due.len() == 0 {
            proof {
                lemma_empty_set(due@);
                lemma_search_spent(grid@, color, limits, probe, hops as nat);
            }
            return false;
        }
        let todo = due;
        due = Vec::new();
        let (found, count) = scan(
            grid,
            color,
            limits.max_other,
            &todo,
            &mut visited,
            &mut due,
            others,
            Ghost(probe.strays),
        );
        if found {
            return true;
        }
        proof {
            assert(!probe.found(grid@, color));
        }
        if hops == 0 {
            return false;
        }
        proof {
            let next = probe.advance(grid@, color);
            assert(due@.to_set() =~= next.due) by {
                assert(Seq::<Coord>::empty().to_set() =~= Set::<Coord>::empty());
            }
            assert(next.strays.subset_of(next.seen));
            assert forall|k: int| 0 <= k < due.len() implies extent.contains(due[k]) by {
                assert(due@.to_set().contains(due[k]));
                assert(seep(grid@, color, probe.fresh()).contains(due[k]));
            }
            probe = next;
        }
        others = count;
        hops -= 1;
    }
}

/// The label of `c` after postfill: a forbidden cell that the rival encloses
/// becomes the rival's pocket, every other cell keeps its label.
pub open spec fn settled(v: Volume, limits: Limits, c: Coord) -> Label {
    if v.label(c) == Label::RedForbidden && enclosed(v, c, Color::Red, limits) {
        Label::BluePocket
    } else if v.label(c) == Label::BlueForbidden && enclosed(v, c, Color::Blue, limits) {
        Label::RedPocket
    } else {
        v.label(c)
    }
}

/// The volume after postfill.
pub open spec fn pocketed(v: Volume, limits: Limits) -> Volume {
    Volume {
        extent: v.extent,
        cells: Map::new(|c: Coord| v.extent.contains(c), |c: Coord| settled(v, limits, c)),
    }
}

/// Every cell of the volume looks the same in `a` and in `b` to the searches
/// of both territories.
pub open spec fn alike(a: Volume, b: Volume) -> bool {
    &&& a.extent == b.extent
    &&& forall|c: Coord, color: Color|
        a.extent.contains(c) ==> #[trigger] standing_of(a.label(c), color) == standing_of(
            b.label(c),
            color,
        )
}

/// A search goes the same way in two volumes that are alike.
proof fn lemma_same_search(
    a: Volume,
    b: Volume,
    color: Color,
    limits: Limits,
    probe: Probe,
    hops: nat,
)
    requires
        alike(a, b),
        forall|c: Coord| probe.due.contains(c) ==> a.extent.contains(c),
    ensures
        search(a, color, limits, probe, hops) == search(b, color, limits, probe, hops),
    decreases hops,
{
    let fresh = probe.fresh();
    assert forall|c: Coord| fresh.contains(c) implies standing_of(a.label(c), color)
        == standing_of(b.label(c), color) by {
        assert(a.extent.contains(c));
    }
    if probe.found(a, color) {
        let c = choose|c: Coord|
            fresh.contains(c) && standing_of(a.label(c), color) == Standing::Target;
        assert(fresh.contains(c) && standing_of(b.label(c), color) == Standing::Target);
    }
    if probe.found(b, color) {
        let c = choose|c: Coord|
            fresh.contains(c) && standing_of(b.label(c), color) == Standing::Target;
        assert(fresh.contains(c) && standing_of(a.label(c), color) == Standing::Target);
    }
    if hops > 0 {
        let na = probe.advance(a, color);
        let nb = probe.advance(b, color);
        assert forall|c: Coord| seep(a, color, fresh).contains(c) <==> seep(
            b,
            color,
            fresh,
        ).contains(c) by {
            if seep(a, color, fresh).contains(c) {
                let q = choose|q: Coord| fresh.contains(q) && seeps(a, color, q, c);
                assert(fresh.contains(q) && seeps(b, color, q, c));
            }
            if seep(b, color, fresh).contains(c) {
                let q = choose|q: Coord| fresh.contains(q) && seeps(b, color, q, c);
                assert(fresh.contains(q) && seeps(a, color, q, c));
            }
        }
        assert(na.due =~= nb.due);
        assert(strays_of(a, color, fresh) =~= strays_of(b, color, fresh));
        assert(na == nb);
        lemma_same_search(a, b, color, limits, na, (hops - 1) as nat);
    }
}

/// Whether a cell is enclosed is the same in two volumes that are alike.
pub proof fn lemma_same_enclosure(
    a: Volume,
    b: Volume,
    origin: Coord,
    color: Color,
    limits: Limits,
)
    requires
        alike(a, b),
        a.extent.contains(origin),
    ensures
        enclosed(a, origin, color, limits) == enclosed(b, origin, color, limits),
{
    lemma_same_search(a, b, color, limits, Probe::start(origin), limits.max_distance as nat);
}

/// `c` comes before the position `(x, y, z)` when the volume is walked with y
/// slowest and x fastest.
spec fn walked(c: Coord, y: int, z: int, x: int) -> bool {
    c.y < y || (c.y == y && (c.z < z || (c.z == z && c.x < x)))
}

/// The cells before `(x, y, z)` are settled, the others are as they were.
spec fn settled_before(now: Volume, was: Volume, limits: Limits, y: int, z: int, x: int) -> bool {
    &&& now.extent == was.extent
    &&& forall|c: Coord|
        was.extent.contains(c) ==> #[trigger] now.label(c) == if walked(c, y, z, x) {
            settled(was, limits, c)
        } else {
            was.label(c)
        }
}

/// A volume in which some cells are settled is alike to the one it was.
proof fn lemma_settling_alike(now: Volume, was: Volume, limits: Limits, y: int, z: int, x: int)
    requires
        settled_before(now, was, limits, y, z, x),
    ensures
        alike(now, was),
{
    assert forall|c: Coord, color: Color| now.extent.contains(c) implies #[trigger] standing_of(
        now.label(c),
        color,
    ) == standing_of(was.label(c), color) by {
        assert(now.label(c) == settled(was, limits, c) || now.label(c) == was.label(c));
    }
}

/// Postfill: every cell forbidden to one territory that the other territory
/// encloses becomes a pocket of that other territory. Every other cell keeps
/// its label.
pub fn postfill(grid: &mut LabelGrid, limits: Limits)
    ensures
        final(grid)@ == pocketed(old(grid)@, limits),
{
    let extent = grid.extent();
    let mut y: usize = 0;
    while y < extent.height
        invariant
            extent == old(grid)@.extent,
            y <= extent.height,
            settled_before(grid@, old(grid)@, limits, y as int, 0, 0),
        decreases extent.height - y,
    {
        let mut z: usize = 0;
        while z < extent.depth
            invariant
                extent == old(grid)@.extent,
                y < extent.height,
                z <= extent.depth,
                settled_before(grid@, old(grid)@, limits, y as int, z as int, 0),
            decreases extent.depth - z,
        {
            let mut x: usize = 0;
            while x < extent.width
                invariant
                    extent == old(grid)@.extent,
                    y < extent.height,
                    z < extent.depth,
                    x <= extent.width,
                    settled_before(grid@, old(grid)@, limits, y as int, z as int, x as int),
                decreases extent.width - x,
            {
                let c = Coord { x, y, z };
                let label = grid.get(c);
                let ghost prior = grid@;
                proof {
                    lemma_settling_alike(grid@, old(grid)@, limits, y as int, z as int, x as int);
                    lemma_same_enclosure(grid@, old(grid)@, c, Color::Red, limits);
                    lemma_same_enclosure(grid@, old(grid)@, c, Color::Blue, limits);
                    assert(label == old(grid)@.label(c));
                }
                if label == Label::RedForbidden {
                    if is_enclosed(grid, c, Color::Red, limits) {
                        grid.set(c, Label::BluePocket);
                    }
                } else if label == Label::BlueForbidden {
                    if is_enclosed(grid, c, Color::Blue, limits) {
                        grid.set(c, Label::RedPocket);
                    }
                }
                proof {
                    assert(grid@.label(c) == settled(old(grid)@, limits, c));
                    assert forall|o: Coord| extent.contains(o) implies #[trigger] grid@.label(o)
                        == if walked(o, y as int, z as int, x + 1) {
                        settled(old(grid)@, limits, o)
                    } else {
                        old(grid)@.label(o)
                    } by {
                        if o != c {
                            assert(grid@.label(o) == prior.label(o));
                        }
                    }
                }
                x += 1;
            }
            z += 1;
        }
        y += 1;
    }
    proof {
        lemma_view_wf(*grid);
        assert forall|c: Coord| extent.contains(c) implies grid@.cells[c] == settled(
            old(grid)@,
            limits,
            c,
        ) by {
            assert(grid@.label(c) == settled(old(grid)@, limits, c));
        }
        assert(grid@.cells =~= pocketed(old(grid)@, limits).cells);
    }
}

/// Running postfill a second time changes nothing.
pub proof fn lemma_postfill_idempotent(v: Volume, limits: Limits)
    ensures
        pocketed(pocketed(v, limits), limits) == pocketed(v, limits),
{
    let once = pocketed(v, limits);
    assert(alike(once, v)) by {
        assert forall|c: Coord, color: Color| once.extent.contains(c) implies #[trigger] standing_of(
            once.label(c),
            color,
        ) == standing_of(v.label(c), color) by {
            assert(once.label(c) == settled(v, limits, c));
        }
    }
    assert forall|c: Coord| v.extent.contains(c) implies settled(once, limits, c) == settled(
        v,
        limits,
        c,
    ) by {
        assert(once.label(c) == settled(v, limits, c));
        lemma_same_enclosure(once, v, c, Color::Red, limits);
        lemma_same_enclosure(once, v, c, Color::Blue, limits);
    }
    assert(pocketed(once, limits).cells =~= once.cells);
}

/// The state of the search from `origin` before its layer `k`, which holds
/// the cells `k` hops away.
pub open spec fn probe_at(v: Volume, origin: Coord, color: Color, k: nat) -> Probe
    decreases k,
{
    if k == 0 {
        Probe::start(origin)
    } else {
        probe_at(v, origin, color, (k - 1) as nat).advance(v, color)
    }
}

/// The number of steps along x and z between two cells.
pub open spec fn flat_distance(a: Coord, b: Coord) -> int {
    (if a.x <= b.x {
        b.x - a.x
    } else {
        a.x - b.x
    }) + (if a.z <= b.z {
        b.z - a.z
    } else {
        a.z - b.z
    })
}

/// A search that succeeds does so in a layer within the hop budget, before
/// which the count of other cells was below its cap.
pub proof fn lemma_search_within_limits(v: Volume, origin: Coord, color: Color, limits: Limits)
    requires
        enclosed(v, origin, color, limits),
    ensures
        exists|k: nat|
            k <= limits.max_distance && (#[trigger] probe_at(v, origin, color, k)).found(v, color)
                && probe_at(v, origin, color, k).strays.len() < limits.max_other,
{
    lemma_search_from(v, origin, color, limits, 0);
}

/// A search that succeeds from its layer `j` on does so in a layer from `j` on.
proof fn lemma_search_from(v: Volume, origin: Coord, color: Color, limits: Limits, j: nat)
    requires
        j <= limits.max_distance,
        search(
            v,
            color,
            limits,
            probe_at(v, origin, color, j),
            (limits.max_distance - j) as nat,
        ),
    ensures
        exists|k: nat|
            k <= limits.max_distance && (#[trigger] probe_at(v, origin, color, k)).found(v, color)
                && probe_at(v, origin, color, k).strays.len() < limits.max_other,
    decreases limits.max_distance - j,
{
    let probe = probe_at(v, origin, color, j);
    if probe.found(v, color) {
        assert(j <= limits.max_distance && probe_at(v, origin, color, j).found(v, color));
    } else {
        assert(probe_at(v, origin, color, j + 1) == probe.advance(v, color));
        lemma_search_from(v, origin, color, limits, j + 1);
    }
}

/// The cells that a search examines in its layer `k` lie on the level of the
/// origin, at most `k` steps from it, inside the volume.
pub proof fn lemma_layer_within_hops(v: Volume, origin: Coord, color: Color, k: nat, c: Coord)
    requires
        v.extent.contains(origin),
        probe_at(v, origin, color, k).due.contains(c),
    ensures
        v.extent.contains(c),
        c.y == origin.y,
        flat_distance(origin, c) <= k,
    decreases k,
{
    if k > 0 {
        let before = probe_at(v, origin, color, (k - 1) as nat);
        let p = choose|p: Coord| before.fresh().contains(p) && seeps(v, color, p, c);
        lemma_layer_within_hops(v, origin, color, (k - 1) as nat, p);
    }
}

/// Postfill turns a cell into a pocket only where an anchor or area cell of
/// the rival lies on its level within the hop budget, and the search met
/// fewer other cells than the cap before it reached that cell.
pub proof fn lemma_pocket_within_limits(v: Volume, limits: Limits, c: Coord, color: Color)
    requires
        v.extent.contains(c),
        v.label(c) == Label::forbidden_to(color),
        pocketed(v, limits).label(c) == Label::pocket_of(color.rival()),
    ensures
        exists|k: nat, t: Coord|
            k <= limits.max_distance && (#[trigger] probe_at(v, c, color, k)).fresh().contains(t)
                && #[trigger] standing_of(v.label(t), color) == Standing::Target && probe_at(
                v,
                c,
                color,
                k,
            ).strays.len() < limits.max_other && v.extent.contains(t) && t.y == c.y
                && flat_distance(c, t) <= limits.max_distance,
{
    assert(pocketed(v, limits).label(c) == settled(v, limits, c));
    assert(enclosed(v, c, color, limits));
    lemma_search_within_limits(v, c, color, limits);
    let k = choose|k: nat|
        k <= limits.max_distance && (#[trigger] probe_at(v, c, color, k)).found(v, color)
            && probe_at(v, c, color, k).strays.len() < limits.max_other;
    let probe = probe_at(v, c, color, k);
    let t = choose|t: Coord|
        probe.fresh().contains(t) && #[trigger] standing_of(v.label(t), color) == Standing::Target;
    lemma_layer_within_hops(v, c, color, k, t);
    assert(probe_at(v, c, color, k).fresh().contains(t) && standing_of(v.label(t), color)
        == Standing::Target);
}

} // verus!
