//! The lattice on which waves and searches move.

use vstd::prelude::*;
use crate::grid::{Coord, Extent};

verus! {

/// `c` is one step from `p` along x or z, on the same level.
pub open spec fn adjacent_flat(p: Coord, c: Coord) -> bool {
    p.y == c.y && ((p.z == c.z && (p.x + 1 == c.x || c.x + 1 == p.x)) || (p.x == c.x && (p.z + 1
        == c.z || c.z + 1 == p.z)))
}

/// `c` is one step from `p` along one of the three axes.
pub open spec fn adjacent(p: Coord, c: Coord) -> bool {
    adjacent_flat(p, c) || (p.x == c.x && p.z == c.z && (p.y + 1 == c.y || c.y + 1 == p.y))
}

/// `s` with `c` appended where `keep` holds.
pub open spec fn push_if(s: Seq<Coord>, keep: bool, c: Coord) -> Seq<Coord> {
    if keep {
        s.push(c)
    } else {
        s
    }
}

/// The neighbours of `p` along x, inside the extents: the lower one first.
pub open spec fn along_x(extent: Extent, p: Coord) -> Seq<Coord> {
    push_if(
        push_if(Seq::empty(), p.x > 0, Coord { x: (p.x - 1) as usize, y: p.y, z: p.z }),
        p.x + 1 < extent.width,
        Coord { x: (p.x + 1) as usize, y: p.y, z: p.z },
    )
}

/// The neighbours of `p` along y, inside the extents: the lower one first.
pub open spec fn along_y(extent: Extent, p: Coord) -> Seq<Coord> {
    push_if(
        push_if(Seq::empty(), p.y > 0, Coord { x: p.x, y: (p.y - 1) as usize, z: p.z }),
        p.y + 1 < extent.height,
        Coord { x: p.x, y: (p.y + 1) as usize, z: p.z },
    )
}

/// The neighbours of `p` along z, inside the extents: the lower one first.
pub open spec fn along_z(extent: Extent, p: Coord) -> Seq<Coord> {
    push_if(
        push_if(Seq::empty(), p.z > 0, Coord { x: p.x, y: p.y, z: (p.z - 1) as usize }),
        p.z + 1 < extent.depth,
        Coord { x: p.x, y: p.y, z: (p.z + 1) as usize },
    )
}

/// The up to six neighbours of `p` inside the extents, along x, then y, then z.
pub open spec fn neighbours(extent: Extent, p: Coord) -> Seq<Coord> {
    along_x(extent, p) + along_y(extent, p) + along_z(extent, p)
}

/// The up to four neighbours of `p` on its own level, along x, then z.
pub open spec fn flat_neighbours(extent: Extent, p: Coord) -> Seq<Coord> {
    along_x(extent, p) + along_z(extent, p)
}

/// The neighbours of a cell are the cells of the volume one step from it.
pub proof fn lemma_neighbours(extent: Extent, p: Coord, c: Coord)
    requires
        extent.contains(p),
    ensures
        neighbours(extent, p).contains(c) <==> extent.contains(c) && adjacent(p, c),
        flat_neighbours(extent, p).contains(c) <==> extent.contains(c) && adjacent_flat(p, c),
{
    let xs = along_x(extent, p);
    let ys = along_y(extent, p);
    let zs = along_z(extent, p);
    let west = Coord { x: (p.x - 1) as usize, y: p.y, z: p.z };
    let east = Coord { x: (p.x + 1) as usize, y: p.y, z: p.z };
    let up = Coord { x: p.x, y: (p.y - 1) as usize, z: p.z };
    let down = Coord { x: p.x, y: (p.y + 1) as usize, z: p.z };
    let near = Coord { x: p.x, y: p.y, z: (p.z - 1) as usize };
    let far = Coord { x: p.x, y: p.y, z: (p.z + 1) as usize };
    assert(xs.contains(c) <==> (p.x > 0 && c == west) || (p.x + 1 < extent.width && c == east)) by {
        lemma_pair_contains(p.x > 0, west, p.x + 1 < extent.width, east, c);
    }
    assert(ys.contains(c) <==> (p.y > 0 && c == up) || (p.y + 1 < extent.height && c == down)) by {
        lemma_pair_contains(p.y > 0, up, p.y + 1 < extent.height, down, c);
    }
    assert(zs.contains(c) <==> (p.z > 0 && c == near) || (p.z + 1 < extent.depth && c == far)) by {
        lemma_pair_contains(p.z > 0, near, p.z + 1 < extent.depth, far, c);
    }
    lemma_concat_contains(xs, ys, c);
    lemma_concat_contains(xs + ys, zs, c);
    lemma_concat_contains(xs, zs, c);
}

/// Membership in a sequence of at most two conditional items.
proof fn lemma_pair_contains(first: bool, a: Coord, second: bool, b: Coord, c: Coord)
    ensures
        push_if(push_if(Seq::empty(), first, a), second, b).contains(c) <==> (first && c == a) || (
        second && c == b),
{
    let s = push_if(push_if(Seq::empty(), first, a), second, b);
    if (first && c == a) || (second && c == b) {
        if second && c == b {
            assert(s[s.len() - 1] == c);
        } else {
            assert(s[0] == c);
        }
    }
}

/// Membership in a concatenation.
pub proof fn lemma_concat_contains(s: Seq<Coord>, t: Seq<Coord>, c: Coord)
    ensures
        (s + t).contains(c) <==> s.contains(c) || t.contains(c),
{
    if s.contains(c) {
        let i = choose|i: int| 0 <= i < s.len() && s[i] == c;
        assert((s + t)[i] == c);
    }
    if t.contains(c) {
        let i = choose|i: int| 0 <= i < t.len() && t[i] == c;
        assert((s + t)[s.len() + i] == c);
    }
    if (s + t).contains(c) {
        let i = choose|i: int| 0 <= i < (s + t).len() && (s + t)[i] == c;
        if i < s.len() {
            assert(s[i] == c);
        } else {
            assert(t[i - s.len()] == c);
        }
    }
}

/// The members of a concatenation.
pub proof fn lemma_concat_set(s: Seq<Coord>, t: Seq<Coord>)
    ensures
        (s + t).to_set() == s.to_set().union(t.to_set()),
{
    assert forall|c: Coord| (s + t).to_set().contains(c) <==> s.to_set().contains(c)
        || t.to_set().contains(c) by {
        lemma_concat_contains(s, t, c);
    }
    assert((s + t).to_set() =~= s.to_set().union(t.to_set()));
}

/// A sequence has no member exactly when it is empty.
pub proof fn lemma_empty_set(s: Seq<Coord>)
    ensures
        s.to_set().is_empty() <==> s.len() == 0,
{
    if s.len() > 0 {
        assert(s.to_set().contains(s[0]));
    }
}

/// Appends the neighbours of `p` along x.
fn push_along_x(extent: Extent, p: Coord, target: &mut Vec<Coord>)
    requires
        extent.contains(p),
    ensures
        final(target)@ == old(target)@ + along_x(extent, p),
{
    if p.x > 0 {
        target.push(Coord { x: p.x - 1, y: p.y, z: p.z });
    }
    if p.x < extent.width - 1 {
        target.push(Coord { x: p.x + 1, y: p.y, z: p.z });
    }
    assert(target@ =~= old(target)@ + along_x(extent, p));
}

/// Appends the neighbours of `p` along y.
fn push_along_y(extent: Extent, p: Coord, target: &mut Vec<Coord>)
    requires
        extent.contains(p),
    ensures
        final(target)@ == old(target)@ + along_y(extent, p),
{
    if p.y > 0 {
        target.push(Coord { x: p.x, y: p.y - 1, z: p.z });
    }
    if p.y < extent.height - 1 {
        target.push(Coord { x: p.x, y: p.y + 1, z: p.z });
    }
    assert(target@ =~= old(target)@ + along_y(extent, p));
}

/// Appends the neighbours of `p` along z.
fn push_along_z(extent: Extent, p: Coord, target: &mut Vec<Coord>)
    requires
        extent.contains(p),
    ensures
        final(target)@ == old(target)@ + along_z(extent, p),
{
    if p.z > 0 {
        target.push(Coord { x: p.x, y: p.y, z: p.z - 1 });
    }
    if p.z < extent.depth - 1 {
        target.push(Coord { x: p.x, y: p.y, z: p.z + 1 });
    }
    assert(target@ =~= old(target)@ + along_z(extent, p));
}

/// Appends to `target` the neighbours of `p` along all three axes.
pub fn push_neighbours(extent: Extent, p: Coord, target: &mut Vec<Coord>)
    requires
        extent.contains(p),
    ensures
        final(target)@ == old(target)@ + neighbours(extent, p),
{
    push_along_x(extent, p, target);
    push_along_y(extent, p, target);
    push_along_z(extent, p, target);
    assert(target@ =~= old(target)@ + neighbours(extent, p));
}

/// Appends to `target` the neighbours of `p` on its own level.
pub fn push_flat_neighbours(extent: Extent, p: Coord, target: &mut Vec<Coord>)
    requires
        extent.contains(p),
    ensures
        final(target)@ == old(target)@ + flat_neighbours(extent, p),
{
    push_along_x(extent, p, target);
    push_along_z(extent, p, target);
    assert(target@ =~= old(target)@ + flat_neighbours(extent, p));
}

} // verus!
