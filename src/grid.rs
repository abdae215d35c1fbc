//! The grid as a mathematical object: points, vertices and their count.

use vstd::prelude::*;
use crate::cell::DirectedPoint;
use crate::geometry::P;

verus! {

/// Largest grid side handled; keeps coordinates, squared distances and
/// accumulated scores far inside the integer ranges used.
pub const MAX_N: usize = 8192;

/// A grid as rows of points; `g[x][y]` is the point at `(x, y)`.
pub type Grid = Seq<Seq<DirectedPoint>>;

pub open spec fn in_grid(n: int, p: P) -> bool {
    0 <= p.x < n && 0 <= p.y < n
}

pub open spec fn at(g: Grid, p: P) -> DirectedPoint {
    g[p.x as int][p.y as int]
}

/// The grid with the point `p` marked as a vertex.
pub open spec fn with_point(g: Grid, p: P) -> Grid {
    g.update(
        p.x as int,
        g[p.x as int].update(p.y as int, DirectedPoint { is_point_used: true, ..at(g, p) }),
    )
}

/// Number of vertices in a row.
pub open spec fn row_count(s: Seq<DirectedPoint>) -> nat
    decreases s.len(),
{
    if s.len() == 0 {
        0
    } else {
        row_count(s.drop_last()) + if s.last().is_point_used {
            1nat
        } else {
            0nat
        }
    }
}

/// Number of vertices in the grid.
pub open spec fn occupied_count(g: Grid) -> nat
    decreases g.len(),
{
    if g.len() == 0 {
        0
    } else {
        occupied_count(g.drop_last()) + row_count(g.last())
    }
}

pub open spec fn used_as_nat(c: DirectedPoint) -> int {
    if c.is_point_used {
        1
    } else {
        0
    }
}

pub(crate) proof fn lemma_row_count_update(s: Seq<DirectedPoint>, j: int, c: DirectedPoint)
    requires
        0 <= j < s.len(),
    ensures
        row_count(s.update(j, c)) == row_count(s) - used_as_nat(s[j]) + used_as_nat(c),
    decreases s.len(),
{
    let t = s.update(j, c);
    if j == s.len() - 1 {
        assert(t.drop_last() =~= s.drop_last());
    } else {
        assert(t.drop_last() =~= s.drop_last().update(j, c));
        lemma_row_count_update(s.drop_last(), j, c);
    }
}

pub(crate) proof fn lemma_row_count_bound(s: Seq<DirectedPoint>)
    ensures
        row_count(s) <= s.len(),
    decreases s.len(),
{
    if s.len() > 0 {
        lemma_row_count_bound(s.drop_last());
    }
}

pub(crate) proof fn lemma_occupied_update(g: Grid, i: int, row: Seq<DirectedPoint>)
    requires
        0 <= i < g.len(),
    ensures
        occupied_count(g.update(i, row)) == occupied_count(g) - row_count(g[i]) + row_count(row),
    decreases g.len(),
{
    let t = g.update(i, row);
    if i == g.len() - 1 {
        assert(t.drop_last() =~= g.drop_last());
    } else {
        assert(t.drop_last() =~= g.drop_last().update(i, row));
        lemma_occupied_update(g.drop_last(), i, row);
    }
}

/// A square grid of side `n` holds at most `n * n` vertices.
pub proof fn lemma_occupied_bound(g: Grid, n: int)
    requires
        forall|i: int| 0 <= i < g.len() ==> (#[trigger] g[i]).len() == n,
    ensures
        occupied_count(g) <= g.len() * n,
    decreases g.len(),
{
    if g.len() > 0 {
        lemma_occupied_bound(g.drop_last(), n);
        lemma_row_count_bound(g.last());
        assert(g.len() * n == (g.len() - 1) * n + n) by (nonlinear_arith);
    }
}

/// Changing one point of the grid changes the vertex count by the change
/// of that point's flag.
pub(crate) proof fn lemma_occupied_set(g: Grid, p: P, c: DirectedPoint)
    requires
        0 <= p.x < g.len(),
        0 <= p.y < g[p.x as int].len(),
    ensures
        occupied_count(g.update(p.x as int, g[p.x as int].update(p.y as int, c)))
            == occupied_count(g) - used_as_nat(at(g, p)) + used_as_nat(c),
{
    lemma_row_count_update(g[p.x as int], p.y as int, c);
    lemma_occupied_update(g, p.x as int, g[p.x as int].update(p.y as int, c));
}

/// A point with no vertex and no side through it.
pub open spec fn blank() -> DirectedPoint {
    DirectedPoint { is_point_used: false, are_directions_used: 0 }
}

/// A square grid of side at most `MAX_N`.
pub open spec fn square(g: Grid) -> bool {
    &&& g.len() <= MAX_N
    &&& forall|i: int| 0 <= i < g.len() ==> (#[trigger] g[i]).len() == g.len()
}

} // verus!
