//! The legality oracle as spec functions: marching along a direction,
//! the legal rectangle for a point and direction, the reverse probes, and
//! the segments a placed rectangle takes.

use vstd::prelude::*;
use crate::geometry::{Direction, P};
use crate::grid::{Grid, MAX_N, at, in_grid, with_point};

verus! {

/// How many steps along `d` stay inside an `n`-grid from `p`, plus one.
pub open spec fn steps_left(n: int, p: P, d: Direction) -> int {
    let v = d.vec();
    if v.x == 1 {
        n - p.x
    } else if v.x == -1 {
        p.x + 1
    } else if v.y == 1 {
        n - p.y
    } else {
        p.y + 1
    }
}

/// The next corner found by marching from `p` along `d`: unused points are
/// passed through unless a side already runs along the line there; the
/// first vertex met is the corner, unless a side already leaves it back
/// along the line or along `turned`.
#[verifier::opaque]
pub open spec fn ray(g: Grid, p: P, d: Direction, turned: Direction) -> Option<P>
    decreases steps_left(g.len() as int, p, d),
{
    let q = p.plus(d.vec());
    if g.len() > MAX_N || !in_grid(g.len() as int, p) || !in_grid(g.len() as int, q) {
        None
    } else if !at(g, q).is_point_used {
        if at(g, q).has(d) || at(g, q).has(d.flip()) {
            None
        } else {
            ray(g, q, d, turned)
        }
    } else if at(g, q).has(d.flip()) || at(g, q).has(turned) {
        None
    } else {
        Some(q)
    }
}

pub(crate) proof fn lemma_shift_step(p: P, v: P, j: int)
    requires
        i32::MIN <= p.x + v.x <= i32::MAX,
        i32::MIN <= p.y + v.y <= i32::MAX,
    ensures
        p.plus(v).shifted(v, j - 1) == p.shifted(v, j),
        p.shifted(v, 1) == p.plus(v),
{
    assert((j - 1) * v.x + v.x == j * v.x) by (nonlinear_arith);
    assert((j - 1) * v.y + v.y == j * v.y) by (nonlinear_arith);
}

/// What a successful march established: the corner lies `k >= 1` steps
/// away, every point passed through is an unused point with the line free,
/// and the corner is a vertex free back along the line and along `turned`.
pub proof fn lemma_ray(g: Grid, p: P, d: Direction, turned: Direction) -> (k: int)
    requires
        ray(g, p, d, turned) is Some,
    ensures
        1 <= k < steps_left(g.len() as int, p, d),
        steps_left(g.len() as int, p, d) <= g.len(),
        g.len() <= MAX_N,
        in_grid(g.len() as int, p),
        in_grid(g.len() as int, ray(g, p, d, turned)->Some_0),
        ray(g, p, d, turned)->Some_0 == p.shifted(d.vec(), k),
        at(g, ray(g, p, d, turned)->Some_0).is_point_used,
        !at(g, ray(g, p, d, turned)->Some_0).has(d.flip()),
        !at(g, ray(g, p, d, turned)->Some_0).has(turned),
        forall|j: int|
            0 < j < k ==> {
                &&& in_grid(g.len() as int, #[trigger] p.shifted(d.vec(), j))
                &&& !at(g, p.shifted(d.vec(), j)).is_point_used
                &&& !at(g, p.shifted(d.vec(), j)).has(d)
                &&& !at(g, p.shifted(d.vec(), j)).has(d.flip())
            },
    decreases steps_left(g.len() as int, p, d),
{
    reveal(ray);
    let v = d.vec();
    let q = p.plus(v);
    lemma_shift_step(p, v, 1);
    if at(g, q).is_point_used {
        1
    } else {
        let k1 = lemma_ray(g, q, d, turned);
        lemma_shift_step(p, v, k1 + 1);
        assert forall|j: int| 0 < j < k1 + 1 implies {
            &&& in_grid(g.len() as int, #[trigger] p.shifted(v, j))
            &&& !at(g, p.shifted(v, j)).is_point_used
            &&& !at(g, p.shifted(v, j)).has(d)
            &&& !at(g, p.shifted(v, j)).has(d.flip())
        } by {
            lemma_shift_step(p, v, j);
            if j > 1 {
                assert(q.shifted(v, j - 1) == p.shifted(v, j));
            }
        }
        k1 + 1
    }
}

/// A rectangle: `p1` is the new corner, and the corners follow each other
/// along `d`, `d` turned once, twice and three times.
#[derive(Debug, Clone, Copy, PartialEq, Eq, Structural)]
pub struct Rect {
    pub p1: P,
    pub p2: P,
    pub p3: P,
    pub p4: P,
    pub d: Direction,
}

/// The rectangle with new corner `p1` whose first side runs along `d`, if
/// the grid allows it.
#[verifier::opaque]
pub open spec fn legal_rect_spec(g: Grid, p1: P, d: Direction) -> Option<Rect> {
    let d2 = d.rot();
    let d3 = d2.rot();
    let d4 = d3.rot();
    if !in_grid(g.len() as int, p1) || at(g, p1).is_point_used {
        None
    } else {
        match ray(g, p1, d, d2) {
            None => None,
            Some(p2) => match ray(g, p2, d2, d3) {
                None => None,
                Some(p3) => match ray(g, p3, d3, d4) {
                    None => None,
                    Some(p4) => match ray(with_point(g, p1), p4, d4, d4.rot()) {
                        Some(q) => if q == p1 {
                            Some(Rect { p1, p2, p3, p4, d })
                        } else {
                            None
                        },
                        None => None,
                    },
                },
            },
        }
    }
}

/// The rectangle that `x` would close as its second corner, with first side
/// along `d`: march on to the third and fourth corners, then check the
/// rectangle whose new corner completes the parallelogram.
#[verifier::opaque]
pub open spec fn as_next_p2_spec(g: Grid, x: P, d: Direction) -> Option<Rect> {
    match ray(g, x, d.rot(), d.flip()) {
        None => None,
        Some(p3) => match ray(g, p3, d.flip(), d.flip().rot()) {
            None => None,
            Some(p4) => legal_rect_spec(g, x.plus(p4.minus(p3)), d),
        },
    }
}

/// The rectangle that `x` would close as its third corner.
#[verifier::opaque]
pub open spec fn as_next_p3_spec(g: Grid, x: P, d: Direction) -> Option<Rect> {
    match ray(g, x, d.flip().rot(), d.flip()) {
        None => None,
        Some(p2) => match ray(g, x, d.flip(), d.flip().rot()) {
            None => None,
            Some(p4) => legal_rect_spec(g, p2.plus(p4.minus(x)), d),
        },
    }
}

/// The rectangle that `x` would close as its fourth corner.
#[verifier::opaque]
pub open spec fn as_next_p4_spec(g: Grid, x: P, d: Direction) -> Option<Rect> {
    match ray(g, x, d, d.flip().rot()) {
        None => None,
        Some(p3) => match ray(g, p3, d.flip().rot(), d.flip()) {
            None => None,
            Some(p2) => legal_rect_spec(g, p2.plus(x.minus(p3)), d),
        },
    }
}

/// A rectangle the oracle returns starts at the asked point and direction.
pub proof fn lemma_legal_rect_fields(g: Grid, p1: P, d: Direction)
    ensures
        legal_rect_spec(g, p1, d) matches Some(r) ==> r.p1 == p1 && r.d == d,
{
    reveal(legal_rect_spec);
}

/// How many steps along `e` lead from `a` to `q`, when `q` lies on that line.
pub open spec fn offset(a: P, e: Direction, q: P) -> int {
    let v = e.vec();
    if v.x == 1 {
        q.x - a.x
    } else if v.x == -1 {
        a.x - q.x
    } else if v.y == 1 {
        q.y - a.y
    } else {
        a.y - q.y
    }
}

/// Whether the side from `a` to `b` along `e` takes the segment leaving `q`
/// along `f`: its start along `e`, its end back along the flip of `e`, and
/// each point in between both ways.
pub open spec fn on_side(a: P, b: P, e: Direction, q: P, f: Direction) -> bool {
    let k = offset(a, e, b);
    let j = offset(a, e, q);
    &&& q == a.shifted(e.vec(), j)
    &&& 0 <= j <= k
    &&& ((j < k && f == e) || (j > 0 && f == e.flip()))
}

/// Whether placing `r` takes the segment leaving `q` along `f`.
pub open spec fn rect_marks(r: Rect, q: P, f: Direction) -> bool {
    let d2 = r.d.rot();
    let d3 = d2.rot();
    let d4 = d3.rot();
    ||| on_side(r.p1, r.p2, r.d, q, f)
    ||| on_side(r.p2, r.p3, d2, q, f)
    ||| on_side(r.p3, r.p4, d3, q, f)
    ||| on_side(r.p4, r.p1, d4, q, f)
}

pub(crate) proof fn lemma_offset_shift(a: P, e: Direction, j: int)
    requires
        0 <= a.x <= MAX_N,
        0 <= a.y <= MAX_N,
        0 <= j <= MAX_N,
    ensures
        offset(a, e, a.shifted(e.vec(), j)) == j,
        a.shifted(e.vec(), 0) == a,
{
    let v = e.vec();
    assert(0 * v.x == 0 && 0 * v.y == 0);
    match e {
        Direction::D => {},
        Direction::DR => {},
        Direction::R => {},
        Direction::UR => {},
        Direction::U => {},
        Direction::UL => {},
        Direction::L => {},
        Direction::DL => {},
    }
}

pub open spec fn opt_seq(o: Option<Rect>) -> Seq<Rect> {
    match o {
        Some(r) => seq![r],
        None => Seq::empty(),
    }
}

/// The rectangles the oracle finds at `p` for the first `k` directions, in
/// index order.
pub open spec fn scan_dirs(g: Grid, p: P, k: nat) -> Seq<Rect>
    decreases k,
{
    if k == 0 {
        Seq::empty()
    } else {
        scan_dirs(g, p, (k - 1) as nat) + opt_seq(
            legal_rect_spec(g, p, Direction::of_idx(k - 1)),
        )
    }
}

/// The rectangles found at the first `j` points of row `i`.
pub open spec fn scan_cols(g: Grid, i: int, j: nat) -> Seq<Rect>
    decreases j,
{
    if j == 0 {
        Seq::empty()
    } else {
        scan_cols(g, i, (j - 1) as nat) + scan_dirs(
            g,
            P { x: i as i32, y: (j - 1) as i32 },
            8,
        )
    }
}

/// The rectangles found in the first `i` rows.
pub open spec fn scan_rows(g: Grid, i: nat) -> Seq<Rect>
    decreases i,
{
    if i == 0 {
        Seq::empty()
    } else {
        scan_rows(g, (i - 1) as nat) + scan_cols(g, i - 1, g.len())
    }
}

/// The full scan of a grid: every point by row, then column, and at each
/// point every direction by index, keeping each rectangle the oracle finds.
pub open spec fn scan(g: Grid) -> Seq<Rect> {
    scan_rows(g, g.len())
}

/// The moves of `rs` that are still legal on `g`, as the oracle returns them.
pub open spec fn revalidated(g: Grid, rs: Seq<Rect>) -> Seq<Rect>
    decreases rs.len(),
{
    if rs.len() == 0 {
        Seq::empty()
    } else {
        revalidated(g, rs.drop_last()) + opt_seq(
            legal_rect_spec(g, rs.last().p1, rs.last().d),
        )
    }
}

/// The moves that `x` closes as second, third or fourth corner, for the
/// first `k` directions in index order.
pub open spec fn probes(g: Grid, x: P, k: nat) -> Seq<Rect>
    decreases k,
{
    if k == 0 {
        Seq::empty()
    } else {
        let d = Direction::of_idx(k - 1);
        probes(g, x, (k - 1) as nat) + opt_seq(as_next_p2_spec(g, x, d)) + opt_seq(
            as_next_p3_spec(g, x, d),
        ) + opt_seq(as_next_p4_spec(g, x, d))
    }
}

pub(crate) proof fn lemma_probe_sound(g: Grid, x: P, d: Direction)
    ensures
        as_next_p2_spec(g, x, d) matches Some(r) ==> legal_rect_spec(g, r.p1, r.d) == Some(r),
        as_next_p3_spec(g, x, d) matches Some(r) ==> legal_rect_spec(g, r.p1, r.d) == Some(r),
        as_next_p4_spec(g, x, d) matches Some(r) ==> legal_rect_spec(g, r.p1, r.d) == Some(r),
{
    reveal(as_next_p2_spec);
    reveal(as_next_p3_spec);
    reveal(as_next_p4_spec);
    if let Some(p3) = ray(g, x, d.rot(), d.flip()) {
        if let Some(p4) = ray(g, p3, d.flip(), d.flip().rot()) {
            lemma_legal_rect_fields(g, x.plus(p4.minus(p3)), d);
        }
    }
    if let Some(p2) = ray(g, x, d.flip().rot(), d.flip()) {
        if let Some(p4) = ray(g, x, d.flip(), d.flip().rot()) {
            lemma_legal_rect_fields(g, p2.plus(p4.minus(x)), d);
        }
    }
    if let Some(p3) = ray(g, x, d, d.flip().rot()) {
        if let Some(p2) = ray(g, p3, d.flip().rot(), d.flip()) {
            lemma_legal_rect_fields(g, p2.plus(x.minus(p3)), d);
        }
    }
}

/// The side from `a` to `b` along `e` is at least one step long and lies in
/// an `n`-grid.
pub open spec fn side_in_grid(n: int, a: P, b: P, e: Direction) -> bool {
    &&& offset(a, e, b) >= 1
    &&& b == a.shifted(e.vec(), offset(a, e, b))
    &&& forall|j: int| 0 <= j <= offset(a, e, b) ==> in_grid(n, #[trigger] a.shifted(e.vec(), j))
}

pub(crate) proof fn lemma_ray_side(g: Grid, p: P, d: Direction, turned: Direction)
    requires
        ray(g, p, d, turned) is Some,
    ensures
        side_in_grid(g.len() as int, p, ray(g, p, d, turned)->Some_0, d),
{
    let k = lemma_ray(g, p, d, turned);
    lemma_offset_shift(p, d, k);
}

/// The four sides of a legal rectangle lie in the grid.
pub(crate) proof fn lemma_rect_sides(g: Grid, r: Rect)
    requires
        legal_rect_spec(g, r.p1, r.d) == Some(r),
    ensures
        g.len() <= MAX_N,
        in_grid(g.len() as int, r.p1),
        !at(g, r.p1).is_point_used,
        side_in_grid(g.len() as int, r.p1, r.p2, r.d),
        side_in_grid(g.len() as int, r.p2, r.p3, r.d.rot()),
        side_in_grid(g.len() as int, r.p3, r.p4, r.d.rot().rot()),
        side_in_grid(g.len() as int, r.p4, r.p1, r.d.rot().rot().rot()),
{
    reveal(legal_rect_spec);
    let d = r.d;
    lemma_ray_side(g, r.p1, d, d.rot());
    lemma_ray_side(g, r.p2, d.rot(), d.rot().rot());
    lemma_ray_side(g, r.p3, d.rot().rot(), d.rot().rot().rot());
    lemma_ray_side(with_point(g, r.p1), r.p4, d.rot().rot().rot(), d.rot().rot().rot().rot());
    lemma_ray(g, r.p1, d, d.rot());
}

} // verus!
