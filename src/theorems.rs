//! Facts about legal rectangles and the maintained move list.

use vstd::prelude::*;
use crate::geometry::{Direction, P};
use crate::grid::{Grid, MAX_N, at, in_grid, with_point};
use crate::oracle::{
    Rect, legal_rect_spec, lemma_legal_rect_fields, lemma_offset_shift, lemma_ray,
    lemma_rect_sides, offset, on_side, opt_seq, ray, rect_marks, scan, scan_cols, scan_dirs,
    scan_rows, side_in_grid,
};
use crate::state::State;

verus! {

/// Two perpendicular steps of positive lengths never lead back to the start.
proof fn lemma_no_return(a: P, d: Direction, k1: int, k2: int)
    requires
        0 <= a.x < 8192,
        0 <= a.y < 8192,
        1 <= k1 < 8192,
        1 <= k2 < 8192,
    ensures
        a.shifted(d.vec(), k1).shifted(d.rot().vec(), k2) != a,
        a.shifted(d.vec(), k1).shifted(d.rot().vec(), -k2) != a,
{
    match d {
        Direction::D => {},
        Direction::DR => {},
        Direction::R => {},
        Direction::UR => {},
        Direction::U => {},
        Direction::UL => {},
        Direction::L => {},
        Direction::DL => {},
    }
}

/// A legal rectangle is a closed quadrilateral: its sides run along `d`
/// and `d` turned once, twice and three times by 90 degrees, each at least
/// one step long, and its four corners are pairwise distinct.
pub proof fn lemma_legal_rect_closed(g: Grid, p1: P, d: Direction)
    requires
        legal_rect_spec(g, p1, d) is Some,
    ensures
        ({
            let r = legal_rect_spec(g, p1, d)->Some_0;
            &&& r.p1 == p1 && r.d == d
            &&& side_in_grid(g.len() as int, r.p1, r.p2, d)
            &&& side_in_grid(g.len() as int, r.p2, r.p3, d.rot())
            &&& side_in_grid(g.len() as int, r.p3, r.p4, d.rot().rot())
            &&& side_in_grid(g.len() as int, r.p4, r.p1, d.rot().rot().rot())
            &&& r.p1 != r.p2 && r.p1 != r.p3 && r.p1 != r.p4
            &&& r.p2 != r.p3 && r.p2 != r.p4 && r.p3 != r.p4
        }),
{
    reveal(legal_rect_spec);
    let r = legal_rect_spec(g, p1, d)->Some_0;
    lemma_rect_sides(g, r);
    let n = g.len() as int;
    let k1 = offset(r.p1, d, r.p2);
    let k2 = offset(r.p2, d.rot(), r.p3);
    let k3 = offset(r.p3, d.rot().rot(), r.p4);
    let k4 = offset(r.p4, d.rot().rot().rot(), r.p1);
    assert(in_grid(n, r.p1.shifted(d.vec(), k1)));
    assert(in_grid(n, r.p2.shifted(d.rot().vec(), k2)));
    assert(in_grid(n, r.p3.shifted(d.rot().rot().vec(), k3)));
    assert(in_grid(n, r.p4.shifted(d.rot().rot().rot().vec(), k4)));
    assert(in_grid(n, r.p2.shifted(d.rot().vec(), 0)));
    assert(in_grid(n, r.p4.shifted(d.rot().rot().rot().vec(), 0)));
    lemma_offset_shift(r.p2, d.rot(), 0);
    lemma_offset_shift(r.p4, d.rot().rot().rot(), 0);
    lemma_no_return(r.p1, d, k1, k2);
    lemma_no_return(r.p2, d.rot(), k2, k3);
    match d {
        Direction::D => {},
        Direction::DR => {},
        Direction::R => {},
        Direction::UR => {},
        Direction::U => {},
        Direction::UL => {},
        Direction::L => {},
        Direction::DL => {},
    }
}

/// Every segment a successful march passes over was free, apart from the
/// segment leaving its start along the march.
proof fn lemma_ray_fresh(g: Grid, a: P, e: Direction, t: Direction)
    requires
        ray(g, a, e, t) is Some,
    ensures
        !at(g, ray(g, a, e, t)->Some_0).has(t),
        forall|q: P, f: Direction|
            in_grid(g.len() as int, q) && #[trigger] on_side(a, ray(g, a, e, t)->Some_0, e, q, f)
                && !(q == a && f == e) ==> !at(g, q).has(f),
{
    let b = ray(g, a, e, t)->Some_0;
    let k = lemma_ray(g, a, e, t);
    lemma_offset_shift(a, e, k);
    lemma_offset_shift(a, e, 0);
    assert forall|q: P, f: Direction|
        in_grid(g.len() as int, q) && #[trigger] on_side(a, b, e, q, f) && !(q == a && f == e)
            implies !at(g, q).has(f) by {
        let j = offset(a, e, q);
        if 0 < j < k {
            assert(in_grid(g.len() as int, a.shifted(e.vec(), j)));
        }
    }
}

proof fn lemma_with_point_has(g: Grid, p: P, q: P, f: Direction)
    requires
        in_grid(g.len() as int, p),
        in_grid(g.len() as int, q),
        forall|i: int| 0 <= i < g.len() ==> (#[trigger] g[i]).len() == g.len(),
    ensures
        at(with_point(g, p), q).has(f) == at(g, q).has(f),
{
    assert(g[p.x as int].len() == g.len());
    if q.x == p.x && q.y == p.y {
    } else if q.x == p.x {
        assert(with_point(g, p)[q.x as int][q.y as int] == g[q.x as int][q.y as int]);
    }
}

/// The four marches a legal rectangle was found by.
proof fn lemma_rect_rays(g: Grid, r: Rect)
    requires
        legal_rect_spec(g, r.p1, r.d) == Some(r),
    ensures
        ray(g, r.p1, r.d, r.d.rot()) == Some(r.p2),
        ray(g, r.p2, r.d.rot(), r.d.rot().rot()) == Some(r.p3),
        ray(g, r.p3, r.d.rot().rot(), r.d.rot().rot().rot()) == Some(r.p4),
        ray(with_point(g, r.p1), r.p4, r.d.rot().rot().rot(), r.d.rot().rot().rot().rot())
            == Some(r.p1),
{
    reveal(legal_rect_spec);
}

/// Placing a legal rectangle takes only segments that were free: so no
/// segment of the grid is ever taken by two placed rectangles.
pub proof fn lemma_commit_marks_fresh(g: Grid, r: Rect)
    requires
        forall|i: int| 0 <= i < g.len() ==> (#[trigger] g[i]).len() == g.len(),
        legal_rect_spec(g, r.p1, r.d) == Some(r),
    ensures
        forall|q: P, f: Direction|
            in_grid(g.len() as int, q) && #[trigger] rect_marks(r, q, f) ==> !at(g, q).has(f),
{
    let d = r.d;
    let d2 = d.rot();
    let d3 = d2.rot();
    let d4 = d3.rot();
    let gp = with_point(g, r.p1);
    lemma_rect_rays(g, r);
    lemma_rect_sides(g, r);
    assert(d4.rot() == d) by {
        match d {
            Direction::D => {},
            Direction::DR => {},
            Direction::R => {},
            Direction::UR => {},
            Direction::U => {},
            Direction::UL => {},
            Direction::L => {},
            Direction::DL => {},
        }
    }
    lemma_ray_fresh(g, r.p1, d, d2);
    lemma_ray_fresh(g, r.p2, d2, d3);
    lemma_ray_fresh(g, r.p3, d3, d4);
    lemma_ray_fresh(gp, r.p4, d4, d);
    lemma_with_point_has(g, r.p1, r.p1, d);
    lemma_side_fresh(g, r.p1, r.p2, d);
    lemma_side_fresh(g, r.p2, r.p3, d2);
    lemma_side_fresh(g, r.p3, r.p4, d3);
    assert forall|q: P, f: Direction|
        in_grid(g.len() as int, q) && #[trigger] on_side(r.p4, r.p1, d4, q, f) && !(q == r.p4
            && f == d4) implies !at(g, q).has(f) by {
        lemma_with_point_has(g, r.p1, q, f);
    }
    lemma_side_fresh(g, r.p4, r.p1, d4);
}

proof fn lemma_side_fresh(g: Grid, a: P, b: P, e: Direction)
    requires
        !at(g, a).has(e),
        forall|q: P, f: Direction|
            in_grid(g.len() as int, q) && #[trigger] on_side(a, b, e, q, f) && !(q == a && f == e)
                ==> !at(g, q).has(f),
    ensures
        forall|q: P, f: Direction|
            in_grid(g.len() as int, q) && #[trigger] on_side(a, b, e, q, f) ==> !at(g, q).has(f),
{
}

/// The maintained moves are exactly those a full rescan finds: in a valid
/// state (as built and as kept by every commit) a point and direction are
/// listed if and only if the oracle finds a rectangle for them, and each
/// listed rectangle is the one the oracle finds.
pub proof fn lemma_candidates_equal_rescan(s: State)
    requires
        s.inv(),
    ensures
        forall|p: P, d: Direction|
            in_grid(s.n(), p) ==> ((#[trigger] legal_rect_spec(s.grid(), p, d)) is Some <==> exists|
                i: int,
            |
                0 <= i < s.legal_rects@.len() && s.legal_rects@[i].p1 == p
                    && s.legal_rects@[i].d == d),
        forall|i: int|
            0 <= i < s.legal_rects@.len() ==> legal_rect_spec(
                s.grid(),
                (#[trigger] s.legal_rects@[i]).p1,
                s.legal_rects@[i].d,
            ) == Some(s.legal_rects@[i]),
{
    assert forall|p: P, d: Direction| in_grid(s.n(), p) implies ((#[trigger] legal_rect_spec(
        s.grid(),
        p,
        d,
    )) is Some <==> exists|i: int|
        0 <= i < s.legal_rects@.len() && s.legal_rects@[i].p1 == p && s.legal_rects@[i].d
            == d) by {
        lemma_legal_rect_fields(s.grid(), p, d);
        if legal_rect_spec(s.grid(), p, d) is Some {
            let i = choose|i: int|
                0 <= i < s.legal_rects@.len() && s.legal_rects@[i] == legal_rect_spec(
                    s.grid(),
                    p,
                    d,
                )->Some_0;
            assert(s.legal_rects@[i].p1 == p && s.legal_rects@[i].d == d);
        }
        if exists|i: int|
            0 <= i < s.legal_rects@.len() && s.legal_rects@[i].p1 == p && s.legal_rects@[i].d
                == d {
            let i = choose|i: int|
                0 <= i < s.legal_rects@.len() && s.legal_rects@[i].p1 == p && s.legal_rects@[i].d
                    == d;
            assert(legal_rect_spec(s.grid(), s.legal_rects@[i].p1, s.legal_rects@[i].d) == Some(
                s.legal_rects@[i],
            ));
        }
    }
}

/// `a` comes before `b` in scan order: by row, then column, then
/// direction index.
pub open spec fn scan_before(a: Rect, b: Rect) -> bool {
    ||| a.p1.x < b.p1.x
    ||| (a.p1.x == b.p1.x && a.p1.y < b.p1.y)
    ||| (a.p1.x == b.p1.x && a.p1.y == b.p1.y && a.d.idx() < b.d.idx())
}

pub open spec fn scan_sorted(s: Seq<Rect>) -> bool {
    forall|a: int, b: int| 0 <= a < b < s.len() ==> scan_before(#[trigger] s[a], #[trigger] s[b])
}

proof fn lemma_sorted_concat(s: Seq<Rect>, t: Seq<Rect>)
    requires
        scan_sorted(s),
        scan_sorted(t),
        forall|a: int, b: int|
            0 <= a < s.len() && 0 <= b < t.len() ==> scan_before(#[trigger] s[a], #[trigger] t[b]),
    ensures
        scan_sorted(s + t),
{
    let u = s + t;
    assert forall|a: int, b: int| 0 <= a < b < u.len() implies scan_before(
        #[trigger] u[a],
        #[trigger] u[b],
    ) by {
        if b < s.len() {
            assert(u[a] == s[a] && u[b] == s[b]);
        } else if a >= s.len() {
            assert(u[a] == t[a - s.len()] && u[b] == t[b - s.len()]);
        } else {
            assert(u[a] == s[a] && u[b] == t[b - s.len()]);
        }
    }
}

proof fn lemma_scan_dirs_sorted(g: Grid, p: P, k: nat)
    requires
        k <= 8,
    ensures
        scan_sorted(scan_dirs(g, p, k)),
        forall|a: int|
            0 <= a < scan_dirs(g, p, k).len() ==> (#[trigger] scan_dirs(g, p, k)[a]).p1 == p
                && scan_dirs(g, p, k)[a].d.idx() < k,
    decreases k,
{
    if k > 0 {
        let d = Direction::of_idx(k - 1);
        lemma_scan_dirs_sorted(g, p, (k - 1) as nat);
        lemma_legal_rect_fields(g, p, d);
        let s = scan_dirs(g, p, (k - 1) as nat);
        let t = opt_seq(legal_rect_spec(g, p, d));
        assert(d.idx() == k - 1);
        lemma_sorted_concat(s, t);
        assert(scan_dirs(g, p, k) == s + t);
    }
}

proof fn lemma_scan_cols_sorted(g: Grid, i: int, j: nat)
    requires
        0 <= i < MAX_N,
        j <= MAX_N,
    ensures
        scan_sorted(scan_cols(g, i, j)),
        forall|a: int|
            0 <= a < scan_cols(g, i, j).len() ==> (#[trigger] scan_cols(g, i, j)[a]).p1.x == i
                && 0 <= scan_cols(g, i, j)[a].p1.y < j,
    decreases j,
{
    if j > 0 {
        let p = P { x: i as i32, y: (j - 1) as i32 };
        lemma_scan_cols_sorted(g, i, (j - 1) as nat);
        lemma_scan_dirs_sorted(g, p, 8);
        lemma_sorted_concat(scan_cols(g, i, (j - 1) as nat), scan_dirs(g, p, 8));
        let s = scan_cols(g, i, (j - 1) as nat);
        let t = scan_dirs(g, p, 8);
        assert forall|a: int| 0 <= a < (s + t).len() implies (#[trigger] (s + t)[a]).p1.x == i
            && 0 <= (s + t)[a].p1.y < j by {
            if a >= s.len() {
                assert((s + t)[a] == t[a - s.len()]);
            }
        }
    }
}

proof fn lemma_scan_rows_sorted(g: Grid, i: nat)
    requires
        i <= g.len() <= MAX_N,
    ensures
        scan_sorted(scan_rows(g, i)),
        forall|a: int|
            0 <= a < scan_rows(g, i).len() ==> 0 <= (#[trigger] scan_rows(g, i)[a]).p1.x < i,
    decreases i,
{
    if i > 0 {
        lemma_scan_rows_sorted(g, (i - 1) as nat);
        lemma_scan_cols_sorted(g, i - 1, g.len());
        let s = scan_rows(g, (i - 1) as nat);
        let t = scan_cols(g, i - 1, g.len());
        lemma_sorted_concat(s, t);
        assert forall|a: int| 0 <= a < (s + t).len() implies 0 <= (#[trigger] (s + t)[a]).p1.x
            < i by {
            if a >= s.len() {
                assert((s + t)[a] == t[a - s.len()]);
            }
        }
    }
}

/// The full scan lists its rectangles in scan order, so no point and
/// direction appears twice.
pub proof fn lemma_scan_distinct(g: Grid)
    requires
        g.len() <= MAX_N,
    ensures
        scan_sorted(scan(g)),
        forall|a: int, b: int|
            0 <= a < b < scan(g).len() ==> (#[trigger] scan(g)[a]).p1 != (#[trigger] scan(g)[b]).p1
                || scan(g)[a].d != scan(g)[b].d,
{
    lemma_scan_rows_sorted(g, g.len());
}

} // verus!
