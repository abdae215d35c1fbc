//! Why the incremental move update misses nothing: how marches and
//! rectangles behave when the grid grows by one vertex.

use vstd::prelude::*;
use crate::geometry::{Direction, P};
use crate::grid::{Grid, MAX_N, at, in_grid, square, with_point};
use crate::oracle::{
    Rect, as_next_p2_spec, as_next_p3_spec, as_next_p4_spec, legal_rect_spec,
    lemma_legal_rect_fields, lemma_offset_shift, lemma_ray, lemma_rect_sides, lemma_shift_step,
    offset, opt_seq, probes, ray, revalidated, side_in_grid,
};

verus! {

/// How the eight directions compose under turning and flipping.
pub proof fn lemma_dir_facts(d: Direction)
    ensures
        d.flip().vec().x == -d.vec().x,
        d.flip().vec().y == -d.vec().y,
        d.flip().flip() == d,
        d.flip() == d.rot().rot(),
        d.flip().rot() == d.rot().rot().rot(),
        d.rot().flip() == d.rot().rot().rot(),
        d.rot().rot().flip() == d,
        d.rot().rot().rot().flip() == d.rot(),
        d.rot().rot().rot().rot() == d,
        d.vec().x * d.vec().x + d.vec().y * d.vec().y >= 1,
{
    match d {
        Direction::D => {},
        Direction::DR => {},
        Direction::R => {},
        Direction::UR => {},
        Direction::U => {},
        Direction::UL => {},
        Direction::L => {},
        Direction::DL => {},
    }
}

/// A march that meets the conditions of `lemma_ray` ends where they say.
pub proof fn lemma_ray_of_facts(g: Grid, p: P, e: Direction, t: Direction, k: int)
    requires
        g.len() <= MAX_N,
        in_grid(g.len() as int, p),
        k >= 1,
        in_grid(g.len() as int, p.shifted(e.vec(), k)),
        at(g, p.shifted(e.vec(), k)).is_point_used,
        !at(g, p.shifted(e.vec(), k)).has(e.flip()),
        !at(g, p.shifted(e.vec(), k)).has(t),
        forall|j: int|
            0 < j < k ==> {
                &&& in_grid(g.len() as int, #[trigger] p.shifted(e.vec(), j))
                &&& !at(g, p.shifted(e.vec(), j)).is_point_used
                &&& !at(g, p.shifted(e.vec(), j)).has(e)
                &&& !at(g, p.shifted(e.vec(), j)).has(e.flip())
            },
    ensures
        ray(g, p, e, t) == Some(p.shifted(e.vec(), k)),
    decreases k,
{
    reveal(ray);
    let v = e.vec();
    let q = p.plus(v);
    lemma_shift_step(p, v, 1);
    lemma_shift_step(p, v, k);
    if k == 1 {
        assert(q == p.shifted(v, 1));
    } else {
        assert(in_grid(g.len() as int, p.shifted(v, 1)));
        assert forall|j: int| 0 < j < k - 1 implies {
            &&& in_grid(g.len() as int, #[trigger] q.shifted(v, j))
            &&& !at(g, q.shifted(v, j)).is_point_used
            &&& !at(g, q.shifted(v, j)).has(e)
            &&& !at(g, q.shifted(v, j)).has(e.flip())
        } by {
            lemma_shift_step(p, v, j + 1);
            assert(in_grid(g.len() as int, p.shifted(v, j + 1)));
        }
        lemma_ray_of_facts(g, q, e, t, k - 1);
    }
}

/// A march read backwards: from its corner back along the flipped
/// direction it reaches its start, when the start is a vertex free along
/// the march and along the new turn.
pub proof fn lemma_ray_reverse(g: Grid, a: P, e: Direction, t: Direction, t2: Direction)
    requires
        ray(g, a, e, t) is Some,
        at(g, a).is_point_used,
        !at(g, a).has(e),
        !at(g, a).has(t2),
    ensures
        ray(g, ray(g, a, e, t)->Some_0, e.flip(), t2) == Some(a),
{
    let b = ray(g, a, e, t)->Some_0;
    let k = lemma_ray(g, a, e, t);
    lemma_dir_facts(e);
    let v = e.vec();
    let w = e.flip().vec();
    assert(-MAX_N <= k * v.x <= MAX_N && -MAX_N <= k * v.y <= MAX_N) by (nonlinear_arith)
        requires
            -1 <= v.x <= 1,
            -1 <= v.y <= 1,
            1 <= k <= MAX_N,
    ;
    assert(b.x == a.x + k * v.x && b.y == a.y + k * v.y);
    assert(b.shifted(w, k) == a);
    assert forall|j: int| 0 < j < k implies {
        &&& in_grid(g.len() as int, #[trigger] b.shifted(w, j))
        &&& !at(g, b.shifted(w, j)).is_point_used
        &&& !at(g, b.shifted(w, j)).has(e.flip())
        &&& !at(g, b.shifted(w, j)).has(e.flip().flip())
    } by {
        assert(k * v.x - j * v.x == (k - j) * v.x && k * v.y - j * v.y == (k - j) * v.y)
            by (nonlinear_arith);
        assert(-MAX_N <= j * v.x <= MAX_N && -MAX_N <= j * v.y <= MAX_N) by (nonlinear_arith)
            requires
                -1 <= v.x <= 1,
                -1 <= v.y <= 1,
                1 <= j <= MAX_N,
        ;
        assert(-MAX_N <= (k - j) * v.x <= MAX_N && -MAX_N <= (k - j) * v.y <= MAX_N)
            by (nonlinear_arith)
            requires
                -1 <= v.x <= 1,
                -1 <= v.y <= 1,
                1 <= k - j <= MAX_N,
        ;
        assert(b.shifted(w, j) == a.shifted(v, k - j));
        assert(in_grid(g.len() as int, a.shifted(v, k - j)));
    }
    lemma_ray_of_facts(g, b, e.flip(), t2, k);
}

/// `gb` is `ga` with more segments taken and `x` made a vertex.
pub open spec fn grows(ga: Grid, gb: Grid, x: P) -> bool {
    let n = ga.len() as int;
    &&& square(ga)
    &&& square(gb)
    &&& gb.len() == n
    &&& in_grid(n, x)
    &&& forall|q: P|
        in_grid(n, q) ==> (#[trigger] at(gb, q).is_point_used == (at(ga, q).is_point_used
            || q == x))
    &&& forall|q: P, f: Direction| in_grid(n, q) && #[trigger] at(ga, q).has(f) ==> at(gb, q).has(f)
}

/// A march on the grown grid that does not end at the new vertex ends at
/// the same corner on the old grid.
proof fn lemma_ray_back(ga: Grid, gb: Grid, x: P, p: P, e: Direction, t: Direction)
    requires
        grows(ga, gb, x),
        ray(gb, p, e, t) is Some,
        ray(gb, p, e, t)->Some_0 != x,
    ensures
        ray(ga, p, e, t) == ray(gb, p, e, t),
    decreases steps_left_of(gb, p, e),
{
    reveal(ray);
    let q = p.plus(e.vec());
    let n = ga.len() as int;
    if in_grid(n, p) && in_grid(n, q) && !at(gb, q).is_point_used {
        if !(at(gb, q).has(e) || at(gb, q).has(e.flip())) {
            lemma_ray_back(ga, gb, x, q, e, t);
        }
    }
}

spec fn steps_left_of(g: Grid, p: P, e: Direction) -> int {
    crate::oracle::steps_left(g.len() as int, p, e)
}

proof fn lemma_grows_with_point(ga: Grid, gb: Grid, x: P, p: P)
    requires
        grows(ga, gb, x),
        in_grid(ga.len() as int, p),
    ensures
        grows(with_point(ga, p), with_point(gb, p), x),
{
    let n = ga.len() as int;
    let wa = with_point(ga, p);
    let wb = with_point(gb, p);
    assert(ga[p.x as int].len() == n && gb[p.x as int].len() == n);
    assert forall|i: int| 0 <= i < wa.len() implies (#[trigger] wa[i]).len() == wa.len() by {
        assert(ga[i].len() == n);
    }
    assert forall|i: int| 0 <= i < wb.len() implies (#[trigger] wb[i]).len() == wb.len() by {
        assert(gb[i].len() == n);
    }
    assert forall|q: P| in_grid(n, q) implies (#[trigger] at(wb, q).is_point_used == (at(
        wa,
        q,
    ).is_point_used || q == x)) by {
        assert(at(gb, q).is_point_used == (at(ga, q).is_point_used || q == x));
        if q.x == p.x && q.y != p.y {
            assert(at(wa, q) == at(ga, q));
            assert(at(wb, q) == at(gb, q));
        }
    }
    assert forall|q: P, f: Direction| in_grid(n, q) && #[trigger] at(wa, q).has(f) implies at(
        wb,
        q,
    ).has(f) by {
        if q.x == p.x && q.y != p.y {
            assert(at(wa, q) == at(ga, q));
            assert(at(wb, q) == at(gb, q));
        }
        assert(at(ga, q).has(f));
    }
}

/// A rectangle legal on the grown grid with no corner at the new vertex
/// was legal, as the same rectangle, on the old grid.
pub proof fn lemma_legal_back(ga: Grid, gb: Grid, x: P, p: P, d: Direction)
    requires
        grows(ga, gb, x),
        legal_rect_spec(gb, p, d) is Some,
        legal_rect_spec(gb, p, d)->Some_0.p2 != x,
        legal_rect_spec(gb, p, d)->Some_0.p3 != x,
        legal_rect_spec(gb, p, d)->Some_0.p4 != x,
    ensures
        legal_rect_spec(ga, p, d) == legal_rect_spec(gb, p, d),
{
    reveal(legal_rect_spec);
    let r = legal_rect_spec(gb, p, d)->Some_0;
    let d2 = d.rot();
    let d3 = d2.rot();
    let d4 = d3.rot();
    assert(at(gb, x).is_point_used);
    assert(p != x);
    lemma_ray_back(ga, gb, x, p, d, d2);
    lemma_ray_back(ga, gb, x, r.p2, d2, d3);
    lemma_ray_back(ga, gb, x, r.p3, d3, d4);
    lemma_grows_with_point(ga, gb, x, p);
    lemma_ray_back(with_point(ga, p), with_point(gb, p), x, r.p4, d4, d4.rot());
}

proof fn lemma_side_coords(n: int, a: P, b: P, e: Direction)
    requires
        side_in_grid(n, a, b, e),
        in_grid(n, a),
        n <= MAX_N,
    ensures
        b.x == a.x + offset(a, e, b) * e.vec().x,
        b.y == a.y + offset(a, e, b) * e.vec().y,
{
    let k = offset(a, e, b);
    let v = e.vec();
    assert(in_grid(n, a.shifted(v, k)));
    assert(-MAX_N <= k * v.x <= MAX_N && -MAX_N <= k * v.y <= MAX_N) by (nonlinear_arith)
        requires
            -1 <= v.x <= 1,
            -1 <= v.y <= 1,
            1 <= k <= MAX_N,
    ;
}

/// The new corner of a legal rectangle completes the parallelogram of the
/// other three.
proof fn lemma_parallelogram(g: Grid, r: Rect)
    requires
        legal_rect_spec(g, r.p1, r.d) == Some(r),
    ensures
        r.p1 == r.p2.plus(r.p4.minus(r.p3)),
{
    lemma_rect_sides(g, r);
    let n = g.len() as int;
    let d = r.d;
    let (d2, d3, d4) = (d.rot(), d.rot().rot(), d.rot().rot().rot());
    let k1 = offset(r.p1, d, r.p2);
    let k2 = offset(r.p2, d2, r.p3);
    let k3 = offset(r.p3, d3, r.p4);
    let k4 = offset(r.p4, d4, r.p1);
    assert(in_grid(n, r.p1.shifted(d.vec(), 0)));
    assert(in_grid(n, r.p2.shifted(d2.vec(), 0)));
    assert(in_grid(n, r.p3.shifted(d3.vec(), 0)));
    assert(in_grid(n, r.p4.shifted(d4.vec(), 0)));
    lemma_offset_shift(r.p1, d, 0);
    lemma_offset_shift(r.p2, d2, 0);
    lemma_offset_shift(r.p3, d3, 0);
    lemma_offset_shift(r.p4, d4, 0);
    lemma_side_coords(n, r.p1, r.p2, d);
    lemma_side_coords(n, r.p2, r.p3, d2);
    lemma_side_coords(n, r.p3, r.p4, d3);
    lemma_side_coords(n, r.p4, r.p1, d4);
    lemma_dir_facts(d);
    let v = d.vec();
    assert(d2.vec().x == -v.y && d2.vec().y == v.x);
    assert(d3.vec().x == -v.x && d3.vec().y == -v.y);
    assert(d4.vec().x == v.y && d4.vec().y == -v.x);
    assert((k1 - k3) * v.x - (k2 - k4) * v.y == 0 && (k1 - k3) * v.y + (k2 - k4) * v.x == 0)
        by (nonlinear_arith)
        requires
            r.p2.x == r.p1.x + k1 * v.x,
            r.p2.y == r.p1.y + k1 * v.y,
            r.p3.x == r.p2.x + k2 * (-v.y),
            r.p3.y == r.p2.y + k2 * v.x,
            r.p4.x == r.p3.x + k3 * (-v.x),
            r.p4.y == r.p3.y + k3 * (-v.y),
            r.p1.x == r.p4.x + k4 * v.y,
            r.p1.y == r.p4.y + k4 * (-v.x),
    ;
    assert((k1 - k3) * v.x == 0 && (k1 - k3) * v.y == 0) by (nonlinear_arith)
        requires
            (k1 - k3) * v.x - (k2 - k4) * v.y == 0,
            (k1 - k3) * v.y + (k2 - k4) * v.x == 0,
            v.x * v.x + v.y * v.y >= 1,
    ;
    assert(r.p2.x + r.p4.x - r.p3.x == r.p1.x && r.p2.y + r.p4.y - r.p3.y == r.p1.y)
        by (nonlinear_arith)
        requires
            (k1 - k3) * v.x == 0,
            (k1 - k3) * v.y == 0,
            r.p2.x == r.p1.x + k1 * v.x,
            r.p2.y == r.p1.y + k1 * v.y,
            r.p4.x == r.p3.x + k3 * (-v.x),
            r.p4.y == r.p3.y + k3 * (-v.y),
    ;
}

/// When the vertex `x` is the second, third or fourth corner of a legal
/// rectangle, the probe for that corner rebuilds the rectangle.
pub proof fn lemma_probe_finds(g: Grid, p: P, d: Direction, x: P)
    requires
        legal_rect_spec(g, p, d) is Some,
    ensures
        legal_rect_spec(g, p, d)->Some_0.p2 == x ==> as_next_p2_spec(g, x, d) == legal_rect_spec(g, p, d),
        legal_rect_spec(g, p, d)->Some_0.p3 == x ==> as_next_p3_spec(g, x, d) == legal_rect_spec(g, p, d),
        legal_rect_spec(g, p, d)->Some_0.p4 == x ==> as_next_p4_spec(g, x, d) == legal_rect_spec(g, p, d),
{
    reveal(legal_rect_spec);
    reveal(as_next_p2_spec);
    reveal(as_next_p3_spec);
    reveal(as_next_p4_spec);
    let r = legal_rect_spec(g, p, d)->Some_0;
    let d2 = d.rot();
    let d3 = d2.rot();
    let d4 = d3.rot();
    lemma_dir_facts(d);
    lemma_parallelogram(g, r);
    lemma_ray(g, p, d, d2);
    lemma_ray(g, r.p2, d2, d3);
    lemma_ray(g, r.p3, d3, d4);
    lemma_ray_reverse(g, r.p2, d2, d3, d.flip());
    lemma_ray_reverse(g, r.p3, d3, d4, d4);
}

proof fn lemma_revalidated_contains(g: Grid, l: Seq<Rect>, i: int)
    requires
        0 <= i < l.len(),
        legal_rect_spec(g, l[i].p1, l[i].d) is Some,
    ensures
        revalidated(g, l).contains(legal_rect_spec(g, l[i].p1, l[i].d)->Some_0),
    decreases l.len(),
{
    let r = legal_rect_spec(g, l[i].p1, l[i].d)->Some_0;
    let front = revalidated(g, l.drop_last());
    let tail = opt_seq(legal_rect_spec(g, l.last().p1, l.last().d));
    if i == l.len() - 1 {
        assert(revalidated(g, l)[front.len() as int] == r);
    } else {
        assert(l.drop_last()[i] == l[i]);
        lemma_revalidated_contains(g, l.drop_last(), i);
        let w = choose|w: int| 0 <= w < front.len() && front[w] == r;
        assert(revalidated(g, l)[w] == r);
    }
}

proof fn lemma_probes_contains(g: Grid, x: P, k: nat, d: Direction, r: Rect)
    requires
        d.idx() < k <= 8,
        as_next_p2_spec(g, x, d) == Some(r) || as_next_p3_spec(g, x, d) == Some(r)
            || as_next_p4_spec(g, x, d) == Some(r),
    ensures
        probes(g, x, k).contains(r),
    decreases k,
{
    let e = Direction::of_idx(k - 1);
    let front = probes(g, x, (k - 1) as nat);
    let a = opt_seq(as_next_p2_spec(g, x, e));
    let b = opt_seq(as_next_p3_spec(g, x, e));
    let c = opt_seq(as_next_p4_spec(g, x, e));
    let all = probes(g, x, k);
    assert(all == front + a + b + c);
    if d.idx() == k - 1 {
        assert(d == e);
        if as_next_p2_spec(g, x, d) == Some(r) {
            assert(all[front.len() as int] == r);
        } else if as_next_p3_spec(g, x, d) == Some(r) {
            assert(all[(front.len() + a.len()) as int] == r);
        } else {
            assert(all[(front.len() + a.len() + b.len()) as int] == r);
        }
    } else {
        lemma_probes_contains(g, x, (k - 1) as nat, d, r);
        let w = choose|w: int| 0 <= w < front.len() && front[w] == r;
        assert(all[w] == r);
    }
}

/// Every legal move of `g` is listed in `l`.
pub open spec fn lists_all(g: Grid, l: Seq<Rect>) -> bool {
    forall|p: P, d: Direction|
        in_grid(g.len() as int, p) && (#[trigger] legal_rect_spec(g, p, d)) is Some ==> l.contains(
            legal_rect_spec(g, p, d)->Some_0,
        )
}

/// The incremental update misses no move: when the grid grows by one
/// vertex `x` and some taken segments, re-validating a complete list and
/// adding the probes around `x` lists every legal move of the new grid.
pub proof fn lemma_update_complete(ga: Grid, gb: Grid, x: P, la: Seq<Rect>)
    requires
        grows(ga, gb, x),
        lists_all(ga, la),
    ensures
        lists_all(gb, revalidated(gb, la) + probes(gb, x, 8)),
{
    let lb = revalidated(gb, la) + probes(gb, x, 8);
    assert forall|p: P, d: Direction|
        in_grid(gb.len() as int, p) && (#[trigger] legal_rect_spec(gb, p, d)) is Some implies lb.contains(
            legal_rect_spec(gb, p, d)->Some_0,
        ) by {
        let r = legal_rect_spec(gb, p, d)->Some_0;
        lemma_probe_finds(gb, p, d, x);
        if r.p2 == x || r.p3 == x || r.p4 == x {
            lemma_probes_contains(gb, x, 8, d, r);
            let pr = probes(gb, x, 8);
            let w = choose|w: int| 0 <= w < pr.len() && pr[w] == r;
            assert(lb[revalidated(gb, la).len() as int + w] == r);
        } else {
            lemma_legal_back(ga, gb, x, p, d);
            assert(legal_rect_spec(ga, p, d) is Some);
            let i = choose|i: int| 0 <= i < la.len() && la[i] == r;
            lemma_legal_rect_fields(gb, p, d);
            lemma_revalidated_contains(gb, la, i);
            let rv = revalidated(gb, la);
            let w = choose|w: int| 0 <= w < rv.len() && rv[w] == r;
            assert(lb[w] == r);
        }
    }
}

} // verus!
