//! The search state: the grid, its legal moves, score and placements;
//! the oracle's executable form, commit, and the brute-force scan.

use vstd::prelude::*;
use crate::cell::{DirectedPoint, lemma_empty_mask, lemma_point_eq};
use crate::geometry::{Direction, P};
use crate::grid::{
    Grid, MAX_N, at, blank, in_grid, lemma_occupied_bound, lemma_occupied_set, occupied_count,
    square, with_point,
};
use crate::oracle::{
    Rect, scan, scan_cols, scan_dirs, scan_rows, as_next_p2_spec, as_next_p3_spec, as_next_p4_spec, legal_rect_spec,
    lemma_legal_rect_fields, lemma_offset_shift, lemma_probe_sound, lemma_ray, lemma_rect_sides,
    lemma_shift_step, offset, on_side, probes, ray, rect_marks, revalidated, side_in_grid,
    steps_left,
};
use crate::rescan::{grows, lemma_update_complete, lists_all};

verus! {

/// The score gained by one placement is at most this.
pub const SCORE_STEP: i64 = 134217729;

/// The score a placement with new corner `p1` earns.
pub open spec fn gain(p1: P, centroid: P) -> int {
    p1.minus(centroid).weighted_dist_spec()
}

proof fn lemma_gain_bound(p1: P, c: P, n: int)
    requires
        in_grid(n, p1),
        in_grid(n, c),
        n <= MAX_N,
    ensures
        1 <= gain(p1, c) <= SCORE_STEP,
        -MAX_N <= p1.x - c.x <= MAX_N,
        -MAX_N <= p1.y - c.y <= MAX_N,
{
    let dx = p1.x - c.x;
    let dy = p1.y - c.y;
    assert(0 <= dx * dx <= MAX_N * MAX_N) by (nonlinear_arith)
        requires
            -MAX_N <= dx <= MAX_N,
    ;
    assert(0 <= dy * dy <= MAX_N * MAX_N) by (nonlinear_arith)
        requires
            -MAX_N <= dy <= MAX_N,
    ;
}

/// A problem: the grid side and the initial vertices.
#[derive(Debug, Clone)]
pub struct Input {
    pub n: usize,
    pub ps: Vec<P>,
}

/// What a search state is, mathematically: its grid, centroid, score,
/// listed moves and placements.
pub type Model = (Grid, P, int, Seq<Rect>, Seq<Rect>);

/// `m1` is what committing `r` to `m0` leaves: the sides of `r` taken, its
/// new corner a vertex, its gain added, `r` recorded, and the moves
/// re-validated and extended by those the new corner closes.
pub open spec fn step_to(m0: Model, r: Rect, m1: Model) -> bool {
    let n = m0.0.len() as int;
    &&& square(m0.0)
    &&& square(m1.0)
    &&& m1.0.len() == n
    &&& forall|q: P, f: Direction|
        in_grid(n, q) ==> (#[trigger] at(m1.0, q).has(f) == (at(m0.0, q).has(f) || rect_marks(
            r,
            q,
            f,
        )))
    &&& forall|q: P|
        in_grid(n, q) ==> (#[trigger] at(m1.0, q).is_point_used == (at(m0.0, q).is_point_used
            || q == r.p1))
    &&& m1.1 == m0.1
    &&& m1.2 == m0.2 + gain(r.p1, m0.1)
    &&& m1.3 == revalidated(m1.0, m0.3) + probes(m1.0, r.p1, 8)
    &&& m1.4 == m0.4.push(r)
}

/// Committing a move is deterministic.
pub proof fn lemma_step_deterministic(m0: Model, r: Rect, m1: Model, m2: Model)
    requires
        step_to(m0, r, m1),
        step_to(m0, r, m2),
    ensures
        m1 == m2,
{
    let n = m0.0.len() as int;
    assert forall|x: int, y: int| 0 <= x < n && 0 <= y < n implies m1.0[x][y] == m2.0[x][y] by {
        let q = P { x: x as i32, y: y as i32 };
        assert(in_grid(n, q));
        assert forall|f: Direction| #[trigger] at(m1.0, q).has(f) == at(m2.0, q).has(f) by {
            assert(at(m1.0, q).has(f) == at(m2.0, q).has(f));
        }
        lemma_point_eq(at(m1.0, q), at(m2.0, q));
    }
    assert forall|x: int| 0 <= x < n implies m1.0[x] =~= m2.0[x] by {
        assert forall|y: int| 0 <= y < n implies m1.0[x][y] == m2.0[x][y] by {}
    }
    assert(m1.0 =~= m2.0);
}

/// The search state: the grid, its centroid, the score so far, the current
/// legal moves and the rectangles placed so far, in order.
#[derive(Debug, Clone)]
pub struct State {
    pub points: Vec<Vec<DirectedPoint>>,
    pub centroid: P,
    pub score: i64,
    pub legal_rects: Vec<Rect>,
    pub rects_history: Vec<Rect>,
}

impl State {
    pub open spec fn grid(self) -> Grid {
        self.points@.map_values(|r: Vec<DirectedPoint>| r@)
    }

    pub open spec fn model(self) -> Model {
        (self.grid(), self.centroid, self.score as int, self.legal_rects@, self.rects_history@)
    }

    pub open spec fn n(self) -> int {
        self.points@.len() as int
    }

    /// The grid is square, nonempty and no larger than `MAX_N`.
    pub open spec fn wf(self) -> bool {
        &&& 1 <= self.n() <= MAX_N
        &&& forall|i: int| 0 <= i < self.n() ==> (#[trigger] self.points@[i])@.len() == self.n()
    }

    /// Every listed move is legal on the current grid, as listed.
    pub open spec fn candidates_sound(self) -> bool {
        forall|i: int|
            0 <= i < self.legal_rects@.len() ==> legal_rect_spec(
                self.grid(),
                (#[trigger] self.legal_rects@[i]).p1,
                self.legal_rects@[i].d,
            ) == Some(self.legal_rects@[i])
    }

    /// The state's invariant: a well-formed grid, listed moves that are
    /// exactly the legal moves, the centroid of the grid, no more placements
    /// than vertices, and a score of at most `SCORE_STEP` per placement.
    pub open spec fn inv(self) -> bool {
        &&& self.wf()
        &&& self.candidates_sound()
        &&& self.candidates_complete()
        &&& self.centroid.x == (self.n() - 1) / 2
        &&& self.centroid.y == (self.n() - 1) / 2
        &&& self.rects_history@.len() <= occupied_count(self.grid())
        &&& 0 <= self.score <= self.rects_history@.len() * SCORE_STEP
    }

    /// Every legal move on the current grid is listed.
    pub open spec fn candidates_complete(self) -> bool {
        lists_all(self.grid(), self.legal_rects@)
    }

    /// Marches from `p` along `d` to the next corner (see `ray`).
    pub fn search_point(&self, p: P, d: Direction, turned_d: Direction) -> (r: Option<P>)
        requires
            self.wf(),
            in_grid(self.n(), p),
        ensures
            r == ray(self.grid(), p, d, turned_d),
    {
        reveal(ray);
        let n = self.points.len();
        let ghost g = self.grid();
        let mut cur_pos = p;
        let flipped_d = d.flipped();
        let d_p2d = d.as_p2d();
        loop
            invariant
                self.wf(),
                n == self.n(),
                g == self.grid(),
                in_grid(n as int, cur_pos),
                ray(g, cur_pos, d, turned_d) == ray(g, p, d, turned_d),
                flipped_d == d.flip(),
                d_p2d == d.vec(),
            decreases steps_left(n as int, cur_pos, d),
        {
            reveal(ray);
            cur_pos = cur_pos.add(d_p2d);
            if cur_pos.x < 0 || cur_pos.y < 0 || cur_pos.x >= n as i32 || cur_pos.y >= n as i32 {
                return None;
            }
            let i = cur_pos.x as usize;
            let j = cur_pos.y as usize;
            let pt = &self.points[i][j];
            assert(*pt == at(g, cur_pos));
            if !pt.is_point_used {
                if pt.is_direction_used_at(d) || pt.is_direction_used_at(flipped_d) {
                    return None;
                } else {
                    continue;
                }
            }
            if pt.is_direction_used_at(flipped_d) || pt.is_direction_used_at(turned_d) {
                return None;
            }
            return Some(cur_pos);
        }
    }
    /// The legal rectangle with new corner `p1` and first side along `d`, if
    /// any; the grid is left as it was.
    #[verifier::spinoff_prover]
    #[verifier::rlimit(40)]
    pub fn get_legal_rect(&mut self, p1: P, d: Direction) -> (r: Option<Rect>)
        requires
            old(self).wf(),
        ensures
            r == legal_rect_spec(old(self).grid(), p1, d),
            final(self).grid() == old(self).grid(),
            final(self).points@.len() == old(self).points@.len(),
            final(self).wf(),
            final(self).centroid == old(self).centroid,
            final(self).score == old(self).score,
            final(self).legal_rects@ == old(self).legal_rects@,
            final(self).rects_history@ == old(self).rects_history@,
    {
        reveal(legal_rect_spec);
        let n = self.points.len();
        if p1.x < 0 || p1.y < 0 || p1.x >= n as i32 || p1.y >= n as i32 {
            return None;
        }
        let init_i = p1.x as usize;
        let init_j = p1.y as usize;
        if self.points[init_i][init_j].is_point_used {
            return None;
        }
        let mut cur_d = d;
        let p2 = match self.search_point(p1, cur_d, cur_d.rotated()) {
            Some(q) => q,
            None => return None,
        };
        cur_d = cur_d.rotated();
        proof {
            lemma_ray(self.grid(), p1, d, d.rot());
        }
        let p3 = match self.search_point(p2, cur_d, cur_d.rotated()) {
            Some(q) => q,
            None => return None,
        };
        cur_d = cur_d.rotated();
        proof {
            lemma_ray(self.grid(), p2, d.rot(), d.rot().rot());
        }
        let p4 = match self.search_point(p3, cur_d, cur_d.rotated()) {
            Some(q) => q,
            None => return None,
        };
        proof {
            lemma_ray(self.grid(), p3, d.rot().rot(), d.rot().rot().rot());
        }
        cur_d = cur_d.rotated();
        let ghost g0 = self.grid();
        self.points[init_i][init_j].use_point();
        assert(self.grid() =~~= with_point(g0, p1));
        let returned = self.search_point(p4, cur_d, cur_d.rotated());
        self.points[init_i][init_j].clear_point();
        assert(self.grid() =~~= g0);
        match returned {
            Some(p1_returned) => {
                if p1_returned != p1 {
                    return None;
                }
                Some(Rect { p1, p2, p3, p4, d })
            },
            None => None,
        }
    }
    #[verifier::spinoff_prover]
    pub fn cur_p1_as_next_p2(&mut self, next_p2: P, d: Direction) -> (r: Option<Rect>)
        requires
            old(self).wf(),
            in_grid(old(self).n(), next_p2),
        ensures
            r == as_next_p2_spec(old(self).grid(), next_p2, d),
            final(self).grid() == old(self).grid(),
            final(self).points@.len() == old(self).points@.len(),
            final(self).wf(),
            final(self).centroid == old(self).centroid,
            final(self).score == old(self).score,
            final(self).legal_rects@ == old(self).legal_rects@,
            final(self).rects_history@ == old(self).rects_history@,
    {
        reveal(as_next_p2_spec);
        let p3_cand = match self.search_point(next_p2, d.rotated(), d.flipped()) {
            Some(q) => q,
            None => return None,
        };
        proof {
            lemma_ray(self.grid(), next_p2, d.rot(), d.flip());
        }
        let p4_cand = match self.search_point(p3_cand, d.flipped(), d.flipped().rotated()) {
            Some(q) => q,
            None => return None,
        };
        proof {
            lemma_ray(self.grid(), p3_cand, d.flip(), d.flip().rot());
        }
        let p1_cand = next_p2.add(p4_cand.sub(p3_cand));
        self.get_legal_rect(p1_cand, d)
    }

    #[verifier::spinoff_prover]
    pub fn cur_p1_as_next_p3(&mut self, next_p3: P, d: Direction) -> (r: Option<Rect>)
        requires
            old(self).wf(),
            in_grid(old(self).n(), next_p3),
        ensures
            r == as_next_p3_spec(old(self).grid(), next_p3, d),
            final(self).grid() == old(self).grid(),
            final(self).points@.len() == old(self).points@.len(),
            final(self).wf(),
            final(self).centroid == old(self).centroid,
            final(self).score == old(self).score,
            final(self).legal_rects@ == old(self).legal_rects@,
            final(self).rects_history@ == old(self).rects_history@,
    {
        reveal(as_next_p3_spec);
        let p2_cand = match self.search_point(next_p3, d.flipped().rotated(), d.flipped()) {
            Some(q) => q,
            None => return None,
        };
        proof {
            lemma_ray(self.grid(), next_p3, d.flip().rot(), d.flip());
        }
        let p4_cand = match self.search_point(next_p3, d.flipped(), d.flipped().rotated()) {
            Some(q) => q,
            None => return None,
        };
        proof {
            lemma_ray(self.grid(), next_p3, d.flip(), d.flip().rot());
        }
        let p1_cand = p2_cand.add(p4_cand.sub(next_p3));
        self.get_legal_rect(p1_cand, d)
    }

    #[verifier::spinoff_prover]
    pub fn cur_p1_as_next_p4(&mut self, next_p4: P, d: Direction) -> (r: Option<Rect>)
        requires
            old(self).wf(),
            in_grid(old(self).n(), next_p4),
        ensures
            r == as_next_p4_spec(old(self).grid(), next_p4, d),
            final(self).grid() == old(self).grid(),
            final(self).points@.len() == old(self).points@.len(),
            final(self).wf(),
            final(self).centroid == old(self).centroid,
            final(self).score == old(self).score,
            final(self).legal_rects@ == old(self).legal_rects@,
            final(self).rects_history@ == old(self).rects_history@,
    {
        reveal(as_next_p4_spec);
        let p3_cand = match self.search_point(next_p4, d, d.flipped().rotated()) {
            Some(q) => q,
            None => return None,
        };
        proof {
            lemma_ray(self.grid(), next_p4, d, d.flip().rot());
        }
        let p2_cand = match self.search_point(p3_cand, d.flipped().rotated(), d.flipped()) {
            Some(q) => q,
            None => return None,
        };
        proof {
            lemma_ray(self.grid(), p3_cand, d.flip().rot(), d.flip());
        }
        let p1_cand = p2_cand.add(next_p4.sub(p3_cand));
        self.get_legal_rect(p1_cand, d)
    }
    /// Sets the direction bit `f` at the point `q`.
    fn mark_direction(&mut self, q: P, f: Direction)
        requires
            old(self).wf(),
            in_grid(old(self).n(), q),
        ensures
            final(self).wf(),
            final(self).n() == old(self).n(),
            forall|q2: P, f2: Direction|
                in_grid(old(self).n(), q2) ==> (#[trigger] at(final(self).grid(), q2).has(f2)
                    == (at(old(self).grid(), q2).has(f2) || (q2 == q && f2 == f))),
            forall|q2: P|
                in_grid(old(self).n(), q2) ==> (#[trigger] at(final(self).grid(), q2).is_point_used
                    == at(old(self).grid(), q2).is_point_used),
            occupied_count(final(self).grid()) == occupied_count(old(self).grid()),
            final(self).centroid == old(self).centroid,
            final(self).score == old(self).score,
            final(self).legal_rects@ == old(self).legal_rects@,
            final(self).rects_history@ == old(self).rects_history@,
    {
        let ghost g0 = self.grid();
        let i = q.x as usize;
        let j = q.y as usize;
        self.points[i][j].use_direction_at(f);
        let ghost c = self.points@[i as int]@[j as int];
        assert(self.grid() =~~= g0.update(i as int, g0[i as int].update(j as int, c)));
        proof {
            lemma_occupied_set(g0, q, c);
        }
        assert forall|q2: P, f2: Direction|
            in_grid(old(self).n(), q2) implies (#[trigger] at(self.grid(), q2).has(f2)
                == (at(g0, q2).has(f2) || (q2 == q && f2 == f))) by {
            if q2.x != q.x || q2.y != q.y {
                assert(at(self.grid(), q2) == at(g0, q2));
            }
        }
    }

    /// Marks `p` as a vertex.
    fn mark_point(&mut self, p: P)
        requires
            old(self).wf(),
            in_grid(old(self).n(), p),
            !at(old(self).grid(), p).is_point_used,
        ensures
            final(self).wf(),
            final(self).n() == old(self).n(),
            final(self).grid() == with_point(old(self).grid(), p),
            occupied_count(final(self).grid()) == occupied_count(old(self).grid()) + 1,
            final(self).centroid == old(self).centroid,
            final(self).score == old(self).score,
            final(self).legal_rects@ == old(self).legal_rects@,
            final(self).rects_history@ == old(self).rects_history@,
    {
        let ghost g0 = self.grid();
        let i = p.x as usize;
        let j = p.y as usize;
        self.points[i][j].use_point();
        assert(self.grid() =~~= with_point(g0, p));
        proof {
            lemma_occupied_set(g0, p, at(self.grid(), p));
        }
    }
    /// Takes the segments of the side from `a` to `b` along `e`.
    fn mark_side(&mut self, a: P, b: P, e: Direction)
        requires
            old(self).wf(),
            side_in_grid(old(self).n(), a, b, e),
        ensures
            final(self).wf(),
            final(self).n() == old(self).n(),
            forall|q2: P, f2: Direction|
                in_grid(old(self).n(), q2) ==> (#[trigger] at(final(self).grid(), q2).has(f2)
                    == (at(old(self).grid(), q2).has(f2) || on_side(a, b, e, q2, f2))),
            forall|q2: P|
                in_grid(old(self).n(), q2) ==> (#[trigger] at(final(self).grid(), q2).is_point_used
                    == at(old(self).grid(), q2).is_point_used),
            occupied_count(final(self).grid()) == occupied_count(old(self).grid()),
            final(self).centroid == old(self).centroid,
            final(self).score == old(self).score,
            final(self).legal_rects@ == old(self).legal_rects@,
            final(self).rects_history@ == old(self).rects_history@,
    {
        let ghost g0 = self.grid();
        let ghost n = self.n();
        let ghost k = offset(a, e, b);
        let v = e.as_p2d();
        let flipped_e = e.flipped();
        proof {
            assert(in_grid(n, a.shifted(v, 0)));
            assert(in_grid(n, a.shifted(v, k)));
            lemma_offset_shift(a, e, 0);
        }
        let len: i32 = if v.x == 1 {
            b.x - a.x
        } else if v.x == -1 {
            a.x - b.x
        } else if v.y == 1 {
            b.y - a.y
        } else {
            a.y - b.y
        };
        assert(len == k);
        let mut cur = a;
        let mut j: i32 = 0;
        while j <= len
            invariant
                self.wf(),
                self.n() == n,
                0 <= j <= len + 1,
                len == k,
                k == offset(a, e, b),
                1 <= k <= MAX_N,
                in_grid(n, a),
                v == e.vec(),
                flipped_e == e.flip(),
                b == a.shifted(v, k),
                j <= len ==> cur == a.shifted(v, j as int),
                forall|jj: int| 0 <= jj <= k ==> in_grid(n, #[trigger] a.shifted(v, jj)),
                forall|q2: P, f2: Direction|
                    in_grid(n, q2) ==> (#[trigger] at(self.grid(), q2).has(f2) == (at(g0, q2).has(f2)
                        || (on_side(a, b, e, q2, f2) && offset(a, e, q2) < j))),
                forall|q2: P|
                    in_grid(n, q2) ==> (#[trigger] at(self.grid(), q2).is_point_used
                        == at(g0, q2).is_point_used),
                occupied_count(self.grid()) == occupied_count(g0),
                self.centroid == old(self).centroid,
                self.score == old(self).score,
                self.legal_rects@ == old(self).legal_rects@,
                self.rects_history@ == old(self).rects_history@,
            decreases len + 1 - j,
        {
            assert(in_grid(n, a.shifted(v, j as int)));
            proof {
                lemma_offset_shift(a, e, j as int);
            }
            let ghost g1 = self.grid();
            if j < len {
                self.mark_direction(cur, e);
            }
            if j > 0 {
                self.mark_direction(cur, flipped_e);
            }
            assert forall|q2: P, f2: Direction|
                in_grid(n, q2) implies (#[trigger] at(self.grid(), q2).has(f2) == (at(g0, q2).has(
                    f2,
                ) || (on_side(a, b, e, q2, f2) && offset(a, e, q2) < j + 1))) by {
                assert(at(g1, q2).has(f2) == (at(g0, q2).has(f2) || (on_side(a, b, e, q2, f2)
                    && offset(a, e, q2) < j)));
                if q2 == cur {
                    assert(offset(a, e, q2) == j);
                    assert(at(self.grid(), q2).has(f2) == (at(g1, q2).has(f2) || (j < len && f2
                        == e) || (j > 0 && f2 == e.flip())));
                    assert(on_side(a, b, e, q2, f2) == ((j < len && f2 == e) || (j > 0 && f2
                        == e.flip())));
                } else {
                    if offset(a, e, q2) == j && q2 == a.shifted(v, offset(a, e, q2)) {
                        assert(q2 == cur);
                    }
                    assert(at(self.grid(), q2).has(f2) == at(g1, q2).has(f2));
                }
            }
            if j < len {
                assert(in_grid(n, a.shifted(v, j + 1)));
                proof {
                    lemma_shift_step(cur, v, 1);
                }
                assert(a.shifted(v, j + 1) == cur.plus(v)) by {
                    assert((j + 1) * v.x == j * v.x + v.x) by (nonlinear_arith);
                    assert((j + 1) * v.y == j * v.y + v.y) by (nonlinear_arith);
                }
                cur = cur.add(v);
            }
            j = j + 1;
        }
    }
    /// Takes the segments of the four sides of a legal rectangle and makes
    /// its new corner a vertex.
    #[verifier::spinoff_prover]
    #[verifier::rlimit(80)]
    fn apply_rect(&mut self, rect: &Rect)
        requires
            old(self).wf(),
            legal_rect_spec(old(self).grid(), rect.p1, rect.d) == Some(*rect),
        ensures
            final(self).wf(),
            final(self).n() == old(self).n(),
            forall|q: P, f: Direction|
                in_grid(old(self).n(), q) ==> (#[trigger] at(final(self).grid(), q).has(f) == (at(
                    old(self).grid(),
                    q,
                ).has(f) || rect_marks(*rect, q, f))),
            forall|q: P|
                in_grid(old(self).n(), q) ==> (#[trigger] at(final(self).grid(), q).is_point_used
                    == (at(old(self).grid(), q).is_point_used || q == rect.p1)),
            occupied_count(final(self).grid()) == occupied_count(old(self).grid()) + 1,
            final(self).centroid == old(self).centroid,
            final(self).score == old(self).score,
            final(self).legal_rects@ == old(self).legal_rects@,
            final(self).rects_history@ == old(self).rects_history@,
    {
        let ghost g0 = self.grid();
        let ghost n = self.n();
        let d = rect.d;
        let d2 = d.rotated();
        let d3 = d2.rotated();
        let d4 = d3.rotated();
        proof {
            lemma_rect_sides(g0, *rect);
        }
        self.mark_side(rect.p1, rect.p2, d);
        self.mark_side(rect.p2, rect.p3, d2);
        self.mark_side(rect.p3, rect.p4, d3);
        self.mark_side(rect.p4, rect.p1, d4);
        let ghost g4 = self.grid();
        self.mark_point(rect.p1);
        let ghost g1 = self.grid();
        assert forall|q: P| in_grid(n, q) implies (#[trigger] at(g1, q).is_point_used == (at(
            g0,
            q,
        ).is_point_used || q == rect.p1)) by {
            assert(at(g4, q).is_point_used == at(g0, q).is_point_used);
        }
        assert forall|q: P, f: Direction| in_grid(n, q) implies (#[trigger] at(g1, q).has(f) == (
        at(g0, q).has(f) || rect_marks(*rect, q, f))) by {
            assert(at(g4, q).has(f) == (at(g0, q).has(f) || rect_marks(*rect, q, f)));
        }
    }

    /// Keeps, in order, the listed moves that are still legal.
    #[verifier::spinoff_prover]
    #[verifier::rlimit(80)]
    fn revalidate(&mut self)
        requires
            old(self).wf(),
        ensures
            final(self).wf(),
            final(self).grid() == old(self).grid(),
            final(self).points@.len() == old(self).points@.len(),
            final(self).legal_rects@ == revalidated(old(self).grid(), old(self).legal_rects@),
            final(self).candidates_sound(),
            final(self).centroid == old(self).centroid,
            final(self).score == old(self).score,
            final(self).rects_history@ == old(self).rects_history@,
    {
        let ghost g1 = self.grid();
        let mut legal_rects: Vec<Rect> = Vec::new();
        let mut i: usize = 0;
        while i < self.legal_rects.len()
            invariant
                self.wf(),
                self.grid() == g1,
                self.points@.len() == old(self).points@.len(),
                self.legal_rects@ == old(self).legal_rects@,
                self.rects_history@ == old(self).rects_history@,
                self.score == old(self).score,
                self.centroid == old(self).centroid,
                0 <= i <= self.legal_rects@.len(),
                legal_rects@ == revalidated(g1, self.legal_rects@.take(i as int)),
                forall|k: int|
                    0 <= k < legal_rects@.len() ==> legal_rect_spec(
                        g1,
                        (#[trigger] legal_rects@[k]).p1,
                        legal_rects@[k].d,
                    ) == Some(legal_rects@[k]),
            decreases self.legal_rects@.len() - i,
        {
            let r = self.legal_rects[i];
            let res = self.get_legal_rect(r.p1, r.d);
            assert(self.legal_rects@.take(i + 1).drop_last() =~= self.legal_rects@.take(i as int));
            proof {
                lemma_legal_rect_fields(g1, r.p1, r.d);
            }
            if let Some(r2) = res {
                legal_rects.push(r2);
            }
            i = i + 1;
        }
        assert(self.legal_rects@.take(i as int) =~= self.legal_rects@);
        self.legal_rects = legal_rects;
    }

    /// Appends the moves that the vertex `x` closes as second, third or
    /// fourth corner, direction by direction.
    #[verifier::spinoff_prover]
    #[verifier::rlimit(80)]
    fn add_probes(&mut self, x: P)
        requires
            old(self).wf(),
            old(self).candidates_sound(),
            in_grid(old(self).n(), x),
        ensures
            final(self).wf(),
            final(self).grid() == old(self).grid(),
            final(self).points@.len() == old(self).points@.len(),
            final(self).legal_rects@ == old(self).legal_rects@ + probes(old(self).grid(), x, 8),
            final(self).candidates_sound(),
            final(self).centroid == old(self).centroid,
            final(self).score == old(self).score,
            final(self).rects_history@ == old(self).rects_history@,
    {
        let ghost g1 = self.grid();
        let ghost kept = self.legal_rects@;
        let dirs = Direction::to_vec();
        let mut k: usize = 0;
        while k < 8
            invariant
                self.wf(),
                self.grid() == g1,
                self.points@.len() == old(self).points@.len(),
                in_grid(self.n(), x),
                dirs@.len() == 8,
                forall|t: int| 0 <= t < 8 ==> (#[trigger] dirs@[t]).idx() == t,
                self.rects_history@ == old(self).rects_history@,
                self.score == old(self).score,
                self.centroid == old(self).centroid,
                0 <= k <= 8,
                self.legal_rects@ == kept + probes(g1, x, k as nat),
                self.candidates_sound(),
            decreases 8 - k,
        {
            let dk = dirs[k];
            assert(dk == Direction::of_idx(k as int));
            proof {
                lemma_probe_sound(g1, x, dk);
            }
            if let Some(r) = self.cur_p1_as_next_p2(x, dk) {
                self.legal_rects.push(r);
            }
            if let Some(r) = self.cur_p1_as_next_p3(x, dk) {
                self.legal_rects.push(r);
            }
            if let Some(r) = self.cur_p1_as_next_p4(x, dk) {
                self.legal_rects.push(r);
            }
            assert(self.legal_rects@ =~= kept + probes(g1, x, (k + 1) as nat));
            k = k + 1;
        }
    }
    /// Commits a legal rectangle: takes the segments of its four sides,
    /// makes its new corner a vertex, records it and its score, drops the
    /// moves it made illegal and adds those its new corner made legal.
    #[verifier::spinoff_prover]
    #[verifier::rlimit(80)]
    pub fn set_rect(&mut self, rect: &Rect)
        requires
            old(self).inv(),
            legal_rect_spec(old(self).grid(), rect.p1, rect.d) == Some(*rect),
        ensures
            final(self).inv(),
            final(self).n() == old(self).n(),
            forall|q: P, f: Direction|
                in_grid(old(self).n(), q) ==> (#[trigger] at(final(self).grid(), q).has(f) == (at(
                    old(self).grid(),
                    q,
                ).has(f) || rect_marks(*rect, q, f))),
            forall|q: P|
                in_grid(old(self).n(), q) ==> (#[trigger] at(final(self).grid(), q).is_point_used
                    == (at(old(self).grid(), q).is_point_used || q == rect.p1)),
            occupied_count(final(self).grid()) == occupied_count(old(self).grid()) + 1,
            final(self).rects_history@ == old(self).rects_history@.push(*rect),
            final(self).score == old(self).score + gain(rect.p1, old(self).centroid),
            final(self).centroid == old(self).centroid,
            final(self).legal_rects@ == revalidated(final(self).grid(), old(self).legal_rects@)
                + probes(final(self).grid(), rect.p1, 8),
            step_to(old(self).model(), *rect, final(self).model()),
    {
        let ghost n = self.n();
        proof {
            lemma_rect_sides(self.grid(), *rect);
            lemma_gain_bound(rect.p1, self.centroid, n);
        }
        self.apply_rect(rect);
        self.rects_history.push(*rect);
        proof {
            lemma_occupied_bound(self.grid(), n);
            let h = old(self).rects_history@.len() as int;
            let s0 = old(self).score as int;
            assert(h + 1 <= MAX_N * MAX_N) by (nonlinear_arith)
                requires
                    h + 1 <= n * n,
                    1 <= n <= MAX_N,
            ;
            assert(s0 + SCORE_STEP <= (h + 1) * SCORE_STEP) by (nonlinear_arith)
                requires
                    s0 <= h * SCORE_STEP,
            ;
            assert((h + 1) * SCORE_STEP <= MAX_N * MAX_N * SCORE_STEP) by (nonlinear_arith)
                requires
                    h + 1 <= MAX_N * MAX_N,
            ;
        }
        let w = rect.p1.sub(self.centroid).weighted_dist();
        self.score = self.score + w;
        self.revalidate();
        self.add_probes(rect.p1);
        proof {
            State::lemma_square(*old(self));
            State::lemma_square(*self);
            assert(grows(old(self).grid(), self.grid(), rect.p1));
            lemma_update_complete(old(self).grid(), self.grid(), rect.p1, old(self).legal_rects@);
        }
    }

    proof fn lemma_square(s: State)
        requires
            s.wf(),
        ensures
            square(s.grid()),
    {
        assert forall|i: int| 0 <= i < s.grid().len() implies (#[trigger] s.grid()[i]).len()
            == s.grid().len() by {
            assert(s.points@[i]@.len() == s.n());
        }
    }
    /// Lists every legal move of the grid, by a scan of all points and
    /// directions in index order.
    #[verifier::spinoff_prover]
    #[verifier::rlimit(80)]
    pub fn initialize_legal_rect_by_brute_force(&mut self)
        requires
            old(self).wf(),
        ensures
            final(self).wf(),
            final(self).grid() == old(self).grid(),
            final(self).points@.len() == old(self).points@.len(),
            final(self).legal_rects@ == scan(old(self).grid()),
            final(self).candidates_sound(),
            final(self).candidates_complete(),
            final(self).centroid == old(self).centroid,
            final(self).score == old(self).score,
            final(self).rects_history@ == old(self).rects_history@,
    {
        let ghost g = self.grid();
        let n = self.points.len();
        let dirs = Direction::to_vec();
        let mut result: Vec<Rect> = Vec::new();
        let mut i: usize = 0;
        while i < n
            invariant
                self.wf(),
                self.grid() == g,
                n == self.n(),
                self.points@.len() == old(self).points@.len(),
                self.legal_rects@ == old(self).legal_rects@,
                self.rects_history@ == old(self).rects_history@,
                self.score == old(self).score,
                self.centroid == old(self).centroid,
                dirs@.len() == 8,
                forall|t: int| 0 <= t < 8 ==> (#[trigger] dirs@[t]).idx() == t,
                0 <= i <= n,
                result@ == scan_rows(g, i as nat),
                forall|k: int|
                    0 <= k < result@.len() ==> legal_rect_spec(
                        g,
                        (#[trigger] result@[k]).p1,
                        result@[k].d,
                    ) == Some(result@[k]),
                forall|p: P, d: Direction|
                    in_grid(n as int, p) && p.x < i && (#[trigger] legal_rect_spec(g, p, d)) is Some
                        ==> result@.contains(legal_rect_spec(g, p, d)->Some_0),
            decreases n - i,
        {
            let mut j: usize = 0;
            while j < n
                invariant
                    self.wf(),
                    self.grid() == g,
                    n == self.n(),
                    self.points@.len() == old(self).points@.len(),
                    self.legal_rects@ == old(self).legal_rects@,
                    self.rects_history@ == old(self).rects_history@,
                    self.score == old(self).score,
                    self.centroid == old(self).centroid,
                    dirs@.len() == 8,
                    forall|t: int| 0 <= t < 8 ==> (#[trigger] dirs@[t]).idx() == t,
                    0 <= i < n,
                    0 <= j <= n,
                    result@ == scan_rows(g, i as nat) + scan_cols(g, i as int, j as nat),
                    forall|k: int|
                        0 <= k < result@.len() ==> legal_rect_spec(
                            g,
                            (#[trigger] result@[k]).p1,
                            result@[k].d,
                        ) == Some(result@[k]),
                    forall|p: P, d: Direction|
                        in_grid(n as int, p) && (p.x < i || (p.x == i && p.y < j)) && (
                        #[trigger] legal_rect_spec(g, p, d)) is Some ==> result@.contains(
                            legal_rect_spec(g, p, d)->Some_0,
                        ),
                decreases n - j,
            {
                let p1 = P::new(i as i32, j as i32);
                let mut k: usize = 0;
                while k < 8
                    invariant
                        self.wf(),
                        self.grid() == g,
                        n == self.n(),
                        self.points@.len() == old(self).points@.len(),
                        self.legal_rects@ == old(self).legal_rects@,
                        self.rects_history@ == old(self).rects_history@,
                        self.score == old(self).score,
                        self.centroid == old(self).centroid,
                        dirs@.len() == 8,
                        forall|t: int| 0 <= t < 8 ==> (#[trigger] dirs@[t]).idx() == t,
                        0 <= i < n,
                        0 <= j < n,
                        p1.x == i && p1.y == j,
                        0 <= k <= 8,
                        result@ == scan_rows(g, i as nat) + scan_cols(g, i as int, j as nat)
                            + scan_dirs(g, p1, k as nat),
                        forall|t: int|
                            0 <= t < result@.len() ==> legal_rect_spec(
                                g,
                                (#[trigger] result@[t]).p1,
                                result@[t].d,
                            ) == Some(result@[t]),
                        forall|p: P, d: Direction|
                            in_grid(n as int, p) && (p.x < i || (p.x == i && p.y < j) || (p == p1
                                && d.idx() < k)) && (#[trigger] legal_rect_spec(g, p, d)) is Some
                                ==> result@.contains(legal_rect_spec(g, p, d)->Some_0),
                    decreases 8 - k,
                {
                    let d = dirs[k];
                    let ghost before = result@;
                    let res = self.get_legal_rect(p1, d);
                    proof {
                        lemma_legal_rect_fields(g, p1, d);
                    }
                    if let Some(rect) = res {
                        result.push(rect);
                        assert(result@[result@.len() - 1] == rect);
                    }
                    assert(d == Direction::of_idx(k as int));
                    assert(result@ =~= scan_rows(g, i as nat) + scan_cols(g, i as int, j as nat)
                        + scan_dirs(g, p1, (k + 1) as nat));
                    assert forall|p: P, dd: Direction|
                        in_grid(n as int, p) && (p.x < i || (p.x == i && p.y < j) || (p == p1
                            && dd.idx() < k + 1)) && (#[trigger] legal_rect_spec(g, p, dd)) is Some
                            implies result@.contains(legal_rect_spec(g, p, dd)->Some_0) by {
                        if p == p1 && dd.idx() == k {
                            assert(dd == d);
                            assert(result@[result@.len() - 1] == legal_rect_spec(g, p, dd)->Some_0);
                        } else {
                            let w = choose|t: int|
                                0 <= t < before.len() && before[t] == legal_rect_spec(
                                    g,
                                    p,
                                    dd,
                                )->Some_0;
                            assert(result@[w] == before[w]);
                        }
                    }
                    k = k + 1;
                }
                assert(p1 == (P { x: i as i32, y: j as i32 }));
                assert(result@ =~= scan_rows(g, i as nat) + scan_cols(g, i as int, (j + 1) as nat));
                j = j + 1;
            }
            assert(g.len() == n);
            assert(result@ =~= scan_rows(g, (i + 1) as nat));
            i = i + 1;
        }
        self.legal_rects = result;
    }
    /// The start state of a problem: the initial vertices on an empty grid,
    /// no placement, score zero, and every legal move listed.
    #[verifier::spinoff_prover]
    #[verifier::rlimit(80)]
    pub fn new(input: &Input) -> (r: State)
        requires
            1 <= input.n <= MAX_N,
            forall|k: int| 0 <= k < input.ps@.len() ==> in_grid(input.n as int, #[trigger] input.ps@[k]),
        ensures
            r.inv(),
            r.candidates_complete(),
            r.legal_rects@ == scan(r.grid()),
            r.n() == input.n,
            forall|q: P|
                in_grid(input.n as int, q) ==> (#[trigger] at(r.grid(), q).is_point_used
                    == input.ps@.contains(q)),
            forall|q: P, d: Direction| in_grid(input.n as int, q) ==> !#[trigger] at(r.grid(), q).has(d),
            r.rects_history@.len() == 0,
            r.score == 0,
    {
        let n = input.n;
        let mut points: Vec<Vec<DirectedPoint>> = Vec::new();
        let mut i: usize = 0;
        while i < n
            invariant
                0 <= i <= n,
                points@.len() == i,
                forall|a: int| 0 <= a < i ==> (#[trigger] points@[a])@.len() == n,
                forall|a: int, b: int|
                    0 <= a < i && 0 <= b < n ==> (#[trigger] points@[a]@[b]) == blank(),
            decreases n - i,
        {
            let mut row: Vec<DirectedPoint> = Vec::new();
            let mut j: usize = 0;
            while j < n
                invariant
                    0 <= j <= n,
                    row@.len() == j,
                    forall|b: int| 0 <= b < j ==> (#[trigger] row@[b]) == blank(),
                decreases n - j,
            {
                row.push(DirectedPoint::new());
                j = j + 1;
            }
            points.push(row);
            i = i + 1;
        }
        let c = (n as i32 - 1) / 2;
        let mut result = State {
            points,
            centroid: P::new(c, c),
            score: 0,
            legal_rects: Vec::new(),
            rects_history: Vec::new(),
        };
        assert(result.wf());
        let mut k: usize = 0;
        while k < input.ps.len()
            invariant
                result.wf(),
                result.n() == n,
                1 <= n <= MAX_N,
                0 <= k <= input.ps@.len(),
                forall|t: int| 0 <= t < input.ps@.len() ==> in_grid(n as int, #[trigger] input.ps@[t]),
                forall|q: P|
                    in_grid(n as int, q) ==> (#[trigger] at(result.grid(), q).is_point_used
                        == input.ps@.take(k as int).contains(q)),
                forall|q: P|
                    in_grid(n as int, q) ==> (#[trigger] at(result.grid(), q).are_directions_used
                        == 0),
                result.centroid == (P { x: c, y: c }),
                c == (n - 1) / 2,
                result.score == 0,
                result.legal_rects@.len() == 0,
                result.rects_history@.len() == 0,
            decreases input.ps@.len() - k,
        {
            let p = input.ps[k];
            let ghost g0 = result.grid();
            assert(at(g0, p).are_directions_used == 0);
            result.points[p.x as usize][p.y as usize].use_point();
            let ghost c1 = at(result.grid(), p);
            assert(result.grid() =~~= g0.update(p.x as int, g0[p.x as int].update(p.y as int, c1)));
            assert(input.ps@.take(k + 1) =~= input.ps@.take(k as int).push(p));
            assert forall|q: P| in_grid(n as int, q) implies (#[trigger] at(
                result.grid(),
                q,
            ).is_point_used == input.ps@.take(k + 1).contains(q)) by {
                let s0 = input.ps@.take(k as int);
                if q == p {
                    assert(s0.push(p)[k as int] == p);
                } else {
                    assert(at(result.grid(), q) == at(g0, q));
                    if s0.contains(q) {
                        let w = choose|t: int| 0 <= t < s0.len() && s0[t] == q;
                        assert(s0.push(p)[w] == q);
                    }
                    if s0.push(p).contains(q) {
                        let w = choose|t: int| 0 <= t < s0.len() + 1 && s0.push(p)[t] == q;
                        assert(s0[w] == q);
                    }
                }
            }
            assert forall|q: P| in_grid(n as int, q) implies (#[trigger] at(
                result.grid(),
                q,
            ).are_directions_used == 0) by {
                if q != p {
                    assert(at(result.grid(), q) == at(g0, q));
                }
            }
            k = k + 1;
        }
        assert(input.ps@.take(k as int) =~= input.ps@);
        proof {
            assert forall|q: P, d: Direction| in_grid(n as int, q) implies !#[trigger] at(
                result.grid(),
                q,
            ).has(d) by {
                lemma_empty_mask(d.idx() as u8);
            }
        }
        result.initialize_legal_rect_by_brute_force();
        result
    }
    /// An independent copy of the state.
    pub fn duplicate(&self) -> (r: State)
        requires
            self.inv(),
        ensures
            r.inv(),
            r.grid() == self.grid(),
            r.n() == self.n(),
            r.centroid == self.centroid,
            r.score == self.score,
            r.legal_rects@ == self.legal_rects@,
            r.rects_history@ == self.rects_history@,
    {
        let n = self.points.len();
        let mut points: Vec<Vec<DirectedPoint>> = Vec::new();
        let mut i: usize = 0;
        while i < n
            invariant
                self.inv(),
                n == self.n(),
                0 <= i <= n,
                points@.len() == i,
                forall|a: int| 0 <= a < i ==> (#[trigger] points@[a])@ == self.points@[a]@,
            decreases n - i,
        {
            let mut row: Vec<DirectedPoint> = Vec::new();
            let mut j: usize = 0;
            assert(self.points@[i as int]@.len() == n);
            while j < n
                invariant
                    self.inv(),
                    n == self.n(),
                    0 <= i < n,
                    0 <= j <= n,
                    self.points@[i as int]@.len() == n,
                    row@ == self.points@[i as int]@.take(j as int),
                decreases n - j,
            {
                row.push(self.points[i][j]);
                assert(row@ =~= self.points@[i as int]@.take(j + 1));
                j = j + 1;
            }
            assert(row@ =~= self.points@[i as int]@);
            points.push(row);
            i = i + 1;
        }
        let mut legal_rects: Vec<Rect> = Vec::new();
        let mut k: usize = 0;
        while k < self.legal_rects.len()
            invariant
                0 <= k <= self.legal_rects@.len(),
                legal_rects@ == self.legal_rects@.take(k as int),
            decreases self.legal_rects@.len() - k,
        {
            legal_rects.push(self.legal_rects[k]);
            assert(legal_rects@ =~= self.legal_rects@.take(k + 1));
            k = k + 1;
        }
        assert(legal_rects@ =~= self.legal_rects@);
        let mut rects_history: Vec<Rect> = Vec::new();
        let mut k: usize = 0;
        while k < self.rects_history.len()
            invariant
                0 <= k <= self.rects_history@.len(),
                rects_history@ == self.rects_history@.take(k as int),
            decreases self.rects_history@.len() - k,
        {
            rects_history.push(self.rects_history[k]);
            assert(rects_history@ =~= self.rects_history@.take(k + 1));
            k = k + 1;
        }
        assert(rects_history@ =~= self.rects_history@);
        let r = State { points, centroid: self.centroid, score: self.score, legal_rects, rects_history };
        assert(r.grid() =~= self.grid());
        r
    }
}

} // verus!
