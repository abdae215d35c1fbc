use rect_grid::cell::DirectedPoint;
use rect_grid::geometry::{Direction, InvalidDirection, P};
use rect_grid::search::{beam_search, greedy};
use rect_grid::oracle::Rect;
use rect_grid::state::{Input, State};
use std::collections::BTreeSet;

fn start(n: usize, pts: &[(i32, i32)]) -> State {
    let ps = pts.iter().map(|&(x, y)| P::new(x, y)).collect();
    State::new(&Input { n, ps })
}

fn rect(c: [(i32, i32); 4], d: Direction) -> Rect {
    Rect {
        p1: P::new(c[0].0, c[0].1),
        p2: P::new(c[1].0, c[1].1),
        p3: P::new(c[2].0, c[2].1),
        p4: P::new(c[3].0, c[3].1),
        d,
    }
}

fn moves(s: &State) -> BTreeSet<(i32, i32, usize)> {
    s.legal_rects.iter().map(|r| (r.p1.x, r.p1.y, r.d.as_idx())).collect()
}

fn rescan(s: &State) -> BTreeSet<(i32, i32, usize)> {
    let mut t = s.duplicate();
    t.initialize_legal_rect_by_brute_force();
    moves(&t)
}

fn occupied(s: &State) -> usize {
    s.points.iter().map(|row| row.iter().filter(|c| c.is_point_used).count()).sum()
}

#[test]
fn direction_rotation_and_flip() {
    assert_eq!(Direction::D.rotated(), Direction::R);
    assert_eq!(Direction::DR.rotated(), Direction::UR);
    assert_eq!(Direction::DL.rotated(), Direction::DR);
    assert_eq!(Direction::D.flipped(), Direction::U);
    assert_eq!(Direction::UR.flipped(), Direction::DL);
    for d in Direction::to_vec() {
        let v = d.as_p2d();
        assert_eq!(d.rotated().as_p2d(), v.rotated());
        assert_eq!(d.flipped().as_p2d(), v.neg());
        assert_eq!(Direction::from_idx(d.as_idx()), d);
    }
}

#[test]
fn direction_indices_in_order() {
    let all = Direction::to_vec();
    assert_eq!(all.len(), 8);
    for (i, d) in all.iter().enumerate() {
        assert_eq!(d.as_idx(), i);
    }
    assert_eq!(all[1], Direction::DR);
    assert_eq!(all[7], Direction::DL);
}

#[test]
fn direction_from_displacement() {
    assert_eq!(Direction::from_p2d(P::new(5, 0)), Ok(Direction::D));
    assert_eq!(Direction::from_p2d(P::new(-3, 7)), Ok(Direction::UR));
    assert_eq!(Direction::from_p2d(P::new(0, -2)), Ok(Direction::L));
    assert_eq!(Direction::from_p2d(P::new(0, 0)), Err(InvalidDirection));
}

#[test]
fn point_arithmetic() {
    let a = P::new(3, -2);
    let b = P::new(1, 4);
    assert_eq!(a.add(b), P::new(4, 2));
    assert_eq!(a.sub(b), P::new(2, -6));
    assert_eq!(a.neg(), P::new(-3, 2));
    assert_eq!(a.rotated(), P::new(2, 3));
    assert_eq!(a.weighted_dist(), 14);
    assert_eq!(P::new(0, 0).weighted_dist(), 1);
}

#[test]
fn cell_bits() {
    let mut c = DirectedPoint::new();
    assert!(!c.is_point_used);
    for d in Direction::to_vec() {
        assert!(!c.is_direction_used_at(d));
    }
    c.use_direction_at(Direction::UL);
    c.use_direction_at(Direction::D);
    assert!(c.is_direction_used_at(Direction::UL));
    assert!(c.is_direction_used_at(Direction::D));
    assert!(!c.is_direction_used_at(Direction::R));
    c.use_point();
    assert!(c.is_point_used);
    c.clear_point();
    assert!(!c.is_point_used);
    assert!(c.is_direction_used_at(Direction::UL));
}

#[test]
fn four_corners_leave_no_move() {
    let s = start(5, &[(0, 0), (0, 4), (4, 0), (4, 4)]);
    assert!(s.legal_rects.is_empty());
    let r = beam_search(s, 1);
    assert_eq!(r.rects_history.len(), 0);
}

#[test]
fn three_corners_give_the_square() {
    let mut s = start(5, &[(0, 0), (0, 4), (4, 0)]);
    let sq = rect([(4, 4), (0, 4), (0, 0), (4, 0)], Direction::U);
    assert_eq!(s.legal_rects, vec![sq]);
    s.set_rect(&sq);
    assert_eq!(s.rects_history, vec![sq]);
    assert_eq!(s.score, 9);
    assert!(s.points[4][4].is_point_used);
    assert!(s.legal_rects.is_empty());
    assert!(s.points[2][4].is_direction_used_at(Direction::U));
    assert!(s.points[2][4].is_direction_used_at(Direction::D));
    assert!(s.points[4][4].is_direction_used_at(Direction::U));
    assert!(s.points[4][4].is_direction_used_at(Direction::L));
    assert!(!s.points[4][4].is_direction_used_at(Direction::D));
    assert!(!s.points[2][2].is_direction_used_at(Direction::U));
    let r = beam_search(start(5, &[(0, 0), (0, 4), (4, 0)]), 1);
    assert_eq!(r.rects_history, vec![sq]);
}

#[test]
fn oracle_search_point() {
    let s = start(5, &[(0, 0), (0, 4), (4, 0)]);
    assert_eq!(s.search_point(P::new(4, 4), Direction::U, Direction::L), Some(P::new(0, 4)));
    assert_eq!(s.search_point(P::new(0, 4), Direction::L, Direction::D), Some(P::new(0, 0)));
    assert_eq!(s.search_point(P::new(0, 0), Direction::U, Direction::R), None);
    assert_eq!(s.search_point(P::new(2, 2), Direction::DR, Direction::UR), None);
}

#[test]
fn oracle_idempotent() {
    let mut s = start(7, &[(2, 2), (2, 4), (4, 2), (4, 4), (3, 3)]);
    let before = s.points.clone();
    for d in Direction::to_vec() {
        let a = s.get_legal_rect(P::new(1, 3), d);
        let b = s.get_legal_rect(P::new(1, 3), d);
        assert_eq!(a, b);
        assert_eq!(s.points, before);
    }
    assert_eq!(
        s.get_legal_rect(P::new(1, 3), Direction::DL),
        Some(rect([(1, 3), (2, 2), (3, 3), (2, 4)], Direction::DL))
    );
    assert_eq!(s.get_legal_rect(P::new(3, 3), Direction::D), None);
    assert_eq!(s.get_legal_rect(P::new(-1, 3), Direction::D), None);
}

#[test]
fn reverse_helpers_find_the_square() {
    let mut s = start(5, &[(0, 0), (0, 4), (4, 0)]);
    let sq = rect([(4, 4), (0, 4), (0, 0), (4, 0)], Direction::U);
    assert_eq!(s.cur_p1_as_next_p2(P::new(0, 4), Direction::U), Some(sq));
    assert_eq!(s.cur_p1_as_next_p3(P::new(0, 0), Direction::U), Some(sq));
    assert_eq!(s.cur_p1_as_next_p4(P::new(4, 0), Direction::U), Some(sq));
    assert_eq!(s.cur_p1_as_next_p2(P::new(0, 4), Direction::D), None);
}

#[test]
fn greedy_small_cross() {
    let s = start(7, &[(2, 2), (2, 4), (4, 2), (4, 4), (3, 3)]);
    assert_eq!(s.legal_rects.len(), 4);
    let r = greedy(s);
    assert_eq!(
        r.rects_history,
        vec![
            rect([(1, 3), (2, 2), (3, 3), (2, 4)], Direction::DL),
            rect([(5, 3), (4, 4), (3, 3), (4, 2)], Direction::UR),
        ]
    );
    assert_eq!(r.score, 10);
}

#[test]
fn greedy_larger_instance() {
    let s = start(8, &[(1, 1), (1, 5), (5, 1), (3, 3), (2, 6), (6, 6), (4, 2)]);
    assert_eq!(s.legal_rects.len(), 4);
    let r = greedy(s);
    assert_eq!(
        r.rects_history,
        vec![
            rect([(7, 5), (6, 6), (3, 3), (4, 2)], Direction::UR),
            rect([(5, 5), (1, 5), (1, 1), (5, 1)], Direction::U),
        ]
    );
    assert_eq!(r.score, 30);
}

#[test]
fn incremental_matches_rescan() {
    for (n, pts) in [
        (7usize, vec![(2, 2), (2, 4), (4, 2), (4, 4), (3, 3)]),
        (8, vec![(1, 1), (1, 5), (5, 1), (3, 3), (2, 6), (6, 6), (4, 2)]),
        (9, vec![(4, 4), (4, 5), (5, 4), (3, 3), (2, 4), (4, 2), (6, 6), (5, 7)]),
    ] {
        let mut s = start(n, &pts);
        assert_eq!(moves(&s), rescan(&s));
        while !s.legal_rects.is_empty() {
            let r = s.legal_rects[s.best_move()];
            s.set_rect(&r);
            assert_eq!(moves(&s), rescan(&s));
        }
    }
}

#[test]
fn one_vertex_per_commit() {
    let n = 9;
    let mut s = start(n, &[(4, 4), (4, 5), (5, 4), (3, 3), (2, 4), (4, 2), (6, 6), (5, 7)]);
    let mut count = occupied(&s);
    while !s.legal_rects.is_empty() {
        let r = s.legal_rects[0];
        s.set_rect(&r);
        assert_eq!(occupied(&s), count + 1);
        count += 1;
    }
    assert!(s.rects_history.len() <= n * n);
}

fn side_cells(r: &Rect) -> Vec<(i32, i32, Direction)> {
    let corners = [r.p1, r.p2, r.p3, r.p4, r.p1];
    let mut d = r.d;
    let mut out = vec![];
    for k in 0..4 {
        let (a, b) = (corners[k], corners[k + 1]);
        let v = d.as_p2d();
        let mut c = a;
        out.push((c.x, c.y, d));
        loop {
            c = c.add(v);
            out.push((c.x, c.y, d.flipped()));
            if c == b {
                break;
            }
            out.push((c.x, c.y, d));
        }
        d = d.rotated();
    }
    out
}

#[test]
fn closed_and_overlap_free() {
    let mut s = start(9, &[(4, 4), (4, 5), (5, 4), (3, 3), (2, 4), (4, 2), (6, 6), (5, 7)]);
    let mut taken: BTreeSet<(i32, i32, usize)> = BTreeSet::new();
    while !s.legal_rects.is_empty() {
        let r = s.legal_rects[s.best_move()];
        let cs = [r.p1, r.p2, r.p3, r.p4];
        for i in 0..4 {
            for j in i + 1..4 {
                assert_ne!(cs[i], cs[j]);
            }
        }
        let mut d = r.d;
        for i in 0..4 {
            let e = cs[(i + 1) % 4].sub(cs[i]);
            assert_eq!(Direction::from_p2d(e), Ok(d));
            d = d.rotated();
        }
        for (x, y, f) in side_cells(&r) {
            assert!(!s.points[x as usize][y as usize].is_direction_used_at(f));
            assert!(taken.insert((x, y, f.as_idx())));
        }
        s.set_rect(&r);
        for (x, y, f) in side_cells(&r) {
            assert!(s.points[x as usize][y as usize].is_direction_used_at(f));
        }
    }
}

#[test]
fn beam_width_one_is_greedy() {
    for (n, pts) in [
        (5usize, vec![(0, 0), (0, 4), (4, 0)]),
        (7, vec![(2, 2), (2, 4), (4, 2), (4, 4), (3, 3)]),
        (8, vec![(1, 1), (1, 5), (5, 1), (3, 3), (2, 6), (6, 6), (4, 2)]),
        (9, vec![(4, 4), (4, 5), (5, 4), (3, 3), (2, 4), (4, 2), (6, 6), (5, 7)]),
    ] {
        let g = greedy(start(n, &pts));
        let b = beam_search(start(n, &pts), 1);
        assert_eq!(g.rects_history, b.rects_history);
        assert_eq!(g.score, b.score);
    }
}

#[test]
fn wider_beam_scores_at_least_greedy() {
    let pts = vec![(4, 4), (4, 5), (5, 4), (3, 3), (2, 4), (4, 2), (6, 6), (5, 7)];
    let g = greedy(start(9, &pts));
    let b = beam_search(start(9, &pts), 4);
    assert!(b.legal_rects.is_empty());
    assert!(b.score >= g.score);
}

#[test]
fn single_cell_grid() {
    let s = start(1, &[(0, 0)]);
    assert!(s.legal_rects.is_empty());
    assert_eq!(s.centroid, P::new(0, 0));
    let r = greedy(s);
    assert_eq!(r.rects_history.len(), 0);
    assert_eq!(r.score, 0);
}

#[test]
fn repeated_initial_points() {
    let s = start(5, &[(0, 0), (0, 4), (0, 0), (4, 0), (4, 0)]);
    assert_eq!(occupied(&s), 3);
    assert_eq!(s.legal_rects.len(), 1);
    assert_eq!(s.centroid, P::new(2, 2));
}

#[test]
fn duplicate_is_independent() {
    let s = start(5, &[(0, 0), (0, 4), (4, 0)]);
    let mut c = s.duplicate();
    let r = c.legal_rects[0];
    c.set_rect(&r);
    assert_eq!(s.rects_history.len(), 0);
    assert_eq!(s.legal_rects.len(), 1);
    assert!(!s.points[4][4].is_point_used);
    assert!(c.points[4][4].is_point_used);
}

#[test]
fn weighted_dist_large_coordinates() {
    assert_eq!(P::new(100000, -100000).weighted_dist(), 20_000_000_001);
    assert_eq!(
        P::new(i32::MAX, -i32::MAX).weighted_dist(),
        2 * (i32::MAX as i64) * (i32::MAX as i64) + 1
    );
}
