//! Greedy and bounded beam search over search states.

use vstd::prelude::*;
use crate::geometry::P;
use crate::grid::{in_grid, lemma_occupied_bound};
use crate::oracle::{Rect, legal_rect_spec, lemma_rect_sides};
use crate::state::{Model, State, gain, lemma_step_deterministic, step_to};

verus! {

/// `i` is the first listed move among those of greatest gain.
pub open spec fn first_best(l: Seq<Rect>, c: P, i: int) -> bool {
    &&& 0 <= i < l.len()
    &&& forall|j: int| 0 <= j < l.len() ==> gain((#[trigger] l[j]).p1, c) <= gain(l[i].p1, c)
    &&& forall|j: int| 0 <= j < i ==> gain((#[trigger] l[j]).p1, c) < gain(l[i].p1, c)
}

/// `m1` follows `m0` by committing the first move of greatest gain.
pub open spec fn greedy_step(m0: Model, m1: Model) -> bool {
    exists|i: int| #[trigger] first_best(m0.3, m0.1, i) && step_to(m0, m0.3[i], m1)
}

/// A run of greedy steps that ends in a state without legal moves.
pub open spec fn is_greedy_trace(t: Seq<Model>) -> bool {
    &&& t.len() >= 1
    &&& forall|i: int| 0 <= i < t.len() - 1 ==> greedy_step(#[trigger] t[i], t[i + 1])
    &&& t.last().3.len() == 0
}

proof fn lemma_first_best_unique(l: Seq<Rect>, c: P, i: int, j: int)
    requires
        first_best(l, c, i),
        first_best(l, c, j),
    ensures
        i == j,
{
    if i < j {
        assert(gain(l[i].p1, c) < gain(l[j].p1, c));
    } else if j < i {
        assert(gain(l[j].p1, c) < gain(l[i].p1, c));
    }
}

/// From one state, a greedy step has one outcome.
proof fn lemma_greedy_step_unique(m0: Model, m1: Model, m2: Model)
    requires
        greedy_step(m0, m1),
        greedy_step(m0, m2),
    ensures
        m1 == m2,
{
    let i = choose|i: int| #[trigger] first_best(m0.3, m0.1, i) && step_to(m0, m0.3[i], m1);
    let j = choose|j: int| #[trigger] first_best(m0.3, m0.1, j) && step_to(m0, m0.3[j], m2);
    lemma_first_best_unique(m0.3, m0.1, i, j);
    lemma_step_deterministic(m0, m0.3[i], m1, m2);
}

proof fn lemma_traces_agree(t1: Seq<Model>, t2: Seq<Model>, k: int)
    requires
        is_greedy_trace(t1),
        is_greedy_trace(t2),
        t1[0] == t2[0],
        0 <= k < t1.len(),
        k < t2.len(),
    ensures
        t1[k] == t2[k],
    decreases k,
{
    if k > 0 {
        lemma_traces_agree(t1, t2, k - 1);
        assert(greedy_step(t1[k - 1], t1[k]));
        assert(greedy_step(t2[k - 1], t2[k]));
        lemma_greedy_step_unique(t1[k - 1], t1[k], t2[k]);
    }
}

/// Greedy runs are unique: two greedy traces from one state end in the
/// same state. `greedy` and `beam_search` with width one both return the
/// end of such a trace from their start, so they return the same state:
/// the same placements, score, grid and (empty) move list.
pub proof fn lemma_greedy_trace_unique(t1: Seq<Model>, t2: Seq<Model>)
    requires
        is_greedy_trace(t1),
        is_greedy_trace(t2),
        t1[0] == t2[0],
    ensures
        t1.last() == t2.last(),
{
    if t1.len() < t2.len() {
        let k = t1.len() - 1;
        lemma_traces_agree(t1, t2, k);
        assert(greedy_step(t2[k], t2[k + 1]));
        let i = choose|i: int| #[trigger] first_best(t2[k].3, t2[k].1, i) && step_to(t2[k], t2[k].3[i], t2[k + 1]);
        assert(false);
    } else if t2.len() < t1.len() {
        let k = t2.len() - 1;
        lemma_traces_agree(t1, t2, k);
        assert(greedy_step(t1[k], t1[k + 1]));
        let i = choose|i: int| #[trigger] first_best(t1[k].3, t1[k].1, i) && step_to(t1[k], t1[k].3[i], t1[k + 1]);
        assert(false);
    } else {
        lemma_traces_agree(t1, t2, t1.len() - 1);
    }
}

/// The model that committing `r` to `m` leaves (see `step_to`; it is unique).
pub open spec fn commit_model(m: Model, r: Rect) -> Model {
    choose|m1: Model| step_to(m, r, m1)
}

/// The children of a state: one per listed move, in list order.
pub open spec fn children_of(m: Model) -> Seq<Model> {
    Seq::new(m.3.len(), |i: int| commit_model(m, m.3[i]))
}

/// One round's expansion of a frontier, taken from its last state to its
/// first: the children of states with moves, and the states without moves.
pub open spec fn expand(front: Seq<Model>) -> (Seq<Model>, Seq<Model>)
    decreases front.len(),
{
    if front.len() == 0 {
        (Seq::empty(), Seq::empty())
    } else {
        let m = front.last();
        let rest = expand(front.drop_last());
        if m.3.len() == 0 {
            (rest.0, seq![m] + rest.1)
        } else {
            (children_of(m) + rest.0, rest.1)
        }
    }
}

/// `i` is the first state among those of greatest score.
pub open spec fn is_first_max(ms: Seq<Model>, i: int) -> bool {
    &&& 0 <= i < ms.len()
    &&& forall|j: int| 0 <= j < ms.len() ==> (#[trigger] ms[j]).2 <= ms[i].2
    &&& forall|j: int| 0 <= j < i ==> (#[trigger] ms[j]).2 < ms[i].2
}

pub open spec fn first_max(ms: Seq<Model>) -> int {
    choose|i: int| is_first_max(ms, i)
}

/// The `w` states of greatest score, taken one by one, ties to the earlier.
pub open spec fn select(cs: Seq<Model>, w: nat) -> Seq<Model>
    decreases w,
{
    if w == 0 || cs.len() == 0 {
        Seq::empty()
    } else {
        let i = first_max(cs);
        seq![cs[i]] + select(cs.remove(i), (w - 1) as nat)
    }
}

/// The terminal states a beam search of width `w` collects, for at most
/// `fuel` rounds, from frontier `front` and terminal states `terms`.
pub open spec fn beam_run(front: Seq<Model>, terms: Seq<Model>, w: nat, fuel: nat) -> Seq<Model>
    decreases fuel,
{
    if front.len() == 0 || fuel == 0 {
        terms
    } else {
        let e = expand(front);
        beam_run(select(e.0, w), terms + e.1, w, (fuel - 1) as nat)
    }
}

/// The rounds a search from a state of `h` placements on an `n`-grid can
/// take: every round adds one placement, and there are at most `n * n`.
pub open spec fn round_bound(n: int, h: int) -> nat {
    (n * n + 1 - h) as nat
}

/// What a beam search of width `w` from `m` returns: the first terminal
/// state of greatest score.
pub open spec fn beam_result(m: Model, w: nat, rounds: nat) -> Model {
    let ts = beam_run(seq![m], Seq::empty(), w, rounds);
    ts[first_max(ts)]
}

pub open spec fn models(v: Seq<State>) -> Seq<Model> {
    v.map_values(|s: State| s.model())
}

proof fn lemma_first_max_is(ms: Seq<Model>, i: int)
    requires
        is_first_max(ms, i),
    ensures
        first_max(ms) == i,
{
    let k = first_max(ms);
    if k < i {
        assert(ms[k].2 < ms[i].2);
    } else if i < k {
        assert(ms[i].2 < ms[k].2);
    }
}

proof fn lemma_commit_model(m: Model, r: Rect, m1: Model)
    requires
        step_to(m, r, m1),
    ensures
        commit_model(m, r) == m1,
{
    lemma_step_deterministic(m, r, commit_model(m, r), m1);
}

/// A valid state holds at most `n * n` placements, so every search commits
/// at most that many rectangles.
pub proof fn lemma_history_bounded(s: State)
    requires
        s.inv(),
    ensures
        s.rects_history@.len() <= s.n() * s.n(),
{
    lemma_occupied_bound(s.grid(), s.n());
}

/// A listed move's new corner lies in the grid.
proof fn lemma_candidate_in_grid(s: State, i: int)
    requires
        s.inv(),
        0 <= i < s.legal_rects@.len(),
    ensures
        in_grid(s.n(), s.legal_rects@[i].p1),
        in_grid(s.n(), s.centroid),
{
    lemma_rect_sides(s.grid(), s.legal_rects@[i]);
}

impl State {
    /// The score that placing `r` would add.
    pub open spec fn gain_of(self, r: Rect) -> int {
        gain(r.p1, self.centroid)
    }

    /// The first listed move among those of greatest gain.
    pub fn best_move(&self) -> (r: usize)
        requires
            self.inv(),
            self.legal_rects@.len() > 0,
        ensures
            r < self.legal_rects@.len(),
            forall|j: int|
                0 <= j < self.legal_rects@.len() ==> self.gain_of(#[trigger] self.legal_rects@[j])
                    <= self.gain_of(self.legal_rects@[r as int]),
            forall|j: int|
                0 <= j < r ==> self.gain_of(#[trigger] self.legal_rects@[j]) < self.gain_of(
                    self.legal_rects@[r as int],
                ),
    {
        proof {
            lemma_candidate_in_grid(*self, 0);
        }
        let mut best: usize = 0;
        let mut best_gain = self.legal_rects[0].p1.sub(self.centroid).weighted_dist();
        let mut i: usize = 1;
        while i < self.legal_rects.len()
            invariant
                self.inv(),
                1 <= i <= self.legal_rects@.len(),
                best < i,
                best_gain == self.gain_of(self.legal_rects@[best as int]),
                forall|j: int|
                    0 <= j < i ==> self.gain_of(#[trigger] self.legal_rects@[j]) <= best_gain,
                forall|j: int| 0 <= j < best ==> self.gain_of(#[trigger] self.legal_rects@[j]) < best_gain,
            decreases self.legal_rects@.len() - i,
        {
            proof {
                lemma_candidate_in_grid(*self, i as int);
            }
            let w = self.legal_rects[i].p1.sub(self.centroid).weighted_dist();
            if w > best_gain {
                best = i;
                best_gain = w;
            }
            i = i + 1;
        }
        best
    }
}

/// Commits, until no legal move is left, the first move of greatest gain.
pub fn greedy(start: State) -> (r: State)
    requires
        start.inv(),
    ensures
        r.inv(),
        r.legal_rects@.len() == 0,
        r.n() == start.n(),
        r.centroid == start.centroid,
        r.rects_history@.len() >= start.rects_history@.len(),
        r.rects_history@.take(start.rects_history@.len() as int) == start.rects_history@,
        r.rects_history@.len() <= r.n() * r.n(),
        exists|t: Seq<Model>| is_greedy_trace(t) && t[0] == start.model() && t.last() == r.model(),
{
    let mut s = start;
    let ghost h0 = start.rects_history@;
    let ghost mut t: Seq<Model> = seq![start.model()];
    while s.legal_rects.len() > 0
        invariant
            s.inv(),
            s.n() == start.n(),
            s.centroid == start.centroid,
            s.rects_history@.len() >= h0.len(),
            s.rects_history@.take(h0.len() as int) == h0,
            t.len() >= 1,
            t[0] == start.model(),
            t.last() == s.model(),
            forall|i: int| 0 <= i < t.len() - 1 ==> greedy_step(#[trigger] t[i], t[i + 1]),
        decreases s.n() * s.n() - s.rects_history@.len(),
    {
        proof {
            lemma_history_bounded(s);
        }
        let idx = s.best_move();
        let r = s.legal_rects[idx];
        let ghost before = s.rects_history@;
        let ghost m0 = s.model();
        s.set_rect(&r);
        proof {
            lemma_history_bounded(s);
            assert(s.rects_history@.take(h0.len() as int) =~= before.take(h0.len() as int));
            assert(first_best(m0.3, m0.1, idx as int));
            assert(greedy_step(m0, s.model()));
            t = t.push(s.model());
        }
    }
    proof {
        lemma_history_bounded(s);
    }
    s
}

/// The first state among those of greatest score.
pub fn best_state_index(states: &Vec<State>) -> (r: usize)
    requires
        states@.len() > 0,
    ensures
        r < states@.len(),
        forall|j: int| 0 <= j < states@.len() ==> (#[trigger] states@[j]).score <= states@[r as int].score,
        forall|j: int| 0 <= j < r ==> (#[trigger] states@[j]).score < states@[r as int].score,
{
    let mut best: usize = 0;
    let mut i: usize = 1;
    while i < states.len()
        invariant
            1 <= i <= states@.len(),
            best < i,
            forall|j: int| 0 <= j < i ==> (#[trigger] states@[j]).score <= states@[best as int].score,
            forall|j: int| 0 <= j < best ==> (#[trigger] states@[j]).score < states@[best as int].score,
        decreases states@.len() - i,
    {
        if states[i].score > states[best].score {
            best = i;
        }
        i = i + 1;
    }
    best
}

/// The states a search may hold: valid, on the same grid size and
/// centroid, with the start's placements first.
pub open spec fn descends(s: State, start: State) -> bool {
    &&& s.inv()
    &&& s.n() == start.n()
    &&& s.centroid == start.centroid
    &&& s.rects_history@.len() >= start.rects_history@.len()
    &&& s.rects_history@.take(start.rects_history@.len() as int) == start.rects_history@
}

/// Bounded beam search: each round expands every frontier state by each of
/// its legal moves, sets aside states without moves as terminal, and keeps
/// the `beam_width` children of highest score (ties to the earlier child).
/// Returns the first terminal state of greatest score. With width one it
/// follows the greedy run.
#[verifier::spinoff_prover]
#[verifier::rlimit(100)]
pub fn beam_search(start: State, beam_width: usize) -> (r: State)
    requires
        start.inv(),
        beam_width >= 1,
    ensures
        descends(r, start),
        r.legal_rects@.len() == 0,
        beam_width == 1 ==> exists|t: Seq<Model>|
            is_greedy_trace(t) && t[0] == start.model() && t.last() == r.model(),
        r.model() == beam_result(
            start.model(),
            beam_width as nat,
            round_bound(start.n(), start.rects_history@.len() as int),
        ),
{
    let ghost h0 = start.rects_history@.len();
    let ghost nn = start.n() * start.n();
    let ghost st = start;
    proof {
        lemma_history_bounded(start);
        assert(start.rects_history@.take(h0 as int) =~= start.rects_history@);
    }
    let ghost w = beam_width as nat;
    let ghost fin = beam_run(seq![st.model()], Seq::empty(), w, round_bound(st.n(), h0 as int));
    let mut frontier: Vec<State> = Vec::new();
    frontier.push(start);
    let mut terminals: Vec<State> = Vec::new();
    assert(models(frontier@) =~= seq![st.model()]);
    assert(models(terminals@) =~= Seq::<Model>::empty());
    let ghost mut round: int = 0;
    let ghost mut t: Seq<Model> = seq![st.model()];
    while frontier.len() > 0
        invariant
            beam_width >= 1,
            nn == st.n() * st.n(),
            h0 == st.rects_history@.len(),
            forall|i: int|
                0 <= i < frontier@.len() ==> descends(#[trigger] frontier@[i], st)
                    && frontier@[i].rects_history@.len() == h0 + round,
            forall|i: int|
                0 <= i < terminals@.len() ==> descends(#[trigger] terminals@[i], st)
                    && terminals@[i].legal_rects@.len() == 0,
            frontier@.len() > 0 || terminals@.len() > 0,
            h0 + round <= nn + 1,
            w == beam_width as nat,
            beam_run(models(frontier@), models(terminals@), w, round_bound(st.n(), h0 + round))
                == fin,
            t.len() >= 1,
            t[0] == st.model(),
            forall|i: int| 0 <= i < t.len() - 1 ==> greedy_step(#[trigger] t[i], t[i + 1]),
            beam_width == 1 ==> ((frontier@.len() == 1 && terminals@.len() == 0 && t.last()
                == frontier@[0].model()) || (frontier@.len() == 0 && terminals@.len() == 1
                && t.last() == terminals@[0].model())),
        decreases nn + 1 - (h0 + round),
    {
        proof {
            lemma_history_bounded(frontier@[0]);
        }
        let mut children: Vec<State> = Vec::new();
        let ghost mut parent: Model = t.last();
        let ghost f0 = models(frontier@);
        let ghost t0 = models(terminals@);
        assert(models(children@) =~= Seq::<Model>::empty());
        assert(models(children@) + expand(models(frontier@)).0 =~= expand(f0).0);
        assert(models(terminals@) + expand(models(frontier@)).1 =~= t0 + expand(f0).1);
        while frontier.len() > 0
            invariant
                h0 == st.rects_history@.len(),
                models(children@) + expand(models(frontier@)).0 == expand(f0).0,
                models(terminals@) + expand(models(frontier@)).1 == t0 + expand(f0).1,
                forall|i: int|
                    0 <= i < frontier@.len() ==> descends(#[trigger] frontier@[i], st)
                        && frontier@[i].rects_history@.len() == h0 + round,
                forall|i: int|
                    0 <= i < children@.len() ==> descends(#[trigger] children@[i], st)
                        && children@[i].rects_history@.len() == h0 + round + 1,
                forall|i: int|
                    0 <= i < terminals@.len() ==> descends(#[trigger] terminals@[i], st)
                        && terminals@[i].legal_rects@.len() == 0,
                frontier@.len() > 0 || terminals@.len() > 0 || children@.len() > 0,
                beam_width == 1 ==> ((frontier@.len() == 1 && children@.len() == 0
                    && terminals@.len() == 0 && t.last() == frontier@[0].model()) || (
                frontier@.len() == 0 && children@.len() == 0 && terminals@.len() == 1 && t.last()
                    == terminals@[0].model()) || (frontier@.len() == 0 && terminals@.len() == 0
                    && t.last() == parent && children@.len() == parent.3.len()
                    && children@.len() >= 1 && forall|i: int|
                    0 <= i < children@.len() ==> step_to(
                        parent,
                        parent.3[i],
                        (#[trigger] children@[i]).model(),
                    ))),
            decreases frontier@.len(),
        {
            let ghost fcur = models(frontier@);
            let ghost ccur = models(children@);
            let ghost tcur = models(terminals@);
            let s = frontier.pop().unwrap();
            assert(descends(s, st));
            assert(models(frontier@) =~= fcur.drop_last());
            assert(fcur.last() == s.model());
            if s.legal_rects.len() == 0 {
                terminals.push(s);
                assert(models(terminals@) =~= tcur.push(s.model()));
                assert(models(terminals@) + expand(models(frontier@)).1 =~= tcur + expand(fcur).1);
                assert(models(children@) + expand(models(frontier@)).0 =~= ccur + expand(fcur).0);
            } else {
                let ghost base = children@.len();
                let ghost c0 = children@;
                proof {
                    parent = s.model();
                }
                let mut k: usize = 0;
                while k < s.legal_rects.len()
                    invariant
                        descends(s, st),
                        s.rects_history@.len() == h0 + round,
                        s.legal_rects@.len() > 0,
                        0 <= k <= s.legal_rects@.len(),
                        children@.len() == base + k,
                        base == c0.len(),
                        forall|i: int| 0 <= i < base ==> children@[i] == c0[i],
                        parent == s.model(),
                        forall|i: int|
                            0 <= i < children@.len() ==> descends(#[trigger] children@[i], st)
                                && children@[i].rects_history@.len() == h0 + round + 1,
                        forall|i: int|
                            0 <= i < k ==> step_to(
                                parent,
                                parent.3[i],
                                (#[trigger] children@[base + i]).model(),
                            ),
                        h0 == st.rects_history@.len(),
                    decreases s.legal_rects@.len() - k,
                {
                    let r = s.legal_rects[k];
                    let mut c = s.duplicate();
                    assert(legal_rect_spec(c.grid(), r.p1, r.d) == Some(r));
                    assert(c.model() == s.model());
                    c.set_rect(&r);
                    assert(c.rects_history@.take(h0 as int) =~= s.rects_history@.take(h0 as int));
                    children.push(c);
                    assert(children@[base + k] == c);
                    k = k + 1;
                }
                assert(forall|i: int|
                    0 <= i < children@.len() - base ==> step_to(
                        parent,
                        parent.3[i],
                        (#[trigger] children@[base + i]).model(),
                    ));
                proof {
                    assert forall|i: int| 0 <= i < children@.len() implies models(children@)[i]
                        == (ccur + children_of(parent))[i] by {
                        if i >= base {
                            lemma_commit_model(parent, parent.3[i - base], children@[base + (i - base)].model());
                        }
                    }
                    assert(models(children@) =~= ccur + children_of(parent));
                    assert(models(children@) + expand(models(frontier@)).0 =~= ccur + expand(
                        fcur,
                    ).0);
                    if beam_width == 1 {
                        assert(base == 0);
                        assert forall|i: int| 0 <= i < children@.len() implies step_to(
                            parent,
                            parent.3[i],
                            (#[trigger] children@[i]).model(),
                        ) by {
                            assert(children@[base + i] == children@[i]);
                        }
                    }
                }
            }
        }
        let mut next: Vec<State> = Vec::new();
        let ghost cs0 = models(children@);
        assert(cs0 == expand(f0).0 && models(terminals@) == t0 + expand(f0).1) by {
            assert(models(children@) + expand(models(frontier@)).0 =~= models(children@));
            assert(models(terminals@) + expand(models(frontier@)).1 =~= models(terminals@));
        }
        assert(models(next@) + select(models(children@), w) =~= select(cs0, w));
        while next.len() < beam_width && children.len() > 0
            invariant
                h0 == st.rects_history@.len(),
                w == beam_width as nat,
                next@.len() <= beam_width,
                models(next@) + select(models(children@), (w - next@.len()) as nat) == select(cs0, w),
                forall|i: int|
                    0 <= i < children@.len() ==> descends(#[trigger] children@[i], st)
                        && children@[i].rects_history@.len() == h0 + round + 1,
                forall|i: int|
                    0 <= i < next@.len() ==> descends(#[trigger] next@[i], st)
                        && next@[i].rects_history@.len() == h0 + round + 1,
                next@.len() > 0 || terminals@.len() > 0 || children@.len() > 0,
                beam_width == 1 ==> ((children@.len() == 0 && next@.len() == 0
                    && terminals@.len() == 1 && t.last() == terminals@[0].model()) || (
                next@.len() == 0 && terminals@.len() == 0 && t.last() == parent
                    && children@.len() == parent.3.len() && children@.len() >= 1 && forall|i: int|
                    0 <= i < children@.len() ==> step_to(
                        parent,
                        parent.3[i],
                        (#[trigger] children@[i]).model(),
                    )) || (next@.len() == 1 && terminals@.len() == 0 && t.last() == parent
                    && greedy_step(parent, next@[0].model()))),
            decreases children@.len(),
        {
            let idx = best_state_index(&children);
            proof {
                if beam_width == 1 {
                    let l = parent.3;
                    let c = parent.1;
                    assert(children@[idx as int].model().2 == parent.2 + gain(l[idx as int].p1, c));
                    assert forall|j: int| 0 <= j < l.len() implies gain((#[trigger] l[j]).p1, c)
                        <= gain(l[idx as int].p1, c) by {
                        assert(step_to(parent, l[j], children@[j].model()));
                        assert(children@[j].score <= children@[idx as int].score);
                    }
                    assert forall|j: int| 0 <= j < idx implies gain((#[trigger] l[j]).p1, c) < gain(
                        l[idx as int].p1,
                        c,
                    ) by {
                        assert(step_to(parent, l[j], children@[j].model()));
                        assert(children@[j].score < children@[idx as int].score);
                    }
                    assert(first_best(l, c, idx as int));
                    assert(step_to(parent, l[idx as int], children@[idx as int].model()));
                    assert(greedy_step(parent, children@[idx as int].model()));
                }
            }
            let ghost cm = models(children@);
            let ghost nm = models(next@);
            proof {
                assert(is_first_max(cm, idx as int));
                lemma_first_max_is(cm, idx as int);
            }
            let c = children.remove(idx);
            assert(descends(c, st));
            next.push(c);
            assert(models(children@) =~= cm.remove(idx as int));
            assert(models(next@) =~= nm.push(cm[idx as int]));
            assert(select(cm, (w - nm.len()) as nat) == seq![cm[idx as int]] + select(
                cm.remove(idx as int),
                (w - nm.len() - 1) as nat,
            ));
            assert(models(next@) + select(models(children@), (w - next@.len()) as nat) =~= nm
                + select(cm, (w - nm.len()) as nat));
        }
        assert(models(next@) =~= select(cs0, w));
        proof {
            if next@.len() > 0 {
                lemma_history_bounded(next@[0]);
            }
            if beam_width == 1 && next@.len() == 1 {
                t = t.push(next@[0].model());
            }
        }
        frontier = next;
        proof {
            round = round + 1;
        }
    }
    let idx = best_state_index(&terminals);
    proof {
        assert(models(terminals@) == fin);
        assert(is_first_max(models(terminals@), idx as int));
        lemma_first_max_is(models(terminals@), idx as int);
    }
    let r = terminals.remove(idx);
    assert(descends(r, st));
    r
}

} // verus!
