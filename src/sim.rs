//! The replay engine: applies actions one turn at a time and keeps the score.
use vstd::prelude::*;
use crate::geometry::{
    dist2_sp_of, in_limit, max_of, ray_hit, ray_hit_of, segments_cross, within, P,
};
use crate::minmax::SetMinMax;
use crate::model::{in_arena, pair, valid_action, valid_actions, Action, Input, Output, AREA, MAX_N, MAX_T};

verus! {

/// Score lost at every turn.
pub const TURN_COST: i64 = 2;

/// Score lost by a move that leaves the arena or crosses a wall.
pub const CRASH_PENALTY: i64 = 100;

/// Score gained for each target reached.
pub const TARGET_BONUS: i64 = 1000;

/// Square of the distance within which a passing move reaches a target.
pub const CAPTURE_RADIUS2: i64 = 1000000;

/// The state of a replay, as mathematical values.
pub ghost struct SimState {
    pub visited: Seq<bool>,
    pub score: int,
    pub crt_score: int,
    pub p: (int, int),
    pub v: (int, int),
    pub t: int,
}

/// The state of a replay.
pub struct Sim {
    /// Which targets have been reached.
    pub visited: Vec<bool>,
    /// Best value of `crt_score` after a completed move (at least 0).
    pub score: i64,
    /// Current running score.
    pub crt_score: i64,
    /// Position.
    pub p: P,
    /// Velocity.
    pub v: P,
    /// Number of turns played.
    pub t: usize,
}

impl View for Sim {
    type V = SimState;

    open spec fn view(&self) -> SimState {
        SimState {
            visited: self.visited@,
            score: self.score as int,
            crt_score: self.crt_score as int,
            p: self.p@,
            v: self.v@,
            t: self.t as int,
        }
    }
}

pub open spec fn wall_seg(w: (i64, i64, i64, i64)) -> ((int, int), (int, int)) {
    ((w.0 as int, w.1 as int), (w.2 as int, w.3 as int))
}

/// The move from `p` to `q` stays in the arena and crosses no wall.
pub open spec fn legal_move(input: Input, p: (int, int), q: (int, int)) -> bool {
    &&& in_arena(q)
    &&& forall|i: int|
        0 <= i < input.walls.len() ==> !segments_cross(
            #[trigger] wall_seg(input.walls@[i]).0,
            wall_seg(input.walls@[i]).1,
            p,
            q,
        )
}

/// The move from `p` to `q` passes within the capture radius of `target`.
pub open spec fn captures(p: (int, int), q: (int, int), target: (i64, i64)) -> bool {
    let d = dist2_sp_of(p, q, pair(target));
    d.0 <= CAPTURE_RADIUS2 * d.1
}

/// Target `i` is reached for the first time by the move from `p` to `q`.
pub open spec fn newly_reached(input: Input, visited: Seq<bool>, p: (int, int), q: (int, int), i: int) -> bool {
    !visited[i] && captures(p, q, input.ps@[i])
}

/// Number of targets below index `n` reached for the first time by the move from `p` to `q`.
pub open spec fn count_new(input: Input, visited: Seq<bool>, p: (int, int), q: (int, int), n: int) -> int
    decreases n,
{
    if n <= 0 {
        0
    } else {
        count_new(input, visited, p, q, n - 1) + if newly_reached(input, visited, p, q, n - 1) {
            1int
        } else {
            0int
        }
    }
}

/// The state before any action.
pub open spec fn initial(input: Input) -> SimState {
    SimState {
        visited: Seq::new(input.ps.len() as nat, |i: int| false),
        score: 0,
        crt_score: 0,
        p: pair(input.s),
        v: (0, 0),
        t: 0,
    }
}

/// The velocity after the action `a` and the turn's perturbation.
pub open spec fn next_velocity(input: Input, st: SimState, a: Action) -> (int, int) {
    let f = pair(input.fs@[st.t]);
    if a.0 == 'A' {
        (st.v.0 + a.1 + f.0, st.v.1 + a.2 + f.1)
    } else {
        (st.v.0 + f.0, st.v.1 + f.1)
    }
}

/// One turn: the action changes the velocity, the turn's perturbation is
/// added, and the move to `p + v` is made if legal; an illegal move keeps
/// the position, stops the agent and costs the penalty.
pub open spec fn step(input: Input, st: SimState, a: Action) -> SimState {
    let v = next_velocity(input, st, a);
    let q = (st.p.0 + v.0, st.p.1 + v.1);
    let crt = st.crt_score - TURN_COST;
    if !legal_move(input, st.p, q) {
        SimState {
            visited: st.visited,
            score: st.score,
            crt_score: crt - CRASH_PENALTY,
            p: st.p,
            v: (0, 0),
            t: st.t + 1,
        }
    } else {
        let gained = crt + TARGET_BONUS * count_new(input, st.visited, st.p, q, st.visited.len() as int);
        SimState {
            visited: Seq::new(
                st.visited.len(),
                |i: int| st.visited[i] || captures(st.p, q, input.ps@[i]),
            ),
            score: max_of(st.score, gained),
            crt_score: gained,
            p: q,
            v: v,
            t: st.t + 1,
        }
    }
}

/// The state after playing all of `acts` from the start.
pub open spec fn run(input: Input, acts: Seq<Action>) -> SimState
    decreases acts.len(),
{
    if acts.len() == 0 {
        initial(input)
    } else {
        step(input, run(input, acts.drop_last()), acts.last())
    }
}

/// The state after the first `k` actions of `acts`.
pub open spec fn replay(input: Input, acts: Seq<Action>, k: int) -> SimState {
    run(input, acts.take(k))
}

/// A state that a replay of `input` can reach, with its bounds.
pub open spec fn state_wf(input: Input, st: SimState) -> bool {
    let n = input.ps.len() as int;
    &&& st.visited.len() == n
    &&& 0 <= st.t <= MAX_T
    &&& in_arena(st.p)
    &&& within(st.v, 2 * AREA)
    &&& -102 * st.t <= st.crt_score <= TARGET_BONUS * n * st.t
    &&& 0 <= st.score <= TARGET_BONUS * n * st.t
}

/// The point the agent heads for in the turn that plays `a` from `st`.
pub open spec fn destination(input: Input, st: SimState, a: Action) -> (int, int) {
    let v = next_velocity(input, st, a);
    (st.p.0 + v.0, st.p.1 + v.1)
}

/// Obstacle `i`: the walls, then the four sides of the arena.
pub open spec fn obstacle(input: Input, i: int) -> ((int, int), (int, int)) {
    let a = AREA as int;
    if i < input.walls.len() {
        wall_seg(input.walls@[i])
    } else if i == input.walls.len() {
        ((-a, -a), (-a, a))
    } else if i == input.walls.len() + 1 {
        ((-a, a), (a, a))
    } else if i == input.walls.len() + 2 {
        ((a, a), (a, -a))
    } else {
        ((a, -a), (-a, -a))
    }
}

pub open spec fn obstacle_hit(input: Input, p: (int, int), dir: (int, int), i: int) -> Option<(int, int)> {
    ray_hit_of(p, dir, obstacle(input, i).0, obstacle(input, i).1)
}

/// `h` is where the ray from `p` along `dir` first meets an obstacle: it meets
/// one there, and meets none at a smaller parameter.
pub open spec fn nearest_hit(input: Input, p: (int, int), dir: (int, int), h: (int, int)) -> bool {
    let n = input.walls.len() + 4;
    &&& exists|i: int| 0 <= i < n && #[trigger] obstacle_hit(input, p, dir, i) == Some(h)
    &&& forall|j: int|
        0 <= j < n ==> (#[trigger] obstacle_hit(input, p, dir, j) matches Some(g) ==> h.0 * g.1 <= g.0 * h.1)
}

proof fn lemma_count_new_bounds(input: Input, visited: Seq<bool>, p: (int, int), q: (int, int), n: int)
    ensures
        0 <= count_new(input, visited, p, q, n) <= if n < 0 { 0 } else { n },
    decreases n,
{
    if n > 0 {
        lemma_count_new_bounds(input, visited, p, q, n - 1);
    }
}

proof fn lemma_ratio_trans(h0: int, h1: int, b0: int, b1: int, g0: int, g1: int)
    requires
        h1 > 0,
        b1 > 0,
        g1 > 0,
        h0 * b1 < b0 * h1,
        b0 * g1 <= g0 * b1,
    ensures
        h0 * g1 <= g0 * h1,
{
    assert(h0 * b1 * g1 < b0 * h1 * g1) by (nonlinear_arith)
        requires
            h0 * b1 < b0 * h1,
            g1 > 0,
    ;
    assert(b0 * g1 * h1 <= g0 * b1 * h1) by (nonlinear_arith)
        requires
            b0 * g1 <= g0 * b1,
            h1 > 0,
    ;
    assert(h0 * g1 * b1 < g0 * h1 * b1) by (nonlinear_arith)
        requires
            h0 * b1 * g1 < b0 * h1 * g1,
            b0 * g1 * h1 <= g0 * b1 * h1,
    ;
    assert(h0 * g1 <= g0 * h1) by (nonlinear_arith)
        requires
            h0 * g1 * b1 < g0 * h1 * b1,
            b1 > 0,
    ;
}

fn obstacle_at(input: &Input, i: usize) -> (r: (P, P))
    requires
        input.wf(),
        i < input.walls.len() + 4,
    ensures
        r.0@ == obstacle(*input, i as int).0,
        r.1@ == obstacle(*input, i as int).1,
        in_limit(r.0@),
        in_limit(r.1@),
{
    let n = input.walls.len();
    if i < n {
        let w = input.walls[i];
        (P(w.0, w.1), P(w.2, w.3))
    } else if i == n {
        (P(-AREA, -AREA), P(-AREA, AREA))
    } else if i == n + 1 {
        (P(-AREA, AREA), P(AREA, AREA))
    } else if i == n + 2 {
        (P(AREA, AREA), P(AREA, -AREA))
    } else {
        (P(AREA, -AREA), P(-AREA, -AREA))
    }
}

/// Where the ray from `p` along `dir` first meets a wall or a side of the arena,
/// as the parameter `k / d` of the meeting point `p + dir * k / d`.
pub fn probe(input: &Input, p: P, dir: P) -> (r: Option<(i64, i64)>)
    requires
        input.wf(),
        in_limit(p@),
        in_limit(dir@),
    ensures
        r is None <==> forall|j: int|
            0 <= j < input.walls.len() + 4 ==> #[trigger] obstacle_hit(*input, p@, dir@, j) is None,
        r matches Some(h) ==> nearest_hit(*input, p@, dir@, (h.0 as int, h.1 as int)),
        r matches Some(h) ==> h.1 > 0 && h.0 >= 0,
{
    let n = input.walls.len() + 4;
    let mut best: Option<(i64, i64)> = None;
    let mut i: usize = 0;
    while i < n
        invariant
            input.wf(),
            in_limit(p@),
            in_limit(dir@),
            n == input.walls.len() + 4,
            i <= n,
            best is None <==> forall|j: int| 0 <= j < i ==> #[trigger] obstacle_hit(*input, p@, dir@, j) is None,
            best matches Some(b) ==> 0 <= b.0 <= 8796093022208 && 0 < b.1 <= 8796093022208,
            best matches Some(b) ==> exists|j: int|
                0 <= j < i && #[trigger] obstacle_hit(*input, p@, dir@, j) == Some((b.0 as int, b.1 as int)),
            best matches Some(b) ==> forall|j: int|
                0 <= j < i ==> (#[trigger] obstacle_hit(*input, p@, dir@, j) matches Some(g) ==> b.0 * g.1 <= g.0 * b.1),
        decreases n - i,
    {
        let w = obstacle_at(input, i);
        let hit = ray_hit(p, dir, w);
        assert(obstacle_hit(*input, p@, dir@, i as int) == ray_hit_of(p@, dir@, w.0@, w.1@));
        if let Some(h) = hit {
            let closer = match best {
                None => true,
                Some(b) => {
                    proof {
                        lemma_ratio_bound(h.0 as int, b.1 as int);
                        lemma_ratio_bound(b.0 as int, h.1 as int);
                    }
                    (h.0 as i128) * (b.1 as i128) < (b.0 as i128) * (h.1 as i128)
                },
            };
            if closer {
                proof {
                    if let Some(b) = best {
                        assert forall|j: int| 0 <= j < i implies (#[trigger] obstacle_hit(
                            *input,
                            p@,
                            dir@,
                            j,
                        ) matches Some(g) ==> h.0 * g.1 <= g.0 * h.1) by {
                            if let Some(g) = obstacle_hit(*input, p@, dir@, j) {
                                lemma_ratio_trans(h.0 as int, h.1 as int, b.0 as int, b.1 as int, g.0, g.1);
                            }
                        }
                    }
                }
                best = Some(h);
            } else {
                proof {
                    if let Some(b) = best {
                        assert(!(h.0 * b.1 < b.0 * h.1));
                    }
                }
            }
        }
        i = i + 1;
    }
    best
}

proof fn lemma_ratio_bound(a: int, b: int)
    requires
        0 <= a <= 8796093022208,
        0 <= b <= 8796093022208,
    ensures
        0 <= a * b <= 8796093022208 * 8796093022208,
{
    assert(0 <= a * b <= 8796093022208 * 8796093022208) by (nonlinear_arith)
        requires
            0 <= a <= 8796093022208,
            0 <= b <= 8796093022208,
    ;
}

/// Some wall crosses the move from `p` to `q`.
fn crosses_wall(input: &Input, p: P, q: P) -> (r: bool)
    requires
        input.wf(),
        in_arena(p@),
        in_arena(q@),
    ensures
        r == exists|i: int|
            0 <= i < input.walls.len() && segments_cross(
                #[trigger] wall_seg(input.walls@[i]).0,
                wall_seg(input.walls@[i]).1,
                p@,
                q@,
            ),
{
    let mut i: usize = 0;
    while i < input.walls.len()
        invariant
            input.wf(),
            in_arena(p@),
            in_arena(q@),
            i <= input.walls.len(),
            forall|j: int|
                0 <= j < i ==> !segments_cross(
                    #[trigger] wall_seg(input.walls@[j]).0,
                    wall_seg(input.walls@[j]).1,
                    p@,
                    q@,
                ),
        decreases input.walls.len() - i,
    {
        let w = input.walls[i];
        assert(in_arena((input.walls@[i as int].0 as int, input.walls@[i as int].1 as int)));
        if P::crs_ss((P(w.0, w.1), P(w.2, w.3)), (p, q)) {
            assert(segments_cross(wall_seg(input.walls@[i as int]).0, wall_seg(input.walls@[i as int]).1, p@, q@));
            return true;
        }
        i = i + 1;
    }
    false
}

proof fn lemma_score_room(n: int, t: int, k: int)
    requires
        0 <= n <= MAX_N,
        0 <= t < MAX_T,
        0 <= k <= n,
    ensures
        TARGET_BONUS * n * t - TURN_COST + TARGET_BONUS * k <= TARGET_BONUS * n * (t + 1),
        0 <= TARGET_BONUS * n * t,
        TARGET_BONUS * n * t <= TARGET_BONUS * n * (t + 1),
        TARGET_BONUS * n * (t + 1) <= 1000 * 100000 * 5000,
{
    assert(TARGET_BONUS * n * t <= TARGET_BONUS * n * (t + 1)) by (nonlinear_arith)
        requires
            0 <= n,
            0 <= t,
    ;
    assert(TARGET_BONUS * n * t + TARGET_BONUS * k <= TARGET_BONUS * n * (t + 1)) by (nonlinear_arith)
        requires
            0 <= k <= n,
            0 <= t,
    ;
    assert(0 <= TARGET_BONUS * n * t) by (nonlinear_arith)
        requires
            0 <= n,
            0 <= t,
    ;
    assert(TARGET_BONUS * n * (t + 1) <= 1000 * 100000 * 5000) by (nonlinear_arith)
        requires
            0 <= n <= 100000,
            0 <= t < 5000,
    ;
}

impl Sim {
    /// The state before any action: at the start, at rest, nothing reached.
    pub fn new(input: &Input) -> (r: Sim)
        requires
            input.wf(),
        ensures
            r@ == initial(*input),
            state_wf(*input, r@),
    {
        let visited = vec![false; input.ps.len()];
        let r = Sim { visited, score: 0, crt_score: 0, p: P(input.s.0, input.s.1), v: P(0, 0), t: 0 };
        assert(r@.visited =~= initial(*input).visited);
        r
    }

    /// Plays one turn. Returns 0 and the targets first reached by the move when the
    /// move is legal, else 1 and none; for a probe, also where it meets the nearest
    /// obstacle (see [`probe`]).
    pub fn query(&mut self, input: &Input, mv: char, x: i64, y: i64) -> (r: (i32, Vec<usize>, Option<(i64, i64)>))
        requires
            input.wf(),
            state_wf(*input, old(self)@),
            old(self)@.t < MAX_T,
            valid_action((mv, x, y)),
        ensures
            final(self)@ == step(*input, old(self)@, (mv, x, y)),
            state_wf(*input, final(self)@),
            r.0 == 0 <==> legal_move(*input, old(self)@.p, destination(*input, old(self)@, (mv, x, y))),
            r.0 == 0 || r.0 == 1,
            r.0 == 1 ==> r.1.len() == 0,
            forall|j: int| 0 <= j < r.1.len() ==> #[trigger] r.1@[j] < input.ps.len()
                && newly_reached(*input, old(self)@.visited, old(self)@.p, destination(*input, old(self)@, (mv, x, y)), r.1@[j] as int),
            forall|i: int| 0 <= i < input.ps.len() && r.0 == 0
                && #[trigger] newly_reached(*input, old(self)@.visited, old(self)@.p, destination(*input, old(self)@, (mv, x, y)), i)
                ==> r.1@.contains(i as usize),
            forall|j1: int, j2: int| 0 <= j1 < j2 < r.1.len() ==> r.1@[j1] < r.1@[j2],
            mv == 'A' ==> r.2 is None,
            mv == 'S' ==> (r.2 is None <==> forall|j: int| 0 <= j < input.walls.len() + 4
                ==> #[trigger] obstacle_hit(*input, old(self)@.p, (x as int, y as int), j) is None),
            mv == 'S' ==> (r.2 matches Some(h) ==> nearest_hit(*input, old(self)@.p, (x as int, y as int), (h.0 as int, h.1 as int))),
    {
        let ghost st = self@;
        let ghost n = input.ps.len() as int;
        let mut ret: Option<(i64, i64)> = None;
        if mv == 'A' {
            self.v = P(self.v.0 + x, self.v.1 + y);
        } else {
            ret = probe(input, self.p, P(x, y));
        }
        let f = input.fs[self.t];
        assert(in_arena(pair(input.fs@[self.t as int])));
        self.v = P(self.v.0 + f.0, self.v.1 + f.1);
        assert(self.v@ == next_velocity(*input, st, (mv, x, y)));
        proof {
            lemma_score_room(n, st.t, 0);
        }
        self.crt_score = self.crt_score - TURN_COST;
        self.t = self.t + 1;
        let q = P(self.p.0 + self.v.0, self.p.1 + self.v.1);
        let outside = q.0 < -AREA || AREA < q.0 || q.1 < -AREA || AREA < q.1;
        if outside || crosses_wall(input, self.p, q) {
            self.crt_score = self.crt_score - CRASH_PENALTY;
            self.v = P(0, 0);
            return (1, Vec::new(), ret);
        }
        let ghost crt0 = self.crt_score as int;
        let mut hit: Vec<usize> = Vec::new();
        let mut i: usize = 0;
        while i < input.ps.len()
            invariant
                input.wf(),
                n == input.ps.len(),
                self.visited@.len() == n,
                st.visited.len() == n,
                self.p@ == st.p,
                self.v@ == next_velocity(*input, st, (mv, x, y)),
                self.t == st.t + 1,
                self.score == st.score,
                in_arena(q@),
                in_arena(st.p),
                0 <= st.t < MAX_T,
                i <= n,
                forall|j: int| 0 <= j < i ==> #[trigger] self.visited@[j] == (st.visited[j] || captures(st.p, q@, input.ps@[j])),
                forall|j: int| i <= j < n ==> #[trigger] self.visited@[j] == st.visited[j],
                self.crt_score == crt0 + TARGET_BONUS * count_new(*input, st.visited, st.p, q@, i as int),
                crt0 <= TARGET_BONUS * n * st.t - TURN_COST,
                forall|j: int| 0 <= j < hit.len() ==> #[trigger] hit@[j] < i
                    && newly_reached(*input, st.visited, st.p, q@, hit@[j] as int),
                forall|j: int| 0 <= j < i && #[trigger] newly_reached(*input, st.visited, st.p, q@, j)
                    ==> hit@.contains(j as usize),
                forall|j1: int, j2: int| 0 <= j1 < j2 < hit.len() ==> hit@[j1] < hit@[j2],
            decreases n - i,
        {
            proof {
                lemma_count_new_bounds(*input, st.visited, st.p, q@, i as int);
                lemma_score_room(n, st.t, i as int + 1);
            }
            let g = input.ps[i];
            assert(in_arena(pair(input.ps@[i as int])));
            let reached = if self.visited[i] {
                false
            } else {
                let d = P::dist2_sp((self.p, q), P(g.0, g.1));
                assert(CAPTURE_RADIUS2 * d.1 <= 1000000 * 8796093022208) by (nonlinear_arith)
                    requires
                        0 < d.1 <= 8796093022208,
                ;
                d.0 <= (CAPTURE_RADIUS2 as i128) * d.1
            };
            assert(reached == newly_reached(*input, st.visited, st.p, q@, i as int));
            let ghost hit0 = hit@;
            if reached {
                self.visited.set(i, true);
                self.crt_score = self.crt_score + TARGET_BONUS;
                hit.push(i);
                assert(hit@[hit.len() - 1] == i);
                assert(forall|k: usize| hit0.contains(k) ==> hit@.contains(k)) by {
                    assert forall|k: usize| hit0.contains(k) implies hit@.contains(k) by {
                        let j = choose|j: int| 0 <= j < hit0.len() && hit0[j] == k;
                        assert(hit@[j] == k);
                    }
                }
            }
            i = i + 1;
        }
        proof {
            lemma_count_new_bounds(*input, st.visited, st.p, q@, n);
            lemma_score_room(n, st.t, n);
        }
        self.p = q;
        let crt = self.crt_score;
        self.score.setmax(crt);
        assert(self.visited@ =~= step(*input, st, (mv, x, y)).visited);
        (0, hit, ret)
    }
}

/// The state after the first `turn` actions of `out`.
pub fn replay_to(input: &Input, out: &[Action], turn: usize) -> (r: Sim)
    requires
        input.wf(),
        valid_actions(out@),
        turn <= out.len(),
    ensures
        r@ == replay(*input, out@, turn as int),
        state_wf(*input, r@),
        r@.t == turn,
{
    let mut sim = Sim::new(input);
    let mut i: usize = 0;
    assert(out@.take(0) =~= Seq::<Action>::empty());
    while i < turn
        invariant
            input.wf(),
            valid_actions(out@),
            i <= turn <= out.len(),
            sim@ == replay(*input, out@, i as int),
            state_wf(*input, sim@),
            sim@.t == i,
        decreases turn - i,
    {
        let (mv, x, y) = out[i];
        assert(valid_action(out@[i as int]));
        sim.query(input, mv, x, y);
        assert(out@.take(i + 1).drop_last() =~= out@.take(i as int));
        i = i + 1;
    }
    sim
}

/// Plays every action of `out`: the best score, an empty error, and the final
/// position, velocity and reached targets.
pub fn compute_score_details(input: &Input, out: &[Action]) -> (r: (i64, String, (P, P, Vec<bool>)))
    requires
        input.wf(),
        valid_actions(out@),
    ensures
        r.0 == run(*input, out@).score,
        r.1@ == Seq::<char>::empty(),
        (r.2).0@ == run(*input, out@).p,
        (r.2).1@ == run(*input, out@).v,
        (r.2).2@ == run(*input, out@).visited,
{
    let sim = replay_to(input, out, out.len());
    assert(out@.take(out.len() as int) =~= out@);
    (sim.score, String::new(), (sim.p, sim.v, sim.visited))
}

/// Every target has been reached.
pub open spec fn all_reached(st: SimState) -> bool {
    forall|i: int| 0 <= i < st.visited.len() ==> #[trigger] st.visited[i]
}

/// The score of a whole move sequence: the best score when every target was
/// reached, else 0 with the error `Unexpected EOF`.
pub fn compute_score(input: &Input, out: &Output) -> (r: (i64, String))
    requires
        input.wf(),
        out.wf(),
    ensures
        all_reached(run(*input, out.out@)) ==> r.0 == run(*input, out.out@).score && r.1@ == Seq::<char>::empty(),
        !all_reached(run(*input, out.out@)) ==> r.0 == 0 && r.1@ == "Unexpected EOF"@,
{
    let (mut score, mut err, (_, _, visited)) = compute_score_details(input, out.out.as_slice());
    let mut i: usize = 0;
    let mut missing = false;
    while i < visited.len()
        invariant
            i <= visited.len(),
            missing <==> exists|j: int| 0 <= j < i && !(#[trigger] visited@[j]),
        decreases visited.len() - i,
    {
        if !visited[i] {
            missing = true;
        }
        i = i + 1;
    }
    if missing {
        err = String::from_str("Unexpected EOF");
        score = 0;
    }
    (score, err)
}

/// The best score never goes down as more of a move sequence is played.
pub proof fn lemma_score_monotone(input: Input, acts: Seq<Action>, k1: int, k2: int)
    requires
        0 <= k1 <= k2 <= acts.len(),
    ensures
        replay(input, acts, k1).score <= replay(input, acts, k2).score,
    decreases k2 - k1,
{
    if k1 < k2 {
        lemma_score_monotone(input, acts, k1, k2 - 1);
        assert(acts.take(k2).drop_last() =~= acts.take(k2 - 1));
    }
}

/// A target once reached stays reached as more of a move sequence is played.
pub proof fn lemma_visited_monotone(input: Input, acts: Seq<Action>, k1: int, k2: int, i: int)
    requires
        0 <= k1 <= k2 <= acts.len(),
        0 <= i < input.ps.len(),
        replay(input, acts, k1).visited[i],
    ensures
        replay(input, acts, k2).visited[i],
        replay(input, acts, k2).visited.len() == input.ps.len(),
    decreases k2 - k1,
{
    if k1 < k2 {
        lemma_visited_monotone(input, acts, k1, k2 - 1, i);
        assert(acts.take(k2).drop_last() =~= acts.take(k2 - 1));
    } else {
        lemma_visited_len(input, acts.take(k1));
    }
}

proof fn lemma_visited_len(input: Input, acts: Seq<Action>)
    ensures
        run(input, acts).visited.len() == input.ps.len(),
    decreases acts.len(),
{
    if acts.len() > 0 {
        lemma_visited_len(input, acts.drop_last());
    }
}

/// Stopping a replay after `k` actions gives what a full replay of the first
/// `k` actions alone gives.
pub proof fn lemma_truncation(input: Input, acts: Seq<Action>, k: int)
    requires
        0 <= k <= acts.len(),
    ensures
        replay(input, acts, k) == replay(input, acts.take(k), acts.take(k).len() as int),
{
    assert(acts.take(k).take(k) =~= acts.take(k));
}

/// A move that ends on the edge of the arena and crosses no wall is made; a
/// move that ends outside the arena is refused: the agent stays, stops, and
/// pays the turn cost and the penalty.
pub proof fn lemma_boundary(input: Input, st: SimState, a: Action)
    ensures
        ({
            let q = destination(input, st, a);
            let on_edge = q.0 == AREA || q.0 == -AREA || q.1 == AREA || q.1 == -AREA;
            on_edge && in_arena(q) && (forall|i: int|
                0 <= i < input.walls.len() ==> !segments_cross(
                    #[trigger] wall_seg(input.walls@[i]).0,
                    wall_seg(input.walls@[i]).1,
                    st.p,
                    q,
                )) ==> step(input, st, a).p == q
        }),
        !in_arena(destination(input, st, a)) ==> ({
            let r = step(input, st, a);
            &&& r.p == st.p
            &&& r.v == (0int, 0int)
            &&& r.crt_score == st.crt_score - TURN_COST - CRASH_PENALTY
            &&& r.score == st.score
            &&& r.visited == st.visited
        }),
{
}

} // verus!
