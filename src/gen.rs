//! The layout of a random instance: noise scales, start, targets and walls.
use vstd::prelude::*;
use rand_chacha::ChaCha20Rng;
use crate::geometry::{on_segment, segments_cross, P};
use crate::model::{in_arena, pair, AREA};
use crate::sim::wall_seg;

verus! {

/// Declares rand_chacha's `ChaCha20Rng`, so that a generator can be held and
/// handed on; nothing is assumed of what it holds.
#[verifier::external_type_specification]
#[verifier::external_body]
pub struct ExChaCha20Rng(ChaCha20Rng);

/// Relies on rand_core's `SeedableRng::seed_from_u64` for ChaCha20: a generator
/// whose whole stream is fixed by the seed.
#[verifier::external_body]
fn seeded(seed: u64) -> ChaCha20Rng {
    <ChaCha20Rng as rand::SeedableRng>::seed_from_u64(seed)
}

/// Relies on rand's `Rng::gen_range` over `lo..=hi` for `i64`: a value of the
/// range (it panics on an empty range, which `requires` leaves out).
#[verifier::external_body]
fn draw_i64(rng: &mut ChaCha20Rng, lo: i64, hi: i64) -> (r: i64)
    requires
        lo <= hi,
    ensures
        lo <= r <= hi,
{
    rand::Rng::gen_range(rng, lo..=hi)
}

/// Relies on rand's `Rng::gen_range` over `lo..=hi` for `i32`: a value of the
/// range (it panics on an empty range, which `requires` leaves out).
#[verifier::external_body]
fn draw_i32(rng: &mut ChaCha20Rng, lo: i32, hi: i32) -> (r: i32)
    requires
        lo <= hi,
    ensures
        lo <= r <= hi,
{
    rand::Rng::gen_range(rng, lo..=hi)
}

/// Number of targets of a generated instance.
pub const N_TARGETS: usize = 10;

/// Least distance between two targets, or between a target and the start.
pub const TARGET_GAP: i64 = 5000;

/// Draws a generator gives up after, for one rejection loop.
pub const MAX_DRAWS: u64 = 1000000000;

/// The parts of a generated instance that come before its noise streams.
pub struct Layout {
    /// Scale of the force perturbations, in hundredths.
    pub eps: i64,
    /// Scale of the probe noise, in hundredths.
    pub delta: i64,
    pub s: (i64, i64),
    pub ps: Vec<(i64, i64)>,
    pub walls: Vec<(i64, i64, i64, i64)>,
}

/// Why no layout was made.
#[derive(Debug)]
pub enum GenError {
    /// The problem letter is none of `A`, `B`, `C`.
    UnknownProblem(char),
    /// A rejection loop drew `MAX_DRAWS` times without success.
    TooManyDraws,
}

pub open spec fn dist2(a: (int, int), b: (int, int)) -> int {
    (a.0 - b.0) * (a.0 - b.0) + (a.1 - b.1) * (a.1 - b.1)
}

/// The targets are pairwise apart, and apart from the start.
pub open spec fn targets_apart(s: (int, int), ps: Seq<(i64, i64)>) -> bool {
    &&& forall|j: int| 0 <= j < ps.len() ==> dist2(#[trigger] pair(ps[j]), s) >= TARGET_GAP * TARGET_GAP
    &&& forall|j: int, k: int|
        0 <= j < k < ps.len() ==> dist2(#[trigger] pair(ps[j]), #[trigger] pair(ps[k])) >= TARGET_GAP * TARGET_GAP
}

/// No two walls meet, and the start lies on none.
pub open spec fn walls_apart(s: (int, int), walls: Seq<(i64, i64, i64, i64)>) -> bool {
    &&& forall|j: int| 0 <= j < walls.len() ==> !on_segment(#[trigger] wall_seg(walls[j]).0, wall_seg(walls[j]).1, s)
    &&& forall|j: int, k: int|
        0 <= j < k < walls.len() ==> !segments_cross(
            #[trigger] wall_seg(walls[k]).0,
            wall_seg(walls[k]).1,
            #[trigger] wall_seg(walls[j]).0,
            wall_seg(walls[j]).1,
        )
}

/// The wall starts within 90000 of the centre on each axis.
pub open spec fn wall_starts_inside(w: (i64, i64, i64, i64)) -> bool {
    -90000 <= w.0 <= 90000 && -90000 <= w.1 <= 90000
}

pub open spec fn wall_in_arena(w: (i64, i64, i64, i64)) -> bool {
    in_arena((w.0 as int, w.1 as int)) && in_arena((w.2 as int, w.3 as int))
}

/// A layout for `problem`: its noise scales in the problem's ranges, the start
/// strictly inside the arena, `N_TARGETS` targets in the arena apart from each
/// other and from the start, and walls in the arena (none for `A`, 10 for `B`,
/// 1 to 10 for `C`, each starting within 90000 of the centre on each axis)
/// that do not meet and do not touch the start. The force scale is a whole
/// number (a multiple of 100 hundredths).
pub open spec fn layout_ok(problem: char, l: Layout) -> bool {
    &&& problem == 'A' ==> 100 <= l.eps <= 10000 && 1 <= l.delta <= 20 && l.walls.len() == 0
    &&& problem == 'B' ==> (l.eps == 0 || l.eps == 100) && l.delta == 1 && l.walls.len() == 10
    &&& problem == 'C' ==> 100 <= l.eps <= 10000 && 1 <= l.delta <= 20 && 1 <= l.walls.len() <= 10
    &&& l.eps % 100 == 0
    &&& -99999 <= l.s.0 <= 99999 && -99999 <= l.s.1 <= 99999
    &&& l.ps.len() == N_TARGETS
    &&& forall|j: int| 0 <= j < l.ps.len() ==> in_arena(#[trigger] pair(l.ps@[j]))
    &&& targets_apart(pair(l.s), l.ps@)
    &&& forall|j: int| 0 <= j < l.walls.len() ==> wall_in_arena(#[trigger] l.walls@[j]) && wall_starts_inside(l.walls@[j])
    &&& walls_apart(pair(l.s), l.walls@)
}

fn dist2_exec(a: (i64, i64), b: (i64, i64)) -> (r: i64)
    requires
        in_arena(pair(a)),
        in_arena(pair(b)),
    ensures
        r == dist2(pair(a), pair(b)),
{
    let dx = a.0 - b.0;
    let dy = a.1 - b.1;
    assert(0 <= dx * dx <= 40000000000) by (nonlinear_arith)
        requires
            -200000 <= dx <= 200000,
    ;
    assert(0 <= dy * dy <= 40000000000) by (nonlinear_arith)
        requires
            -200000 <= dy <= 200000,
    ;
    dx * dx + dy * dy
}

/// Whether the drawn target `p` may join the targets `ps`: it is apart from
/// the start `s` and from each of them.
pub fn target_fits(ps: &Vec<(i64, i64)>, s: (i64, i64), p: (i64, i64)) -> (r: bool)
    requires
        in_arena(pair(s)),
        in_arena(pair(p)),
        forall|j: int| 0 <= j < ps.len() ==> in_arena(#[trigger] pair(ps@[j])),
    ensures
        r == (dist2(pair(p), pair(s)) >= TARGET_GAP * TARGET_GAP && forall|j: int|
            0 <= j < ps.len() ==> dist2(#[trigger] pair(ps@[j]), pair(p)) >= TARGET_GAP * TARGET_GAP),
{
    if dist2_exec(p, s) < TARGET_GAP * TARGET_GAP {
        return false;
    }
    let mut k: usize = 0;
    while k < ps.len()
        invariant
            in_arena(pair(p)),
            k <= ps.len(),
            forall|j: int| 0 <= j < ps.len() ==> in_arena(#[trigger] pair(ps@[j])),
            forall|j: int| 0 <= j < k ==> dist2(#[trigger] pair(ps@[j]), pair(p)) >= TARGET_GAP * TARGET_GAP,
        decreases ps.len() - k,
    {
        if dist2_exec(ps[k], p) < TARGET_GAP * TARGET_GAP {
            return false;
        }
        k = k + 1;
    }
    true
}

pub open spec fn off_arena(v: int) -> bool {
    v < -AREA || AREA < v
}

pub open spec fn clamp_to_arena(v: int) -> int {
    if v > AREA {
        AREA as int
    } else if v < -AREA {
        -AREA as int
    } else {
        v
    }
}

/// The wall drawn from the start `(x1, y1)` and the offset `(dx, dy)`: none
/// when its end lies off the arena on both axes or is the origin, else the
/// wall from the start to its end clamped to the arena.
pub fn wall_candidate(x1: i64, y1: i64, dx: i64, dy: i64) -> (r: Option<(i64, i64, i64, i64)>)
    requires
        -AREA <= x1 <= AREA,
        -AREA <= y1 <= AREA,
        -2 * AREA <= dx <= 2 * AREA,
        -2 * AREA <= dy <= 2 * AREA,
    ensures
        r is None <==> ((off_arena(x1 + dx) && off_arena(y1 + dy)) || (x1 + dx == 0 && y1 + dy == 0)),
        r matches Some(w) ==> w.0 == x1 && w.1 == y1 && w.2 == clamp_to_arena(x1 + dx) && w.3 == clamp_to_arena(
            y1 + dy,
        ),
{
    let x2 = x1 + dx;
    let y2 = y1 + dy;
    if (x2 < -AREA || AREA < x2) && (y2 < -AREA || AREA < y2) || (x2 == 0 && y2 == 0) {
        return None;
    }
    let x2 = if x2 > AREA { AREA } else if x2 < -AREA { -AREA } else { x2 };
    let y2 = if y2 > AREA { AREA } else if y2 < -AREA { -AREA } else { y2 };
    Some((x1, y1, x2, y2))
}

/// Whether the wall `w` may join the walls `walls`: it meets none of them,
/// and the start `s` does not lie on it.
pub fn wall_fits(walls: &Vec<(i64, i64, i64, i64)>, s: (i64, i64), w: (i64, i64, i64, i64)) -> (r: bool)
    requires
        in_arena(pair(s)),
        wall_in_arena(w),
        forall|j: int| 0 <= j < walls.len() ==> wall_in_arena(#[trigger] walls@[j]),
    ensures
        r == ((forall|j: int|
            0 <= j < walls.len() ==> !segments_cross(
                wall_seg(w).0,
                wall_seg(w).1,
                #[trigger] wall_seg(walls@[j]).0,
                wall_seg(walls@[j]).1,
            )) && !on_segment(wall_seg(w).0, wall_seg(w).1, pair(s))),
{
    let a = P(w.0, w.1);
    let b = P(w.2, w.3);
    let mut k: usize = 0;
    while k < walls.len()
        invariant
            in_arena(a@),
            in_arena(b@),
            a@ == wall_seg(w).0,
            b@ == wall_seg(w).1,
            k <= walls.len(),
            forall|j: int| 0 <= j < walls.len() ==> wall_in_arena(#[trigger] walls@[j]),
            forall|j: int| 0 <= j < k ==> !segments_cross(a@, b@, #[trigger] wall_seg(walls@[j]).0, wall_seg(walls@[j]).1),
        decreases walls.len() - k,
    {
        let v = walls[k];
        assert(wall_in_arena(walls@[k as int]));
        if P::crs_ss((a, b), (P(v.0, v.1), P(v.2, v.3))) {
            assert(segments_cross(a@, b@, wall_seg(walls@[k as int]).0, wall_seg(walls@[k as int]).1));
            return false;
        }
        k = k + 1;
    }
    !P::crs_sp((a, b), P(s.0, s.1))
}

/// Draws `N_TARGETS` targets, each drawn again until it fits (see
/// [`target_fits`]).
fn draw_targets(rng: &mut ChaCha20Rng, s: (i64, i64)) -> (r: Result<Vec<(i64, i64)>, GenError>)
    requires
        in_arena(pair(s)),
    ensures
        r matches Ok(ps) ==> ps.len() == N_TARGETS && targets_apart(pair(s), ps@) && forall|j: int|
            0 <= j < ps.len() ==> in_arena(#[trigger] pair(ps@[j])),
        r matches Err(e) ==> e is TooManyDraws,
{
    let mut ps: Vec<(i64, i64)> = Vec::new();
    let mut draws: u64 = 0;
    while ps.len() < N_TARGETS
        invariant
            in_arena(pair(s)),
            ps.len() <= N_TARGETS,
            targets_apart(pair(s), ps@),
            forall|j: int| 0 <= j < ps.len() ==> in_arena(#[trigger] pair(ps@[j])),
        decreases MAX_DRAWS - draws,
    {
        if draws >= MAX_DRAWS {
            return Err(GenError::TooManyDraws);
        }
        draws = draws + 1;
        let p = (draw_i64(rng, -100000, 100000), draw_i64(rng, -100000, 100000));
        if target_fits(&ps, s, p) {
            ps.push(p);
        }
    }
    Ok(ps)
}

/// Draws `m` walls: a start within 90000 of the centre on each axis and an
/// offset give a candidate (see [`wall_candidate`]), kept when it fits (see
/// [`wall_fits`]).
fn draw_walls(rng: &mut ChaCha20Rng, s: (i64, i64), m: usize) -> (r: Result<Vec<(i64, i64, i64, i64)>, GenError>)
    requires
        in_arena(pair(s)),
    ensures
        r matches Ok(ws) ==> ws.len() == m && walls_apart(pair(s), ws@) && forall|j: int|
            0 <= j < ws.len() ==> wall_in_arena(#[trigger] ws@[j]) && wall_starts_inside(ws@[j]),
        r matches Err(e) ==> e is TooManyDraws,
{
    let mut walls: Vec<(i64, i64, i64, i64)> = Vec::new();
    let mut draws: u64 = 0;
    while walls.len() < m
        invariant
            in_arena(pair(s)),
            walls.len() <= m,
            walls_apart(pair(s), walls@),
            forall|j: int| 0 <= j < walls.len() ==> wall_in_arena(#[trigger] walls@[j]) && wall_starts_inside(walls@[j]),
        decreases MAX_DRAWS - draws,
    {
        if draws >= MAX_DRAWS {
            return Err(GenError::TooManyDraws);
        }
        draws = draws + 1;
        let x1 = draw_i64(rng, -90000, 90000);
        let y1 = draw_i64(rng, -90000, 90000);
        let dx = draw_i64(rng, -100000, 100000);
        let dy = draw_i64(rng, -100000, 100000);
        if let Some(w) = wall_candidate(x1, y1, dx, dy) {
            if wall_fits(&walls, s, w) {
                let ghost old_walls = walls@;
                walls.push(w);
                proof {
                    assert forall|j: int, k2: int| 0 <= j < k2 < walls.len() implies !segments_cross(
                        #[trigger] wall_seg(walls@[k2]).0,
                        wall_seg(walls@[k2]).1,
                        #[trigger] wall_seg(walls@[j]).0,
                        wall_seg(walls@[j]).1,
                    ) by {
                        assert(walls@[j] == old_walls[j]);
                        if k2 < old_walls.len() {
                            assert(walls@[k2] == old_walls[k2]);
                        }
                    }
                    assert forall|j: int| 0 <= j < walls.len() implies !on_segment(
                        #[trigger] wall_seg(walls@[j]).0,
                        wall_seg(walls@[j]).1,
                        pair(s),
                    ) by {
                        if j < old_walls.len() {
                            assert(walls@[j] == old_walls[j]);
                        }
                    }
                }
            }
        }
    }
    Ok(walls)
}

/// The layout of the instance of `problem` drawn from `seed`, and the
/// generator in the state it is left in, from which the noise streams follow.
pub fn gen_layout(seed: u64, problem: char) -> (r: Result<(Layout, ChaCha20Rng), GenError>)
    ensures
        !(problem == 'A' || problem == 'B' || problem == 'C') <==> r matches Err(GenError::UnknownProblem(c)),
        r matches Err(GenError::UnknownProblem(c)) ==> c == problem,
        r matches Ok(x) ==> layout_ok(problem, x.0),
{
    let mut rng = seeded(seed);
    let (m, eps, delta): (usize, i64, i64) = if problem == 'A' {
        let eps = draw_i32(&mut rng, 1, 100);
        let delta = draw_i32(&mut rng, 1, 20);
        (0, eps as i64 * 100, delta as i64)
    } else if problem == 'B' {
        let eps = draw_i32(&mut rng, 0, 1);
        (10, eps as i64 * 100, 1)
    } else if problem == 'C' {
        let m = draw_i32(&mut rng, 1, 10);
        let eps = draw_i32(&mut rng, 1, 100);
        let delta = draw_i32(&mut rng, 1, 20);
        (m as usize, eps as i64 * 100, delta as i64)
    } else {
        return Err(GenError::UnknownProblem(problem));
    };
    let s = (draw_i64(&mut rng, -99999, 99999), draw_i64(&mut rng, -99999, 99999));
    let ps = match draw_targets(&mut rng, s) {
        Ok(ps) => ps,
        Err(e) => {
            return Err(e);
        },
    };
    let walls = match draw_walls(&mut rng, s, m) {
        Ok(ws) => ws,
        Err(e) => {
            return Err(e);
        },
    };
    Ok((Layout { eps, delta, s, ps, walls }, rng))
}

} // verus!
