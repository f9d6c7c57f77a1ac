//! The problem instance and the parsed move sequence.
use vstd::prelude::*;
use crate::geometry::within;

verus! {

/// Number of turns of an instance: the length of each noise stream and the
/// largest number of actions a move sequence may hold.
pub const MAX_T: usize = 5000;

/// Half the side of the square arena, which is centred on the origin.
pub const AREA: i64 = 100000;

/// Largest noise scale an instance may give, in hundredths.
pub const MAX_SCALE: i64 = 1000000000000;

/// Largest number of targets or of walls that an instance may hold.
pub const MAX_N: usize = 100000;

/// A non-negative decimal number `digits / 10^scale`, kept exactly as written.
#[derive(Clone, Copy, Debug, PartialEq, Eq)]
pub struct Decimal {
    pub digits: u64,
    pub scale: u32,
}

/// One action of a move sequence: its tag (`'A'` to accelerate, `'S'` to sense)
/// and its vector.
pub type Action = (char, i64, i64);

/// A problem instance.
#[derive(Debug)]
pub struct Input {
    /// Scale of the force perturbations, in hundredths.
    pub eps: i64,
    /// Scale of the probe noise, in hundredths.
    pub delta: i64,
    /// Start position.
    pub s: (i64, i64),
    /// Targets to visit.
    pub ps: Vec<(i64, i64)>,
    /// Walls, each `(x1, y1, x2, y2)`.
    pub walls: Vec<(i64, i64, i64, i64)>,
    /// Force perturbation added to the velocity at each turn.
    pub fs: Vec<(i64, i64)>,
    /// Multiplicative probe-noise factor of each turn.
    pub alphas: Vec<Decimal>,
}

pub open spec fn in_arena(q: (int, int)) -> bool {
    within(q, AREA as int)
}

pub open spec fn pair(q: (i64, i64)) -> (int, int) {
    (q.0 as int, q.1 as int)
}

impl Input {
    /// Well-formed: noise scales between 0 and `MAX_SCALE`, every point inside
    /// the arena, every perturbation no larger than the arena, both noise
    /// streams `MAX_T` long, and each probe-noise factor with at most
    /// `MAX_DIGITS_VALUE` as digits and 40 decimals.
    pub open spec fn wf(&self) -> bool {
        &&& in_arena(pair(self.s))
        &&& 0 <= self.eps <= MAX_SCALE
        &&& 0 <= self.delta <= MAX_SCALE
        &&& self.ps.len() <= MAX_N
        &&& self.walls.len() <= MAX_N
        &&& forall|i: int| 0 <= i < self.ps.len() ==> in_arena(#[trigger] pair(self.ps@[i]))
        &&& forall|i: int|
            0 <= i < self.walls.len() ==> in_arena((#[trigger] self.walls@[i].0 as int, self.walls@[i].1 as int))
                && in_arena((self.walls@[i].2 as int, self.walls@[i].3 as int))
        &&& self.fs.len() == MAX_T
        &&& self.alphas.len() == MAX_T
        &&& forall|i: int| 0 <= i < self.fs.len() ==> in_arena(#[trigger] pair(self.fs@[i]))
        &&& forall|i: int|
            0 <= i < self.alphas.len() ==> (#[trigger] self.alphas@[i]).digits <= crate::text::MAX_DIGITS_VALUE
                && self.alphas@[i].scale <= 40
    }
}

/// A well-formed action: a tag of the two known ones, coordinates within the
/// arena's range, an acceleration no longer than 500, and a probe direction
/// that is not zero and no longer than 100000.
pub open spec fn valid_action(a: Action) -> bool {
    &&& -AREA <= a.1 <= AREA
    &&& -AREA <= a.2 <= AREA
    &&& a.0 == 'A' ==> a.1 * a.1 + a.2 * a.2 <= 500 * 500
    &&& a.0 == 'S' ==> a.1 * a.1 + a.2 * a.2 <= 10000000000 && (a.1 != 0 || a.2 != 0)
    &&& a.0 == 'A' || a.0 == 'S'
}

/// No more than `MAX_T` actions, each well-formed.
pub open spec fn valid_actions(acts: Seq<Action>) -> bool {
    &&& acts.len() <= MAX_T
    &&& forall|i: int| 0 <= i < acts.len() ==> valid_action(#[trigger] acts[i])
}

/// A parsed move sequence with the annotations read from its comment lines.
pub struct Output {
    /// The actions, in order.
    pub out: Vec<Action>,
    /// Reported positions.
    pub pos: Vec<(i64, i64)>,
    /// Reported velocities.
    pub vel: Vec<(i64, i64)>,
    /// Per turn, the estimated target locations with their weights.
    pub est: Vec<Vec<(i64, i64, Decimal)>>,
    /// Per turn, the reported probe distance, or -1.
    pub dst: Vec<i64>,
    /// Per turn, which targets are reported as reached.
    pub gol: Vec<Vec<bool>>,
    /// Reported estimates of the centre of the position cloud.
    pub pred_pos: Vec<(i64, i64)>,
}

impl Output {
    pub open spec fn wf(&self) -> bool {
        valid_actions(self.out@)
    }
}

} // verus!
