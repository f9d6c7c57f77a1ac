//! Exact geometry on integer points.
//!
//! Every predicate here is an exact sign test on integers; nothing is rounded.
use vstd::prelude::*;

verus! {

/// Bound on the absolute value of a coordinate accepted by the geometry kernel.
pub const LIMIT: i64 = 1048576;

/// A point (or a vector) of the plane with integer coordinates.
#[derive(Clone, Copy, Debug, PartialEq, Eq)]
pub struct P(pub i64, pub i64);

impl View for P {
    type V = (int, int);

    open spec fn view(&self) -> (int, int) {
        (self.0 as int, self.1 as int)
    }
}

pub open spec fn within(a: (int, int), b: int) -> bool {
    -b <= a.0 <= b && -b <= a.1 <= b
}

/// A point the kernel accepts.
pub open spec fn in_limit(a: (int, int)) -> bool {
    within(a, LIMIT as int)
}

pub open spec fn minus(a: (int, int), b: (int, int)) -> (int, int) {
    (a.0 - b.0, a.1 - b.1)
}

pub open spec fn dot_of(a: (int, int), b: (int, int)) -> int {
    a.0 * b.0 + a.1 * b.1
}

/// The 2-D cross product: positive when `b` turns left from `a`.
pub open spec fn det_of(a: (int, int), b: (int, int)) -> int {
    a.0 * b.1 - a.1 * b.0
}

pub open spec fn norm2(a: (int, int)) -> int {
    dot_of(a, a)
}

pub open spec fn sign(x: int) -> int {
    if x > 0 {
        1
    } else if x < 0 {
        -1
    } else {
        0
    }
}

/// A product of two differences of kernel points, and a sum of two such products.
proof fn lemma_prod_bound(a: int, b: int)
    requires
        -2097152 <= a <= 2097152,
        -2097152 <= b <= 2097152,
    ensures
        -4398046511104 <= a * b <= 4398046511104,
{
    assert(-4398046511104 <= a * b <= 4398046511104) by (nonlinear_arith)
        requires
            -2097152 <= a <= 2097152,
            -2097152 <= b <= 2097152,
    ;
}

proof fn lemma_dot_det_bound(a: (int, int), b: (int, int))
    requires
        within(a, 2 * LIMIT),
        within(b, 2 * LIMIT),
    ensures
        -8796093022208 <= dot_of(a, b) <= 8796093022208,
        -8796093022208 <= det_of(a, b) <= 8796093022208,
        0 <= norm2(a) <= 8796093022208,
{
    lemma_prod_bound(a.0, b.0);
    lemma_prod_bound(a.1, b.1);
    lemma_prod_bound(a.0, b.1);
    lemma_prod_bound(a.1, b.0);
    lemma_prod_bound(a.0, a.0);
    lemma_prod_bound(a.1, a.1);
    assert(a.0 * a.0 >= 0 && a.1 * a.1 >= 0) by (nonlinear_arith);
}

impl P {
    pub fn dot(self, a: P) -> (r: i64)
        requires
            within(self@, 2 * LIMIT),
            within(a@, 2 * LIMIT),
        ensures
            r == dot_of(self@, a@),
            -8796093022208 <= r <= 8796093022208,
    {
        proof {
            lemma_dot_det_bound(self@, a@);
            lemma_prod_bound(self.0 as int, a.0 as int);
            lemma_prod_bound(self.1 as int, a.1 as int);
        }
        (self.0 * a.0) + (self.1 * a.1)
    }

    pub fn det(self, a: P) -> (r: i64)
        requires
            within(self@, 2 * LIMIT),
            within(a@, 2 * LIMIT),
        ensures
            r == det_of(self@, a@),
            -8796093022208 <= r <= 8796093022208,
    {
        proof {
            lemma_dot_det_bound(self@, a@);
            lemma_prod_bound(self.0 as int, a.1 as int);
            lemma_prod_bound(self.1 as int, a.0 as int);
        }
        (self.0 * a.1) - (self.1 * a.0)
    }

    pub fn abs2(self) -> (r: i64)
        requires
            within(self@, 2 * LIMIT),
        ensures
            r == norm2(self@),
            0 <= r <= 8796093022208,
    {
        proof {
            lemma_dot_det_bound(self@, self@);
        }
        self.dot(self)
    }
}


/// Squared distance from `q` to the line through `p1` and `p2`, as (numerator, denominator).
pub open spec fn dist2_lp_of(p1: (int, int), p2: (int, int), q: (int, int)) -> (int, int) {
    let d = det_of(minus(p2, p1), minus(q, p1));
    (d * d, norm2(minus(p2, p1)))
}

/// Squared distance from `q` to the segment `p1 p2`, as (numerator, denominator):
/// the distance to the nearer endpoint when the projection of `q` falls outside
/// the segment, else the distance to its line.
pub open spec fn dist2_sp_of(p1: (int, int), p2: (int, int), q: (int, int)) -> (int, int) {
    if dot_of(minus(p2, p1), minus(q, p1)) <= 0 {
        (norm2(minus(q, p1)), 1)
    } else if dot_of(minus(p1, p2), minus(q, p2)) <= 0 {
        (norm2(minus(q, p2)), 1)
    } else {
        dist2_lp_of(p1, p2, q)
    }
}

/// `q` lies on the line through `p1` and `p2`.
pub open spec fn on_line(p1: (int, int), p2: (int, int), q: (int, int)) -> bool {
    det_of(minus(p2, p1), minus(q, p1)) == 0
}

/// `q` lies on the closed segment `p1 p2`.
pub open spec fn on_segment(p1: (int, int), p2: (int, int), q: (int, int)) -> bool {
    on_line(p1, p2, q) && dot_of(minus(q, p1), minus(q, p2)) <= 0
}

pub open spec fn min_of(a: int, b: int) -> int {
    if a < b {
        a
    } else {
        b
    }
}

pub open spec fn max_of(a: int, b: int) -> int {
    if a < b {
        b
    } else {
        a
    }
}

/// The bounding boxes of the segments `p1 p2` and `q1 q2` meet (boundary included).
pub open spec fn boxes_meet(p1: (int, int), p2: (int, int), q1: (int, int), q2: (int, int)) -> bool {
    &&& min_of(q1.0, q2.0) <= max_of(p1.0, p2.0)
    &&& min_of(p1.0, p2.0) <= max_of(q1.0, q2.0)
    &&& min_of(q1.1, q2.1) <= max_of(p1.1, p2.1)
    &&& min_of(p1.1, p2.1) <= max_of(q1.1, q2.1)
}

/// `b1` and `b2` are not strictly on the same side of the line through `a1` and `a2`.
pub open spec fn straddles(a1: (int, int), a2: (int, int), b1: (int, int), b2: (int, int)) -> bool {
    sign(det_of(minus(a2, a1), minus(b1, a1))) * sign(det_of(minus(a2, a1), minus(b2, a1))) <= 0
}

/// The closed segments `p1 p2` and `q1 q2` have a common point.
pub open spec fn segments_cross(p1: (int, int), p2: (int, int), q1: (int, int), q2: (int, int)) -> bool {
    &&& boxes_meet(p1, p2, q1, q2)
    &&& straddles(p1, p2, q1, q2)
    &&& straddles(q1, q2, p1, p2)
}

/// The crossing of the line through `p1 p2` with the line through `q1 q2`, as
/// `(x, y, den)` standing for the point `(x / den, y / den)` with `den > 0`;
/// none when the lines are parallel.
pub open spec fn line_cross_of(p1: (int, int), p2: (int, int), q1: (int, int), q2: (int, int)) -> Option<(int, int, int)> {
    let d = det_of(minus(q2, q1), minus(p2, p1));
    let c = det_of(minus(q2, q1), minus(q1, p1));
    let x = p1.0 * d + (p2.0 - p1.0) * c;
    let y = p1.1 * d + (p2.1 - p1.1) * c;
    if d == 0 {
        None
    } else if d > 0 {
        Some((x, y, d))
    } else {
        Some((-x, -y, -d))
    }
}

/// A point with rational coordinates `(x / den, y / den)`.
#[derive(Clone, Copy, Debug, PartialEq, Eq)]
pub struct RatP {
    pub x: i128,
    pub y: i128,
    pub den: i128,
}

pub fn sig(x: i64) -> (r: i32)
    ensures
        r == sign(x as int),
{
    if x > 0 {
        1
    } else if x < 0 {
        -1
    } else {
        0
    }
}

proof fn lemma_norm2_pos(a: (int, int))
    requires
        a.0 != 0 || a.1 != 0,
    ensures
        norm2(a) > 0,
{
    assert(a.0 * a.0 >= 0 && a.1 * a.1 >= 0) by (nonlinear_arith);
    if a.0 != 0 {
        assert(a.0 * a.0 > 0) by (nonlinear_arith)
            requires
                a.0 != 0,
        ;
    } else {
        assert(a.1 * a.1 > 0) by (nonlinear_arith)
            requires
                a.1 != 0,
        ;
    }
}

impl P {
    fn diff(self, a: P) -> (r: P)
        requires
            in_limit(self@),
            in_limit(a@),
        ensures
            r@ == minus(self@, a@),
            within(r@, 2 * LIMIT),
    {
        P(self.0 - a.0, self.1 - a.1)
    }

    /// Squared distance from `q` to the segment `seg`, as (numerator, denominator).
    pub fn dist2_sp(seg: (P, P), q: P) -> (r: (i128, i128))
        requires
            in_limit(seg.0@),
            in_limit(seg.1@),
            in_limit(q@),
        ensures
            r.0 == dist2_sp_of(seg.0@, seg.1@, q@).0,
            r.1 == dist2_sp_of(seg.0@, seg.1@, q@).1,
            r.0 >= 0,
            0 < r.1 <= 8796093022208,
    {
        let (p1, p2) = seg;
        if p2.diff(p1).dot(q.diff(p1)) <= 0 {
            (q.diff(p1).abs2() as i128, 1)
        } else if p1.diff(p2).dot(q.diff(p2)) <= 0 {
            (q.diff(p2).abs2() as i128, 1)
        } else {
            assert(p1.0 != p2.0 || p1.1 != p2.1) by {
                if p1.0 == p2.0 && p1.1 == p2.1 {
                    let a = minus(p2@, p1@);
                    let b = minus(q@, p1@);
                    assert(a.0 * b.0 + a.1 * b.1 == 0) by (nonlinear_arith)
                        requires
                            a.0 == 0,
                            a.1 == 0,
                    ;
                }
            }
            P::dist2_lp(seg, q)
        }
    }

    /// Squared distance from `q` to the line through the two distinct points of `seg`,
    /// as (numerator, denominator).
    pub fn dist2_lp(seg: (P, P), q: P) -> (r: (i128, i128))
        requires
            in_limit(seg.0@),
            in_limit(seg.1@),
            in_limit(q@),
            seg.0 != seg.1,
        ensures
            r.0 == dist2_lp_of(seg.0@, seg.1@, q@).0,
            r.1 == dist2_lp_of(seg.0@, seg.1@, q@).1,
            r.0 >= 0,
            0 < r.1 <= 8796093022208,
    {
        let (p1, p2) = seg;
        let e = p2.diff(p1);
        let det = e.det(q.diff(p1)) as i128;
        proof {
            lemma_norm2_pos(e@);
            assert(det * det >= 0) by (nonlinear_arith);
            assert(det * det <= 8796093022208 * 8796093022208) by (nonlinear_arith)
                requires
                    -8796093022208 <= det <= 8796093022208,
            ;
        }
        (det * det, e.abs2() as i128)
    }

    /// `q` lies on the segment `seg`.
    pub fn crs_sp(seg: (P, P), q: P) -> (r: bool)
        requires
            in_limit(seg.0@),
            in_limit(seg.1@),
            in_limit(q@),
        ensures
            r == on_segment(seg.0@, seg.1@, q@),
    {
        P::crs_lp(seg, q) && q.diff(seg.0).dot(q.diff(seg.1)) <= 0
    }

    /// `q` lies on the line through the points of `seg`.
    pub fn crs_lp(seg: (P, P), q: P) -> (r: bool)
        requires
            in_limit(seg.0@),
            in_limit(seg.1@),
            in_limit(q@),
        ensures
            r == on_line(seg.0@, seg.1@, q@),
    {
        seg.1.diff(seg.0).det(q.diff(seg.0)) == 0
    }

    /// The closed segments `s` and `t` have a common point.
    pub fn crs_ss(s: (P, P), t: (P, P)) -> (r: bool)
        requires
            in_limit(s.0@),
            in_limit(s.1@),
            in_limit(t.0@),
            in_limit(t.1@),
        ensures
            r == segments_cross(s.0@, s.1@, t.0@, t.1@),
    {
        let (p1, p2) = s;
        let (q1, q2) = t;
        let (lp0, up0) = if p1.0 < p2.0 { (p1.0, p2.0) } else { (p2.0, p1.0) };
        let (lq0, uq0) = if q1.0 < q2.0 { (q1.0, q2.0) } else { (q2.0, q1.0) };
        let (lp1, up1) = if p1.1 < p2.1 { (p1.1, p2.1) } else { (p2.1, p1.1) };
        let (lq1, uq1) = if q1.1 < q2.1 { (q1.1, q2.1) } else { (q2.1, q1.1) };
        if up0 < lq0 || uq0 < lp0 || up1 < lq1 || uq1 < lp1 {
            return false;
        }
        let ep = p2.diff(p1);
        let eq = q2.diff(q1);
        sig(ep.det(q1.diff(p1))) * sig(ep.det(q2.diff(p1))) <= 0
            && sig(eq.det(p1.diff(q1))) * sig(eq.det(p2.diff(q1))) <= 0
    }

    /// The crossing point of the lines through `s` and through `t`; none when
    /// they are parallel.
    pub fn pi_ll(s: (P, P), t: (P, P)) -> (r: Option<RatP>)
        requires
            in_limit(s.0@),
            in_limit(s.1@),
            in_limit(t.0@),
            in_limit(t.1@),
        ensures
            r is None <==> line_cross_of(s.0@, s.1@, t.0@, t.1@) is None,
            r matches Some(c) ==> line_cross_of(s.0@, s.1@, t.0@, t.1@) == Some(
                (c.x as int, c.y as int, c.den as int),
            ),
    {
        let (p1, p2) = s;
        let (q1, q2) = t;
        let eq = q2.diff(q1);
        let ep = p2.diff(p1);
        let d = eq.det(ep);
        if d == 0 {
            return None;
        }
        let c = eq.det(q1.diff(p1));
        proof {
            lemma_prod_bound_wide(p1.0 as int, d as int);
            lemma_prod_bound_wide(p1.1 as int, d as int);
            lemma_prod_bound_wide(ep.0 as int, c as int);
            lemma_prod_bound_wide(ep.1 as int, c as int);
        }
        let x = p1.0 as i128 * d as i128 + ep.0 as i128 * c as i128;
        let y = p1.1 as i128 * d as i128 + ep.1 as i128 * c as i128;
        if d > 0 {
            Some(RatP { x, y, den: d as i128 })
        } else {
            Some(RatP { x: -x, y: -y, den: -(d as i128) })
        }
    }
}

/// A coordinate difference times a cross product.
proof fn lemma_prod_bound_wide(a: int, b: int)
    requires
        -2097152 <= a <= 2097152,
        -8796093022208 <= b <= 8796093022208,
    ensures
        -18446744073709551616 <= a * b <= 18446744073709551616,
{
    assert(-18446744073709551616 <= a * b <= 18446744073709551616) by (nonlinear_arith)
        requires
            -2097152 <= a <= 2097152,
            -8796093022208 <= b <= 8796093022208,
    ;
}

/// Which segments cross does not depend on the order in which they are given,
/// and every segment crosses itself.
pub proof fn lemma_crs_ss_symmetric(p1: (int, int), p2: (int, int), q1: (int, int), q2: (int, int))
    ensures
        segments_cross(p1, p2, q1, q2) == segments_cross(q1, q2, p1, p2),
        segments_cross(p1, p2, p1, p2),
{
    let e = minus(p2, p1);
    let z = minus(p1, p1);
    let w = minus(p2, p1);
    assert(e.0 * z.1 - e.1 * z.0 == 0) by (nonlinear_arith)
        requires
            z.0 == 0,
            z.1 == 0,
    ;
    assert(e.0 * w.1 - e.1 * w.0 == 0) by (nonlinear_arith)
        requires
            w == e,
    ;
    assert(sign(det_of(e, z)) == 0);
}

/// Where the ray from `p` along `dir` meets the segment `w1 w2`, as `(k, d)`
/// with `d > 0` and `k >= 0`: the meeting point is `p + dir * k / d`. None when
/// the segment is parallel to the ray, lies strictly on one side of its line,
/// or is met only behind `p`.
pub open spec fn ray_hit_of(p: (int, int), dir: (int, int), w1: (int, int), w2: (int, int)) -> Option<(int, int)> {
    let e = minus(w2, w1);
    let d = det_of(e, dir);
    let k = det_of(e, minus(w1, p));
    if d == 0 || sign(det_of(dir, minus(w1, p))) * sign(det_of(dir, minus(w2, p))) > 0 {
        None
    } else if d > 0 && k >= 0 {
        Some((k, d))
    } else if d < 0 && k <= 0 {
        Some((-k, -d))
    } else {
        None
    }
}

/// The ray from `p` along `dir` meets the segment `w` at parameter `k / d`;
/// see [`ray_hit_of`].
pub fn ray_hit(p: P, dir: P, w: (P, P)) -> (r: Option<(i64, i64)>)
    requires
        in_limit(p@),
        in_limit(dir@),
        in_limit(w.0@),
        in_limit(w.1@),
    ensures
        r is None <==> ray_hit_of(p@, dir@, w.0@, w.1@) is None,
        r matches Some(h) ==> ray_hit_of(p@, dir@, w.0@, w.1@) == Some((h.0 as int, h.1 as int)),
        r matches Some(h) ==> 0 <= h.0 <= 8796093022208 && 0 < h.1 <= 8796093022208,
{
    let (w1, w2) = w;
    let e = w2.diff(w1);
    let d = e.det(dir);
    if d == 0 || sig(dir.det(w1.diff(p))) * sig(dir.det(w2.diff(p))) > 0 {
        return None;
    }
    let k = e.det(w1.diff(p));
    if d > 0 && k >= 0 {
        Some((k, d))
    } else if d < 0 && k <= 0 {
        Some((-k, -d))
    } else {
        None
    }
}

/// The crossing point of two lines lies on both: `(x, y) - den * p1` runs
/// along `p2 - p1`, and `(x, y) - den * q1` along `q2 - q1`.
#[verifier::rlimit(100)]
pub proof fn lemma_line_cross_on_both(p1: (int, int), p2: (int, int), q1: (int, int), q2: (int, int))
    ensures
        line_cross_of(p1, p2, q1, q2) matches Some(c) ==> c.2 > 0 && det_of(
            minus(p2, p1),
            (c.0 - c.2 * p1.0, c.1 - c.2 * p1.1),
        ) == 0 && det_of(minus(q2, q1), (c.0 - c.2 * q1.0, c.1 - c.2 * q1.1)) == 0,
{
    let (e0, e1) = (p2.0 - p1.0, p2.1 - p1.1);
    let (f0, f1) = (q2.0 - q1.0, q2.1 - q1.1);
    let (g0, g1) = (q1.0 - p1.0, q1.1 - p1.1);
    let d = f0 * e1 - f1 * e0;
    let k = f0 * g1 - f1 * g0;
    let x = p1.0 * d + e0 * k;
    let y = p1.1 * d + e1 * k;
    assert(e0 * (e1 * k) - e1 * (e0 * k) == 0) by (nonlinear_arith);
    assert(y - d * p1.1 == e1 * k && x - d * p1.0 == e0 * k) by (nonlinear_arith)
        requires
            x == p1.0 * d + e0 * k,
            y == p1.1 * d + e1 * k,
    ;
    // Relative to q1: (x, y) - d * q1 == e * k - g * d.
    assert(x - d * q1.0 == e0 * k - g0 * d && y - d * q1.1 == e1 * k - g1 * d) by (nonlinear_arith)
        requires
            x == p1.0 * d + e0 * k,
            y == p1.1 * d + e1 * k,
            g0 == q1.0 - p1.0,
            g1 == q1.1 - p1.1,
    ;
    assert(f0 * (e1 * k - g1 * d) == f0 * (e1 * k) - f0 * (g1 * d)) by (nonlinear_arith);
    assert(f1 * (e0 * k - g0 * d) == f1 * (e0 * k) - f1 * (g0 * d)) by (nonlinear_arith);
    assert(f0 * (e1 * k) == (f0 * e1) * k) by (nonlinear_arith);
    assert(f1 * (e0 * k) == (f1 * e0) * k) by (nonlinear_arith);
    assert(f0 * (g1 * d) == (f0 * g1) * d) by (nonlinear_arith);
    assert(f1 * (g0 * d) == (f1 * g0) * d) by (nonlinear_arith);
    assert((f0 * e1) * k - (f1 * e0) * k == d * k) by (nonlinear_arith)
        requires
            d == f0 * e1 - f1 * e0,
    ;
    assert((f0 * g1) * d - (f1 * g0) * d == k * d) by (nonlinear_arith)
        requires
            k == f0 * g1 - f1 * g0,
    ;
    assert(f0 * (e1 * k - g1 * d) - f1 * (e0 * k - g0 * d) == 0) by (nonlinear_arith)
        requires
            f0 * (e1 * k - g1 * d) == (f0 * e1) * k - (f0 * g1) * d,
            f1 * (e0 * k - g0 * d) == (f1 * e0) * k - (f1 * g0) * d,
            (f0 * e1) * k - (f1 * e0) * k == d * k,
            (f0 * g1) * d - (f1 * g0) * d == k * d,
    ;
    assert(e0 * (-(e1 * k)) - e1 * (-(e0 * k)) == 0) by (nonlinear_arith);
    assert(f0 * (-(e1 * k - g1 * d)) - f1 * (-(e0 * k - g0 * d)) == -(f0 * (e1 * k - g1 * d) - f1 * (e0 * k
        - g0 * d))) by (nonlinear_arith);
    assert(-y - (-d) * p1.1 == -(e1 * k) && -x - (-d) * p1.0 == -(e0 * k)) by (nonlinear_arith)
        requires
            y - d * p1.1 == e1 * k,
            x - d * p1.0 == e0 * k,
    ;
    assert(-x - (-d) * q1.0 == -(e0 * k - g0 * d) && -y - (-d) * q1.1 == -(e1 * k - g1 * d)) by (nonlinear_arith)
        requires
            x - d * q1.0 == e0 * k - g0 * d,
            y - d * q1.1 == e1 * k - g1 * d,
    ;
}

} // verus!
