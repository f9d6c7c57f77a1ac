use drone_judge::geometry::{ray_hit, sig, RatP, P};

#[test]
fn dot_det_abs2_values() {
    let a = P(3, 4);
    let b = P(-2, 5);
    assert_eq!(a.dot(b), 14);
    assert_eq!(a.det(b), 23);
    assert_eq!(a.abs2(), 25);
}

#[test]
fn sig_values() {
    assert_eq!(sig(-7), -1);
    assert_eq!(sig(0), 0);
    assert_eq!(sig(9), 1);
}

#[test]
fn crossing_is_symmetric() {
    let segs = [
        (P(0, 0), P(10, 10)),
        (P(0, 10), P(10, 0)),
        (P(20, 20), P(30, 30)),
        (P(10, 10), P(20, 0)),
        (P(-5, 0), P(5, 0)),
        (P(0, -5), P(0, 5)),
        (P(0, 0), P(0, 0)),
    ];
    for &a in segs.iter() {
        for &b in segs.iter() {
            assert_eq!(P::crs_ss(a, b), P::crs_ss(b, a));
        }
        assert!(P::crs_ss(a, a));
    }
}

#[test]
fn crossing_cases() {
    assert!(P::crs_ss((P(0, 0), P(10, 10)), (P(0, 10), P(10, 0))));
    assert!(P::crs_ss((P(0, 0), P(10, 10)), (P(10, 10), P(20, 0))));
    assert!(!P::crs_ss((P(0, 0), P(10, 10)), (P(20, 20), P(30, 30))));
    assert!(!P::crs_ss((P(0, 0), P(10, 0)), (P(0, 1), P(10, 1))));
    assert!(P::crs_ss((P(0, 0), P(10, 0)), (P(5, 0), P(15, 0))));
}

#[test]
fn point_on_segment_and_line() {
    let seg = (P(0, 0), P(10, 0));
    assert!(P::crs_lp(seg, P(20, 0)));
    assert!(!P::crs_sp(seg, P(20, 0)));
    assert!(P::crs_sp(seg, P(10, 0)));
    assert!(P::crs_sp(seg, P(5, 0)));
    assert!(!P::crs_lp(seg, P(5, 1)));
}

#[test]
fn distance_to_segment() {
    let seg = (P(0, 0), P(10, 0));
    let (n, d) = P::dist2_sp(seg, P(-3, 4));
    assert_eq!(n * 1, 25 * d);
    let (n, d) = P::dist2_sp(seg, P(13, 4));
    assert_eq!(n, 25 * d);
    let (n, d) = P::dist2_sp(seg, P(5, 7));
    assert_eq!(n, 49 * d);
    let (n, d) = P::dist2_sp((P(2, 2), P(2, 2)), P(5, 6));
    assert_eq!((n, d), (25, 1));
    let (n, d) = P::dist2_lp((P(0, 0), P(3, 3)), P(0, 2));
    assert_eq!(n * 2, d * 4);
}

#[test]
fn line_crossing_point() {
    let c = P::pi_ll((P(0, 0), P(2, 2)), (P(0, 2), P(2, 0))).unwrap();
    assert!(c.den > 0);
    assert_eq!(c.x, c.den);
    assert_eq!(c.y, c.den);
    assert_eq!(P::pi_ll((P(0, 0), P(1, 1)), (P(0, 1), P(1, 2))), None::<RatP>);
}

#[test]
fn ray_meets_segment_ahead_only() {
    let wall = (P(1000, -10), P(1000, 10));
    let (k, d) = ray_hit(P(0, 0), P(1, 0), wall).unwrap();
    assert_eq!(k, 1000 * d);
    assert_eq!(ray_hit(P(0, 0), P(-1, 0), wall), None);
    assert_eq!(ray_hit(P(0, 0), P(0, 1), wall), None);
    let (k, d) = ray_hit(P(0, 0), P(4, 0), wall).unwrap();
    assert_eq!(k * 4, 1000 * d);
}
