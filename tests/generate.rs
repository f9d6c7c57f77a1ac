use drone_judge::gen::{gen_layout, target_fits, wall_candidate, wall_fits, GenError, N_TARGETS, TARGET_GAP};
use drone_judge::geometry::P;
use rand::Rng;

#[test]
fn same_seed_same_layout() {
    for seed in 0..5u64 {
        let (a, mut ra) = gen_layout(seed, 'C').unwrap();
        let (b, mut rb) = gen_layout(seed, 'C').unwrap();
        assert_eq!((a.eps, a.delta, a.s), (b.eps, b.delta, b.s));
        assert_eq!(a.ps, b.ps);
        assert_eq!(a.walls, b.walls);
        for _ in 0..10 {
            assert_eq!(ra.gen::<u64>(), rb.gen::<u64>());
        }
    }
}

#[test]
fn seeds_give_different_layouts() {
    let (a, _) = gen_layout(1, 'A').unwrap();
    let (b, _) = gen_layout(2, 'A').unwrap();
    assert_ne!(a.ps, b.ps);
}

#[test]
fn layouts_keep_their_rules() {
    for seed in 0..20u64 {
        for problem in ['A', 'B', 'C'] {
            let (l, _) = gen_layout(seed, problem).unwrap();
            assert_eq!(l.ps.len(), N_TARGETS);
            match problem {
                'A' => assert!(l.walls.is_empty() && (100..=10000).contains(&l.eps) && (1..=20).contains(&l.delta)),
                'B' => assert!(l.walls.len() == 10 && (l.eps == 0 || l.eps == 100) && l.delta == 1),
                _ => assert!((1..=10).contains(&l.walls.len()) && l.eps % 100 == 0),
            }
            for (i, p) in l.ps.iter().enumerate() {
                let d = (p.0 - l.s.0).pow(2) + (p.1 - l.s.1).pow(2);
                assert!(d >= TARGET_GAP * TARGET_GAP);
                for q in l.ps[..i].iter() {
                    assert!((p.0 - q.0).pow(2) + (p.1 - q.1).pow(2) >= TARGET_GAP * TARGET_GAP);
                }
            }
            for (i, w) in l.walls.iter().enumerate() {
                let a = (P(w.0, w.1), P(w.2, w.3));
                assert!(!P::crs_sp(a, P(l.s.0, l.s.1)));
                for v in l.walls[..i].iter() {
                    assert!(!P::crs_ss(a, (P(v.0, v.1), P(v.2, v.3))));
                }
            }
        }
    }
}

#[test]
fn unknown_problem_is_refused() {
    assert!(matches!(gen_layout(0, 'D'), Err(GenError::UnknownProblem('D'))));
}

#[test]
fn wall_candidate_rules() {
    assert_eq!(wall_candidate(90000, 90000, 100000, 100000), None);
    assert_eq!(wall_candidate(10, -5, -10, 5), None);
    assert_eq!(wall_candidate(90000, 0, 50000, 10), Some((90000, 0, 100000, 10)));
    assert_eq!(wall_candidate(-90000, 90000, -20000, 20000), None);
    assert_eq!(wall_candidate(-90000, 0, -20000, 300), Some((-90000, 0, -100000, 300)));
    assert_eq!(wall_candidate(1, 2, 3, 4), Some((1, 2, 4, 6)));
}

#[test]
fn target_fit_rules() {
    let ps = vec![(10000, 0)];
    assert!(target_fits(&ps, (0, 0), (0, 5000)));
    assert!(!target_fits(&ps, (0, 0), (0, 4999)));
    assert!(!target_fits(&ps, (0, 0), (12000, 0)));
    assert!(target_fits(&ps, (0, 0), (15000, 0)));
}

#[test]
fn wall_fit_rules() {
    let walls = vec![(0, -10, 0, 10)];
    assert!(!wall_fits(&walls, (500, 500), (-5, 0, 5, 0)));
    assert!(wall_fits(&walls, (500, 500), (10, 0, 20, 0)));
    assert!(!wall_fits(&walls, (15, 0), (10, 0, 20, 0)));
}

#[test]
fn generated_walls_start_inside() {
    for seed in 0..10u64 {
        let (l, _) = gen_layout(seed, 'B').unwrap();
        for w in l.walls.iter() {
            assert!(w.0.abs() <= 90000 && w.1.abs() <= 90000);
        }
    }
}
