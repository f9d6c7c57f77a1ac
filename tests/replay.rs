use drone_judge::geometry::P;
use drone_judge::model::{Decimal, Input, Output, MAX_T};
use drone_judge::parse_out::parse_output;
use drone_judge::sim::{compute_score, compute_score_details, probe, replay_to, Sim};

fn instance(s: (i64, i64), ps: Vec<(i64, i64)>, walls: Vec<(i64, i64, i64, i64)>) -> Input {
    Input {
        eps: 100,
        delta: 5,
        s,
        ps,
        walls,
        fs: vec![(0, 0); MAX_T],
        alphas: vec![Decimal { digits: 1, scale: 0 }; MAX_T],
    }
}

#[test]
fn new_state_is_at_rest_at_start() {
    let input = instance((5, -7), vec![(100, 100), (200, 200)], vec![]);
    let sim = Sim::new(&input);
    assert_eq!(sim.p, P(5, -7));
    assert_eq!(sim.v, P(0, 0));
    assert_eq!(sim.visited, vec![false, false]);
    assert_eq!((sim.score, sim.crt_score, sim.t), (0, 0, 0));
}

#[test]
fn target_at_capture_radius_is_reached() {
    let input = instance((0, 0), vec![(0, 1000)], vec![]);
    let mut sim = Sim::new(&input);
    let (code, hits, probe) = sim.query(&input, 'A', 500, 0);
    assert_eq!(code, 0);
    assert_eq!(hits, vec![0]);
    assert_eq!(probe, None);
    assert_eq!(sim.p, P(500, 0));
    assert_eq!(sim.crt_score, 1000 - 2);
    assert_eq!(sim.score, 998);
}

#[test]
fn move_includes_perturbation() {
    let mut input = instance((0, 0), vec![(1001, 0)], vec![]);
    input.fs[0] = (3, -4);
    let mut sim = Sim::new(&input);
    let (code, hits, _) = sim.query(&input, 'A', 500, 0);
    assert_eq!(code, 0);
    assert_eq!(hits, vec![0]);
    assert_eq!(sim.p, P(503, -4));
    assert_eq!(sim.v, P(503, -4));
    assert_eq!(sim.score, 998);
}

#[test]
fn target_beyond_radius_is_missed() {
    let input = instance((0, 0), vec![(0, 1001)], vec![]);
    let mut sim = Sim::new(&input);
    let (code, hits, _) = sim.query(&input, 'A', 0, 0);
    assert_eq!(code, 0);
    assert!(hits.is_empty());
    assert_eq!(sim.crt_score, -2);
    assert_eq!(sim.score, 0);
}

#[test]
fn destination_on_edge_is_accepted() {
    let input = instance((99500, 0), vec![(0, 0)], vec![]);
    let mut sim = Sim::new(&input);
    let (code, _, _) = sim.query(&input, 'A', 500, 0);
    assert_eq!(code, 0);
    assert_eq!(sim.p, P(100000, 0));
    assert_eq!(sim.v, P(500, 0));
    assert_eq!(sim.crt_score, -2);
}

#[test]
fn destination_beyond_edge_is_rejected() {
    let input = instance((99600, 0), vec![(0, 0)], vec![]);
    let mut sim = Sim::new(&input);
    let (code, hits, _) = sim.query(&input, 'A', 500, 0);
    assert_eq!(code, 1);
    assert!(hits.is_empty());
    assert_eq!(sim.p, P(99600, 0));
    assert_eq!(sim.v, P(0, 0));
    assert_eq!(sim.crt_score, -102);
    assert_eq!(sim.score, 0);
    assert_eq!(sim.t, 1);
}

#[test]
fn move_through_wall_is_rejected() {
    let input = instance((0, 0), vec![(50000, 50000)], vec![(100, -1000, 100, 1000)]);
    let mut sim = Sim::new(&input);
    let (code, _, _) = sim.query(&input, 'A', 200, 0);
    assert_eq!(code, 1);
    assert_eq!(sim.p, P(0, 0));
    assert_eq!(sim.v, P(0, 0));
}

#[test]
fn probe_reads_distance_to_wall() {
    let input = instance((0, 0), vec![(50000, 50000)], vec![(1000, -500, 1000, 500)]);
    let mut sim = Sim::new(&input);
    let (code, _, hit) = sim.query(&input, 'S', 1, 0);
    assert_eq!(code, 0);
    let (k, d) = hit.unwrap();
    assert_eq!(k, 1000 * d);
    let alpha = 1.0_f64;
    let reading = ((k as f64 / d as f64) * 1.0_f64.hypot(0.0) * alpha).round() as i64;
    assert_eq!(reading, 1000);
}

#[test]
fn probe_without_walls_meets_arena_side() {
    let input = instance((0, 0), vec![(50000, 50000)], vec![]);
    let hit = probe(&input, P(0, 0), P(0, -4)).unwrap();
    assert_eq!(hit.0 * 4, 100000 * hit.1);
    let hit = probe(&input, P(99000, 0), P(3, 0)).unwrap();
    assert_eq!(hit.0 * 3, 1000 * hit.1);
}

#[test]
fn score_keeps_its_best_value() {
    let input = instance((0, 0), vec![(0, 900)], vec![]);
    let acts = vec![('A', 0, 0), ('A', 0, 0), ('A', 0, 0)];
    let (score, err, (p, v, visited)) = compute_score_details(&input, &acts);
    assert_eq!(score, 998);
    assert!(err.is_empty());
    assert_eq!(p, P(0, 0));
    assert_eq!(v, P(0, 0));
    assert_eq!(visited, vec![true]);
}

#[test]
fn score_never_drops_over_prefixes() {
    let input = instance((0, 0), vec![(1200, 0), (-50000, 0)], vec![(-200, -100, -200, 100)]);
    let acts = vec![('A', 500, 0), ('A', -500, 0), ('A', -500, 0), ('A', -500, 0), ('S', 1, 1), ('A', 0, 0)];
    let mut last = 0;
    for k in 0..=acts.len() {
        let sim = replay_to(&input, &acts, k);
        assert!(sim.score >= last);
        assert_eq!(sim.t, k);
        last = sim.score;
    }
    assert_eq!(last, 998);
}

#[test]
fn truncated_replay_matches_prefix() {
    let input = instance((0, 0), vec![(1200, 0), (-50000, 0)], vec![(-200, -100, -200, 100)]);
    let acts = vec![('A', 500, 0), ('A', -500, 0), ('A', -500, 0), ('S', 1, 1), ('A', 0, 0)];
    for k in 0..=acts.len() {
        let a = replay_to(&input, &acts, k);
        let b = replay_to(&input, &acts[..k], k);
        assert_eq!((a.score, a.crt_score, a.p, a.v, a.t), (b.score, b.crt_score, b.p, b.v, b.t));
        assert_eq!(a.visited, b.visited);
    }
}

fn parsed(input: &Input, text: &str) -> Output {
    parse_output(input, text).unwrap()
}

#[test]
fn full_score_needs_every_target() {
    let input = instance((0, 0), vec![(0, 900), (90000, 90000)], vec![]);
    let out = parsed(&input, "A 0 0\n");
    let (score, err) = compute_score(&input, &out);
    assert_eq!(score, 0);
    assert_eq!(err, "Unexpected EOF");

    let input = instance((0, 0), vec![(0, 900)], vec![]);
    let out = parsed(&input, "A 0 0\nA 0 0\n");
    let (score, err) = compute_score(&input, &out);
    assert_eq!(score, 998);
    assert_eq!(err, "");
}
