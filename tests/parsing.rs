use drone_judge::minmax::SetMinMax;
use drone_judge::model::{Decimal, Input, MAX_T};
use drone_judge::parse_in::parse_input;
use drone_judge::parse_out::parse_output;
use drone_judge::text::{read, read_decimal, ParseError};
use drone_judge::view::{get_max_turn, to_canvas};

fn instance(n: usize) -> Input {
    Input {
        eps: 100,
        delta: 5,
        s: (0, 0),
        ps: vec![(50000, 50000); n],
        walls: vec![],
        fs: vec![(0, 0); MAX_T],
        alphas: vec![Decimal { digits: 1, scale: 0 }; MAX_T],
    }
}

fn err_of(text: &str) -> ParseError {
    match parse_output(&instance(3), text) {
        Ok(_) => panic!("accepted: {}", text),
        Err(e) => e,
    }
}

#[test]
fn reads_actions_and_skips_comments() {
    let text = "# a note\nA 1 2\n\n#p 5 6\nS -3 4\n#\n";
    let out = parse_output(&instance(3), text).unwrap();
    assert_eq!(out.out, vec![('A', 1, 2), ('S', -3, 4)]);
    assert_eq!(out.pos, vec![(5, 6)]);
    assert_eq!(out.dst.len(), MAX_T);
    assert_eq!(out.est.len(), MAX_T);
    assert_eq!(out.gol.len(), MAX_T);
}

#[test]
fn reads_annotations() {
    let text = "#c 7 8\n#v -9223372036854775808 12\n#e 1 1 0.5\nA 0 0\n#e 3 4 0.25\n#e 5 6 1\n#d 1234\n#g 1\nA 0 0\n#e 7 8 0\n";
    let out = parse_output(&instance(3), text).unwrap();
    assert_eq!(out.pred_pos, vec![(7, 8)]);
    assert_eq!(out.vel, vec![(i64::MIN, 12)]);
    assert_eq!(out.est[0], vec![(3, 4, Decimal { digits: 25, scale: 2 }), (5, 6, Decimal { digits: 1, scale: 0 })]);
    assert_eq!(out.est[1], vec![(7, 8, Decimal { digits: 0, scale: 0 })]);
    assert!(out.est[2].is_empty());
    assert_eq!(out.dst[0], 1234);
    assert_eq!(out.dst[1], -1);
    assert_eq!(out.gol[0], vec![false, false, false]);
    assert_eq!(out.gol[1], vec![false, true, false]);
    assert_eq!(out.gol[MAX_T - 1], vec![false, true, false]);
}

#[test]
fn too_many_actions() {
    let text = "A 0 0\n".repeat(MAX_T + 1);
    match err_of(&text) {
        ParseError::TooManyActions(n) => assert_eq!(n, MAX_T + 1),
        e => panic!("{:?}", e),
    }
    let text = "A 0 0\n".repeat(MAX_T);
    assert_eq!(parse_output(&instance(3), &text).unwrap().out.len(), MAX_T);
}

#[test]
fn each_output_error() {
    assert!(matches!(err_of("A 5\n"), ParseError::UnexpectedEof));
    assert!(matches!(err_of("A x 0\n"), ParseError::NotANumber(ref t) if t == b"x"));
    assert!(matches!(err_of("AB 1 0\n"), ParseError::NotANumber(_)));
    assert!(matches!(err_of("A 100001 0\n"), ParseError::OutOfRange(100001)));
    assert!(matches!(err_of("Z 0 0\n"), ParseError::TagOutOfRange('Z')));
    assert!(matches!(err_of("B 0 0\n"), ParseError::InvalidAction('B')));
    assert!(matches!(err_of("A 400 400\n"), ParseError::VectorOutOfRange(400, 400)));
    assert!(matches!(err_of("S 0 0\n"), ParseError::VectorOutOfRange(0, 0)));
    assert!(matches!(err_of("S 100000 1\n"), ParseError::VectorOutOfRange(100000, 1)));
    assert!(matches!(err_of("#q 1\n"), ParseError::InvalidComment(ref t) if t == b"#q"));
    assert!(matches!(err_of("#d 5\n"), ParseError::DistanceBeforeMeasure));
    assert!(matches!(err_of("A 0 0\n#d 300000\n"), ParseError::OutOfRange(300000)));
    assert!(matches!(err_of("#g 3\n"), ParseError::OutOfRange(3)));
    assert!(matches!(err_of("#g -1\n"), ParseError::NotANumber(_)));
    assert!(matches!(err_of("A 0 0\n#e 1 2 1.5\n"), ParseError::DecimalOutOfRange(Decimal { digits: 15, scale: 1 })));
    assert!(matches!(err_of("A 0 0\n#e 1 2 .5\n"), ParseError::NotANumber(_)));
}

#[test]
fn accelerate_bound_is_inclusive() {
    let out = parse_output(&instance(3), "A 300 400\nA -500 0\nS 100000 0\n").unwrap();
    assert_eq!(out.out.len(), 3);
    assert!(matches!(err_of("A 1000 0\n"), ParseError::VectorOutOfRange(1000, 0)));
}

#[test]
fn integer_reader() {
    let s = b"  +42 -7 x 9223372036854775808";
    let (v, p) = read(s, 0, s.len(), -100, 100, false);
    assert_eq!(v.unwrap(), 42);
    let (v, p) = read(s, p, s.len(), 0, 100, false);
    assert!(matches!(v, Err(ParseError::OutOfRange(-7))));
    let (v, p) = read(s, p, s.len(), 0, 100, false);
    assert!(matches!(v, Err(ParseError::NotANumber(_))));
    let (v, p) = read(s, p, s.len(), i64::MIN, i64::MAX, false);
    assert!(matches!(v, Err(ParseError::NotANumber(_))));
    let (v, _) = read(s, p, s.len(), 0, 1, false);
    assert!(matches!(v, Err(ParseError::UnexpectedEof)));
    let s = b"-9223372036854775808";
    assert_eq!(read(s, 0, s.len(), i64::MIN, i64::MAX, false).0.unwrap(), i64::MIN);
    assert!(matches!(read(s, 0, s.len(), i64::MIN, i64::MAX, true).0, Err(ParseError::NotANumber(_))));
}

#[test]
fn decimal_reader() {
    let s = b"1.0234 7 0.000125 3. x";
    let (d, p) = read_decimal(s, 0, s.len());
    assert_eq!(d.unwrap(), Decimal { digits: 10234, scale: 4 });
    let (d, p) = read_decimal(s, p, s.len());
    assert_eq!(d.unwrap(), Decimal { digits: 7, scale: 0 });
    let (d, p) = read_decimal(s, p, s.len());
    assert_eq!(d.unwrap(), Decimal { digits: 125, scale: 6 });
    let (d, p) = read_decimal(s, p, s.len());
    assert!(d.is_err());
    let (d, _) = read_decimal(s, p, s.len());
    assert!(d.is_err());
}

fn sample() -> Input {
    let mut inp = instance(2);
    inp.eps = 3700;
    inp.delta = 5;
    inp.s = (-12, 99999);
    inp.ps = vec![(1, 2), (-100000, 100000)];
    inp.walls = vec![(0, 0, 10, -10)];
    inp.fs[0] = (-3, 4);
    inp.alphas[0] = Decimal { digits: 10234, scale: 4 };
    inp.alphas[1] = Decimal { digits: 5, scale: 3 };
    inp
}

#[test]
fn instance_text_form() {
    let text = sample().to_text();
    let lines: Vec<&str> = text.lines().collect();
    assert_eq!(lines.len(), 2 + 2 + 1 + 2 * MAX_T);
    assert_eq!(lines[0], "2 1 37.00 0.05");
    assert_eq!(lines[1], "-12 99999");
    assert_eq!(lines[2], "1 2");
    assert_eq!(lines[3], "-100000 100000");
    assert_eq!(lines[4], "0 0 10 -10");
    assert_eq!(lines[5], "1.0234");
    assert_eq!(lines[6], "0.005");
    assert_eq!(lines[7], "1");
    assert_eq!(lines[5 + MAX_T], "-3 4");
    assert!(text.ends_with("0 0\n"));
}

#[test]
fn instance_round_trip() {
    let inp = sample();
    let back = parse_input(&inp.to_text()).unwrap();
    assert_eq!(back.eps, inp.eps);
    assert_eq!(back.delta, inp.delta);
    assert_eq!(back.s, inp.s);
    assert_eq!(back.ps, inp.ps);
    assert_eq!(back.walls, inp.walls);
    assert_eq!(back.fs, inp.fs);
    assert_eq!(back.alphas, inp.alphas);
    assert_eq!(back.to_text(), inp.to_text());
}

#[test]
fn instance_errors() {
    assert!(matches!(parse_input("1 0 1.00 0.05\n0 0\n"), Err(ParseError::UnexpectedEof)));
    assert!(matches!(parse_input("1 0 1.005 0.05\n"), Err(ParseError::DecimalOutOfRange(_))));
    assert!(matches!(parse_input("1 0 1.00 0.05\n0 100001\n"), Err(ParseError::OutOfRange(100001))));
    assert!(matches!(parse_input("x"), Err(ParseError::NotANumber(_))));
}

#[test]
fn canvas_coordinates() {
    assert_eq!(to_canvas(-100000), 0);
    assert_eq!(to_canvas(0), 250);
    assert_eq!(to_canvas(100000), 500);
    assert_eq!(to_canvas(399 - 100000), 0);
    assert_eq!(to_canvas(400 - 100000), 1);
}

#[test]
fn max_turn_counts_actions() {
    let input = sample().to_text();
    assert_eq!(get_max_turn(&input, "A 0 0\n#p 1 1\nS 1 0\n"), 2);
    assert_eq!(get_max_turn(&input, "A 0\n"), 0);
    assert_eq!(get_max_turn("1 2", "A 0 0\n"), 0);
}

#[test]
fn error_is_not_healed_by_more_lines() {
    let input = instance(3);
    assert!(parse_output(&input, "A 0 0\nB 0 0\n").is_err());
    assert!(parse_output(&input, "A 0 0\nB 0 0\nA 0 0\nS 1 1\n#p 0 0\n").is_err());
    assert!(parse_output(&input, "#x\n").is_err());
    assert!(parse_output(&input, "#x\nA 1 1\n").is_err());
}

#[test]
fn numbers_in_text() {
    let mut buf = Vec::new();
    drone_judge::emit::push_int(&mut buf, i64::MIN);
    buf.push(b' ');
    drone_judge::emit::push_int(&mut buf, 0);
    buf.push(b' ');
    drone_judge::emit::push_int(&mut buf, 1203);
    buf.push(b' ');
    drone_judge::emit::push_centi(&mut buf, 7);
    buf.push(b' ');
    drone_judge::emit::push_centi(&mut buf, 12345);
    buf.push(b' ');
    drone_judge::emit::push_decimal(&mut buf, Decimal { digits: 0, scale: 2 });
    assert_eq!(String::from_utf8(buf).unwrap(), "-9223372036854775808 0 1203 0.07 123.45 0.00");
}

#[test]
fn set_min_max() {
    let mut a: i64 = 5;
    assert!(!a.setmax(3));
    assert_eq!(a, 5);
    assert!(a.setmax(9));
    assert_eq!(a, 9);
    assert!(a.setmin(-1));
    assert_eq!(a, -1);
    assert!(!a.setmin(-1));
    let mut u: usize = 4;
    assert!(u.setmin(2));
    assert_eq!(u, 2);
}
