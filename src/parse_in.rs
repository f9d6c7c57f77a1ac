//! Reading a problem instance: whitespace-separated numbers in a fixed order.
use vstd::prelude::*;
use vstd::string::StringSliceAdditionalSpecFns;
use crate::model::{Decimal, Input, AREA, MAX_N, MAX_SCALE, MAX_T};
use crate::parse_out::after;
use crate::text::{decimal_result, read, read_decimal, read_result, tok, Fault, ParseError};

verus! {

/// The `k` integers in `lo..=hi` that the tokens of `b` from position `i` on
/// write, and the position after them; or the fault of the first that does
/// not read.
pub open spec fn ints_from(b: Seq<u8>, i: int, k: nat, lo: int, hi: int) -> Result<(Seq<int>, int), Fault>
    decreases k,
{
    if k == 0 {
        Ok((Seq::empty(), i))
    } else {
        match ints_from(b, i, (k - 1) as nat, lo, hi) {
            Ok(r) => match read_result(tok(b, r.1, b.len() as int), lo, hi, false) {
                Ok(v) => Ok((r.0.push(v), after(b, r.1, b.len() as int))),
                Err(f) => Err(f),
            },
            Err(f) => Err(f),
        }
    }
}

/// The `k` decimals that the tokens of `b` from position `i` on write, and
/// the position after them; or the fault of the first that does not read.
pub open spec fn decimals_from(b: Seq<u8>, i: int, k: nat) -> Result<(Seq<(int, int)>, int), Fault>
    decreases k,
{
    if k == 0 {
        Ok((Seq::empty(), i))
    } else {
        match decimals_from(b, i, (k - 1) as nat) {
            Ok(r) => match decimal_result(tok(b, r.1, b.len() as int)) {
                Ok(d) => Ok((r.0.push(d), after(b, r.1, b.len() as int))),
                Err(f) => Err(f),
            },
            Err(f) => Err(f),
        }
    }
}

/// The decimal `d` in hundredths, for a scale of at most 2.
pub open spec fn centi_value(d: (int, int)) -> int {
    if d.1 == 0 {
        d.0 * 100
    } else if d.1 == 1 {
        d.0 * 10
    } else {
        d.0
    }
}

/// The value in hundredths of a decimal token with at most two decimals, no
/// larger than `MAX_SCALE`; or the fault.
pub open spec fn centi_result(t: Seq<u8>) -> Result<int, Fault> {
    match decimal_result(t) {
        Ok(d) => if d.1 <= 2 && d.0 <= MAX_SCALE && centi_value(d) <= MAX_SCALE {
            Ok(centi_value(d))
        } else {
            Err(Fault::DecimalOutOfRange(Decimal { digits: d.0 as u64, scale: d.1 as u32 }))
        },
        Err(f) => Err(f),
    }
}

fn read_ints(s: &[u8], i: usize, k: usize, lo: i64, hi: i64) -> (r: Result<(Vec<i64>, usize), ParseError>)
    requires
        i <= s.len(),
    ensures
        r is Ok <==> ints_from(s@, i as int, k as nat, lo as int, hi as int) is Ok,
        r matches Ok(v) ==> ints_from(s@, i as int, k as nat, lo as int, hi as int) == Ok::<(Seq<int>, int), Fault>(
            (v.0@.map_values(|x: i64| x as int), v.1 as int),
        ) && v.1 <= s.len(),
        r matches Err(f) ==> ints_from(s@, i as int, k as nat, lo as int, hi as int) == Err::<(Seq<int>, int), Fault>(
            f@,
        ),
{
    let mut vals: Vec<i64> = Vec::new();
    let mut p = i;
    let mut c: usize = 0;
    assert(vals@.map_values(|x: i64| x as int) =~= Seq::<int>::empty());
    while c < k
        invariant
            c <= k,
            i <= p <= s.len(),
            ints_from(s@, i as int, c as nat, lo as int, hi as int) == Ok::<(Seq<int>, int), Fault>(
                (vals@.map_values(|x: i64| x as int), p as int),
            ),
        decreases k - c,
    {
        let (v, q) = read(s, p, s.len(), lo, hi, false);
        match v {
            Ok(v) => {
                let ghost prev = vals@.map_values(|x: i64| x as int);
                vals.push(v);
                assert(vals@.map_values(|x: i64| x as int) =~= prev.push(v as int));
                p = q;
                c = c + 1;
            },
            Err(err) => {
                proof {
                    lemma_ints_from_stops(s@, i as int, c as nat, (k - c - 1) as nat, lo as int, hi as int);
                }
                return Err(err);
            },
        }
    }
    Ok((vals, p))
}

proof fn lemma_ints_from_stops(b: Seq<u8>, i: int, c: nat, extra: nat, lo: int, hi: int)
    requires
        ints_from(b, i, c + 1, lo, hi) is Err,
    ensures
        ints_from(b, i, c + 1 + extra, lo, hi) == ints_from(b, i, c + 1, lo, hi),
    decreases extra,
{
    if extra > 0 {
        lemma_ints_from_stops(b, i, c, (extra - 1) as nat, lo, hi);
    }
}

fn read_decimals(s: &[u8], i: usize, k: usize) -> (r: Result<(Vec<Decimal>, usize), ParseError>)
    requires
        i <= s.len(),
    ensures
        r is Ok <==> decimals_from(s@, i as int, k as nat) is Ok,
        r matches Ok(v) ==> decimals_from(s@, i as int, k as nat) == Ok::<(Seq<(int, int)>, int), Fault>(
            (v.0@.map_values(|d: Decimal| (d.digits as int, d.scale as int)), v.1 as int),
        ) && v.1 <= s.len(),
        r matches Err(f) ==> decimals_from(s@, i as int, k as nat) == Err::<(Seq<(int, int)>, int), Fault>(f@),
{
    let mut vals: Vec<Decimal> = Vec::new();
    let mut p = i;
    let mut c: usize = 0;
    assert(vals@.map_values(|d: Decimal| (d.digits as int, d.scale as int)) =~= Seq::<(int, int)>::empty());
    while c < k
        invariant
            c <= k,
            i <= p <= s.len(),
            decimals_from(s@, i as int, c as nat) == Ok::<(Seq<(int, int)>, int), Fault>(
                (vals@.map_values(|d: Decimal| (d.digits as int, d.scale as int)), p as int),
            ),
        decreases k - c,
    {
        let (v, q) = read_decimal(s, p, s.len());
        match v {
            Ok(v) => {
                let ghost prev = vals@.map_values(|d: Decimal| (d.digits as int, d.scale as int));
                vals.push(v);
                assert(vals@.map_values(|d: Decimal| (d.digits as int, d.scale as int)) =~= prev.push(
                    (v.digits as int, v.scale as int),
                ));
                p = q;
                c = c + 1;
            },
            Err(err) => {
                proof {
                    lemma_decimals_from_stops(s@, i as int, c as nat, (k - c - 1) as nat);
                }
                return Err(err);
            },
        }
    }
    Ok((vals, p))
}

proof fn lemma_decimals_from_stops(b: Seq<u8>, i: int, c: nat, extra: nat)
    requires
        decimals_from(b, i, c + 1) is Err,
    ensures
        decimals_from(b, i, c + 1 + extra) == decimals_from(b, i, c + 1),
    decreases extra,
{
    if extra > 0 {
        lemma_decimals_from_stops(b, i, c, (extra - 1) as nat);
    }
}

/// Reads the next token as a decimal with at most two decimals, in hundredths.
fn read_centi(s: &[u8], i: usize) -> (r: (Result<i64, ParseError>, usize))
    requires
        i <= s.len(),
    ensures
        r.1 as int == after(s@, i as int, s.len() as int),
        r.1 <= s.len(),
        r.0 matches Ok(v) ==> centi_result(tok(s@, i as int, s.len() as int)) == Ok::<int, Fault>(v as int) && 0 <= v
            <= MAX_SCALE,
        r.0 matches Err(f) ==> centi_result(tok(s@, i as int, s.len() as int)) == Err::<int, Fault>(f@),
{
    let (d, q) = read_decimal(s, i, s.len());
    match d {
        Ok(d) => {
            if d.scale > 2 || d.digits > MAX_SCALE as u64 {
                return (Err(ParseError::DecimalOutOfRange(d)), q);
            }
            let v = if d.scale == 0 {
                d.digits as i64 * 100
            } else if d.scale == 1 {
                d.digits as i64 * 10
            } else {
                d.digits as i64
            };
            if v > MAX_SCALE {
                (Err(ParseError::DecimalOutOfRange(d)), q)
            } else {
                (Ok(v), q)
            }
        },
        Err(err) => (Err(err), q),
    }
}

/// The numbers an instance text writes, in order.
pub ghost struct Fields {
    pub n: int,
    pub m: int,
    pub eps: int,
    pub delta: int,
    pub s: Seq<int>,
    pub ps: Seq<int>,
    pub walls: Seq<int>,
    pub alphas: Seq<(int, int)>,
    pub fs: Seq<int>,
}

/// What the instance text `b` writes: the counts of targets and walls (each
/// at most `MAX_N`), the two noise scales, the start, the targets and the
/// walls (coordinates within the arena), `MAX_T` probe-noise factors and
/// `MAX_T` perturbations (within the arena's range); or the fault of the first
/// token that is missing or does not read.
pub open spec fn fields_of(b: Seq<u8>) -> Result<Fields, Fault> {
    let l = b.len() as int;
    let a = AREA as int;
    let at_m = after(b, 0, l);
    let at_eps = after(b, at_m, l);
    let at_delta = after(b, at_eps, l);
    let at_s = after(b, at_delta, l);
    let nr = read_result(tok(b, 0, l), 0, MAX_N as int, true);
    let mr = read_result(tok(b, at_m, l), 0, MAX_N as int, true);
    let er = centi_result(tok(b, at_eps, l));
    let dr = centi_result(tok(b, at_delta, l));
    if nr is Err {
        Err(nr->Err_0)
    } else if mr is Err {
        Err(mr->Err_0)
    } else if er is Err {
        Err(er->Err_0)
    } else if dr is Err {
        Err(dr->Err_0)
    } else {
        let n = nr->Ok_0;
        let m = mr->Ok_0;
        match ints_from(b, at_s, 2, -a, a) {
            Ok(sv) => match ints_from(b, sv.1, (2 * n) as nat, -a, a) {
                Ok(pv) => match ints_from(b, pv.1, (4 * m) as nat, -a, a) {
                    Ok(wv) => match decimals_from(b, wv.1, MAX_T as nat) {
                        Ok(av) => match ints_from(b, av.1, (2 * MAX_T) as nat, -a, a) {
                            Ok(fv) => Ok(
                                Fields {
                                    n,
                                    m,
                                    eps: er->Ok_0,
                                    delta: dr->Ok_0,
                                    s: sv.0,
                                    ps: pv.0,
                                    walls: wv.0,
                                    alphas: av.0,
                                    fs: fv.0,
                                },
                            ),
                            Err(f) => Err(f),
                        },
                        Err(f) => Err(f),
                    },
                    Err(f) => Err(f),
                },
                Err(f) => Err(f),
            },
            Err(f) => Err(f),
        }
    }
}

/// `inp` holds the numbers `f`.
pub open spec fn holds_fields(inp: Input, f: Fields) -> bool {
    &&& inp.eps == f.eps
    &&& inp.delta == f.delta
    &&& inp.s.0 == f.s[0] && inp.s.1 == f.s[1]
    &&& inp.ps.len() == f.n
    &&& forall|j: int| 0 <= j < f.n ==> (#[trigger] inp.ps@[j]).0 == f.ps[2 * j] && inp.ps@[j].1 == f.ps[2 * j + 1]
    &&& inp.walls.len() == f.m
    &&& forall|j: int|
        0 <= j < f.m ==> (#[trigger] inp.walls@[j]).0 == f.walls[4 * j] && inp.walls@[j].1 == f.walls[4 * j + 1]
            && inp.walls@[j].2 == f.walls[4 * j + 2] && inp.walls@[j].3 == f.walls[4 * j + 3]
    &&& inp.alphas.len() == MAX_T
    &&& forall|j: int|
        0 <= j < MAX_T ==> ((#[trigger] inp.alphas@[j]).digits as int, inp.alphas@[j].scale as int) == f.alphas[j]
    &&& inp.fs.len() == MAX_T
    &&& forall|j: int| 0 <= j < MAX_T ==> (#[trigger] inp.fs@[j]).0 == f.fs[2 * j] && inp.fs@[j].1 == f.fs[2 * j + 1]
}

proof fn lemma_decimals_len(b: Seq<u8>, i: int, k: nat)
    requires
        decimals_from(b, i, k) is Ok,
    ensures
        decimals_from(b, i, k) matches Ok(r) && r.0.len() == k && forall|j: int|
            0 <= j < k ==> (#[trigger] r.0[j]).0 <= crate::text::MAX_DIGITS_VALUE && r.0[j].1 <= 40,
    decreases k,
{
    if k > 0 {
        lemma_decimals_len(b, i, (k - 1) as nat);
    }
}

pub open spec fn ints_values(b: Seq<u8>, i: int, k: nat, lo: int, hi: int) -> Seq<int> {
    match ints_from(b, i, k, lo, hi) {
        Ok(r) => r.0,
        Err(_) => Seq::empty(),
    }
}

proof fn lemma_ints_from_facts(b: Seq<u8>, i: int, k: nat, lo: int, hi: int)
    requires
        ints_from(b, i, k, lo, hi) is Ok,
    ensures
        ints_values(b, i, k, lo, hi).len() == k,
        forall|j: int| 0 <= j < k ==> lo <= #[trigger] ints_values(b, i, k, lo, hi)[j] <= hi,
    decreases k,
{
    if k > 0 {
        lemma_ints_from_facts(b, i, (k - 1) as nat, lo, hi);
    }
}

fn to_pairs(v: &Vec<i64>, k: usize) -> (r: Vec<(i64, i64)>)
    requires
        v.len() == 2 * k,
    ensures
        r.len() == k,
        forall|j: int| 0 <= j < k ==> (#[trigger] r@[j]).0 == v@[2 * j] && r@[j].1 == v@[2 * j + 1],
{
    let mut r: Vec<(i64, i64)> = Vec::new();
    let mut j: usize = 0;
    while j < k
        invariant
            j <= k,
            v.len() == 2 * k,
            r.len() == j,
            forall|q: int| 0 <= q < j ==> (#[trigger] r@[q]).0 == v@[2 * q] && r@[q].1 == v@[2 * q + 1],
        decreases k - j,
    {
        r.push((v[2 * j], v[2 * j + 1]));
        j = j + 1;
    }
    r
}

fn to_quads(v: &Vec<i64>, k: usize) -> (r: Vec<(i64, i64, i64, i64)>)
    requires
        v.len() == 4 * k,
    ensures
        r.len() == k,
        forall|j: int|
            0 <= j < k ==> (#[trigger] r@[j]).0 == v@[4 * j] && r@[j].1 == v@[4 * j + 1] && r@[j].2 == v@[4 * j + 2]
                && r@[j].3 == v@[4 * j + 3],
{
    let mut r: Vec<(i64, i64, i64, i64)> = Vec::new();
    let mut j: usize = 0;
    while j < k
        invariant
            j <= k,
            v.len() == 4 * k,
            r.len() == j,
            forall|q: int|
                0 <= q < j ==> (#[trigger] r@[q]).0 == v@[4 * q] && r@[q].1 == v@[4 * q + 1] && r@[q].2 == v@[4
                    * q + 2] && r@[q].3 == v@[4 * q + 3],
        decreases k - j,
    {
        r.push((v[4 * j], v[4 * j + 1], v[4 * j + 2], v[4 * j + 3]));
        j = j + 1;
    }
    r
}

/// Reads an instance text: see [`fields_of`] for what it must hold.
pub fn parse_input(f: &str) -> (r: Result<Input, ParseError>)
    ensures
        r is Ok <==> fields_of(f.spec_bytes()) is Ok,
        r matches Ok(inp) ==> inp.wf() && holds_fields(inp, fields_of(f.spec_bytes())->Ok_0),
        r matches Err(err) ==> fields_of(f.spec_bytes()) == Err::<Fields, Fault>(err@),
{
    let s = f.as_bytes();
    let l = s.len();
    let ghost b = s@;
    let (n, at_m) = read(s, 0, l, 0, MAX_N as i64, true);
    let (m, at_eps) = read(s, at_m, l, 0, MAX_N as i64, true);
    let (eps, at_delta) = read_centi(s, at_eps);
    let (delta, at_s) = read_centi(s, at_delta);
    let n = match n {
        Ok(n) => n as usize,
        Err(e) => {
            return Err(e);
        },
    };
    let m = match m {
        Ok(m) => m as usize,
        Err(e) => {
            return Err(e);
        },
    };
    let eps = match eps {
        Ok(x) => x,
        Err(e) => {
            return Err(e);
        },
    };
    let delta = match delta {
        Ok(x) => x,
        Err(e) => {
            return Err(e);
        },
    };
    let (sv, at_ps) = match read_ints(s, at_s, 2, -AREA, AREA) {
        Ok(x) => x,
        Err(e) => {
            return Err(e);
        },
    };
    let (pv, at_walls) = match read_ints(s, at_ps, 2 * n, -AREA, AREA) {
        Ok(x) => x,
        Err(e) => {
            return Err(e);
        },
    };
    let (wv, at_alphas) = match read_ints(s, at_walls, 4 * m, -AREA, AREA) {
        Ok(x) => x,
        Err(e) => {
            return Err(e);
        },
    };
    let (alphas, at_fs) = match read_decimals(s, at_alphas, MAX_T) {
        Ok(x) => x,
        Err(e) => {
            return Err(e);
        },
    };
    let (fv, _) = match read_ints(s, at_fs, 2 * MAX_T, -AREA, AREA) {
        Ok(x) => x,
        Err(e) => {
            return Err(e);
        },
    };
    proof {
        let a = AREA as int;
        lemma_ints_from_facts(b, at_s as int, 2, -a, a);
        lemma_ints_from_facts(b, at_ps as int, (2 * n) as nat, -a, a);
        lemma_ints_from_facts(b, at_walls as int, (4 * m) as nat, -a, a);
        lemma_ints_from_facts(b, at_fs as int, (2 * MAX_T) as nat, -a, a);
        assert(forall|j: int| 0 <= j < pv.len() ==> #[trigger] pv@[j] as int == ints_values(b, at_ps as int, (2 * n) as nat, -a, a)[j]);
        assert(forall|j: int| 0 <= j < wv.len() ==> #[trigger] wv@[j] as int == ints_values(b, at_walls as int, (4 * m) as nat, -a, a)[j]);
        assert(forall|j: int| 0 <= j < fv.len() ==> #[trigger] fv@[j] as int == ints_values(b, at_fs as int, (2 * MAX_T) as nat, -a, a)[j]);
        assert(forall|j: int| 0 <= j < sv.len() ==> #[trigger] sv@[j] as int == ints_values(b, at_s as int, 2, -a, a)[j]);
    }
    let ps = to_pairs(&pv, n);
    let walls = to_quads(&wv, m);
    let fs = to_pairs(&fv, MAX_T);
    let inp = Input { eps, delta, s: (sv[0], sv[1]), ps, walls, fs, alphas };
    proof {
        let a = AREA as int;
        assert forall|j: int| 0 <= j < inp.ps.len() implies crate::model::in_arena(#[trigger] crate::model::pair(inp.ps@[j])) by {
            assert(-a <= ints_values(b, at_ps as int, (2 * n) as nat, -a, a)[2 * j] <= a);
            assert(-a <= ints_values(b, at_ps as int, (2 * n) as nat, -a, a)[2 * j + 1] <= a);
        }
        assert forall|j: int| 0 <= j < inp.fs.len() implies crate::model::in_arena(#[trigger] crate::model::pair(inp.fs@[j])) by {
            assert(-a <= ints_values(b, at_fs as int, (2 * MAX_T) as nat, -a, a)[2 * j] <= a);
            assert(-a <= ints_values(b, at_fs as int, (2 * MAX_T) as nat, -a, a)[2 * j + 1] <= a);
        }
        assert forall|j: int| 0 <= j < inp.walls.len() implies crate::model::in_arena(
            (#[trigger] inp.walls@[j].0 as int, inp.walls@[j].1 as int),
        ) && crate::model::in_arena((inp.walls@[j].2 as int, inp.walls@[j].3 as int)) by {
            assert(-a <= ints_values(b, at_walls as int, (4 * m) as nat, -a, a)[4 * j] <= a);
            assert(-a <= ints_values(b, at_walls as int, (4 * m) as nat, -a, a)[4 * j + 1] <= a);
            assert(-a <= ints_values(b, at_walls as int, (4 * m) as nat, -a, a)[4 * j + 2] <= a);
            assert(-a <= ints_values(b, at_walls as int, (4 * m) as nat, -a, a)[4 * j + 3] <= a);
        }
        assert(-a <= ints_values(b, at_s as int, 2, -a, a)[0] <= a);
        assert(-a <= ints_values(b, at_s as int, 2, -a, a)[1] <= a);
        lemma_decimals_len(b, at_alphas as int, MAX_T as nat);
        let av = alphas@.map_values(|d: Decimal| (d.digits as int, d.scale as int));
        assert forall|j: int| 0 <= j < inp.alphas.len() implies (#[trigger] inp.alphas@[j]).digits
            <= crate::text::MAX_DIGITS_VALUE && inp.alphas@[j].scale <= 40 by {
            assert(av[j] == (inp.alphas@[j].digits as int, inp.alphas@[j].scale as int));
        }
        assert(alphas@.map_values(|d: Decimal| (d.digits as int, d.scale as int)).len() == MAX_T);
        assert(inp.alphas.len() == MAX_T);
        assert(crate::model::in_arena(crate::model::pair(inp.s)));
        assert(inp.fs.len() == MAX_T);
    }
    Ok(inp)
}

} // verus!
