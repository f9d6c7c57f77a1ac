//! The text form of an instance.
use vstd::prelude::*;
use crate::model::{Decimal, Input};
use crate::parse_out::pow10;
use crate::text::{all_digits, decimal_of, digit_run, digits_value, int_of, is_digit, lemma_digit_run};

verus! {

/// The decimal digits of `n`, most significant first.
pub open spec fn digits_of(n: nat) -> Seq<u8>
    decreases n,
{
    if n < 10 {
        seq![(48 + n) as u8]
    } else {
        digits_of(n / 10).push((48 + n % 10) as u8)
    }
}

/// `x` in decimal, with a leading `-` when negative.
pub open spec fn int_text(x: int) -> Seq<u8> {
    if x < 0 {
        seq![45u8] + digits_of((-x) as nat)
    } else {
        digits_of(x as nat)
    }
}

/// The decimal `digits / 10^scale` written with exactly `scale` decimals.
pub open spec fn decimal_text(digits: nat, scale: nat) -> Seq<u8> {
    let ds = digits_of(digits);
    if scale == 0 {
        ds
    } else if ds.len() > scale {
        ds.take(ds.len() - scale) + seq![46u8] + ds.skip(ds.len() - scale)
    } else {
        seq![48u8, 46u8] + Seq::new((scale - ds.len()) as nat, |i: int| 48u8) + ds
    }
}

/// A non-negative number of hundredths written with two decimals.
pub open spec fn centi_text(v: nat) -> Seq<u8> {
    digits_of(v / 100) + seq![46u8, (48 + (v % 100) / 10) as u8, (48 + v % 10) as u8]
}

proof fn lemma_digits_ascii(n: nat)
    ensures
        digits_of(n).len() >= 1,
        forall|i: int| 0 <= i < digits_of(n).len() ==> 48 <= #[trigger] digits_of(n)[i] <= 57,
    decreases n,
{
    if n >= 10 {
        lemma_digits_ascii(n / 10);
    }
}

/// Appends the digits of `n`.
fn push_digits(buf: &mut Vec<u8>, n: u64)
    ensures
        final(buf)@ == old(buf)@ + digits_of(n as nat),
    decreases n,
{
    if n >= 10 {
        push_digits(buf, n / 10);
    }
    buf.push((48 + n % 10) as u8);
    proof {
        if n >= 10 {
            assert(digits_of(n as nat) == digits_of((n / 10) as nat).push((48 + n % 10) as u8));
        }
    }
}

/// Appends `x` in decimal.
pub fn push_int(buf: &mut Vec<u8>, x: i64)
    ensures
        final(buf)@ == old(buf)@ + int_text(x as int),
{
    if x < 0 {
        buf.push(45);
        let m: u64 = if x == i64::MIN { 0x8000000000000000 } else { (-x) as u64 };
        push_digits(buf, m);
    } else {
        push_digits(buf, x as u64);
    }
}

/// Appends `d` written with exactly its scale of decimals.
pub fn push_decimal(buf: &mut Vec<u8>, d: Decimal)
    ensures
        final(buf)@ == old(buf)@ + decimal_text(d.digits as nat, d.scale as nat),
{
    let mut ds: Vec<u8> = Vec::new();
    push_digits(&mut ds, d.digits);
    assert(ds@ =~= digits_of(d.digits as nat));
    let sc = d.scale as usize;
    let ghost b0 = buf@;
    if sc == 0 {
        append_all(buf, &ds, 0, ds.len());
        assert(ds@.subrange(0, ds.len() as int) =~= ds@);
    } else if ds.len() > sc {
        let cut = ds.len() - sc;
        append_all(buf, &ds, 0, cut);
        buf.push(46);
        append_all(buf, &ds, cut, ds.len());
        assert(buf@ =~= b0 + (ds@.take(cut as int) + seq![46u8] + ds@.skip(cut as int)));
    } else {
        buf.push(48);
        buf.push(46);
        let mut k: usize = ds.len();
        while k < sc
            invariant
                ds.len() <= k <= sc,
                buf@ == b0 + seq![48u8, 46u8] + Seq::new((k - ds.len()) as nat, |i: int| 48u8),
            decreases sc - k,
        {
            buf.push(48);
            k = k + 1;
            assert(buf@ =~= b0 + seq![48u8, 46u8] + Seq::new((k - ds.len()) as nat, |i: int| 48u8));
        }
        append_all(buf, &ds, 0, ds.len());
        assert(ds@.subrange(0, ds.len() as int) =~= ds@);
    }
}

/// Appends `src[a..b]`.
fn append_all(buf: &mut Vec<u8>, src: &Vec<u8>, a: usize, b: usize)
    requires
        a <= b <= src.len(),
    ensures
        final(buf)@ == old(buf)@ + src@.subrange(a as int, b as int),
{
    let ghost b0 = buf@;
    let mut k = a;
    while k < b
        invariant
            a <= k <= b <= src.len(),
            buf@ == b0 + src@.subrange(a as int, k as int),
        decreases b - k,
    {
        buf.push(src[k]);
        k = k + 1;
        assert(buf@ =~= b0 + src@.subrange(a as int, k as int));
    }
}

/// Appends the non-negative number of hundredths `v` with two decimals.
pub fn push_centi(buf: &mut Vec<u8>, v: u64)
    ensures
        final(buf)@ == old(buf)@ + centi_text(v as nat),
{
    let ghost b0 = buf@;
    push_digits(buf, v / 100);
    buf.push(46);
    buf.push((48 + (v % 100) / 10) as u8);
    buf.push((48 + v % 10) as u8);
    assert(buf@ =~= b0 + centi_text(v as nat));
}

pub open spec fn ascii(s: Seq<u8>) -> bool {
    forall|i: int| 0 <= i < s.len() ==> #[trigger] s[i] < 128
}

proof fn lemma_texts_ascii(x: int, d: nat, sc: nat, v: nat)
    ensures
        ascii(int_text(x)),
        ascii(decimal_text(d, sc)),
        ascii(centi_text(v)),
{
    lemma_digits_ascii(if x < 0 { (-x) as nat } else { x as nat });
    lemma_digits_ascii(d);
    lemma_digits_ascii(v / 100);
    let ds = digits_of(d);
    if sc > 0 && ds.len() > sc {
        let t = ds.take(ds.len() - sc) + seq![46u8] + ds.skip(ds.len() - sc);
        assert forall|i: int| 0 <= i < t.len() implies #[trigger] t[i] < 128 by {
            if i < ds.len() - sc {
                assert(t[i] == ds[i]);
            } else if i > ds.len() - sc {
                assert(t[i] == ds[i - 1]);
            }
        }
    }
    if x < 0 {
        let t = seq![45u8] + digits_of((-x) as nat);
        assert forall|i: int| 0 <= i < t.len() implies #[trigger] t[i] < 128 by {
            if i > 0 {
                assert(t[i] == digits_of((-x) as nat)[i - 1]);
            }
        }
    }
    let c = digits_of(v / 100) + seq![46u8, (48 + (v % 100) / 10) as u8, (48 + v % 10) as u8];
    assert forall|i: int| 0 <= i < c.len() implies #[trigger] c[i] < 128 by {
        if i < digits_of(v / 100).len() {
            assert(c[i] == digits_of(v / 100)[i]);
        }
    }
    if sc > 0 && ds.len() <= sc {
        let t = seq![48u8, 46u8] + Seq::new((sc - ds.len()) as nat, |i: int| 48u8) + ds;
        assert forall|i: int| 0 <= i < t.len() implies #[trigger] t[i] < 128 by {
            if i >= 2 + (sc - ds.len()) {
                assert(t[i] == ds[i - 2 - (sc - ds.len())]);
            }
        }
    }
}

proof fn lemma_ascii_concat(a: Seq<u8>, b: Seq<u8>)
    requires
        ascii(a),
        ascii(b),
    ensures
        ascii(a + b),
{
    assert forall|i: int| 0 <= i < (a + b).len() implies #[trigger] (a + b)[i] < 128 by {
        if i >= a.len() {
            assert((a + b)[i] == b[i - a.len()]);
        }
    }
}

/// Relies on std's `String::from_utf8`: ASCII bytes are valid UTF-8, and each
/// stands for the char with its code.
#[verifier::external_body]
fn ascii_string(v: Vec<u8>) -> (r: String)
    requires
        ascii(v@),
    ensures
        r@ == v@.map_values(|b: u8| b as char),
{
    String::from_utf8(v).unwrap_or_default()
}

pub open spec fn pair_line(p: (i64, i64)) -> Seq<u8> {
    int_text(p.0 as int) + seq![32u8] + int_text(p.1 as int) + seq![10u8]
}

pub open spec fn pair_lines(ps: Seq<(i64, i64)>) -> Seq<u8>
    decreases ps.len(),
{
    if ps.len() == 0 {
        Seq::empty()
    } else {
        pair_lines(ps.drop_last()) + pair_line(ps.last())
    }
}

pub open spec fn wall_line(w: (i64, i64, i64, i64)) -> Seq<u8> {
    int_text(w.0 as int) + seq![32u8] + int_text(w.1 as int) + seq![32u8] + int_text(w.2 as int) + seq![32u8]
        + int_text(w.3 as int) + seq![10u8]
}

pub open spec fn wall_lines(ws: Seq<(i64, i64, i64, i64)>) -> Seq<u8>
    decreases ws.len(),
{
    if ws.len() == 0 {
        Seq::empty()
    } else {
        wall_lines(ws.drop_last()) + wall_line(ws.last())
    }
}

pub open spec fn decimal_lines(ds: Seq<Decimal>) -> Seq<u8>
    decreases ds.len(),
{
    if ds.len() == 0 {
        Seq::empty()
    } else {
        decimal_lines(ds.drop_last()) + decimal_text(ds.last().digits as nat, ds.last().scale as nat) + seq![10u8]
    }
}

/// The text of an instance: a header with the counts of targets and walls and
/// the two noise scales with two decimals, then one line for the start, for
/// each target, for each wall, for each probe-noise factor and for each
/// perturbation.
pub open spec fn input_text(inp: Input) -> Seq<u8> {
    int_text(inp.ps.len() as int) + seq![32u8] + int_text(inp.walls.len() as int) + seq![32u8] + centi_text(
        inp.eps as nat,
    ) + seq![32u8] + centi_text(inp.delta as nat) + seq![10u8] + pair_line(inp.s) + pair_lines(inp.ps@)
        + wall_lines(inp.walls@) + decimal_lines(inp.alphas@) + pair_lines(inp.fs@)
}

fn push_pair_line(buf: &mut Vec<u8>, p: (i64, i64))
    requires
        ascii(old(buf)@),
    ensures
        final(buf)@ == old(buf)@ + pair_line(p),
        ascii(final(buf)@),
{
    let ghost b0 = buf@;
    push_int(buf, p.0);
    buf.push(32);
    push_int(buf, p.1);
    buf.push(10);
    assert(buf@ =~= b0 + pair_line(p));
    proof {
        lemma_texts_ascii(p.0 as int, 0, 0, 0);
        lemma_texts_ascii(p.1 as int, 0, 0, 0);
        lemma_ascii_concat(int_text(p.0 as int), seq![32u8]);
        lemma_ascii_concat(int_text(p.0 as int) + seq![32u8], int_text(p.1 as int));
        lemma_ascii_concat(int_text(p.0 as int) + seq![32u8] + int_text(p.1 as int), seq![10u8]);
        lemma_ascii_concat(b0, pair_line(p));
    }
}

fn push_pair_lines(buf: &mut Vec<u8>, ps: &Vec<(i64, i64)>)
    requires
        ascii(old(buf)@),
    ensures
        final(buf)@ == old(buf)@ + pair_lines(ps@),
        ascii(final(buf)@),
{
    let ghost b0 = buf@;
    let mut i: usize = 0;
    assert(ps@.take(0) =~= Seq::<(i64, i64)>::empty());
    while i < ps.len()
        invariant
            i <= ps.len(),
            buf@ == b0 + pair_lines(ps@.take(i as int)),
            ascii(buf@),
        decreases ps.len() - i,
    {
        push_pair_line(buf, ps[i]);
        assert(ps@.take(i + 1).drop_last() =~= ps@.take(i as int));
        assert(buf@ =~= b0 + pair_lines(ps@.take(i + 1)));
        i = i + 1;
    }
    assert(ps@.take(ps.len() as int) =~= ps@);
}

fn push_wall_lines(buf: &mut Vec<u8>, ws: &Vec<(i64, i64, i64, i64)>)
    requires
        ascii(old(buf)@),
    ensures
        final(buf)@ == old(buf)@ + wall_lines(ws@),
        ascii(final(buf)@),
{
    let ghost b0 = buf@;
    let mut i: usize = 0;
    assert(ws@.take(0) =~= Seq::<(i64, i64, i64, i64)>::empty());
    while i < ws.len()
        invariant
            i <= ws.len(),
            buf@ == b0 + wall_lines(ws@.take(i as int)),
            ascii(buf@),
        decreases ws.len() - i,
    {
        let w = ws[i];
        let ghost b1 = buf@;
        push_int(buf, w.0);
        buf.push(32);
        push_int(buf, w.1);
        buf.push(32);
        push_int(buf, w.2);
        buf.push(32);
        push_int(buf, w.3);
        buf.push(10);
        proof {
            assert(buf@ =~= b1 + wall_line(w));
            lemma_texts_ascii(w.0 as int, 0, 0, 0);
            lemma_texts_ascii(w.1 as int, 0, 0, 0);
            lemma_texts_ascii(w.2 as int, 0, 0, 0);
            lemma_texts_ascii(w.3 as int, 0, 0, 0);
            let sp = seq![32u8];
            lemma_ascii_concat(b1, int_text(w.0 as int));
            lemma_ascii_concat(b1 + int_text(w.0 as int), sp);
            lemma_ascii_concat(b1 + int_text(w.0 as int) + sp, int_text(w.1 as int));
            lemma_ascii_concat(b1 + int_text(w.0 as int) + sp + int_text(w.1 as int), sp);
            lemma_ascii_concat(b1 + int_text(w.0 as int) + sp + int_text(w.1 as int) + sp, int_text(w.2 as int));
            lemma_ascii_concat(b1 + int_text(w.0 as int) + sp + int_text(w.1 as int) + sp + int_text(w.2 as int), sp);
            lemma_ascii_concat(
                b1 + int_text(w.0 as int) + sp + int_text(w.1 as int) + sp + int_text(w.2 as int) + sp,
                int_text(w.3 as int),
            );
            lemma_ascii_concat(
                b1 + int_text(w.0 as int) + sp + int_text(w.1 as int) + sp + int_text(w.2 as int) + sp + int_text(
                    w.3 as int,
                ),
                seq![10u8],
            );
            assert(b1 + wall_line(w) =~= b1 + int_text(w.0 as int) + sp + int_text(w.1 as int) + sp + int_text(
                w.2 as int,
            ) + sp + int_text(w.3 as int) + seq![10u8]);
            assert(ws@.take(i + 1).drop_last() =~= ws@.take(i as int));
            assert(buf@ =~= b0 + wall_lines(ws@.take(i + 1)));
        }
        i = i + 1;
    }
    assert(ws@.take(ws.len() as int) =~= ws@);
}

fn push_decimal_lines(buf: &mut Vec<u8>, ds: &Vec<Decimal>)
    requires
        ascii(old(buf)@),
    ensures
        final(buf)@ == old(buf)@ + decimal_lines(ds@),
        ascii(final(buf)@),
{
    let ghost b0 = buf@;
    let mut i: usize = 0;
    assert(ds@.take(0) =~= Seq::<Decimal>::empty());
    while i < ds.len()
        invariant
            i <= ds.len(),
            buf@ == b0 + decimal_lines(ds@.take(i as int)),
            ascii(buf@),
        decreases ds.len() - i,
    {
        let d = ds[i];
        let ghost b1 = buf@;
        push_decimal(buf, d);
        buf.push(10);
        proof {
            let t = decimal_text(d.digits as nat, d.scale as nat);
            lemma_texts_ascii(0, d.digits as nat, d.scale as nat, 0);
            lemma_ascii_concat(b1, t);
            lemma_ascii_concat(b1 + t, seq![10u8]);
            assert(buf@ =~= b1 + t + seq![10u8]);
            assert(ds@.take(i + 1).drop_last() =~= ds@.take(i as int));
            assert(buf@ =~= b0 + decimal_lines(ds@.take(i + 1)));
        }
        i = i + 1;
    }
    assert(ds@.take(ds.len() as int) =~= ds@);
}

impl Input {
    /// The text of the instance; see [`input_text`].
    pub fn to_text(&self) -> (r: String)
        requires
            self.wf(),
        ensures
            r@ == input_text(*self).map_values(|b: u8| b as char),
    {
        let mut buf: Vec<u8> = Vec::new();
        push_int(&mut buf, self.ps.len() as i64);
        buf.push(32);
        push_int(&mut buf, self.walls.len() as i64);
        buf.push(32);
        push_centi(&mut buf, self.eps as u64);
        buf.push(32);
        push_centi(&mut buf, self.delta as u64);
        buf.push(10);
        proof {
            let sp = seq![32u8];
            lemma_texts_ascii(self.ps.len() as int, 0, 0, self.eps as nat);
            lemma_texts_ascii(self.walls.len() as int, 0, 0, self.delta as nat);
            let h1 = int_text(self.ps.len() as int);
            let h2 = int_text(self.walls.len() as int);
            let h3 = centi_text(self.eps as nat);
            let h4 = centi_text(self.delta as nat);
            lemma_ascii_concat(h1, sp);
            lemma_ascii_concat(h1 + sp, h2);
            lemma_ascii_concat(h1 + sp + h2, sp);
            lemma_ascii_concat(h1 + sp + h2 + sp, h3);
            lemma_ascii_concat(h1 + sp + h2 + sp + h3, sp);
            lemma_ascii_concat(h1 + sp + h2 + sp + h3 + sp, h4);
            lemma_ascii_concat(h1 + sp + h2 + sp + h3 + sp + h4, seq![10u8]);
            assert(buf@ =~= h1 + sp + h2 + sp + h3 + sp + h4 + seq![10u8]);
        }
        push_pair_line(&mut buf, self.s);
        push_pair_lines(&mut buf, &self.ps);
        push_wall_lines(&mut buf, &self.walls);
        push_decimal_lines(&mut buf, &self.alphas);
        push_pair_lines(&mut buf, &self.fs);
        ascii_string(buf)
    }
}

proof fn lemma_digits_value_of(n: nat)
    ensures
        all_digits(digits_of(n)),
        digits_value(digits_of(n)) == n,
    decreases n,
{
    lemma_digits_ascii(n);
    let t = digits_of(n);
    if n >= 10 {
        lemma_digits_value_of(n / 10);
        assert(t.drop_last() =~= digits_of(n / 10));
        assert(t.last() == (48 + n % 10) as u8);
        assert(t.last() - 48 == n % 10);
        assert(digits_value(t) == digits_value(t.drop_last()) * 10 + (t.last() - 48));
        assert(n == (n / 10) * 10 + n % 10);
    } else {
        assert(t.drop_last() =~= Seq::<u8>::empty());
        assert(digits_value(t) == digits_value(t.drop_last()) * 10 + (t.last() - 48));
    }
}

/// An integer written by `to_text` reads back as itself.
pub proof fn lemma_int_round_trip(x: int)
    ensures
        int_of(int_text(x), false) == Some(x),
{
    let m: nat = if x < 0 { (-x) as nat } else { x as nat };
    lemma_digits_value_of(m);
    lemma_digits_ascii(m);
    let t = int_text(x);
    if x < 0 {
        assert(t.drop_first() =~= digits_of(m));
    } else {
        assert(is_digit(t[0]));
    }
}

/// A noise scale written by `to_text` with two decimals reads back as the
/// same number of hundredths.
pub proof fn lemma_centi_round_trip(v: nat)
    ensures
        decimal_of(centi_text(v)) == Some((v as int, 2int)),
{
    let h = digits_of(v / 100);
    lemma_digits_value_of(v / 100);
    lemma_digits_ascii(v / 100);
    let t = centi_text(v);
    let k = h.len() as int;
    assert(forall|j: int| 0 <= j < k ==> #[trigger] t[j] == h[j]);
    assert(forall|j: int| 0 <= j < k ==> is_digit(#[trigger] t[j]));
    lemma_digit_run(t, 0, k);
    assert(t[k] == 46);
    assert(digit_run(t, k) == 0);
    lemma_digit_run(t, k + 1, k + 3);
    assert(digit_run(t, k + 3) == 0);
    let u = t.take(k) + t.skip(k + 1);
    assert(t.take(k) =~= h);
    assert(u.drop_last().drop_last() =~= h);
    assert(u.last() == (48 + v % 10) as u8);
    assert(u.drop_last().last() == (48 + (v % 100) / 10) as u8);
    assert(u.last() - 48 == v % 10);
    assert(u.drop_last().last() - 48 == (v % 100) / 10);
    assert(digits_value(u.drop_last()) == digits_value(u.drop_last().drop_last()) * 10 + (u.drop_last().last()
        - 48));
    assert(digits_value(u) == digits_value(u.drop_last()) * 10 + (u.last() - 48));
    assert(digits_value(u) == (digits_value(h) * 10 + (v % 100) / 10) * 10 + v % 10);
    assert((v / 100 * 10 + (v % 100) / 10) * 10 + v % 10 == v) by (nonlinear_arith);
}

proof fn lemma_digits_value_concat(a: Seq<u8>, b: Seq<u8>)
    ensures
        digits_value(a + b) == digits_value(a) * pow10(b.len()) + digits_value(b),
    decreases b.len(),
{
    if b.len() == 0 {
        assert(a + b =~= a);
    } else {
        let b1 = b.drop_last();
        lemma_digits_value_concat(a, b1);
        assert((a + b).drop_last() =~= a + b1);
        assert((a + b).last() == b.last());
        let x = digits_value(a);
        let p = pow10(b1.len());
        let y = digits_value(b1);
        let z = b.last() - 48;
        assert((x * p + y) * 10 + z == x * (10 * p) + (y * 10 + z)) by (nonlinear_arith);
    }
}

proof fn lemma_zeros_value(k: nat)
    ensures
        digits_value(Seq::new(k, |i: int| 48u8)) == 0,
    decreases k,
{
    if k > 0 {
        lemma_zeros_value((k - 1) as nat);
        assert(Seq::new(k, |i: int| 48u8).drop_last() =~= Seq::new((k - 1) as nat, |i: int| 48u8));
    }
}

/// A probe-noise factor written by `to_text` reads back as the same digits
/// and scale.
pub proof fn lemma_decimal_round_trip(digits: nat, scale: nat)
    ensures
        decimal_of(decimal_text(digits, scale)) == Some((digits as int, scale as int)),
{
    let ds = digits_of(digits);
    lemma_digits_value_of(digits);
    lemma_digits_ascii(digits);
    let l = ds.len() as int;
    let t = decimal_text(digits, scale);
    if scale == 0 {
        lemma_digit_run(t, 0, l);
        assert(digit_run(t, l) == 0);
    } else if l > scale {
        let k = l - scale;
        assert(forall|j: int| 0 <= j < k ==> #[trigger] t[j] == ds[j]);
        assert(forall|j: int| k < j < t.len() ==> #[trigger] t[j] == ds[j - 1]);
        assert(forall|j: int| 0 <= j < k ==> is_digit(#[trigger] t[j]));
        assert(forall|j: int| k < j < t.len() ==> is_digit(#[trigger] t[j]));
        lemma_digit_run(t, 0, k);
        assert(t[k] == 46);
        assert(digit_run(t, k) == 0);
        lemma_digit_run(t, k + 1, t.len() as int);
        assert(digit_run(t, t.len() as int) == 0);
        assert(t.take(k) + t.skip(k + 1) =~= ds);
    } else {
        let z = Seq::new((scale - l) as nat, |i: int| 48u8);
        assert(t =~= seq![48u8, 46u8] + z + ds);
        assert(forall|j: int| 2 <= j < t.len() ==> is_digit(#[trigger] t[j])) by {
            assert forall|j: int| 2 <= j < t.len() implies is_digit(#[trigger] t[j]) by {
                if j >= 2 + z.len() {
                    assert(t[j] == ds[j - 2 - z.len()]);
                }
            }
        }
        assert(is_digit(t[0]));
        lemma_digit_run(t, 0, 1);
        assert(digit_run(t, 1) == 0);
        lemma_digit_run(t, 2, t.len() as int);
        assert(digit_run(t, t.len() as int) == 0);
        let u = t.take(1) + t.skip(2);
        assert(u =~= (seq![48u8] + z) + ds);
        lemma_digits_value_concat(seq![48u8] + z, ds);
        assert(seq![48u8] + z =~= Seq::new((scale - l + 1) as nat, |i: int| 48u8));
        lemma_zeros_value((scale - l + 1) as nat);
    }
}

} // verus!
