//! Whitespace-separated tokens and range-checked numbers, read from bytes.
use vstd::prelude::*;
use crate::model::Decimal;

verus! {

/// A reason why a text could not be read.
#[derive(Debug)]
pub enum ParseError {
    /// A token was expected and the line or the text had ended.
    UnexpectedEof,
    /// This token is not a number of the expected kind.
    NotANumber(Vec<u8>),
    /// This number lies outside its allowed range.
    OutOfRange(i64),
    /// This decimal lies outside its allowed range.
    DecimalOutOfRange(Decimal),
    /// This action tag lies outside `'A'..'Z'`.
    TagOutOfRange(char),
    /// This action tag is neither `A` nor `S`.
    InvalidAction(char),
    /// This action vector is too long, or is a zero probe direction.
    VectorOutOfRange(i64, i64),
    /// A comment line whose first token names no known annotation.
    InvalidComment(Vec<u8>),
    /// A distance annotation came before the first action.
    DistanceBeforeMeasure,
    /// The move sequence holds this many actions, more than allowed.
    TooManyActions(usize),
}

/// A reason why a text could not be read, as mathematical values.
pub ghost enum Fault {
    UnexpectedEof,
    NotANumber(Seq<u8>),
    OutOfRange(i64),
    DecimalOutOfRange(Decimal),
    TagOutOfRange(char),
    InvalidAction(char),
    VectorOutOfRange(i64, i64),
    InvalidComment(Seq<u8>),
    DistanceBeforeMeasure,
    TooManyActions(usize),
}

impl View for ParseError {
    type V = Fault;

    open spec fn view(&self) -> Fault {
        match self {
            ParseError::UnexpectedEof => Fault::UnexpectedEof,
            ParseError::NotANumber(t) => Fault::NotANumber(t@),
            ParseError::OutOfRange(v) => Fault::OutOfRange(*v),
            ParseError::DecimalOutOfRange(d) => Fault::DecimalOutOfRange(*d),
            ParseError::TagOutOfRange(c) => Fault::TagOutOfRange(*c),
            ParseError::InvalidAction(c) => Fault::InvalidAction(*c),
            ParseError::VectorOutOfRange(x, y) => Fault::VectorOutOfRange(*x, *y),
            ParseError::InvalidComment(t) => Fault::InvalidComment(t@),
            ParseError::DistanceBeforeMeasure => Fault::DistanceBeforeMeasure,
            ParseError::TooManyActions(n) => Fault::TooManyActions(*n),
        }
    }
}

pub open spec fn is_ws(c: u8) -> bool {
    c == 32 || (9 <= c && c <= 13)
}

pub open spec fn is_digit(c: u8) -> bool {
    48 <= c && c <= 57
}

/// The first position at or after `i` and before `e` that holds no whitespace, else `e`.
pub open spec fn skip_ws(s: Seq<u8>, i: int, e: int) -> int
    decreases e - i,
{
    if i >= e || !is_ws(s[i]) {
        i
    } else {
        skip_ws(s, i + 1, e)
    }
}

/// The first position at or after `i` and before `e` that holds whitespace, else `e`.
pub open spec fn word_end(s: Seq<u8>, i: int, e: int) -> int
    decreases e - i,
{
    if i >= e || is_ws(s[i]) {
        i
    } else {
        word_end(s, i + 1, e)
    }
}

/// The next token of `s[i..e]`, as its bounds; empty when only whitespace is left.
pub open spec fn next_token(s: Seq<u8>, i: int, e: int) -> (int, int) {
    (skip_ws(s, i, e), word_end(s, skip_ws(s, i, e), e))
}

pub proof fn lemma_skip_ws_bounds(s: Seq<u8>, i: int, e: int)
    requires
        i <= e,
    ensures
        i <= skip_ws(s, i, e) <= e,
    decreases e - i,
{
    if i < e && is_ws(s[i]) {
        lemma_skip_ws_bounds(s, i + 1, e);
    }
}

pub proof fn lemma_word_end_bounds(s: Seq<u8>, i: int, e: int)
    requires
        i <= e,
    ensures
        i <= word_end(s, i, e) <= e,
        word_end(s, i, e) > i ==> !is_ws(s[i]),
    decreases e - i,
{
    if i < e && !is_ws(s[i]) {
        lemma_word_end_bounds(s, i + 1, e);
    }
}

/// Bounds of the next token of `s[i..e]`; see [`next_token`].
pub fn token(s: &[u8], i: usize, e: usize) -> (r: (usize, usize))
    requires
        i <= e <= s.len(),
    ensures
        r.0 as int == next_token(s@, i as int, e as int).0,
        r.1 as int == next_token(s@, i as int, e as int).1,
        i <= r.0 <= r.1 <= e,
{
    let mut a = i;
    while a < e && (s[a] == 32 || (9 <= s[a] && s[a] <= 13))
        invariant
            i <= a <= e <= s.len(),
            skip_ws(s@, a as int, e as int) == skip_ws(s@, i as int, e as int),
        decreases e - a,
    {
        a = a + 1;
    }
    let mut b = a;
    while b < e && !(s[b] == 32 || (9 <= s[b] && s[b] <= 13))
        invariant
            a <= b <= e <= s.len(),
            word_end(s@, b as int, e as int) == word_end(s@, a as int, e as int),
        decreases e - b,
    {
        b = b + 1;
    }
    (a, b)
}

/// The value of a string of decimal digits.
pub open spec fn digits_value(s: Seq<u8>) -> int
    decreases s.len(),
{
    if s.len() == 0 {
        0
    } else {
        digits_value(s.drop_last()) * 10 + (s.last() - 48)
    }
}

pub open spec fn all_digits(s: Seq<u8>) -> bool {
    forall|i: int| 0 <= i < s.len() ==> is_digit(#[trigger] s[i])
}

/// The integer that `t` writes: an optional sign (none when `unsigned`) and one
/// or more decimal digits.
pub open spec fn int_of(t: Seq<u8>, unsigned: bool) -> Option<int> {
    if t.len() > 0 && (t[0] == 43 || (t[0] == 45 && !unsigned)) {
        let d = t.drop_first();
        if d.len() > 0 && all_digits(d) {
            Some(if t[0] == 45 { -digits_value(d) } else { digits_value(d) })
        } else {
            None
        }
    } else if t.len() > 0 && all_digits(t) {
        Some(digits_value(t))
    } else {
        None
    }
}

/// The token of `s[i..e]` that comes next.
pub open spec fn tok(s: Seq<u8>, i: int, e: int) -> Seq<u8> {
    s.subrange(next_token(s, i, e).0, next_token(s, i, e).1)
}

/// `t` writes an integer that fits in an `i64`.
pub open spec fn reads_as_i64(t: Seq<u8>, unsigned: bool) -> bool {
    match int_of(t, unsigned) {
        Some(v) => fits_i64(v),
        None => false,
    }
}

pub open spec fn fits_i64(v: int) -> bool {
    i64::MIN <= v <= i64::MAX
}

/// What reading the token `t` as an integer in `lo..=hi` gives.
pub open spec fn read_int_of(t: Seq<u8>, lo: int, hi: int, unsigned: bool) -> Result<int, ()> {
    match int_of(t, unsigned) {
        Some(v) => if fits_i64(v) && lo <= v <= hi {
            Ok(v)
        } else {
            Err(())
        },
        None => Err(()),
    }
}

/// What reading the token `t` as an integer in `lo..=hi` gives, or the fault:
/// an empty token is a missing one, a token that writes no `i64` is not a
/// number, and a value outside the range is out of range.
pub open spec fn read_result(t: Seq<u8>, lo: int, hi: int, unsigned: bool) -> Result<int, Fault> {
    if t.len() == 0 {
        Err(Fault::UnexpectedEof)
    } else if !reads_as_i64(t, unsigned) {
        Err(Fault::NotANumber(t))
    } else if !(lo <= int_of(t, unsigned)->Some_0 <= hi) {
        Err(Fault::OutOfRange(int_of(t, unsigned)->Some_0 as i64))
    } else {
        Ok(int_of(t, unsigned)->Some_0)
    }
}

proof fn lemma_digits_value_nonneg(s: Seq<u8>)
    requires
        all_digits(s),
    ensures
        digits_value(s) >= 0,
    decreases s.len(),
{
    if s.len() > 0 {
        lemma_digits_value_nonneg(s.drop_last());
    }
}

/// The value of the digits `s[a..b]`, or none once it exceeds `2^63`.
fn digits_at(s: &[u8], a: usize, b: usize) -> (r: Option<u64>)
    requires
        a <= b <= s.len(),
        all_digits(s@.subrange(a as int, b as int)),
    ensures
        r matches Some(v) ==> v == digits_value(s@.subrange(a as int, b as int)) && v <= 0x8000000000000000,
        r is None ==> digits_value(s@.subrange(a as int, b as int)) > 0x8000000000000000,
{
    let mut v: u64 = 0;
    let mut k = a;
    let mut big = false;
    while k < b
        invariant
            a <= k <= b <= s.len(),
            all_digits(s@.subrange(a as int, b as int)),
            !big ==> v == digits_value(s@.subrange(a as int, k as int)) && v <= 0x8000000000000000,
            big ==> digits_value(s@.subrange(a as int, k as int)) > 0x8000000000000000,
        decreases b - k,
    {
        let ghost pre = s@.subrange(a as int, k as int);
        let ghost next = s@.subrange(a as int, k + 1);
        assert(next.drop_last() =~= pre);
        assert(is_digit(s@.subrange(a as int, b as int)[k - a]));
        assert(next.last() == s@[k as int]);
        proof {
            lemma_digits_value_nonneg(pre);
        }
        let d = (s[k] - 48) as u64;
        if !big {
            if v <= 922337203685477580 {
                v = v * 10 + d;
                if v > 0x8000000000000000 {
                    big = true;
                }
            } else {
                big = true;
            }
        }
        k = k + 1;
    }
    if big {
        None
    } else {
        Some(v)
    }
}

/// Reads the next token of `s[i..e]` as an integer in `lo..=hi`, and the position after it.
pub fn read(s: &[u8], i: usize, e: usize, lo: i64, hi: i64, unsigned: bool) -> (r: (Result<i64, ParseError>, usize))
    requires
        i <= e <= s.len(),
    ensures
        ({
            let (a, b) = next_token(s@, i as int, e as int);
            let t = s@.subrange(a, b);
            &&& r.1 == b
            &&& a == b ==> r.0 is Err
            &&& r.0 is Ok <==> (a < b && read_int_of(t, lo as int, hi as int, unsigned) is Ok)
            &&& r.0 matches Ok(x) ==> read_int_of(t, lo as int, hi as int, unsigned) == Ok::<int, ()>(x as int)
        }),
        i <= r.1 <= e,
        i <= next_token(s@, i as int, e as int).0 <= next_token(s@, i as int, e as int).1 <= e,
        r.0 matches Ok(x) ==> lo <= x <= hi,
        (next_token(s@, i as int, e as int).0 == next_token(s@, i as int, e as int).1) <==> (r.0 matches Err(
            ParseError::UnexpectedEof,
        )),
        (next_token(s@, i as int, e as int).0 < next_token(s@, i as int, e as int).1 && !reads_as_i64(
            tok(s@, i as int, e as int),
            unsigned,
        )) <==> (r.0 matches Err(ParseError::NotANumber(_))),
        r.0 matches Err(ParseError::NotANumber(tb)) ==> tb@ == tok(s@, i as int, e as int),
        r.0 matches Err(ParseError::OutOfRange(v)) ==> int_of(tok(s@, i as int, e as int), unsigned) == Some(
            v as int,
        ) && !(lo <= v <= hi),
        r.0 is Err ==> (r.0 matches Err(ParseError::UnexpectedEof)) || (r.0 matches Err(ParseError::NotANumber(_)))
            || (r.0 matches Err(ParseError::OutOfRange(_))),
        r.0 matches Err(f) ==> read_result(tok(s@, i as int, e as int), lo as int, hi as int, unsigned) == Err::<
            int,
            Fault,
        >(f@),
        r.0 matches Ok(v) ==> read_result(tok(s@, i as int, e as int), lo as int, hi as int, unsigned) == Ok::<
            int,
            Fault,
        >(v as int),
{
    let (a, b) = token(s, i, e);
    if a == b {
        return (Err(ParseError::UnexpectedEof), b);
    }
    let ghost t = s@.subrange(a as int, b as int);
    let c = s[a];
    let signed = c == 43 || (c == 45 && !unsigned);
    let start = if signed { a + 1 } else { a };
    assert(t[0] == c);
    let mut k = start;
    while k < b
        invariant
            start <= k <= b <= s.len(),
            a < b,
            start == if signed { a + 1 } else { a as int },
            t == s@.subrange(a as int, b as int),
            c == s@[a as int],
            i <= a,
            b <= e,
            a as int == next_token(s@, i as int, e as int).0,
            b as int == next_token(s@, i as int, e as int).1,
            signed == (c == 43 || (c == 45 && !unsigned)),
            forall|j: int| start <= j < k ==> is_digit(s@[j]),
        decreases b - k,
    {
        if !(48 <= s[k] && s[k] <= 57) {
            proof {
                if signed {
                    assert(t.drop_first()[k - start] == s@[k as int]);
                    assert(!is_digit(t.drop_first()[k - start]));
                } else {
                    assert(t[k - a] == s@[k as int]);
                    assert(!is_digit(t[k - a]));
                }
            }
            return (Err(ParseError::NotANumber(copy_bytes(s, a, b))), b);
        }
        k = k + 1;
    }
    if start == b {
        return (Err(ParseError::NotANumber(copy_bytes(s, a, b))), b);
    }
    let ghost d = s@.subrange(start as int, b as int);
    assert(all_digits(d));
    if signed {
        assert(t.drop_first() =~= d);
    } else {
        assert(t =~= d);
    }
    let mag = digits_at(s, start, b);
    let v: i64 = match mag {
        None => {
            return (Err(ParseError::NotANumber(copy_bytes(s, a, b))), b);
        },
        Some(m) => {
            if c == 45 && signed {
                if m == 0x8000000000000000 {
                    i64::MIN
                } else {
                    -(m as i64)
                }
            } else if m == 0x8000000000000000 {
                return (Err(ParseError::NotANumber(copy_bytes(s, a, b))), b);
            } else {
                m as i64
            }
        },
    };
    if v < lo || hi < v {
        return (Err(ParseError::OutOfRange(v)), b);
    }
    (Ok(v), b)
}

/// A copy of the bytes `s[a..b]`.
pub fn copy_bytes(s: &[u8], a: usize, b: usize) -> (r: Vec<u8>)
    requires
        a <= b <= s.len(),
    ensures
        r@ == s@.subrange(a as int, b as int),
{
    let mut r: Vec<u8> = Vec::new();
    let mut k = a;
    while k < b
        invariant
            a <= k <= b <= s.len(),
            r@ == s@.subrange(a as int, k as int),
        decreases b - k,
    {
        r.push(s[k]);
        k = k + 1;
    }
    r
}

/// The number of leading decimal digits of `t` from position `i` on.
pub open spec fn digit_run(t: Seq<u8>, i: int) -> int
    decreases t.len() - i,
{
    if i < 0 || i >= t.len() || !is_digit(t[i]) {
        0
    } else {
        1 + digit_run(t, i + 1)
    }
}

/// The decimal that `t` writes, as `(digits, scale)` standing for
/// `digits / 10^scale`: one or more digits, then optionally a point and one
/// or more digits.
pub open spec fn decimal_of(t: Seq<u8>) -> Option<(int, int)> {
    let k = digit_run(t, 0);
    if k == 0 {
        None
    } else if k == t.len() {
        Some((digits_value(t), 0))
    } else if t[k] == 46 && k + 1 < t.len() && digit_run(t, k + 1) == t.len() - k - 1 {
        Some((digits_value(t.take(k) + t.skip(k + 1)), t.len() - k - 1))
    } else {
        None
    }
}

pub proof fn lemma_digit_run(t: Seq<u8>, i: int, j: int)
    requires
        0 <= i <= j <= t.len(),
        forall|m: int| i <= m < j ==> is_digit(#[trigger] t[m]),
    ensures
        digit_run(t, i) == (j - i) + digit_run(t, j),
    decreases j - i,
{
    if i < j {
        lemma_digit_run(t, i + 1, j);
    }
}

/// What reading the token `t` as a decimal gives: its digits may not exceed
/// `MAX_DIGITS_VALUE`, nor its scale 40.
pub open spec fn read_decimal_of(t: Seq<u8>) -> Option<(int, int)> {
    match decimal_of(t) {
        Some(x) => if x.0 <= MAX_DIGITS_VALUE && x.1 <= 40 {
            Some(x)
        } else {
            None
        },
        None => None,
    }
}

/// What reading the token `t` as a decimal gives, or the fault.
pub open spec fn decimal_result(t: Seq<u8>) -> Result<(int, int), Fault> {
    if t.len() == 0 {
        Err(Fault::UnexpectedEof)
    } else {
        match read_decimal_of(t) {
            Some(d) => Ok(d),
            None => Err(Fault::NotANumber(t)),
        }
    }
}

/// Largest digit string value a decimal may have.
pub const MAX_DIGITS_VALUE: u64 = 1000000000000000000;

/// Reads the next token of `s[i..e]` as a decimal, and the position after it.
pub fn read_decimal(s: &[u8], i: usize, e: usize) -> (r: (Result<Decimal, ParseError>, usize))
    requires
        i <= e <= s.len(),
    ensures
        ({
            let (a, b) = next_token(s@, i as int, e as int);
            let t = s@.subrange(a, b);
            &&& r.1 == b
            &&& r.0 matches Ok(d) ==> read_decimal_of(t) == Some((d.digits as int, d.scale as int))
            &&& r.0 is Ok <==> read_decimal_of(t) is Some
        }),
        i <= r.1 <= e,
        i <= next_token(s@, i as int, e as int).0 <= next_token(s@, i as int, e as int).1 <= e,
        r.0 matches Ok(d) ==> d.digits <= MAX_DIGITS_VALUE,
        (next_token(s@, i as int, e as int).0 == next_token(s@, i as int, e as int).1) <==> (r.0 matches Err(
            ParseError::UnexpectedEof,
        )),
        r.0 is Err ==> (r.0 matches Err(ParseError::UnexpectedEof)) || (r.0 matches Err(ParseError::NotANumber(_))),
        r.0 matches Err(ParseError::NotANumber(tb)) ==> tb@ == tok(s@, i as int, e as int),
        r.0 matches Err(f) ==> decimal_result(tok(s@, i as int, e as int)) == Err::<(int, int), Fault>(f@),
{
    let (a, b) = token(s, i, e);
    if a == b {
        return (Err(ParseError::UnexpectedEof), b);
    }
    let ghost t = s@.subrange(a as int, b as int);
    let ghost mut acc: Seq<u8> = Seq::empty();
    let mut v: u64 = 0;
    let mut k = a;
    let mut dot: usize = b;
    let mut big = false;
    while k < b
        invariant
            a < b <= s.len(),
            a <= k <= b,
            dot <= b,
            i <= a,
            b <= e,
            t == s@.subrange(a as int, b as int),
            t.len() == b - a,
            a as int == next_token(s@, i as int, e as int).0,
            b as int == next_token(s@, i as int, e as int).1,
            dot == b ==> (forall|m: int| 0 <= m < k - a ==> is_digit(#[trigger] t[m])) && acc == t.take(k - a),
            dot < b ==> a < dot < k && t[dot - a] == 46
                && (forall|m: int| 0 <= m < dot - a ==> is_digit(#[trigger] t[m]))
                && (forall|m: int| dot - a < m < k - a ==> is_digit(#[trigger] t[m]))
                && acc == t.take(dot - a) + t.subrange(dot - a + 1, k - a),
            !big ==> v == digits_value(acc) && v <= MAX_DIGITS_VALUE,
            big ==> digits_value(acc) > MAX_DIGITS_VALUE,
            forall|m: int| 0 <= m < acc.len() ==> is_digit(#[trigger] acc[m]),
        decreases b - k,
    {
        let c = s[k];
        if c == 46 && dot == b && k > a {
            dot = k;
            assert(t.subrange(dot - a + 1, k + 1 - a) =~= Seq::<u8>::empty());
            assert(acc + Seq::<u8>::empty() =~= acc);
        } else if 48 <= c && c <= 57 {
            let ghost acc0 = acc;
            proof {
                acc = acc.push(c);
                assert(acc.drop_last() =~= acc0);
                lemma_digits_value_nonneg(acc0);
                if dot == b {
                    assert(acc =~= t.take(k + 1 - a));
                } else {
                    assert(acc =~= t.take(dot - a) + t.subrange(dot - a + 1, k + 1 - a));
                }
            }
            if !big {
                if v <= MAX_DIGITS_VALUE / 10 {
                    v = v * 10 + (c - 48) as u64;
                    if v > MAX_DIGITS_VALUE {
                        big = true;
                    }
                } else {
                    big = true;
                }
            }
        } else {
            proof {
                assert(!is_digit(t[k - a]));
                if dot == b {
                    lemma_digit_run(t, 0, k - a);
                    if k == a {
                        assert(digit_run(t, 0) == 0);
                    } else {
                        assert(t[k - a] != 46);
                    }
                } else {
                    lemma_digit_run(t, 0, dot - a);
                    lemma_digit_run(t, dot - a + 1, k - a);
                }
            }
            return (Err(ParseError::NotANumber(copy_bytes(s, a, b))), b);
        }
        k = k + 1;
    }
    proof {
        if dot == b {
            lemma_digit_run(t, 0, t.len() as int);
            assert(acc =~= t);
        } else {
            lemma_digit_run(t, 0, dot - a);
            lemma_digit_run(t, dot - a + 1, t.len() as int);
            assert(acc =~= t.take(dot - a) + t.skip(dot - a + 1));
        }
    }
    if dot < b && dot + 1 == b {
        return (Err(ParseError::NotANumber(copy_bytes(s, a, b))), b);
    }
    if big {
        return (Err(ParseError::NotANumber(copy_bytes(s, a, b))), b);
    }
    if dot < b && b - dot - 1 > 40 {
        return (Err(ParseError::NotANumber(copy_bytes(s, a, b))), b);
    }
    let scale: u32 = if dot == b { 0 } else { (b - dot - 1) as u32 };
    (Ok(Decimal { digits: v, scale }), b)
}

} // verus!
