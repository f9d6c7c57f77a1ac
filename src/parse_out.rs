//! Reading a move sequence: one action per line, and annotations on comment
//! lines that start with `#`.
use vstd::prelude::*;
use vstd::string::StringSliceAdditionalSpecFns;
use crate::minmax::SetMinMax;
use crate::model::{valid_action, Action, Decimal, Input, Output, AREA, MAX_T};
use crate::text::{
    copy_bytes, lemma_skip_ws_bounds, lemma_word_end_bounds, next_token, read_decimal, read_decimal_of, read,
    decimal_result, read_int_of, read_result, skip_ws, tok, token, word_end, Fault, ParseError,
};

verus! {

/// Largest probe distance an annotation may report, plus one.
pub const DIST_END: i64 = 300000;

/// The end of the line that starts at `i`: the next newline, or the end of the text.
pub open spec fn line_end(b: Seq<u8>, i: int) -> int
    decreases b.len() - i,
{
    if i < 0 || i >= b.len() || b[i] == 10 {
        i
    } else {
        line_end(b, i + 1)
    }
}

/// The position after the next token of `b[i..e]`.
pub open spec fn after(b: Seq<u8>, i: int, e: int) -> int {
    next_token(b, i, e).1
}

pub open spec fn reads_coord(t: Seq<u8>) -> bool {
    read_int_of(t, -AREA as int, AREA as int, false) is Ok
}

pub open spec fn coord(t: Seq<u8>) -> int {
    read_int_of(t, -AREA as int, AREA as int, false)->Ok_0
}

/// `10^k`.
pub open spec fn pow10(k: nat) -> int
    decreases k,
{
    if k == 0 {
        1
    } else {
        10 * pow10((k - 1) as nat)
    }
}

/// A weight, a decimal between 0 and 1.
pub open spec fn weight_ok(t: Seq<u8>) -> bool {
    read_decimal_of(t) matches Some(x) && x.0 <= pow10(x.1 as nat)
}

/// What the action line `b[i..e]` holds: `None` when it is blank, else its
/// action; or the fault that the first of these meets: the tag is one
/// character in `'A'..'Z'`, the two coordinates read within the arena's range,
/// the tag is `A` or `S`, an acceleration is no longer than 500, a probe
/// direction is no longer than 100000 and not zero.
pub open spec fn action_result(b: Seq<u8>, i: int, e: int) -> Result<Option<Action>, Fault> {
    let (a1, a2) = next_token(b, i, e);
    let c = b[a1] as char;
    let xr = read_result(tok(b, a2, e), -AREA as int, AREA as int, false);
    let yr = read_result(tok(b, after(b, a2, e), e), -AREA as int, AREA as int, false);
    if a1 == a2 {
        Ok(None)
    } else if a2 - a1 != 1 {
        Err(Fault::NotANumber(b.subrange(a1, a2)))
    } else if !(65 <= b[a1] < 90) {
        Err(Fault::TagOutOfRange(c))
    } else if xr is Err {
        Err(xr->Err_0)
    } else if yr is Err {
        Err(yr->Err_0)
    } else {
        let x = xr->Ok_0 as i64;
        let y = yr->Ok_0 as i64;
        if c != 'A' && c != 'S' {
            Err(Fault::InvalidAction(c))
        } else if !valid_action((c, x, y)) {
            Err(Fault::VectorOutOfRange(x, y))
        } else {
            Ok(Some((c, x, y)))
        }
    }
}

/// What an action line `b[i..e]` holds: `Some(None)` when it is blank,
/// `Some(Some(a))` when it holds the well-formed action `a`, none when it is
/// not well-formed.
pub open spec fn action_line(b: Seq<u8>, i: int, e: int) -> Option<Option<Action>> {
    match action_result(b, i, e) {
        Ok(o) => Some(o),
        Err(_) => None,
    }
}

/// Whether a comment line `b[i..e]`, read after `turn` actions of an instance
/// with `n` targets, is well-formed, or the fault that it first meets.
pub open spec fn comment_result(b: Seq<u8>, i: int, e: int, turn: int, n: int) -> Result<(), Fault> {
    let (a1, a2) = next_token(b, i, e);
    let c = b[a1 + 1];
    let t1 = tok(b, a2, e);
    let t2 = tok(b, after(b, a2, e), e);
    let t3 = tok(b, after(b, after(b, a2, e), e), e);
    let a = AREA as int;
    let big = i64::MAX as int;
    let small = i64::MIN as int;
    if a2 - a1 == 1 {
        Ok(())
    } else if c == 112 || c == 99 || c == 118 || (c == 101 && turn != 0) {
        let (lo, hi) = if c == 118 { (small, big) } else { (-a, a) };
        if read_result(t1, lo, hi, false) is Err {
            Err(read_result(t1, lo, hi, false)->Err_0)
        } else if read_result(t2, lo, hi, false) is Err {
            Err(read_result(t2, lo, hi, false)->Err_0)
        } else if c != 101 {
            Ok(())
        } else if decimal_result(t3) is Err {
            Err(decimal_result(t3)->Err_0)
        } else if !weight_ok(t3) {
            Err(Fault::DecimalOutOfRange(decimal_at(t3)))
        } else {
            Ok(())
        }
    } else if c == 101 {
        Ok(())
    } else if c == 100 {
        if read_result(t1, 0, DIST_END - 1, false) is Err {
            Err(read_result(t1, 0, DIST_END - 1, false)->Err_0)
        } else if turn == 0 {
            Err(Fault::DistanceBeforeMeasure)
        } else {
            Ok(())
        }
    } else if c == 103 {
        if read_result(t1, 0, n - 1, true) is Err {
            Err(read_result(t1, 0, n - 1, true)->Err_0)
        } else {
            Ok(())
        }
    } else {
        Err(Fault::InvalidComment(b.subrange(a1, a2)))
    }
}

/// A comment line `b[i..e]`, read after `turn` actions of an instance with `n`
/// targets, is well-formed.
pub open spec fn comment_ok(b: Seq<u8>, i: int, e: int, turn: int, n: int) -> bool {
    comment_result(b, i, e, turn, n) is Ok
}

/// The actions of the lines of `b` from position `i` on, after the actions
/// `acts` were read; an error when a line is not well-formed.
pub open spec fn parse_lines(b: Seq<u8>, i: int, n: int, acts: Seq<Action>) -> Result<Seq<Action>, Fault>
    decreases b.len() + 1 - i,
    via parse_lines_decreases
{
    if i < 0 || i > b.len() {
        Ok(acts)
    } else {
        let e = line_end(b, i);
        if i < e && b[i] == 35 {
            match comment_result(b, i, e, acts.len() as int, n) {
                Ok(_) => parse_lines(b, e + 1, n, acts),
                Err(f) => Err(f),
            }
        } else {
            match action_result(b, i, e) {
                Ok(Some(a)) => parse_lines(b, e + 1, n, acts.push(a)),
                Ok(None) => parse_lines(b, e + 1, n, acts),
                Err(f) => Err(f),
            }
        }
    }
}

#[via_fn]
proof fn parse_lines_decreases(b: Seq<u8>, i: int, n: int, acts: Seq<Action>) {
    if 0 <= i <= b.len() {
        lemma_line_end(b, i);
    }
}

/// The annotations of the text `b`, for an instance with `n` targets.
pub open spec fn notes_of(b: Seq<u8>, n: int) -> NotesView {
    notes_from(b, 0, 0, no_notes(n))
}

/// Row `t` of the estimates, when `rows` holds the rows that were given.
pub open spec fn est_row(rows: Seq<Seq<(i64, i64, Decimal)>>, t: int) -> Seq<(i64, i64, Decimal)> {
    if t < rows.len() {
        rows[t]
    } else {
        Seq::empty()
    }
}

/// The actions of the text `b`, for an instance with `n` targets.
pub open spec fn actions_of(b: Seq<u8>, n: int) -> Result<Seq<Action>, Fault> {
    parse_lines(b, 0, n, Seq::empty())
}

proof fn lemma_line_end(b: Seq<u8>, i: int)
    requires
        0 <= i <= b.len(),
    ensures
        i <= line_end(b, i) <= b.len(),
    decreases b.len() - i,
{
    if i < b.len() && b[i] != 10 {
        lemma_line_end(b, i + 1);
    }
}

fn find_line_end(s: &[u8], i: usize) -> (r: usize)
    requires
        i <= s.len(),
    ensures
        r == line_end(s@, i as int),
        i <= r <= s.len(),
{
    let mut k = i;
    while k < s.len() && s[k] != 10
        invariant
            i <= k <= s.len(),
            line_end(s@, k as int) == line_end(s@, i as int),
        decreases s.len() - k,
    {
        k = k + 1;
    }
    k
}

proof fn lemma_comment_token(b: Seq<u8>, i: int, e: int)
    requires
        0 <= i < e <= b.len(),
        b[i] == 35,
    ensures
        next_token(b, i, e).0 == i,
        next_token(b, i, e).1 > i,
{
    assert(skip_ws(b, i, e) == i);
    assert(word_end(b, i, e) == word_end(b, i + 1, e));
    lemma_word_end_bounds(b, i + 1, e);
}

fn parse_action_line(s: &[u8], i: usize, e: usize) -> (r: Result<Option<Action>, ParseError>)
    requires
        i <= e <= s.len(),
    ensures
        r is Ok <==> action_line(s@, i as int, e as int) is Some,
        r matches Ok(o) ==> action_line(s@, i as int, e as int) == Some(o),
        !(r matches Err(ParseError::TooManyActions(_))),
        r matches Err(f) ==> action_result(s@, i as int, e as int) == Err::<Option<Action>, Fault>(f@),
{
    let (a1, a2) = token(s, i, e);
    if a1 == a2 {
        return Ok(None);
    }
    if a2 - a1 != 1 {
        return Err(ParseError::NotANumber(copy_bytes(s, a1, a2)));
    }
    let c = s[a1];
    if !(65 <= c && c < 90) {
        return Err(ParseError::TagOutOfRange(c as char));
    }
    let (x, p) = read(s, a2, e, -AREA, AREA, false);
    let x = match x {
        Ok(x) => x,
        Err(err) => {
            return Err(err);
        },
    };
    let (y, _) = read(s, p, e, -AREA, AREA, false);
    let y = match y {
        Ok(y) => y,
        Err(err) => {
            return Err(err);
        },
    };
    let a = c as char;
    proof {
        lemma_square_sum_bound(x as int, y as int);
    }
    if a != 'A' && a != 'S' {
        Err(ParseError::InvalidAction(a))
    } else if a == 'A' && x * x + y * y > 500 * 500 {
        Err(ParseError::VectorOutOfRange(x, y))
    } else if a == 'S' && x * x + y * y > 10000000000 {
        Err(ParseError::VectorOutOfRange(x, y))
    } else if a == 'S' && x == 0 && y == 0 {
        Err(ParseError::VectorOutOfRange(x, y))
    } else {
        Ok(Some((a, x, y)))
    }
}

proof fn lemma_square_sum_bound(x: int, y: int)
    requires
        -AREA <= x <= AREA,
        -AREA <= y <= AREA,
    ensures
        0 <= x * x <= 10000000000,
        0 <= y * y <= 10000000000,
{
    assert(0 <= x * x <= 10000000000) by (nonlinear_arith)
        requires
            -100000 <= x <= 100000,
    ;
    assert(0 <= y * y <= 10000000000) by (nonlinear_arith)
        requires
            -100000 <= y <= 100000,
    ;
}

/// Annotations gathered while reading a move sequence.
struct Notes {
    pos: Vec<(i64, i64)>,
    vel: Vec<(i64, i64)>,
    pred_pos: Vec<(i64, i64)>,
    /// Estimate rows of the turns already closed.
    rows: Vec<Vec<(i64, i64, Decimal)>>,
    /// Estimate row of the current turn.
    cur: Vec<(i64, i64, Decimal)>,
    dst: Vec<i64>,
    /// For each target, the first turn from which it is reported as reached, or `MAX_T`.
    claim: Vec<usize>,
}

/// The annotations read so far, as mathematical values.
pub ghost struct NotesView {
    pub pos: Seq<(i64, i64)>,
    pub vel: Seq<(i64, i64)>,
    pub pred_pos: Seq<(i64, i64)>,
    /// Estimate rows of the turns already closed.
    pub rows: Seq<Seq<(i64, i64, Decimal)>>,
    /// Estimate row of the current turn.
    pub cur: Seq<(i64, i64, Decimal)>,
    pub dst: Seq<i64>,
    /// For each target, the first turn from which it is reported as reached, or `MAX_T`.
    pub claim: Seq<usize>,
}

impl Notes {
    spec fn wf(&self, n: int) -> bool {
        &&& self.rows.len() <= MAX_T
        &&& self.dst.len() == MAX_T
        &&& self.claim.len() == n
    }

    spec fn view(&self) -> NotesView {
        NotesView {
            pos: self.pos@,
            vel: self.vel@,
            pred_pos: self.pred_pos@,
            rows: self.rows@.map_values(|r: Vec<(i64, i64, Decimal)>| r@),
            cur: self.cur@,
            dst: self.dst@,
            claim: self.claim@,
        }
    }
}

/// The annotations before any line.
pub open spec fn no_notes(n: int) -> NotesView {
    NotesView {
        pos: Seq::empty(),
        vel: Seq::empty(),
        pred_pos: Seq::empty(),
        rows: Seq::empty(),
        cur: Seq::empty(),
        dst: Seq::new(MAX_T as nat, |k: int| -1i64),
        claim: Seq::new(n as nat, |k: int| MAX_T),
    }
}

pub open spec fn int_at(t: Seq<u8>, lo: int, hi: int, unsigned: bool) -> int {
    read_int_of(t, lo, hi, unsigned)->Ok_0
}

pub open spec fn decimal_at(t: Seq<u8>) -> Decimal {
    let d = read_decimal_of(t)->Some_0;
    Decimal { digits: d.0 as u64, scale: d.1 as u32 }
}

/// The annotations after the well-formed comment line `b[i..e]`, read after
/// `turn` actions: a position (`#p`), a velocity (`#v`) or a centre estimate
/// (`#c`) is appended to its list; an estimate (`#e`) joins the current turn's
/// row; a distance (`#d`) is the previous turn's; a reached target (`#g`) is
/// reported from this turn on.
pub open spec fn comment_notes(b: Seq<u8>, i: int, e: int, turn: int, st: NotesView) -> NotesView {
    let (a1, a2) = next_token(b, i, e);
    let c = b[a1 + 1];
    let t1 = tok(b, a2, e);
    let t2 = tok(b, after(b, a2, e), e);
    let t3 = tok(b, after(b, after(b, a2, e), e), e);
    let xy = (coord(t1) as i64, coord(t2) as i64);
    if a2 - a1 == 1 {
        st
    } else if c == 112 {
        NotesView { pos: st.pos.push(xy), ..st }
    } else if c == 99 {
        NotesView { pred_pos: st.pred_pos.push(xy), ..st }
    } else if c == 118 {
        NotesView {
            vel: st.vel.push(
                (
                    int_at(t1, i64::MIN as int, i64::MAX as int, false) as i64,
                    int_at(t2, i64::MIN as int, i64::MAX as int, false) as i64,
                ),
            ),
            ..st
        }
    } else if c == 101 {
        if turn == 0 || turn - 1 >= MAX_T {
            st
        } else {
            NotesView { cur: st.cur.push((xy.0, xy.1, decimal_at(t3))), ..st }
        }
    } else if c == 100 {
        if turn - 1 < MAX_T {
            NotesView { dst: st.dst.update(turn - 1, int_at(t1, 0, DIST_END - 1, false) as i64), ..st }
        } else {
            st
        }
    } else {
        let g = int_at(t1, 0, st.claim.len() - 1, true);
        if turn < st.claim[g] {
            NotesView { claim: st.claim.update(g, turn as usize), ..st }
        } else {
            st
        }
    }
}

/// The annotations after an action line read after `turn` actions: the
/// current estimate row is closed.
pub open spec fn close_row(turn: int, st: NotesView) -> NotesView {
    if turn >= 1 && st.rows.len() < MAX_T {
        NotesView { rows: st.rows.push(st.cur), cur: Seq::empty(), ..st }
    } else {
        st
    }
}

/// The annotations after the lines of `b` from position `i` on, read after
/// `turn` actions; meaningful when the lines are well-formed.
pub open spec fn notes_from(b: Seq<u8>, i: int, turn: int, st: NotesView) -> NotesView
    decreases b.len() + 1 - i,
    via notes_from_decreases
{
    if i < 0 || i > b.len() {
        st
    } else {
        let e = line_end(b, i);
        if i < e && b[i] == 35 {
            notes_from(b, e + 1, turn, comment_notes(b, i, e, turn, st))
        } else {
            match action_line(b, i, e) {
                Some(Some(a)) => notes_from(b, e + 1, turn + 1, close_row(turn, st)),
                _ => notes_from(b, e + 1, turn, st),
            }
        }
    }
}

#[via_fn]
proof fn notes_from_decreases(b: Seq<u8>, i: int, turn: int, st: NotesView) {
    if 0 <= i <= b.len() {
        lemma_line_end(b, i);
    }
}

/// `digits / 10^scale <= 1`.
fn at_most_one(w: Decimal) -> (r: bool)
    requires
        w.digits <= crate::text::MAX_DIGITS_VALUE,
    ensures
        r == (w.digits <= pow10(w.scale as nat)),
{
    if w.scale >= 18 {
        proof {
            lemma_pow10_grows(18, w.scale as nat);
        }
        return true;
    }
    let mut p: u64 = 1;
    let mut k: u32 = 0;
    while k < w.scale
        invariant
            k <= w.scale < 18,
            p == pow10(k as nat),
            p <= 100000000000000000,
        decreases w.scale - k,
    {
        proof {
            lemma_pow10_grows(k as nat + 1, 17);
            lemma_pow10_grows(17, 17);
        }
        p = p * 10;
        k = k + 1;
    }
    w.digits <= p
}

proof fn lemma_pow10_grows(j: nat, k: nat)
    requires
        j <= k,
    ensures
        pow10(j) <= pow10(k),
        j == 18 ==> pow10(j) == 1000000000000000000,
        j == 17 ==> pow10(j) == 100000000000000000,
    decreases k,
{
    reveal_with_fuel(pow10, 19);
    if j < k {
        lemma_pow10_grows(j, (k - 1) as nat);
        lemma_pow10_pos((k - 1) as nat);
    }
}

proof fn lemma_pow10_pos(k: nat)
    ensures
        pow10(k) >= 1,
    decreases k,
{
    if k > 0 {
        lemma_pow10_pos((k - 1) as nat);
    }
}

/// Reads the comment line `s[i..e]` after `turn` actions, recording its annotation.
fn parse_comment(s: &[u8], i: usize, e: usize, turn: usize, n: usize, notes: &mut Notes) -> (r: Result<(), ParseError>)
    requires
        i < e <= s.len(),
        s@[i as int] == 35,
        n <= crate::model::MAX_N,
        old(notes).wf(n as int),
    ensures
        r is Ok <==> comment_ok(s@, i as int, e as int, turn as int, n as int),
        !(r matches Err(ParseError::TooManyActions(_))),
        r matches Err(f) ==> comment_result(s@, i as int, e as int, turn as int, n as int) == Err::<(), Fault>(f@),
        final(notes).wf(n as int),
        r is Ok ==> final(notes).view() == comment_notes(s@, i as int, e as int, turn as int, old(notes).view()),
{
    proof {
        lemma_comment_token(s@, i as int, e as int);
    }
    let (a1, a2) = token(s, i, e);
    if a2 - a1 == 1 {
        return Ok(());
    }
    let c = s[a1 + 1];
    if c == 112 || c == 99 {
        let (x, p) = read(s, a2, e, -AREA, AREA, false);
        let x = match x {
            Ok(x) => x,
            Err(err) => {
                return Err(err);
            },
        };
        let (y, _) = read(s, p, e, -AREA, AREA, false);
        let y = match y {
            Ok(y) => y,
            Err(err) => {
                return Err(err);
            },
        };
        if c == 112 {
            notes.pos.push((x, y));
        } else {
            notes.pred_pos.push((x, y));
        }
        Ok(())
    } else if c == 118 {
        let (x, p) = read(s, a2, e, i64::MIN, i64::MAX, false);
        let x = match x {
            Ok(x) => x,
            Err(err) => {
                return Err(err);
            },
        };
        let (y, _) = read(s, p, e, i64::MIN, i64::MAX, false);
        let y = match y {
            Ok(y) => y,
            Err(err) => {
                return Err(err);
            },
        };
        notes.vel.push((x, y));
        Ok(())
    } else if c == 101 {
        if turn == 0 {
            return Ok(());
        }
        let (x, p) = read(s, a2, e, -AREA, AREA, false);
        let x = match x {
            Ok(x) => x,
            Err(err) => {
                return Err(err);
            },
        };
        let (y, q) = read(s, p, e, -AREA, AREA, false);
        let y = match y {
            Ok(y) => y,
            Err(err) => {
                return Err(err);
            },
        };
        let (w, _) = read_decimal(s, q, e);
        let w = match w {
            Ok(w) => w,
            Err(err) => {
                return Err(err);
            },
        };
        if !at_most_one(w) {
            return Err(ParseError::DecimalOutOfRange(w));
        }
        if turn - 1 < MAX_T {
            notes.cur.push((x, y, w));
        }
        Ok(())
    } else if c == 100 {
        let (d, _) = read(s, a2, e, 0, DIST_END - 1, false);
        let d = match d {
            Ok(d) => d,
            Err(err) => {
                return Err(err);
            },
        };
        if turn == 0 {
            return Err(ParseError::DistanceBeforeMeasure);
        }
        if turn - 1 < MAX_T {
            notes.dst.set(turn - 1, d);
        }
        Ok(())
    } else if c == 103 {
        let (g, _) = read(s, a2, e, 0, n as i64 - 1, true);
        let g = match g {
            Ok(g) => g as usize,
            Err(err) => {
                return Err(err);
            },
        };
        let mut first = notes.claim[g];
        if first.setmin(turn) {
            notes.claim.set(g, first);
        }
        Ok(())
    } else {
        Err(ParseError::InvalidComment(copy_bytes(s, a1, a2)))
    }
}

fn filled<T: Copy>(x: T, len: usize) -> (r: Vec<T>)
    ensures
        r@ == Seq::new(len as nat, |k: int| x),
{
    let mut r: Vec<T> = Vec::new();
    while r.len() < len
        invariant
            r.len() <= len,
            r@ == Seq::new(r.len() as nat, |k: int| x),
        decreases len - r.len(),
    {
        r.push(x);
    }
    r
}

/// Reads the move sequence `f` for `input`. The text fails on its first line
/// that is not well-formed, and with `TooManyActions` when it holds more than
/// `MAX_T` actions; else it gives the actions of its lines in order, with the
/// annotations of its comment lines.
pub fn parse_output(input: &Input, f: &str) -> (r: Result<Output, ParseError>)
    requires
        input.wf(),
    ensures
        r is Ok <==> (actions_of(f.spec_bytes(), input.ps.len() as int) matches Ok(acts) && acts.len() <= MAX_T),
        r matches Ok(o) ==> actions_of(f.spec_bytes(), input.ps.len() as int) == Ok::<Seq<Action>, Fault>(o.out@),
        r matches Ok(o) ==> o.wf() && o.dst.len() == MAX_T && o.est.len() == MAX_T && o.gol.len() == MAX_T,
        r matches Ok(o) ==> forall|t: int| 0 <= t < MAX_T ==> #[trigger] o.gol@[t].len() == input.ps.len(),
        actions_of(f.spec_bytes(), input.ps.len() as int) matches Ok(acts) ==> (acts.len() > MAX_T ==> (r matches Err(
            ParseError::TooManyActions(m),
        ) && m == acts.len())),
        r matches Err(ParseError::TooManyActions(m)) ==> actions_of(f.spec_bytes(), input.ps.len() as int) matches Ok(
            acts,
        ) && acts.len() == m && m > MAX_T,
        r matches Err(err) ==> (actions_of(f.spec_bytes(), input.ps.len() as int) matches Err(g) ==> err@ == g),
        r matches Ok(o) ==> ({
            let nv = notes_of(f.spec_bytes(), input.ps.len() as int);
            &&& o.pos@ == nv.pos
            &&& o.vel@ == nv.vel
            &&& o.pred_pos@ == nv.pred_pos
            &&& o.dst@ == nv.dst
            &&& forall|t: int, g: int|
                0 <= t < MAX_T && 0 <= g < input.ps.len() ==> #[trigger] o.gol@[t]@[g] == (nv.claim[g] <= t)
            &&& forall|t: int|
                0 <= t < MAX_T ==> #[trigger] o.est@[t]@ == est_row(close_row(o.out.len() as int, nv).rows, t)
        }),
{
    let s = f.as_bytes();
    let n = input.ps.len();
    let mut notes = Notes {
        pos: Vec::new(),
        vel: Vec::new(),
        pred_pos: Vec::new(),
        rows: Vec::new(),
        cur: Vec::new(),
        dst: filled(-1i64, MAX_T),
        claim: filled(MAX_T, n),
    };
    let mut out: Vec<Action> = Vec::new();
    assert(notes.view().rows =~= no_notes(n as int).rows);
    assert(notes.view() == no_notes(n as int));
    let mut i: usize = 0;
    let mut more = true;
    let ghost mut at: int = 0;
    while more
        invariant
            i <= s.len(),
            more ==> at == i,
            !more ==> at == s.len() + 1,
            s@ == f.spec_bytes(),
            n == input.ps.len(),
            n <= crate::model::MAX_N,
            notes.wf(n as int),
            parse_lines(s@, at, n as int, out@) == actions_of(s@, n as int),
            parse_lines(s@, at, n as int, out@) is Ok ==> notes_from(s@, at, out.len() as int, notes.view())
                == notes_of(s@, n as int),
            forall|j: int| 0 <= j < out.len() ==> valid_action(#[trigger] out@[j]),
        decreases s.len() + (if more { 1int } else { 0int }) - i,
    {
        let e = find_line_end(s, i);
        if i < e && s[i] == 35 {
            match parse_comment(s, i, e, out.len(), n, &mut notes) {
                Err(err) => {
                    return Err(err);
                },
                Ok(()) => {},
            }
        } else {
            match parse_action_line(s, i, e) {
                Err(err) => {
                    return Err(err);
                },
                Ok(Some(a)) => {
                    let ghost nv0 = notes.view();
                    if out.len() >= 1 && notes.rows.len() < MAX_T {
                        let mut row = Vec::new();
                        std::mem::swap(&mut row, &mut notes.cur);
                        notes.rows.push(row);
                    }
                    assert(notes.view().rows =~= close_row(out.len() as int, nv0).rows);
                    assert(notes.view() == close_row(out.len() as int, nv0));
                    out.push(a);
                },
                Ok(None) => {},
            }
        }
        proof {
            at = e + 1;
        }
        if e < s.len() {
            i = e + 1;
        } else {
            i = e;
            more = false;
        }
    }
    if out.len() > MAX_T {
        return Err(ParseError::TooManyActions(out.len()));
    }
    let ghost nv = notes.view();
    assert(nv == notes_of(s@, n as int));
    if out.len() >= 1 && notes.rows.len() < MAX_T {
        let mut row = Vec::new();
        std::mem::swap(&mut row, &mut notes.cur);
        notes.rows.push(row);
    }
    let ghost closed = close_row(out.len() as int, nv).rows;
    assert(notes.view().rows =~= closed);
    while notes.rows.len() < MAX_T
        invariant
            notes.rows.len() <= MAX_T,
            notes.wf(n as int),
            notes.pos@ == nv.pos,
            notes.vel@ == nv.vel,
            notes.pred_pos@ == nv.pred_pos,
            notes.dst@ == nv.dst,
            notes.claim@ == nv.claim,
            closed.len() <= notes.rows.len(),
            forall|t: int| 0 <= t < notes.rows.len() ==> #[trigger] notes.rows@[t]@ == est_row(closed, t),
        decreases MAX_T - notes.rows.len(),
    {
        notes.rows.push(Vec::new());
        assert(notes.rows@[notes.rows.len() - 1]@ =~= est_row(closed, notes.rows.len() - 1));
    }
    let mut gol: Vec<Vec<bool>> = Vec::new();
    let mut t: usize = 0;
    while t < MAX_T
        invariant
            t <= MAX_T,
            gol.len() == t,
            notes.wf(n as int),
            notes.rows.len() == MAX_T,
            notes.pos@ == nv.pos,
            notes.vel@ == nv.vel,
            notes.pred_pos@ == nv.pred_pos,
            notes.dst@ == nv.dst,
            notes.claim@ == nv.claim,
            forall|t: int| 0 <= t < notes.rows.len() ==> #[trigger] notes.rows@[t]@ == est_row(closed, t),
            forall|k: int| 0 <= k < t ==> #[trigger] gol@[k].len() == n,
            forall|k: int, g: int| 0 <= k < t && 0 <= g < n ==> #[trigger] gol@[k]@[g] == (nv.claim[g] <= k),
        decreases MAX_T - t,
    {
        let mut row: Vec<bool> = Vec::new();
        let mut g: usize = 0;
        while g < n
            invariant
                g <= n,
                row.len() == g,
                notes.claim.len() == n,
                notes.claim@ == nv.claim,
                forall|j: int| 0 <= j < g ==> #[trigger] row@[j] == (nv.claim[j] <= t),
            decreases n - g,
        {
            row.push(notes.claim[g] <= t);
            g = g + 1;
        }
        gol.push(row);
        t = t + 1;
    }
    Ok(Output {
        out,
        pos: notes.pos,
        vel: notes.vel,
        est: notes.rows,
        dst: notes.dst,
        gol,
        pred_pos: notes.pred_pos,
    })
}

proof fn lemma_scan_prefix(b: Seq<u8>, c: Seq<u8>, i: int, e: int)
    requires
        0 <= i <= e <= b.len(),
    ensures
        skip_ws(b + c, i, e) == skip_ws(b, i, e),
        word_end(b + c, i, e) == word_end(b, i, e),
    decreases e - i,
{
    if i < e {
        assert((b + c)[i] == b[i]);
        lemma_scan_prefix(b, c, i + 1, e);
    }
}

proof fn lemma_token_prefix(b: Seq<u8>, c: Seq<u8>, i: int, e: int)
    requires
        0 <= i <= e <= b.len(),
    ensures
        next_token(b + c, i, e) == next_token(b, i, e),
        tok(b + c, i, e) == tok(b, i, e),
        i <= after(b, i, e) <= e,
{
    lemma_scan_prefix(b, c, i, e);
    lemma_skip_ws_bounds(b, i, e);
    lemma_scan_prefix(b, c, skip_ws(b, i, e), e);
    lemma_word_end_bounds(b, skip_ws(b, i, e), e);
    assert(tok(b + c, i, e) =~= tok(b, i, e));
}

proof fn lemma_line_end_prefix(b: Seq<u8>, c: Seq<u8>, i: int)
    requires
        0 <= i <= b.len(),
        line_end(b, i) < b.len(),
    ensures
        line_end(b + c, i) == line_end(b, i),
    decreases b.len() - i,
{
    if b[i] != 10 {
        assert((b + c)[i] == b[i]);
        lemma_line_end_prefix(b, c, i + 1);
    }
}

/// A line reads the same whatever follows the text it ends.
proof fn lemma_line_prefix(b: Seq<u8>, c: Seq<u8>, i: int, e: int, turn: int, n: int)
    requires
        0 <= i <= e <= b.len(),
    ensures
        action_result(b + c, i, e) == action_result(b, i, e),
        action_line(b + c, i, e) == action_line(b, i, e),
        i < e && b[i] == 35 ==> comment_result(b + c, i, e, turn, n) == comment_result(b, i, e, turn, n),
        i < e && b[i] == 35 ==> comment_ok(b + c, i, e, turn, n) == comment_ok(b, i, e, turn, n),
{
    let k1 = after(b, i, e);
    lemma_token_prefix(b, c, i, e);
    lemma_token_prefix(b, c, k1, e);
    let k2 = after(b, k1, e);
    lemma_token_prefix(b, c, k2, e);
    let k3 = after(b, k2, e);
    lemma_token_prefix(b, c, k3, e);
    let a1 = next_token(b, i, e).0;
    lemma_skip_ws_bounds(b, i, e);
    if a1 < e {
        assert((b + c)[a1] == b[a1]);
    }
    lemma_word_end_bounds(b, a1, e);
    let a2 = next_token(b, i, e).1;
    assert((b + c).subrange(a1, a2) =~= b.subrange(a1, a2));
    if i < e && b[i] == 35 {
        lemma_comment_token(b, i, e);
        if a1 + 1 < e {
            assert((b + c)[a1 + 1] == b[a1 + 1]);
        }
    }
}

proof fn lemma_parse_lines_prefix(b: Seq<u8>, c: Seq<u8>, i: int, n: int, acts: Seq<Action>)
    requires
        0 <= i <= b.len(),
        b.len() > 0,
        b.last() == 10,
    ensures
        parse_lines(b, i, n, acts) matches Err(f) ==> parse_lines(b + c, i, n, acts) == Err::<Seq<Action>, Fault>(f),
        parse_lines(b, i, n, acts) matches Ok(r) ==> parse_lines(b + c, i, n, acts) == parse_lines(
            b + c,
            b.len() as int,
            n,
            r,
        ),
    decreases b.len() + 1 - i,
{
    lemma_line_end(b, i);
    let e = line_end(b, i);
    if e == b.len() {
        lemma_line_end_blank(b, i);
        assert(parse_lines(b, i, n, acts) == parse_lines(b, e + 1, n, acts));
    } else {
        lemma_line_end_prefix(b, c, i);
        lemma_line_prefix(b, c, i, e, acts.len() as int, n);
        if i < e {
            assert((b + c)[i] == b[i]);
        }
        if i < e && b[i] == 35 {
            if comment_ok(b, i, e, acts.len() as int, n) {
                lemma_parse_lines_prefix(b, c, e + 1, n, acts);
            }
        } else {
            match action_result(b, i, e) {
                Ok(Some(a)) => {
                    lemma_parse_lines_prefix(b, c, e + 1, n, acts.push(a));
                },
                Ok(None) => {
                    lemma_parse_lines_prefix(b, c, e + 1, n, acts);
                },
                Err(_) => {},
            }
        }
    }
}

proof fn lemma_parse_lines_grows(b: Seq<u8>, i: int, n: int, acts: Seq<Action>)
    ensures
        parse_lines(b, i, n, acts) matches Ok(r) ==> r.len() >= acts.len(),
    decreases b.len() + 1 - i,
{
    if 0 <= i <= b.len() {
        lemma_line_end(b, i);
        let e = line_end(b, i);
        if i < e && b[i] == 35 {
            lemma_parse_lines_grows(b, e + 1, n, acts);
        } else {
            match action_result(b, i, e) {
                Ok(Some(a)) => {
                    lemma_parse_lines_grows(b, e + 1, n, acts.push(a));
                },
                _ => {
                    lemma_parse_lines_grows(b, e + 1, n, acts);
                },
            }
        }
    }
}

/// The line that starts at the end of a text ending with a newline is blank.
proof fn lemma_line_end_blank(b: Seq<u8>, i: int)
    requires
        0 <= i <= b.len(),
        b.len() > 0,
        b.last() == 10,
        line_end(b, i) == b.len(),
    ensures
        i == b.len(),
    decreases b.len() - i,
{
    if i < b.len() {
        if b[i] != 10 {
            lemma_line_end_blank(b, i + 1);
        }
    }
}

/// Once a text that ends with a newline fails to read as a move sequence, no
/// text appended to it makes it read, and it fails with the same fault.
pub proof fn lemma_error_persists(b: Seq<u8>, c: Seq<u8>, n: int)
    requires
        b.len() > 0,
        b.last() == 10,
        actions_of(b, n) is Err,
    ensures
        actions_of(b + c, n) == actions_of(b, n),
{
    lemma_parse_lines_prefix(b, c, 0, n, Seq::empty());
}

/// A text that ends with a newline keeps its actions when text is appended to
/// it: appending gives a fault or at least as many actions, so a text with too
/// many actions never comes back under the limit.
pub proof fn lemma_actions_grow(b: Seq<u8>, c: Seq<u8>, n: int)
    requires
        b.len() > 0,
        b.last() == 10,
        actions_of(b, n) is Ok,
    ensures
        actions_of(b + c, n) matches Ok(more) ==> more.len() >= actions_of(b, n)->Ok_0.len(),
{
    lemma_parse_lines_prefix(b, c, 0, n, Seq::empty());
    lemma_parse_lines_grows(b + c, b.len() as int, n, actions_of(b, n)->Ok_0);
}

} // verus!
