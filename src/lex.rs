//! Splitting an expression into tokens, with variables resolved on the way.
use vstd::prelude::*;
use crate::env::{lookup, Env};
use crate::error::RfError;
use crate::rpn::{Op, Tok};
use crate::text::{
    alphabetic, alphanumeric, is_alphabetic, is_alphanumeric,
    digit_val, find_char, find_from, is_digit, is_whitespace, is_ws, parse_i64, parse_int, slice_of,
    string_of, trim, trim_range,
};
use crate::value::{int_of, lemma_list_model_index, lemma_list_model_len, Val, Value};

verus! {

/// The largest exponent magnitude that a literal's exponent counts with.
pub const EXP_CAP: u64 = 4096;

/// 2^63, where saturated digit accumulation stops.
pub const SAT: u128 = 0x8000_0000_0000_0000;

/// A letter or `_` starts a variable name.
pub open spec fn is_ident_start(c: char) -> bool {
    alphabetic(c) || c == '_'
}

/// A letter, a digit or `_` continues a variable name.
pub open spec fn is_ident_char(c: char) -> bool {
    alphanumeric(c) || c == '_'
}

/// The end of the run of identifier characters that starts at `i`.
pub open spec fn ident_end(s: Seq<char>, i: int) -> int
    decreases s.len() - i,
{
    if 0 <= i < s.len() && is_ident_char(s[i]) {
        ident_end(s, i + 1)
    } else {
        i
    }
}

/// The end of the run of digits that starts at `i`.
pub open spec fn digits_end(s: Seq<char>, i: int) -> int
    decreases s.len() - i,
{
    if 0 <= i < s.len() && is_digit(s[i]) {
        digits_end(s, i + 1)
    } else {
        i
    }
}

/// The end of a numeric literal: digits, at most one `.` before any exponent, and at most
/// one exponent marker `e`/`E` with an optional sign after it.
pub open spec fn number_end(s: Seq<char>, i: int, seen_e: bool, seen_dot: bool) -> int
    decreases s.len() - i,
{
    if i < 0 || i >= s.len() {
        i
    } else if is_digit(s[i]) {
        number_end(s, i + 1, seen_e, seen_dot)
    } else if (s[i] == 'e' || s[i] == 'E') && !seen_e {
        let j = if i + 1 < s.len() && (s[i + 1] == '+' || s[i + 1] == '-') {
            i + 2
        } else {
            i + 1
        };
        number_end(s, j, true, seen_dot)
    } else if s[i] == '.' && !seen_dot && !seen_e {
        number_end(s, i + 1, seen_e, true)
    } else {
        i
    }
}

/// The value of a digit character (0 for any other character).
pub open spec fn digit_of(c: char) -> nat {
    if is_digit(c) {
        digit_val(c) as nat
    } else {
        0
    }
}

/// The digit of `m` at `k`, with zeros past its end.
pub open spec fn digit_or_zero(m: Seq<char>, k: int) -> nat {
    if 0 <= k < m.len() {
        digit_of(m[k])
    } else {
        0
    }
}

/// Digits accumulated left to right, the total never growing past `cap`.
pub open spec fn capped_digits(s: Seq<char>, cap: nat) -> nat
    decreases s.len(),
{
    if s.len() == 0 {
        0
    } else {
        let v = capped_digits(s.drop_last(), cap) * 10 + digit_of(s.last());
        if v > cap {
            cap
        } else {
            v
        }
    }
}

/// The first `n` digits of `m` (zeros past its end) as a number, saturated at 2^63.
pub open spec fn shifted(m: Seq<char>, n: nat) -> nat
    decreases n,
{
    if n == 0 {
        0
    } else {
        let v = shifted(m, (n - 1) as nat) * 10 + digit_or_zero(m, n - 1);
        if v > SAT {
            SAT as nat
        } else {
            v
        }
    }
}

/// The value of a numeric literal that starts with a digit. Without `.` or an exponent it
/// is an integer and must fit in 64 bits. Otherwise it is truncated toward zero and
/// saturated at `i64::MAX`; an exponent marker needs digits after it, and an exponent
/// counts at most `EXP_CAP`.
pub open spec fn literal_value(lit: Seq<char>) -> Result<i64, RfError> {
    let int_end = digits_end(lit, 0);
    let dot = int_end < lit.len() && lit[int_end] == '.';
    let frac_at = if dot { int_end + 1 } else { int_end };
    let frac_end = digits_end(lit, frac_at);
    let has_e = frac_end < lit.len();
    let signed = has_e && frac_end + 1 < lit.len() && (lit[frac_end + 1] == '+' || lit[frac_end + 1] == '-');
    let neg = signed && lit[frac_end + 1] == '-';
    let exp_digits = if signed {
        lit.subrange(frac_end + 2, lit.len() as int)
    } else if has_e {
        lit.subrange(frac_end + 1, lit.len() as int)
    } else {
        Seq::empty()
    };
    if !dot && !has_e {
        match parse_i64(lit) {
            Some(n) => Ok(n),
            None => Err(RfError::BadNumber),
        }
    } else if has_e && exp_digits.len() == 0 {
        Err(RfError::BadFloat)
    } else {
        let mant = lit.subrange(0, int_end) + lit.subrange(frac_at, frac_end);
        let e: int = if has_e {
            capped_digits(exp_digits, EXP_CAP as nat) as int
        } else {
            0
        };
        let p = int_end + if neg { -e } else { e };
        if p <= 0 {
            Ok(0)
        } else if shifted(mant, p as nat) >= SAT {
            Ok(i64::MAX)
        } else {
            Ok(shifted(mant, p as nat) as i64)
        }
    }
}

/// The integer that `name[idx]` reads: the element of a list, counting from the end for a
/// negative index; 0 out of range, for a value that is not a list, or for an index that is
/// not an integer.
pub open spec fn index_value(v: Value, idx: Seq<char>) -> i64 {
    let index: int = match parse_i64(trim(idx)) {
        Some(n) => n as int,
        None => 0,
    };
    match v {
        Value::List(items) => {
            let at = if index < 0 { items.len() + index } else { index };
            if 0 <= at < items.len() {
                int_of(items[at])
            } else {
                0
            }
        },
        _ => 0,
    }
}

/// The two-character operator at `i`, if any.
pub open spec fn double_op(s: Seq<char>, i: int) -> Option<Op> {
    if i + 1 < s.len() && s[i] == '|' && s[i + 1] == '|' {
        Some(Op::Or)
    } else if i + 1 < s.len() && s[i] == '&' && s[i + 1] == '&' {
        Some(Op::And)
    } else if i + 1 < s.len() && s[i] == '<' && s[i + 1] == '=' {
        Some(Op::Le)
    } else if i + 1 < s.len() && s[i] == '>' && s[i + 1] == '=' {
        Some(Op::Ge)
    } else {
        None
    }
}

/// The one-character operator `c`, if it is one.
pub open spec fn single_op(c: char) -> Option<Op> {
    if c == '+' {
        Some(Op::Add)
    } else if c == '-' {
        Some(Op::Sub)
    } else if c == '*' {
        Some(Op::Mul)
    } else if c == '/' {
        Some(Op::Div)
    } else if c == '^' {
        Some(Op::Pow)
    } else if c == '(' {
        Some(Op::Open)
    } else if c == ')' {
        Some(Op::Close)
    } else if c == '%' {
        Some(Op::Rem)
    } else if c == '<' {
        Some(Op::Lt)
    } else if c == '>' {
        Some(Op::Gt)
    } else if c == '=' {
        Some(Op::Eq)
    } else {
        None
    }
}

/// `t` in front of the tokens of `rest`, or the error of `rest`.
pub open spec fn cons(t: Tok, rest: Result<Seq<Tok>, RfError>) -> Result<Seq<Tok>, RfError> {
    match rest {
        Ok(r) => Ok(seq![t] + r),
        Err(e) => Err(e),
    }
}

/// The tokens of `s` from position `i` on. A variable reads as its integer value (0 when
/// unbound); `name[idx]` reads a list element.
pub open spec fn lex_from(s: Seq<char>, env: Map<Seq<char>, Value>, i: int) -> Result<Seq<Tok>, RfError>
    decreases s.len() - i
    via lex_from_decreases
{
    if i < 0 || i >= s.len() {
        Ok(Seq::empty())
    } else {
        let c = s[i];
        if is_ws(c) {
            lex_from(s, env, i + 1)
        } else if is_digit(c) {
            let e = number_end(s, i, false, false);
            match literal_value(s.subrange(i, e)) {
                Ok(n) => cons(Tok::Num(n), lex_from(s, env, e)),
                Err(x) => Err(x),
            }
        } else if is_ident_start(c) {
            let e = ident_end(s, i + 1);
            let name = s.subrange(i, e);
            if e < s.len() && s[e] == '[' {
                let close = find_from(s, e + 1, ']');
                if close >= s.len() {
                    Err(RfError::UnclosedIndex)
                } else {
                    cons(
                        Tok::Num(index_value(lookup(env, name), s.subrange(e + 1, close))),
                        lex_from(s, env, close + 1),
                    )
                }
            } else {
                cons(Tok::Num(int_of(lookup(env, name))), lex_from(s, env, e))
            }
        } else {
            match double_op(s, i) {
                Some(op) => cons(Tok::Op(op), lex_from(s, env, i + 2)),
                None => match single_op(c) {
                    Some(op) => cons(Tok::Op(op), lex_from(s, env, i + 1)),
                    None => Err(RfError::UnexpectedChar { ch: c, pos: i as usize }),
                },
            }
        }
    }
}

#[via_fn]
proof fn lex_from_decreases(s: Seq<char>, env: Map<Seq<char>, Value>, i: int) {
    if 0 <= i < s.len() {
        let c = s[i];
        if is_digit(c) {
            lemma_number_end_bounds(s, i + 1, false, false);
        } else if is_ident_start(c) {
            lemma_ident_end_bounds(s, i + 1);
            let e = ident_end(s, i + 1);
            lemma_find_from_bounds(s, e + 1, ']');
        }
    }
}

proof fn lemma_ident_end_bounds(s: Seq<char>, i: int)
    requires
        0 <= i <= s.len(),
    ensures
        i <= ident_end(s, i) <= s.len(),
    decreases s.len() - i,
{
    if i < s.len() && is_ident_char(s[i]) {
        lemma_ident_end_bounds(s, i + 1);
    }
}

pub proof fn lemma_find_from_bounds(s: Seq<char>, i: int, c: char)
    requires
        0 <= i,
    ensures
        find_from(s, i, c) == s.len() || (i <= find_from(s, i, c) < s.len() && s[find_from(s, i, c)] == c),
        find_from(s, i, c) <= s.len(),
    decreases s.len() - i,
{
    if i < s.len() && s[i] != c {
        lemma_find_from_bounds(s, i + 1, c);
    }
}

proof fn lemma_number_end_bounds(s: Seq<char>, i: int, seen_e: bool, seen_dot: bool)
    requires
        0 <= i <= s.len(),
    ensures
        i <= number_end(s, i, seen_e, seen_dot) <= s.len(),
    decreases s.len() - i,
{
    if i < s.len() {
        if is_digit(s[i]) {
            lemma_number_end_bounds(s, i + 1, seen_e, seen_dot);
        } else if (s[i] == 'e' || s[i] == 'E') && !seen_e {
            let j = if i + 1 < s.len() && (s[i + 1] == '+' || s[i + 1] == '-') {
                i + 2
            } else {
                i + 1
            };
            lemma_number_end_bounds(s, j, true, seen_dot);
        } else if s[i] == '.' && !seen_dot && !seen_e {
            lemma_number_end_bounds(s, i + 1, seen_e, true);
        }
    }
}

fn number_end_at(s: &Vec<char>, i: usize) -> (r: usize)
    requires
        i < s.len(),
    ensures
        r == number_end(s@, i as int, false, false),
        i <= r <= s.len(),
{
    proof {
        lemma_number_end_bounds(s@, i as int, false, false);
    }
    let mut k = i;
    let mut seen_e = false;
    let mut seen_dot = false;
    while k < s.len()
        invariant
            i <= k <= s.len(),
            number_end(s@, i as int, false, false) == number_end(s@, k as int, seen_e, seen_dot),
        decreases s.len() - k,
    {
        let ch = s[k];
        if '0' <= ch && ch <= '9' {
            k = k + 1;
        } else if (ch == 'e' || ch == 'E') && !seen_e {
            seen_e = true;
            k = k + 1;
            if k < s.len() && (s[k] == '+' || s[k] == '-') {
                k = k + 1;
            }
        } else if ch == '.' && !seen_dot && !seen_e {
            seen_dot = true;
            k = k + 1;
        } else {
            assert(number_end(s@, k as int, seen_e, seen_dot) == k);
            return k;
        }
    }
    assert(number_end(s@, k as int, seen_e, seen_dot) == k);
    k
}

fn digits_end_at(s: &Vec<char>, i: usize) -> (r: usize)
    requires
        i <= s.len(),
    ensures
        r == digits_end(s@, i as int),
        i <= r <= s.len(),
        forall|k: int| i <= k < r ==> is_digit(#[trigger] s@[k]),
{
    let mut k = i;
    while k < s.len() && '0' <= s[k] && s[k] <= '9'
        invariant
            i <= k <= s.len(),
            digits_end(s@, i as int) == digits_end(s@, k as int),
            forall|j: int| i <= j < k ==> is_digit(#[trigger] s@[j]),
        decreases s.len() - k,
    {
        k = k + 1;
    }
    k
}

fn digit_at(c: char) -> (r: u64)
    ensures
        r == digit_of(c),
        r <= 9,
{
    if '0' <= c && c <= '9' {
        (c as u32 - '0' as u32) as u64
    } else {
        0
    }
}

/// `capped_digits` of `v[a..b]`.
fn capped_at(v: &Vec<char>, a: usize, b: usize, cap: u64) -> (r: u64)
    requires
        a <= b <= v.len(),
        cap <= 0xffff_ffff,
    ensures
        r as nat == capped_digits(v@.subrange(a as int, b as int), cap as nat),
        r <= cap,
{
    let mut e: u64 = 0;
    let mut k = a;
    assert(v@.subrange(a as int, a as int) =~= Seq::<char>::empty());
    while k < b
        invariant
            a <= k <= b <= v.len(),
            cap <= 0xffff_ffff,
            e as nat == capped_digits(v@.subrange(a as int, k as int), cap as nat),
            e <= cap,
        decreases b - k,
    {
        assert(v@.subrange(a as int, k + 1).drop_last() == v@.subrange(a as int, k as int));
        let x = e * 10 + digit_at(v[k]);
        e = if x > cap { cap } else { x };
        k = k + 1;
    }
    e
}

/// `shifted(m, p)`: the first `p` digits of `m`, saturated at 2^63.
fn shifted_at(m: &Vec<char>, p: u128) -> (r: u128)
    ensures
        r as nat == shifted(m@, p as nat),
        r <= SAT,
{
    let mut acc: u128 = 0;
    let mut k: u128 = 0;
    while k < p
        invariant
            k <= p,
            acc as nat == shifted(m@, k as nat),
            acc <= SAT,
        decreases p - k,
    {
        let d = if k < m.len() as u128 { digit_at(m[k as usize]) } else { 0 };
        let x = acc * 10 + d as u128;
        acc = if x > SAT { SAT } else { x };
        k = k + 1;
    }
    acc
}

/// The value of the numeric literal `s[a..b]`.
fn literal_at(s: &Vec<char>, a: usize, b: usize) -> (r: Result<i64, RfError>)
    requires
        a < b <= s.len(),
    ensures
        r == literal_value(s@.subrange(a as int, b as int)),
{
    let lit = slice_of(s, a, b);
    let n = lit.len();
    let int_end = digits_end_at(&lit, 0);
    let dot = int_end < n && lit[int_end] == '.';
    let frac_at = if dot { int_end + 1 } else { int_end };
    let frac_end = digits_end_at(&lit, frac_at);
    let has_e = frac_end < n;
    let signed = has_e && frac_end + 1 < n && (lit[frac_end + 1] == '+' || lit[frac_end + 1] == '-');
    let neg = signed && lit[frac_end + 1] == '-';
    let exp_at = if signed { frac_end + 2 } else if has_e { frac_end + 1 } else { n };
    if !dot && !has_e {
        let text = string_of(lit.as_slice());
        return match parse_int(text.as_str()) {
            Some(v) => Ok(v),
            None => Err(RfError::BadNumber),
        };
    }
    if has_e && exp_at >= n {
        return Err(RfError::BadFloat);
    }
    let e: u64 = if has_e { capped_at(&lit, exp_at, n, EXP_CAP) } else { 0 };
    // the decimal point moved by the exponent: how many leading digits form the integer part
    let p: i128 = if neg { int_end as i128 - e as i128 } else { int_end as i128 + e as i128 };
    if p <= 0 {
        return Ok(0);
    }
    let mut mant = slice_of(&lit, 0, int_end);
    let mut tail = slice_of(&lit, frac_at, frac_end);
    let ghost l = lit@;
    mant.append(&mut tail);
    assert(mant@ == l.subrange(0, int_end as int) + l.subrange(frac_at as int, frac_end as int));
    let acc = shifted_at(&mant, p as u128);
    if acc >= SAT {
        Ok(i64::MAX)
    } else {
        Ok(acc as i64)
    }
}

/// The tokens, or the error, of a token vector result.
pub open spec fn tokens_result(r: Result<Vec<Tok>, RfError>) -> Result<Seq<Tok>, RfError> {
    match r {
        Ok(v) => Ok(v@),
        Err(e) => Err(e),
    }
}

/// `p` in front of the tokens of `rest`, or the error of `rest`.
pub open spec fn prepend(p: Seq<Tok>, rest: Result<Seq<Tok>, RfError>) -> Result<Seq<Tok>, RfError> {
    match rest {
        Ok(r) => Ok(p + r),
        Err(e) => Err(e),
    }
}

/// The integer that `name[idx]` reads, with `idx` the text `s[a..b]`.
fn index_at(env: &Env, name: &String, s: &Vec<char>, a: usize, b: usize) -> (r: i64)
    requires
        env.wf(),
        a <= b <= s.len(),
    ensures
        r == index_value(lookup(env@, name@), s@.subrange(a as int, b as int)),
{
    let (lo, hi) = trim_range(s, a, b);
    let t = slice_of(s, lo, hi);
    let text = string_of(t.as_slice());
    let index: i64 = match parse_int(text.as_str()) {
        Some(n) => n,
        None => 0,
    };
    match env.lookup(name) {
        Some(v) => match v {
            Val::List(items) => {
                proof {
                    lemma_list_model_len(*items, items.len() as nat);
                }
                let len = items.len() as i128;
                let at: i128 = if index < 0 { len + index as i128 } else { index as i128 };
                if 0 <= at && at < len {
                    proof {
                        lemma_list_model_index(*items, at as nat);
                    }
                    items[at as usize].as_i64()
                } else {
                    0
                }
            },
            _ => 0,
        },
        None => 0,
    }
}

/// What one scanning step at `i` yields: the next position, with the token read, if any.
pub open spec fn step_ok(s: Seq<char>, env: Map<Seq<char>, Value>, i: int, t: Option<Tok>, j: int) -> bool {
    i < j <= s.len() && lex_from(s, env, i) == match t {
        Some(t) => cons(t, lex_from(s, env, j)),
        None => lex_from(s, env, j),
    }
}

/// The identifier (and index) that starts at `i`.
fn lex_ident(s: &Vec<char>, env: &Env, i: usize) -> (r: Result<(Tok, usize), RfError>)
    requires
        env.wf(),
        i < s.len(),
        !is_ws(s@[i as int]),
        !is_digit(s@[i as int]),
        is_ident_start(s@[i as int]),
    ensures
        r matches Ok((t, j)) ==> step_ok(s@, env@, i as int, Some(t), j as int),
        r matches Err(e) ==> lex_from(s@, env@, i as int) == Err::<Seq<Tok>, RfError>(e),
{
    let n = s.len();
    let mut e = i + 1;
    while e < n && (is_alphanumeric(s[e]) || s[e] == '_')
        invariant
            i < e <= n == s.len(),
            ident_end(s@, i + 1) == ident_end(s@, e as int),
        decreases n - e,
    {
        e = e + 1;
    }
    let nm = slice_of(s, i, e);
    let name = string_of(nm.as_slice());
    if e < n && s[e] == '[' {
        let close = find_char(s, e + 1, ']');
        if close >= n {
            return Err(RfError::UnclosedIndex);
        }
        let v = index_at(env, &name, s, e + 1, close);
        Ok((Tok::Num(v), close + 1))
    } else {
        let v = match env.lookup(&name) {
            Some(x) => x.as_i64(),
            None => 0,
        };
        Ok((Tok::Num(v), e))
    }
}

/// The operator that starts at `i`.
fn lex_op(s: &Vec<char>, env: &Env, i: usize) -> (r: Result<(Tok, usize), RfError>)
    requires
        i < s.len(),
        !is_ws(s@[i as int]),
        !is_digit(s@[i as int]),
        !is_ident_start(s@[i as int]),
    ensures
        r matches Ok((t, j)) ==> step_ok(s@, env@, i as int, Some(t), j as int),
        r matches Err(e) ==> lex_from(s@, env@, i as int) == Err::<Seq<Tok>, RfError>(e),
{
    let n = s.len();
    let c = s[i];
    if i + 1 < n {
        let d = s[i + 1];
        if c == '|' && d == '|' {
            return Ok((Tok::Op(Op::Or), i + 2));
        } else if c == '&' && d == '&' {
            return Ok((Tok::Op(Op::And), i + 2));
        } else if c == '<' && d == '=' {
            return Ok((Tok::Op(Op::Le), i + 2));
        } else if c == '>' && d == '=' {
            return Ok((Tok::Op(Op::Ge), i + 2));
        }
    }
    let one = if c == '+' {
        Some(Op::Add)
    } else if c == '-' {
        Some(Op::Sub)
    } else if c == '*' {
        Some(Op::Mul)
    } else if c == '/' {
        Some(Op::Div)
    } else if c == '^' {
        Some(Op::Pow)
    } else if c == '(' {
        Some(Op::Open)
    } else if c == ')' {
        Some(Op::Close)
    } else if c == '%' {
        Some(Op::Rem)
    } else if c == '<' {
        Some(Op::Lt)
    } else if c == '>' {
        Some(Op::Gt)
    } else if c == '=' {
        Some(Op::Eq)
    } else {
        None
    };
    match one {
        Some(op) => Ok((Tok::Op(op), i + 1)),
        None => Err(RfError::UnexpectedChar { ch: c, pos: i }),
    }
}

/// Splits an expression into tokens; variables are read from `env` as they are met.
pub fn tokenize(s: &Vec<char>, env: &Env) -> (r: Result<Vec<Tok>, RfError>)
    requires
        env.wf(),
    ensures
        tokens_result(r) == lex_from(s@, env@, 0),
{
    let mut out: Vec<Tok> = Vec::new();
    let mut i: usize = 0;
    let n = s.len();
    assert(out@ + Seq::<Tok>::empty() =~= out@);
    while i < n
        invariant
            n == s.len(),
            i <= n,
            env.wf(),
            lex_from(s@, env@, 0) == prepend(out@, lex_from(s@, env@, i as int)),
        decreases n - i,
    {
        let c = s[i];
        let step = if is_whitespace(c) {
            Ok((None, i + 1))
        } else if '0' <= c && c <= '9' {
            let e = number_end_at(s, i);
            proof {
                lemma_number_end_bounds(s@, i + 1, false, false);
            }
            match literal_at(s, i, e) {
                Ok(v) => Ok((Some(Tok::Num(v)), e)),
                Err(x) => Err(x),
            }
        } else if is_alphabetic(c) || c == '_' {
            match lex_ident(s, env, i) {
                Ok((t, j)) => Ok((Some(t), j)),
                Err(x) => Err(x),
            }
        } else {
            match lex_op(s, env, i) {
                Ok((t, j)) => Ok((Some(t), j)),
                Err(x) => Err(x),
            }
        };
        match step {
            Err(x) => {
                return Err(x);
            },
            Ok((t, j)) => {
                assert(step_ok(s@, env@, i as int, t, j as int));
                match t {
                    Some(t) => {
                        let ghost before = out@;
                        out.push(t);
                        assert(before + (seq![t] + lex_from(s@, env@, j as int).unwrap()) =~= out@ + lex_from(s@, env@, j as int).unwrap());
                    },
                    None => {},
                }
                i = j;
            },
        }
    }
    assert(out@ + Seq::<Tok>::empty() =~= out@);
    Ok(out)
}

} // verus!
