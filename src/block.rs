//! Running a block of source text: comments, if-chains, loops and send statements,
//! scanned from the text as they are met.
use vstd::prelude::*;
use crate::env::Env;
use crate::error::RfError;
use crate::eval::{eval_expr, eval_value};
use crate::lex::lemma_find_from_bounds;
use crate::stmt::{after_print, assign_all, exec_stmt, lines, send_effect, target_names};
use crate::text::{find_char, find_from, is_whitespace, is_ws, slice_of, string_of, trim, trim_range};
use crate::value::{int_of, Val, Value};

verus! {

/// How a run ends: with the final bindings and output, or with an error together with the
/// bindings and the output as they stood when it stopped.
pub enum Outcome {
    Done(Map<Seq<char>, Value>, Seq<Seq<char>>),
    Failed(RfError, Map<Seq<char>, Value>, Seq<Seq<char>>),
}

/// The first position at or after `i` that is not whitespace.
pub open spec fn skip_ws(s: Seq<char>, i: int) -> int
    decreases s.len() - i,
{
    if 0 <= i < s.len() && is_ws(s[i]) {
        skip_ws(s, i + 1)
    } else {
        i
    }
}

/// The `}` that closes a block whose body starts at `k`, at nesting `depth`; the length
/// when it is never closed.
pub open spec fn match_close(s: Seq<char>, k: int, depth: nat) -> int
    decreases s.len() - k,
{
    if k < 0 || k >= s.len() {
        s.len() as int
    } else if s[k] == '{' {
        match_close(s, k + 1, depth + 1)
    } else if s[k] == '}' {
        if depth <= 1 {
            k
        } else {
            match_close(s, k + 1, (depth - 1) as nat)
        }
    } else {
        match_close(s, k + 1, depth)
    }
}

/// The number of line breaks in `s`.
pub open spec fn newlines(s: Seq<char>) -> nat
    decreases s.len(),
{
    if s.len() == 0 {
        0
    } else {
        newlines(s.drop_last()) + if s.last() == '\n' { 1nat } else { 0nat }
    }
}

/// The error for a block opened at `open` and never closed.
pub open spec fn unclosed(s: Seq<char>, open: int) -> RfError {
    RfError::UnclosedBlock {
        open_line: (newlines(s.subrange(0, open)) + 1) as usize,
        line: (newlines(s) + 1) as usize,
    }
}

/// Whether a clause of an if-chain starts at `p`: `?`, `!?` or `!!`.
pub open spec fn clause_at(s: Seq<char>, p: int) -> bool {
    0 <= p < s.len() && (s[p] == '?' || (s[p] == '!' && p + 1 < s.len() && (s[p + 1] == '?' || s[p
        + 1] == '!')))
}

/// Where the header of the clause at `p` ends: its condition text starts after the opener.
pub open spec fn clause_head(s: Seq<char>, p: int) -> int {
    skip_ws(s, if s[p] == '?' { p + 1 } else { p + 2 })
}

/// Whether the clause at `p` is an `else` (`!!`), which has no condition.
pub open spec fn is_else(s: Seq<char>, p: int) -> bool {
    s[p] == '!' && s[p + 1] == '!'
}

/// The position of the clause's `{` (or where one was expected).
pub open spec fn clause_brace(s: Seq<char>, p: int) -> int {
    if is_else(s, p) {
        clause_head(s, p)
    } else {
        find_from(s, clause_head(s, p), '{')
    }
}

/// Where scanning of the if-chain whose clause starts at `p` stops.
pub open spec fn chain_end(s: Seq<char>, p: int) -> int
    decreases s.len() - p
    via chain_end_decreases
{
    let b = clause_brace(s, p);
    let close = match_close(s, b + 1, 1);
    let next = skip_ws(s, close + 1);
    if !clause_at(s, p) {
        p
    } else if b >= s.len() || s[b] != '{' || close >= s.len() {
        s.len() as int
    } else if clause_at(s, next) {
        chain_end(s, next)
    } else {
        next
    }
}

#[via_fn]
proof fn chain_end_decreases(s: Seq<char>, p: int) {
    lemma_chain_step(s, p);
}

proof fn lemma_skip_ws_bounds(s: Seq<char>, i: int)
    requires
        0 <= i,
    ensures
        i <= skip_ws(s, i),
        i <= s.len() ==> skip_ws(s, i) <= s.len(),
        skip_ws(s, i) < s.len() ==> !is_ws(s[skip_ws(s, i)]),
    decreases s.len() - i,
{
    if 0 <= i < s.len() && is_ws(s[i]) {
        lemma_skip_ws_bounds(s, i + 1);
    }
}

proof fn lemma_match_close_bounds(s: Seq<char>, k: int, depth: nat)
    requires
        0 <= k,
    ensures
        k <= match_close(s, k, depth) || match_close(s, k, depth) == s.len(),
        match_close(s, k, depth) <= s.len() || k > s.len(),
        match_close(s, k, depth) < s.len() ==> s[match_close(s, k, depth)] == '}',
    decreases s.len() - k,
{
    if 0 <= k < s.len() {
        if s[k] == '{' {
            lemma_match_close_bounds(s, k + 1, depth + 1);
        } else if s[k] == '}' {
            if depth > 1 {
                lemma_match_close_bounds(s, k + 1, (depth - 1) as nat);
            }
        } else {
            lemma_match_close_bounds(s, k + 1, depth);
        }
    }
}

/// The positions of a well-formed clause advance past it.
proof fn lemma_chain_step(s: Seq<char>, p: int)
    ensures
        clause_at(s, p) && clause_brace(s, p) < s.len() && match_close(s, clause_brace(s, p) + 1, 1)
            < s.len() ==> {
            let b = clause_brace(s, p);
            let close = match_close(s, b + 1, 1);
            p < b < close && p < skip_ws(s, close + 1) <= s.len()
        },
{
    if clause_at(s, p) {
        let h0 = if s[p] == '?' { p + 1 } else { p + 2 };
        lemma_skip_ws_bounds(s, h0);
        let h = clause_head(s, p);
        lemma_find_from_bounds(s, h, '{');
        let b = clause_brace(s, p);
        if b < s.len() {
            lemma_match_close_bounds(s, b + 1, 1);
            let close = match_close(s, b + 1, 1);
            lemma_skip_ws_bounds(s, close + 1);
        }
    }
}

/// The first position at or after `k` that holds `;` or a line break, or the length.
pub open spec fn targets_stop(s: Seq<char>, k: int) -> int
    decreases s.len() - k,
{
    if k < 0 || k >= s.len() || s[k] == ';' || s[k] == '\n' {
        if k < 0 { s.len() as int } else { k }
    } else {
        targets_stop(s, k + 1)
    }
}

/// Where the loop header that follows the `*` at `p` has its `{`.
pub open spec fn loop_brace(s: Seq<char>, p: int) -> int {
    let j = skip_ws(s, p + 1);
    if j < s.len() && s[j] == '?' {
        find_from(s, skip_ws(s, j + 1), '{')
    } else {
        find_from(s, j, '{')
    }
}

/// Where the text send whose literal opens at `p` ends.
pub open spec fn text_send_end(s: Seq<char>, p: int) -> int {
    let close = find_from(s, p + 1, '"');
    let j = skip_ws(s, close + 1);
    let j2 = skip_ws(s, j + 1);
    let k = if j < s.len() && s[j] == '>' {
        if j2 < s.len() && s[j2] == '.' {
            j2 + 1
        } else {
            targets_stop(s, skip_ws(s, j2))
        }
    } else {
        j
    };
    if close >= s.len() {
        s.len() as int
    } else if k < s.len() && s[k] == ';' {
        k + 1
    } else {
        k
    }
}

/// Where the construct that starts at the non-blank position `p` ends.
pub open spec fn construct_end(s: Seq<char>, p: int) -> int {
    let c = s[p];
    if c == '@' {
        find_from(s, p, '\n')
    } else if clause_at(s, p) {
        chain_end(s, p)
    } else if c == '"' {
        text_send_end(s, p)
    } else if c == '*' {
        let b = loop_brace(s, p);
        let close = match_close(s, b + 1, 1);
        if b >= s.len() || close >= s.len() {
            s.len() as int
        } else {
            close + 1
        }
    } else {
        let k = find_from(s, p, ';');
        if k < s.len() {
            k + 1
        } else {
            k
        }
    }
}

/// What the text send whose literal opens at `p` does: `"t" > .` prints `t`,
/// `"t" > a, b` binds each name to the text.
pub open spec fn text_send_effect(
    s: Seq<char>,
    p: int,
    env: Map<Seq<char>, Value>,
    out: Seq<Seq<char>>,
) -> Outcome {
    let close = find_from(s, p + 1, '"');
    let lit = s.subrange(p + 1, close);
    let j = skip_ws(s, close + 1);
    let j2 = skip_ws(s, j + 1);
    if close >= s.len() {
        Outcome::Failed(RfError::UnterminatedText, env, out)
    } else if j < s.len() && s[j] == '>' {
        if j2 < s.len() && s[j2] == '.' {
            Outcome::Done(env, out.push(lit))
        } else {
            let t0 = skip_ws(s, j2);
            let names = target_names(trim(s.subrange(t0, targets_stop(s, t0))), 0);
            match assign_all(env, names, Value::Text(lit), None) {
                Ok(m) => Outcome::Done(m, out),
                Err(e) => Outcome::Failed(e, env, out),
            }
        }
    } else {
        Outcome::Done(env, out)
    }
}

/// The name of the implicit loop counter.
pub open spec fn counter() -> Seq<char> {
    seq!['_']
}

/// A block run from position `i` on, against bindings `env`, after output `out`.
/// A conditional loop may iterate at most `limit` times.
pub open spec fn run_from(
    s: Seq<char>,
    i: int,
    env: Map<Seq<char>, Value>,
    out: Seq<Seq<char>>,
    limit: nat,
) -> Outcome
    decreases s.len(), 2int, s.len() - i
    via run_from_decreases
{
    let p = skip_ws(s, i);
    if i < 0 || p >= s.len() {
        Outcome::Done(env, out)
    } else {
        match construct_effect(s, p, env, out, limit) {
            Outcome::Failed(e, m, o) => Outcome::Failed(e, m, o),
            Outcome::Done(m, o) => run_from(s, construct_end(s, p), m, o, limit),
        }
    }
}

/// What the construct at the non-blank position `p` does.
pub open spec fn construct_effect(
    s: Seq<char>,
    p: int,
    env: Map<Seq<char>, Value>,
    out: Seq<Seq<char>>,
    limit: nat,
) -> Outcome
    decreases s.len(), 1int, 0int
    via construct_effect_decreases
{
    if p < 0 || p >= s.len() {
        Outcome::Done(env, out)
    } else if s[p] == '@' {
        Outcome::Done(env, out)
    } else if clause_at(s, p) {
        chain_effect(s, p, env, out, false, limit)
    } else if s[p] == '"' {
        text_send_effect(s, p, env, out)
    } else if s[p] == '*' {
        let j = skip_ws(s, p + 1);
        let b = loop_brace(s, p);
        let close = match_close(s, b + 1, 1);
        if j < s.len() && s[j] == '?' {
            let c0 = skip_ws(s, j + 1);
            if b >= s.len() {
                Outcome::Failed(RfError::ExpectedBrace, env, out)
            } else if close >= s.len() {
                Outcome::Failed(unclosed(s, b), env, out)
            } else {
                while_effect(s.subrange(c0, b), s.subrange(b + 1, close), 0, env, out, limit)
            }
        } else {
            match eval_value(s.subrange(j, b), env) {
                Err(e) => Outcome::Failed(e, env, out),
                Ok(v) => if b >= s.len() {
                    Outcome::Failed(RfError::ExpectedBrace, env, out)
                } else if close >= s.len() {
                    Outcome::Failed(unclosed(s, b), env, out)
                } else {
                    count_effect(s.subrange(b + 1, close), 0, (int_of(v) as u64) as nat, env, out, limit)
                },
            }
        }
    } else {
        match send_effect(s.subrange(p, find_from(s, p, ';')), env) {
            Err(e) => Outcome::Failed(e, env, out),
            Ok((m, line)) => Outcome::Done(m, after_print(out, line)),
        }
    }
}

/// The if-chain from its clause at `p` on; `matched` tells whether an earlier clause ran.
/// Every condition is evaluated; only the first true clause (or the else) runs its body.
pub open spec fn chain_effect(
    s: Seq<char>,
    p: int,
    env: Map<Seq<char>, Value>,
    out: Seq<Seq<char>>,
    matched: bool,
    limit: nat,
) -> Outcome
    decreases s.len(), 0int, s.len() - p
    via chain_effect_decreases
{
    let b = clause_brace(s, p);
    let close = match_close(s, b + 1, 1);
    let cond: Result<bool, RfError> = if !clause_at(s, p) || is_else(s, p) {
        Ok(true)
    } else {
        match eval_value(s.subrange(clause_head(s, p), b), env) {
            Ok(v) => Ok(int_of(v) != 0),
            Err(e) => Err(e),
        }
    };
    if !clause_at(s, p) {
        if 0 <= p < s.len() && s[p] == '!' {
            Outcome::Failed(RfError::InvalidIfClause, env, out)
        } else {
            Outcome::Done(env, out)
        }
    } else {
        match cond {
            Err(e) => Outcome::Failed(e, env, out),
            Ok(truth) => if b >= s.len() || s[b] != '{' {
                Outcome::Failed(RfError::ExpectedBrace, env, out)
            } else if close >= s.len() {
                Outcome::Failed(unclosed(s, b), env, out)
            } else {
                let ran = if !matched && truth {
                    run_from(s.subrange(b + 1, close), 0, env, out, limit)
                } else {
                    Outcome::Done(env, out)
                };
                match ran {
                    Outcome::Failed(e, m, o) => Outcome::Failed(e, m, o),
                    Outcome::Done(m, o) => {
                        let next = skip_ws(s, close + 1);
                        if clause_at(s, next) {
                            chain_effect(s, next, m, o, matched || truth, limit)
                        } else {
                            Outcome::Done(m, o)
                        }
                    },
                }
            },
        }
    }
}

/// A conditional loop from iteration `idx` on: `_` is set to the count before each test.
pub open spec fn while_effect(
    cond: Seq<char>,
    body: Seq<char>,
    idx: nat,
    env: Map<Seq<char>, Value>,
    out: Seq<Seq<char>>,
    limit: nat,
) -> Outcome
    decreases body.len(), 3int, limit - idx
{
    if idx >= limit {
        Outcome::Failed(RfError::IterationLimit, env, out)
    } else {
        let e1 = env.insert(counter(), Value::Int(idx as i64));
        match eval_value(cond, e1) {
            Err(e) => Outcome::Failed(e, e1, out),
            Ok(v) => if int_of(v) == 0 {
                Outcome::Done(e1, out)
            } else {
                match run_from(body, 0, e1, out, limit) {
                    Outcome::Failed(e, m, o) => Outcome::Failed(e, m, o),
                    Outcome::Done(m, o) => while_effect(cond, body, idx + 1, m, o, limit),
                }
            },
        }
    }
}

/// A counted loop from iteration `idx` to `n`, with `_` set to the count.
pub open spec fn count_effect(
    body: Seq<char>,
    idx: nat,
    n: nat,
    env: Map<Seq<char>, Value>,
    out: Seq<Seq<char>>,
    limit: nat,
) -> Outcome
    decreases body.len(), 3int, n - idx
{
    if idx >= n {
        Outcome::Done(env, out)
    } else {
        let e1 = env.insert(counter(), Value::Int(idx as i64));
        match run_from(body, 0, e1, out, limit) {
            Outcome::Failed(e, m, o) => Outcome::Failed(e, m, o),
            Outcome::Done(m, o) => count_effect(body, idx + 1, n, m, o, limit),
        }
    }
}

#[via_fn]
proof fn run_from_decreases(
    s: Seq<char>,
    i: int,
    env: Map<Seq<char>, Value>,
    out: Seq<Seq<char>>,
    limit: nat,
) {
    if i >= 0 {
        lemma_skip_ws_bounds(s, i);
        let p = skip_ws(s, i);
        if p < s.len() {
            lemma_construct_end(s, p);
        }
    }
}

#[via_fn]
proof fn construct_effect_decreases(
    s: Seq<char>,
    p: int,
    env: Map<Seq<char>, Value>,
    out: Seq<Seq<char>>,
    limit: nat,
) {
    if 0 <= p < s.len() {
        lemma_loop_brace(s, p);
        let b = loop_brace(s, p);
        if b < s.len() {
            lemma_match_close_bounds(s, b + 1, 1);
        }
    }
}

#[via_fn]
proof fn chain_effect_decreases(
    s: Seq<char>,
    p: int,
    env: Map<Seq<char>, Value>,
    out: Seq<Seq<char>>,
    matched: bool,
    limit: nat,
) {
    lemma_chain_step(s, p);
}

proof fn lemma_loop_brace(s: Seq<char>, p: int)
    requires
        0 <= p < s.len(),
    ensures
        p < loop_brace(s, p) <= s.len(),
{
    lemma_skip_ws_bounds(s, p + 1);
    let j = skip_ws(s, p + 1);
    if j < s.len() && s[j] == '?' {
        lemma_skip_ws_bounds(s, j + 1);
        lemma_find_from_bounds(s, skip_ws(s, j + 1), '{');
    } else {
        lemma_find_from_bounds(s, j, '{');
    }
}

proof fn lemma_targets_stop(s: Seq<char>, k: int)
    requires
        0 <= k <= s.len(),
    ensures
        k <= targets_stop(s, k) <= s.len(),
    decreases s.len() - k,
{
    if k < s.len() && s[k] != ';' && s[k] != '\n' {
        lemma_targets_stop(s, k + 1);
    }
}

proof fn lemma_chain_end(s: Seq<char>, p: int)
    requires
        clause_at(s, p),
    ensures
        p < chain_end(s, p) <= s.len(),
    decreases s.len() - p,
{
    lemma_chain_step(s, p);
    let b = clause_brace(s, p);
    let close = match_close(s, b + 1, 1);
    if b < s.len() && s[b] == '{' && close < s.len() {
        let next = skip_ws(s, close + 1);
        if clause_at(s, next) {
            lemma_chain_end(s, next);
        }
    }
}

/// Every construct moves the scan forward.
pub proof fn lemma_construct_end(s: Seq<char>, p: int)
    requires
        0 <= p < s.len(),
    ensures
        p < construct_end(s, p) <= s.len(),
{
    let c = s[p];
    if c == '@' {
        lemma_find_from_bounds(s, p, '\n');
    } else if clause_at(s, p) {
        lemma_chain_end(s, p);
    } else if c == '"' {
        lemma_find_from_bounds(s, p + 1, '"');
        let close = find_from(s, p + 1, '"');
        if close < s.len() {
            lemma_skip_ws_bounds(s, close + 1);
            let j = skip_ws(s, close + 1);
            if j < s.len() {
                lemma_skip_ws_bounds(s, j + 1);
                let j2 = skip_ws(s, j + 1);
                lemma_skip_ws_bounds(s, j2);
                lemma_targets_stop(s, skip_ws(s, j2));
            }
        }
    } else if c == '*' {
        lemma_loop_brace(s, p);
        let b = loop_brace(s, p);
        if b < s.len() {
            lemma_match_close_bounds(s, b + 1, 1);
        }
    } else {
        lemma_find_from_bounds(s, p, ';');
    }
}

/// Whether a run ended as the outcome says: the result, the bindings and the output.
pub open spec fn ends_as(o: Outcome, r: Result<(), RfError>, env: Env, out: Seq<String>) -> bool {
    match o {
        Outcome::Done(m, l) => r is Ok && env@ == m && lines(out) == l,
        Outcome::Failed(e, m, l) => r == Err::<(), RfError>(e) && env@ == m && lines(out) == l,
    }
}

/// Moves `i` past whitespace.
pub fn skip_ws_bytes(b: &Vec<char>, i: &mut usize)
    requires
        *old(i) <= b.len(),
    ensures
        *final(i) == skip_ws(b@, *old(i) as int),
        *old(i) <= *final(i) <= b.len(),
{
    let start = *i;
    while *i < b.len() && is_whitespace(b[*i])
        invariant
            start <= *i <= b.len(),
            skip_ws(b@, start as int) == skip_ws(b@, *i as int),
        decreases b.len() - *i,
    {
        *i = *i + 1;
    }
}

/// The number of line breaks in `s[0..b]`.
pub fn count_newlines(s: &Vec<char>, b: usize) -> (r: usize)
    requires
        b <= s.len(),
    ensures
        r == newlines(s@.subrange(0, b as int)),
        r <= b,
        r == b ==> forall|j: int| 0 <= j < b ==> s@[j] == '\n',
{
    let mut n: usize = 0;
    let mut k: usize = 0;
    while k < b
        invariant
            k <= b <= s.len(),
            n == newlines(s@.subrange(0, k as int)),
            n <= k,
            n == k ==> forall|j: int| 0 <= j < k ==> s@[j] == '\n',
        decreases b - k,
    {
        assert(s@.subrange(0, k + 1).drop_last() == s@.subrange(0, k as int));
        if s[k] == '\n' {
            n = n + 1;
        }
        k = k + 1;
    }
    n
}

/// The body of the block whose `{` is at `i`, and the position after its `}`.
pub fn extract_braced_block(s: &Vec<char>, i: usize) -> (r: Result<(Vec<char>, usize), RfError>)
    requires
        i < s.len(),
    ensures
        s@[i as int] != '{' ==> r == Err::<(Vec<char>, usize), RfError>(RfError::ExpectedBrace),
        s@[i as int] == '{' ==> match r {
            Ok((body, j)) => j - 1 == match_close(s@, i + 1, 1) && i < j - 1 < s.len() && body@
                == s@.subrange(i + 1, j - 1),
            Err(e) => match_close(s@, i + 1, 1) >= s.len() && e == unclosed(s@, i as int),
        },
{
    if s[i] != '{' {
        return Err(RfError::ExpectedBrace);
    }
    proof {
        lemma_match_close_bounds(s@, i + 1, 1);
    }
    let mut depth: usize = 1;
    let mut k = i + 1;
    while k < s.len()
        invariant
            i < k <= s.len(),
            s@[i as int] == '{',
            1 <= depth <= k - i,
            match_close(s@, i + 1, 1) == match_close(s@, k as int, depth as nat),
        decreases s.len() - k,
    {
        if s[k] == '{' {
            depth = depth + 1;
        } else if s[k] == '}' {
            if depth == 1 {
                return Ok((slice_of(s, i + 1, k), k + 1));
            }
            depth = depth - 1;
        }
        k = k + 1;
    }
    let open_line = count_newlines(s, i);
    let line = count_newlines(s, s.len());
    assert(s@.subrange(0, s.len() as int) == s@);
    Err(RfError::UnclosedBlock { open_line: open_line + 1, line: line + 1 })
}

/// The text literal whose opening quote is at `i`, and the position after its closing quote.
pub fn extract_string(s: &Vec<char>, i: usize) -> (r: Result<(String, usize), RfError>)
    requires
        i < s.len(),
    ensures
        s@[i as int] != '"' ==> r == Err::<(String, usize), RfError>(RfError::NotAString),
        s@[i as int] == '"' ==> match r {
            Ok((lit, j)) => j - 1 == find_from(s@, i + 1, '"') && i < j - 1 < s.len() && lit@
                == s@.subrange(i + 1, j - 1),
            Err(e) => e == RfError::UnterminatedText && find_from(s@, i + 1, '"') >= s.len(),
        },
{
    if s[i] != '"' {
        return Err(RfError::NotAString);
    }
    let close = find_char(s, i + 1, '"');
    if close >= s.len() {
        return Err(RfError::UnterminatedText);
    }
    Ok((string_of(slice_of(s, i + 1, close).as_slice()), close + 1))
}

/// The comma-separated names that follow `i` up to a `;` or a line break, and where they
/// stop.
pub fn extract_targets(s: &Vec<char>, i: usize) -> (r: (Vec<Vec<char>>, usize))
    requires
        i <= s.len(),
    ensures
        r.0@.map_values(|x: Vec<char>| x@) == target_names(
            trim(s@.subrange(skip_ws(s@, i as int), targets_stop(s@, skip_ws(s@, i as int)))),
            0,
        ),
        r.1 == targets_stop(s@, skip_ws(s@, i as int)),
        r.1 <= s.len(),
{
    let n = s.len();
    let mut t0 = i;
    skip_ws_bytes(s, &mut t0);
    let mut stop = t0;
    while stop < n && s[stop] != ';' && s[stop] != '\n'
        invariant
            t0 <= stop <= n == s.len(),
            targets_stop(s@, t0 as int) == targets_stop(s@, stop as int),
        decreases n - stop,
    {
        stop = stop + 1;
    }
    let (lo, hi) = trim_range(s, t0, stop);
    let raw = slice_of(s, lo, hi);
    (crate::stmt::names_at(&raw), stop)
}

/// The text send whose literal opens at `p`; returns where it ends.
fn text_send(s: &Vec<char>, p: usize, env: &mut Env, out: &mut Vec<String>) -> (r: Result<usize, RfError>)
    requires
        p < s.len(),
        s@[p as int] == '"',
        old(env).wf(),
    ensures
        final(env).wf(),
        ends_as(text_send_effect(s@, p as int, old(env)@, lines(old(out)@)), match r {
            Ok(_) => Ok(()),
            Err(e) => Err(e),
        }, *final(env), final(out)@),
        r matches Ok(k) ==> k == text_send_end(s@, p as int),
{
    let n = s.len();
    let (lit, after) = match extract_string(s, p) {
        Ok(x) => x,
        Err(e) => {
            return Err(e);
        },
    };
    let mut j = after;
    skip_ws_bytes(s, &mut j);
    let mut k = j;
    if j < n && s[j] == '>' {
        let mut j2 = j + 1;
        skip_ws_bytes(s, &mut j2);
        if j2 < n && s[j2] == '.' {
            let ghost before = out@;
            out.push(lit);
            assert(lines(out@) =~= lines(before).push(lit@));
            k = j2 + 1;
        } else {
            let (names, stop) = extract_targets(s, j2);
            proof {
                lemma_skip_ws_bounds(s@, j2 as int);
                assert(skip_ws(s@, skip_ws(s@, j2 as int)) == skip_ws(s@, j2 as int));
            }
            let ghost all = names@.map_values(|x: Vec<char>| x@);
            let ghost tm = Value::Text(lit@);
            let mut i: usize = 0;
            assert(all.skip(0) == all);
            while i < names.len()
                invariant
                    env.wf(),
                    i <= names.len(),
                    all == names@.map_values(|x: Vec<char>| x@),
                    tm == Value::Text(lit@),
                    out@ == old(out)@,
                    assign_all(old(env)@, all, tm, None) == assign_all(env@, all.skip(i as int), tm, None),
                decreases names.len() - i,
            {
                assert(all.skip(i as int)[0] == all[i as int]);
                assert(all.skip(i as int).drop_first() == all.skip(i + 1));
                let name = string_of(names[i].as_slice());
                env.set(&name, Val::Text(lit.clone()));
                i = i + 1;
            }
            assert(all.skip(i as int).len() == 0);
            k = stop;
        }
    }
    if k < n && s[k] == ';' {
        k = k + 1;
    }
    Ok(k)
}

/// The result of a step that returns a position, without the position.
pub open spec fn unit(r: Result<usize, RfError>) -> Result<(), RfError> {
    match r {
        Ok(_) => Ok(()),
        Err(e) => Err(e),
    }
}

/// Runs a block of source text against `env`, printing to `out`. A conditional loop may
/// iterate at most `limit` times.
pub fn run_block(s: &Vec<char>, env: &mut Env, out: &mut Vec<String>, limit: u64) -> (r: Result<(), RfError>)
    requires
        old(env).wf(),
    ensures
        final(env).wf(),
        ends_as(run_from(s@, 0, old(env)@, lines(old(out)@), limit as nat), r, *final(env), final(out)@),
    decreases s.len(), 2int, 0int,
{
    let mut i: usize = 0;
    loop
        invariant
            env.wf(),
            i <= s.len(),
            run_from(s@, 0, old(env)@, lines(old(out)@), limit as nat) == run_from(s@, i as int, env@, lines(out@), limit as nat),
        decreases s.len() - i,
    {
        let mut p = i;
        skip_ws_bytes(s, &mut p);
        if p >= s.len() {
            return Ok(());
        }
        proof {
            lemma_construct_end(s@, p as int);
        }
        match construct(s, p, env, out, limit) {
            Ok(j) => {
                i = j;
            },
            Err(e) => {
                return Err(e);
            },
        }
    }
}

/// Runs the construct that starts at the non-blank position `p`; returns where it ends.
fn construct(s: &Vec<char>, p: usize, env: &mut Env, out: &mut Vec<String>, limit: u64) -> (r: Result<usize, RfError>)
    requires
        p < s.len(),
        old(env).wf(),
    ensures
        final(env).wf(),
        ends_as(construct_effect(s@, p as int, old(env)@, lines(old(out)@), limit as nat), unit(r), *final(env), final(out)@),
        r matches Ok(j) ==> j == construct_end(s@, p as int),
    decreases s.len(), 1int, 0int,
{
    let n = s.len();
    let c = s[p];
    if c == '@' {
        Ok(find_char(s, p, '\n'))
    } else if c == '?' || (c == '!' && p + 1 < n && (s[p + 1] == '?' || s[p + 1] == '!')) {
        handle_if_chain(s, p, env, out, false, limit)
    } else if c == '"' {
        text_send(s, p, env, out)
    } else if c == '*' {
        loop_construct(s, p, env, out, limit)
    } else {
        let k = find_char(s, p, ';');
        let st = slice_of(s, p, k);
        match exec_stmt(&st, env, out) {
            Ok(()) => Ok(if k < n { k + 1 } else { k }),
            Err(e) => Err(e),
        }
    }
}

/// Runs the if-chain whose clause starts at `p`; returns where its scan stopped.
pub fn handle_if_chain(s: &Vec<char>, p: usize, env: &mut Env, out: &mut Vec<String>, matched: bool, limit: u64) -> (r: Result<usize, RfError>)
    requires
        p <= s.len(),
        old(env).wf(),
    ensures
        final(env).wf(),
        ends_as(chain_effect(s@, p as int, old(env)@, lines(old(out)@), matched, limit as nat), unit(r), *final(env), final(out)@),
        r matches Ok(j) ==> j == chain_end(s@, p as int),
    decreases s.len(), 0int, s.len() - p,
{
    proof {
        lemma_chain_step(s@, p as int);
    }
    let n = s.len();
    if !(p < n && (s[p] == '?' || (s[p] == '!' && p + 1 < n && (s[p + 1] == '?' || s[p + 1] == '!')))) {
        if p < n && s[p] == '!' {
            return Err(RfError::InvalidIfClause);
        }
        return Ok(p);
    }
    let h0 = if s[p] == '?' { p + 1 } else { p + 2 };
    let mut h = h0;
    skip_ws_bytes(s, &mut h);
    let els = s[p] == '!' && s[p + 1] == '!';
    let b = if els { h } else { find_char(s, h, '{') };
    let truth = if els {
        true
    } else {
        let cond = slice_of(s, h, b);
        match eval_expr(&cond, env) {
            Ok(v) => v.as_i64() != 0,
            Err(e) => {
                return Err(e);
            },
        }
    };
    if b >= n || s[b] != '{' {
        return Err(RfError::ExpectedBrace);
    }
    let (body, after) = match extract_braced_block(s, b) {
        Ok(x) => x,
        Err(e) => {
            return Err(e);
        },
    };
    if !matched && truth {
        match run_block(&body, env, out, limit) {
            Ok(()) => {},
            Err(e) => {
                return Err(e);
            },
        }
    }
    let mut next = after;
    skip_ws_bytes(s, &mut next);
    if next < n && (s[next] == '?' || (s[next] == '!' && next + 1 < n && (s[next + 1] == '?' || s[next + 1] == '!'))) {
        handle_if_chain(s, next, env, out, matched || truth, limit)
    } else {
        Ok(next)
    }
}

/// Runs the loop whose `*` is at `p`; returns where it ends.
fn loop_construct(s: &Vec<char>, p: usize, env: &mut Env, out: &mut Vec<String>, limit: u64) -> (r: Result<usize, RfError>)
    requires
        p < s.len(),
        s@[p as int] == '*',
        old(env).wf(),
    ensures
        final(env).wf(),
        ends_as(construct_effect(s@, p as int, old(env)@, lines(old(out)@), limit as nat), unit(r), *final(env), final(out)@),
        r matches Ok(j) ==> j == construct_end(s@, p as int),
    decreases s.len(), 0int, 0int,
{
    let n = s.len();
    proof {
        lemma_loop_brace(s@, p as int);
    }
    let mut j = p + 1;
    skip_ws_bytes(s, &mut j);
    if j < n && s[j] == '?' {
        let mut c0 = j + 1;
        skip_ws_bytes(s, &mut c0);
        let b = find_char(s, c0, '{');
        if b >= n {
            return Err(RfError::ExpectedBrace);
        }
        proof {
            lemma_find_from_bounds(s@, c0 as int, '{');
        }
        let (body, after) = match extract_braced_block(s, b) {
            Ok(x) => x,
            Err(e) => {
                return Err(e);
            },
        };
        let cond = slice_of(s, c0, b);
        match while_loop(&cond, &body, env, out, limit) {
            Ok(()) => Ok(after),
            Err(e) => Err(e),
        }
    } else {
        let b = find_char(s, j, '{');
        let e = slice_of(s, j, b);
        let v = match eval_expr(&e, env) {
            Ok(v) => v,
            Err(x) => {
                return Err(x);
            },
        };
        if b >= n {
            return Err(RfError::ExpectedBrace);
        }
        proof {
            lemma_find_from_bounds(s@, j as int, '{');
        }
        let (body, after) = match extract_braced_block(s, b) {
            Ok(x) => x,
            Err(x) => {
                return Err(x);
            },
        };
        let count = v.as_i64() as u64;
        match count_loop(&body, count, env, out, limit) {
            Ok(()) => Ok(after),
            Err(x) => Err(x),
        }
    }
}

fn counter_name() -> (r: String)
    ensures
        r@ == counter(),
{
    let r = String::from_str("_");
    proof {
        reveal_strlit("_");
    }
    r
}

/// Runs `body` while `cond` holds, with `_` counting the iterations.
fn while_loop(cond: &Vec<char>, body: &Vec<char>, env: &mut Env, out: &mut Vec<String>, limit: u64) -> (r: Result<(), RfError>)
    requires
        old(env).wf(),
    ensures
        final(env).wf(),
        ends_as(while_effect(cond@, body@, 0, old(env)@, lines(old(out)@), limit as nat), r, *final(env), final(out)@),
    decreases body.len(), 3int, 0int,
{
    let name = counter_name();
    let mut idx: u64 = 0;
    loop
        invariant
            env.wf(),
            idx <= limit,
            name@ == counter(),
            while_effect(cond@, body@, 0, old(env)@, lines(old(out)@), limit as nat) == while_effect(cond@, body@, idx as nat, env@, lines(out@), limit as nat),
        decreases limit - idx,
    {
        if idx >= limit {
            return Err(RfError::IterationLimit);
        }
        env.set(&name, Val::Int(#[verifier::truncate] (idx as i64)));
        let v = match eval_expr(cond, env) {
            Ok(v) => v,
            Err(e) => {
                return Err(e);
            },
        };
        if v.as_i64() == 0 {
            return Ok(());
        }
        match run_block(body, env, out, limit) {
            Ok(()) => {},
            Err(e) => {
                return Err(e);
            },
        }
        idx = idx + 1;
    }
}

/// Runs `body` `count` times, with `_` counting the iterations.
fn count_loop(body: &Vec<char>, count: u64, env: &mut Env, out: &mut Vec<String>, limit: u64) -> (r: Result<(), RfError>)
    requires
        old(env).wf(),
    ensures
        final(env).wf(),
        ends_as(count_effect(body@, 0, count as nat, old(env)@, lines(old(out)@), limit as nat), r, *final(env), final(out)@),
    decreases body.len(), 3int, 0int,
{
    let name = counter_name();
    let mut idx: u64 = 0;
    while idx < count
        invariant
            env.wf(),
            idx <= count,
            name@ == counter(),
            count_effect(body@, 0, count as nat, old(env)@, lines(old(out)@), limit as nat) == count_effect(body@, idx as nat, count as nat, env@, lines(out@), limit as nat),
        decreases count - idx,
    {
        env.set(&name, Val::Int(#[verifier::truncate] (idx as i64)));
        match run_block(body, env, out, limit) {
            Ok(()) => {},
            Err(e) => {
                return Err(e);
            },
        }
        idx = idx + 1;
    }
    Ok(())
}

} // verus!
