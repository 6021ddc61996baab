//! Expression tokens, the infix-to-postfix conversion and postfix evaluation.
use vstd::prelude::*;
use vstd::wrapping::i64_specs::{wrapping_add, wrapping_mul, wrapping_sub};
use crate::arith::{div_wrap, div_wrapping, pow_wrap, pow_wrapping, rem_wrap, rem_wrapping};
use crate::error::RfError;

verus! {

/// An operator symbol of an expression.
#[derive(Debug, Clone, Copy, PartialEq, Eq, Structural)]
pub enum Op {
    Add,
    Sub,
    Mul,
    Div,
    Rem,
    Pow,
    Open,
    Close,
    Eq,
    Lt,
    Gt,
    Le,
    Ge,
    And,
    Or,
}

/// A token: a resolved integer or an operator.
#[derive(Debug, Clone, Copy, PartialEq, Eq, Structural)]
pub enum Tok {
    Num(i64),
    Op(Op),
}

/// Binding strength: `^` 4; `* / %` 3; `+ -` and comparisons 2; `|| &&` 1; parentheses 0.
pub open spec fn prec_of(op: Op) -> u8 {
    match op {
        Op::Pow => 4,
        Op::Mul | Op::Div | Op::Rem => 3,
        Op::Add | Op::Sub | Op::Eq | Op::Lt | Op::Gt | Op::Le | Op::Ge => 2,
        Op::And | Op::Or => 1,
        Op::Open | Op::Close => 0,
    }
}

pub fn prec(op: Op) -> (r: u8)
    ensures
        r == prec_of(op),
{
    match op {
        Op::Pow => 4,
        Op::Mul | Op::Div | Op::Rem => 3,
        Op::Add | Op::Sub | Op::Eq | Op::Lt | Op::Gt | Op::Le | Op::Ge => 2,
        Op::And | Op::Or => 1,
        Op::Open | Op::Close => 0,
    }
}

/// Whether `top`, on the operator stack, leaves for the output before `op` is pushed:
/// it binds tighter, or as tight and `op` is left-associative (all but `^`).
pub open spec fn yields_to(top: Op, op: Op) -> bool {
    prec_of(top) > prec_of(op) || (prec_of(top) == prec_of(op) && op != Op::Pow)
}

/// Pushes `op` after moving every operator that yields to it to the output.
pub open spec fn push_operator(out: Seq<Tok>, ops: Seq<Op>, op: Op) -> (Seq<Tok>, Seq<Op>)
    decreases ops.len(),
{
    if ops.len() > 0 && yields_to(ops.last(), op) {
        push_operator(out.push(Tok::Op(ops.last())), ops.drop_last(), op)
    } else {
        (out, ops.push(op))
    }
}

/// Moves operators to the output back to the nearest `(`, which is dropped.
pub open spec fn close_group(out: Seq<Tok>, ops: Seq<Op>) -> (Seq<Tok>, Seq<Op>)
    decreases ops.len(),
{
    if ops.len() == 0 {
        (out, ops)
    } else if ops.last() == Op::Open {
        (out, ops.drop_last())
    } else {
        close_group(out.push(Tok::Op(ops.last())), ops.drop_last())
    }
}

/// One token of the conversion.
pub open spec fn shunt_step(st: (Seq<Tok>, Seq<Op>), t: Tok) -> (Seq<Tok>, Seq<Op>) {
    match t {
        Tok::Num(n) => (st.0.push(Tok::Num(n)), st.1),
        Tok::Op(Op::Open) => (st.0, st.1.push(Op::Open)),
        Tok::Op(Op::Close) => close_group(st.0, st.1),
        Tok::Op(op) => push_operator(st.0, st.1, op),
    }
}

/// Output and operator stack after the given tokens.
pub open spec fn shunt(toks: Seq<Tok>) -> (Seq<Tok>, Seq<Op>)
    decreases toks.len(),
{
    if toks.len() == 0 {
        (Seq::empty(), Seq::empty())
    } else {
        shunt_step(shunt(toks.drop_last()), toks.last())
    }
}

/// The output followed by the operator stack, top first.
pub open spec fn drain(out: Seq<Tok>, ops: Seq<Op>) -> Seq<Tok>
    decreases ops.len(),
{
    if ops.len() == 0 {
        out
    } else {
        drain(out.push(Tok::Op(ops.last())), ops.drop_last())
    }
}

/// The postfix order of an infix token sequence.
pub open spec fn postfix(toks: Seq<Tok>) -> Seq<Tok> {
    drain(shunt(toks).0, shunt(toks).1)
}

/// Converts infix tokens to postfix order (shunting-yard).
pub fn to_rpn(tokens: &Vec<Tok>) -> (r: Vec<Tok>)
    ensures
        r@ == postfix(tokens@),
{
    let mut out: Vec<Tok> = Vec::new();
    let mut ops: Vec<Op> = Vec::new();
    let mut k: usize = 0;
    while k < tokens.len()
        invariant
            k <= tokens.len(),
            (out@, ops@) == shunt(tokens@.take(k as int)),
        decreases tokens.len() - k,
    {
        assert(tokens@.take(k + 1).drop_last() == tokens@.take(k as int));
        let t = tokens[k];
        assert(shunt(tokens@.take(k + 1)) == shunt_step(shunt(tokens@.take(k as int)), t));
        match t {
            Tok::Num(n) => {
                out.push(Tok::Num(n));
            },
            Tok::Op(Op::Open) => {
                ops.push(Op::Open);
            },
            Tok::Op(Op::Close) => {
                while ops.len() > 0
                    invariant_except_break
                        close_group(out@, ops@) == shunt(tokens@.take(k + 1)),
                    ensures
                        (out@, ops@) == shunt(tokens@.take(k + 1)),
                    decreases ops.len(),
                {
                    let top = ops.pop().unwrap();
                    if top == Op::Open {
                        break;
                    }
                    out.push(Tok::Op(top));
                }
            },
            Tok::Op(op) => {
                while ops.len() > 0
                    invariant_except_break
                        push_operator(out@, ops@, op) == shunt(tokens@.take(k + 1)),
                        op != Op::Open && op != Op::Close,
                    ensures
                        (out@, ops@.push(op)) == shunt(tokens@.take(k + 1)),
                    decreases ops.len(),
                {
                    let top = ops[ops.len() - 1];
                    if prec(top) > prec(op) || (prec(top) == prec(op) && op != Op::Pow) {
                        out.push(Tok::Op(top));
                        ops.pop();
                    } else {
                        break;
                    }
                }
                ops.push(op);
            },
        }
        k = k + 1;
    }
    assert(tokens@.take(tokens@.len() as int) == tokens@);
    while ops.len() > 0
        invariant
            drain(out@, ops@) == postfix(tokens@),
        decreases ops.len(),
    {
        let top = ops.pop().unwrap();
        out.push(Tok::Op(top));
    }
    out
}

/// The result of one binary operator; comparisons and logic give 1 or 0. `^` raises to the
/// full exponent (a negative one counts as its 64-bit two's-complement pattern).
pub open spec fn apply_op(op: Op, a: i64, b: i64) -> Result<i64, RfError> {
    match op {
        Op::Add => Ok(wrapping_add(a, b)),
        Op::Sub => Ok(wrapping_sub(a, b)),
        Op::Mul => Ok(wrapping_mul(a, b)),
        Op::Div => if b == 0 { Err(RfError::DivisionByZero) } else { Ok(div_wrap(a, b)) },
        Op::Rem => if b == 0 { Err(RfError::ModuloByZero) } else { Ok(rem_wrap(a, b)) },
        Op::Pow => Ok(pow_wrap(a, (b as u64) as nat)),
        Op::Eq => Ok(if a == b { 1 } else { 0 }),
        Op::Lt => Ok(if a < b { 1 } else { 0 }),
        Op::Gt => Ok(if a > b { 1 } else { 0 }),
        Op::Le => Ok(if a <= b { 1 } else { 0 }),
        Op::Ge => Ok(if a >= b { 1 } else { 0 }),
        Op::Or => Ok(if a != 0 || b != 0 { 1 } else { 0 }),
        Op::And => Ok(if a != 0 && b != 0 { 1 } else { 0 }),
        Op::Open | Op::Close => Err(RfError::UnknownOperator(op)),
    }
}

pub fn apply(op: Op, a: i64, b: i64) -> (r: Result<i64, RfError>)
    ensures
        r == apply_op(op, a, b),
{
    match op {
        Op::Add => Ok(a.wrapping_add(b)),
        Op::Sub => Ok(a.wrapping_sub(b)),
        Op::Mul => Ok(a.wrapping_mul(b)),
        Op::Div => if b == 0 { Err(RfError::DivisionByZero) } else { Ok(div_wrapping(a, b)) },
        Op::Rem => if b == 0 { Err(RfError::ModuloByZero) } else { Ok(rem_wrapping(a, b)) },
        Op::Pow => Ok(pow_wrapping(a, b as u64)),
        Op::Eq => Ok(if a == b { 1 } else { 0 }),
        Op::Lt => Ok(if a < b { 1 } else { 0 }),
        Op::Gt => Ok(if a > b { 1 } else { 0 }),
        Op::Le => Ok(if a <= b { 1 } else { 0 }),
        Op::Ge => Ok(if a >= b { 1 } else { 0 }),
        Op::Or => Ok(if a != 0 || b != 0 { 1 } else { 0 }),
        Op::And => Ok(if a != 0 && b != 0 { 1 } else { 0 }),
        Op::Open | Op::Close => Err(RfError::UnknownOperator(op)),
    }
}

/// The operand stack after the given postfix tokens, or the first error.
pub open spec fn run_postfix(toks: Seq<Tok>) -> Result<Seq<i64>, RfError>
    decreases toks.len(),
{
    if toks.len() == 0 {
        Ok(Seq::empty())
    } else {
        match run_postfix(toks.drop_last()) {
            Err(e) => Err(e),
            Ok(st) => match toks.last() {
                Tok::Num(n) => Ok(st.push(n)),
                Tok::Op(op) => if st.len() < 2 {
                    Err(RfError::MissingOperands(op))
                } else {
                    match apply_op(op, st[st.len() - 2], st[st.len() - 1]) {
                        Ok(v) => Ok(st.drop_last().drop_last().push(v)),
                        Err(e) => Err(e),
                    }
                },
            },
        }
    }
}

/// The value of a postfix token sequence: the top of the final stack.
pub open spec fn postfix_value(toks: Seq<Tok>) -> Result<i64, RfError> {
    match run_postfix(toks) {
        Err(e) => Err(e),
        Ok(st) => if st.len() == 0 { Err(RfError::EmptyResult) } else { Ok(st.last()) },
    }
}

/// Evaluates postfix tokens on a stack.
pub fn eval_rpn(rpn: &Vec<Tok>) -> (r: Result<i64, RfError>)
    ensures
        r == postfix_value(rpn@),
{
    let mut st: Vec<i64> = Vec::new();
    let mut k: usize = 0;
    while k < rpn.len()
        invariant
            k <= rpn.len(),
            run_postfix(rpn@.take(k as int)) == Ok::<Seq<i64>, RfError>(st@),
        decreases rpn.len() - k,
    {
        assert(rpn@.take(k + 1).drop_last() == rpn@.take(k as int));
        match rpn[k] {
            Tok::Num(n) => {
                st.push(n);
            },
            Tok::Op(op) => {
                if st.len() < 2 {
                    proof {
                        lemma_postfix_error_stays(rpn@, k + 1);
                    }
                    return Err(RfError::MissingOperands(op));
                }
                let b = st.pop().unwrap();
                let a = st.pop().unwrap();
                match apply(op, a, b) {
                    Ok(v) => {
                        st.push(v);
                    },
                    Err(e) => {
                        proof {
                            lemma_postfix_error_stays(rpn@, k + 1);
                        }
                        return Err(e);
                    },
                }
            },
        }
        k = k + 1;
    }
    assert(rpn@.take(rpn@.len() as int) == rpn@);
    if st.len() == 0 {
        Err(RfError::EmptyResult)
    } else {
        Ok(st[st.len() - 1])
    }
}

/// Once evaluation fails on a prefix, it fails the same way on the whole sequence.
proof fn lemma_postfix_error_stays(toks: Seq<Tok>, k: int)
    requires
        0 <= k <= toks.len(),
        run_postfix(toks.take(k)) is Err,
    ensures
        run_postfix(toks) == run_postfix(toks.take(k)),
    decreases toks.len() - k,
{
    if k < toks.len() {
        assert(toks.take(k + 1).drop_last() == toks.take(k));
        lemma_postfix_error_stays(toks, k + 1);
    } else {
        assert(toks.take(k) == toks);
    }
}

/// Division and remainder fail exactly when the divisor is zero, each with its own error;
/// every nonzero divisor gives a value.
pub proof fn lemma_division_fails_only_on_zero(a: i64, b: i64)
    ensures
        (apply_op(Op::Div, a, b) is Err) <==> b == 0,
        (apply_op(Op::Rem, a, b) is Err) <==> b == 0,
        b == 0 ==> apply_op(Op::Div, a, b) == Err::<i64, RfError>(RfError::DivisionByZero),
        b == 0 ==> apply_op(Op::Rem, a, b) == Err::<i64, RfError>(RfError::ModuloByZero),
{
}

/// The binary arithmetic operators `+ - * / % ^`.
pub open spec fn is_arith(op: Op) -> bool {
    op == Op::Add || op == Op::Sub || op == Op::Mul || op == Op::Div || op == Op::Rem || op == Op::Pow
}

} // verus!
