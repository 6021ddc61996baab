//! The meaning of an arithmetic expression by precedence and associativity, and the proof
//! that the postfix conversion followed by stack evaluation computes it.
use vstd::prelude::*;
use crate::error::RfError;
use crate::rpn::{
    apply_op, close_group, drain, is_arith, postfix, postfix_value, prec_of, push_operator,
    run_postfix, shunt, shunt_step, yields_to, Op, Tok,
};

verus! {

/// An infix expression of integer literals and the operators `+ - * / % ^`: literals at
/// even positions, operators at odd ones, a literal first and last.
pub open spec fn well_formed(t: Seq<Tok>) -> bool {
    t.len() % 2 == 1 && forall|i: int|
        0 <= i < t.len() ==> if i % 2 == 0 {
            #[trigger] t[i] is Num
        } else {
            t[i] matches Tok::Op(op) && is_arith(op)
        }
}

/// The operator of a token (an arbitrary one for a literal).
pub open spec fn op_of(x: Tok) -> Op {
    match x {
        Tok::Op(op) => op,
        Tok::Num(_) => Op::Add,
    }
}

/// The weakest binding strength among the operators in the first `n` tokens (4 if none).
pub open spec fn lowest(t: Seq<Tok>, n: int) -> u8
    decreases n,
{
    if n <= 0 || n > t.len() {
        4
    } else {
        let rest = lowest(t, n - 1);
        let here: u8 = if t[n - 1] is Op { prec_of(op_of(t[n - 1])) } else { 4 };
        if here < rest { here } else { rest }
    }
}

/// The last position before `n` holding an operator of strength `m`, or -1.
pub open spec fn last_at(t: Seq<Tok>, n: int, m: u8) -> int
    decreases n,
{
    if n <= 0 || n > t.len() {
        -1
    } else if t[n - 1] is Op && prec_of(op_of(t[n - 1])) == m {
        n - 1
    } else {
        last_at(t, n - 1, m)
    }
}

/// The operator applied last: the rightmost of the weakest, or, when every operator is
/// `^` (which groups to the right), the leftmost.
pub open spec fn split(t: Seq<Tok>) -> int {
    let m = lowest(t, t.len() as int);
    if m == 4 { 1 } else { last_at(t, t.len() as int, m) }
}

/// The value of an expression: both sides of its last-applied operator, left first.
pub open spec fn tree_value(t: Seq<Tok>) -> Result<i64, RfError>
    decreases t.len(),
{
    let k = split(t);
    if t.len() == 1 {
        match t[0] {
            Tok::Num(n) => Ok(n),
            Tok::Op(op) => Err(RfError::UnknownOperator(op)),
        }
    } else if !(1 <= k < t.len() - 1) {
        Err(RfError::EmptyResult)
    } else {
        match tree_value(t.subrange(0, k)) {
            Err(e) => Err(e),
            Ok(x) => match tree_value(t.subrange(k + 1, t.len() as int)) {
                Err(e) => Err(e),
                Ok(y) => apply_op(op_of(t[k]), x, y),
            },
        }
    }
}

/// The postfix order of the expression tree: left side, right side, operator.
pub open spec fn tree_postfix(t: Seq<Tok>) -> Seq<Tok>
    decreases t.len(),
{
    let k = split(t);
    if t.len() <= 1 || !(1 <= k < t.len() - 1) {
        t
    } else {
        tree_postfix(t.subrange(0, k)) + tree_postfix(t.subrange(k + 1, t.len() as int)) + seq![t[k]]
    }
}

// ---- the conversion from an arbitrary starting state ----

pub open spec fn shunt_from(st: (Seq<Tok>, Seq<Op>), toks: Seq<Tok>) -> (Seq<Tok>, Seq<Op>)
    decreases toks.len(),
{
    if toks.len() == 0 {
        st
    } else {
        shunt_step(shunt_from(st, toks.drop_last()), toks.last())
    }
}

proof fn lemma_shunt_from_empty(toks: Seq<Tok>)
    ensures
        shunt(toks) == shunt_from((Seq::empty(), Seq::empty()), toks),
    decreases toks.len(),
{
    if toks.len() > 0 {
        lemma_shunt_from_empty(toks.drop_last());
    }
}

proof fn lemma_shunt_from_append(st: (Seq<Tok>, Seq<Op>), a: Seq<Tok>, b: Seq<Tok>)
    ensures
        shunt_from(st, a + b) == shunt_from(shunt_from(st, a), b),
    decreases b.len(),
{
    if b.len() == 0 {
        assert(a + b =~= a);
    } else {
        assert((a + b).drop_last() =~= a + b.drop_last());
        assert((a + b).last() == b.last());
        lemma_shunt_from_append(st, a, b.drop_last());
    }
}

/// Operators that all yield to `op` leave for the output before it is pushed.
proof fn lemma_push_flushes(out: Seq<Tok>, ops: Seq<Op>, op: Op)
    requires
        forall|i: int| 0 <= i < ops.len() ==> yields_to(#[trigger] ops[i], op),
    ensures
        push_operator(out, ops, op) == (drain(out, ops), seq![op]),
    decreases ops.len(),
{
    if ops.len() == 0 {
        assert(Seq::<Op>::empty().push(op) =~= seq![op]);
    } else {
        assert(yields_to(ops[ops.len() - 1], op));
        lemma_push_flushes(out.push(Tok::Op(ops.last())), ops.drop_last(), op);
    }
}

/// Pushing onto a stack over a base whose top does not yield leaves the base alone.
proof fn lemma_push_frame(p: Seq<Tok>, x: Seq<Tok>, base: Op, ys: Seq<Op>, r: Op)
    requires
        !yields_to(base, r),
    ensures
        push_operator(p + x, seq![base] + ys, r) == (
            p + push_operator(x, ys, r).0,
            seq![base] + push_operator(x, ys, r).1,
        ),
    decreases ys.len(),
{
    if ys.len() == 0 {
        assert(seq![base] + ys =~= seq![base]);
        assert(seq![base].push(r) =~= seq![base] + seq![r]);
        assert(ys.push(r) =~= seq![r]);
    } else {
        assert((seq![base] + ys).last() == ys.last());
        assert((seq![base] + ys).drop_last() =~= seq![base] + ys.drop_last());
        if yields_to(ys.last(), r) {
            assert((p + x).push(Tok::Op(ys.last())) =~= p + x.push(Tok::Op(ys.last())));
            lemma_push_frame(p, x.push(Tok::Op(ys.last())), base, ys.drop_last(), r);
        } else {
            assert((seq![base] + ys).push(r) =~= seq![base] + ys.push(r));
        }
    }
}

/// Converting `r` on top of a base operator that none of its operators pops.
proof fn lemma_shunt_frame(p: Seq<Tok>, base: Op, r: Seq<Tok>)
    requires
        well_formed_ops(r),
        forall|i: int| 0 <= i < r.len() && #[trigger] r[i] is Op ==> !yields_to(base, op_of(r[i])),
    ensures
        shunt_from((p, seq![base]), r) == (
            p + shunt_from((Seq::empty(), Seq::empty()), r).0,
            seq![base] + shunt_from((Seq::empty(), Seq::empty()), r).1,
        ),
    decreases r.len(),
{
    let e = (Seq::<Tok>::empty(), Seq::<Op>::empty());
    if r.len() == 0 {
        assert(p + Seq::<Tok>::empty() =~= p);
        assert(seq![base] + Seq::<Op>::empty() =~= seq![base]);
    } else {
        let r0 = r.drop_last();
        assert forall|i: int| 0 <= i < r0.len() && #[trigger] r0[i] is Op implies !yields_to(base, op_of(r0[i])) by {
            assert(r0[i] == r[i]);
        }
        assert(well_formed_ops(r0)) by {
            assert forall|i: int| 0 <= i < r0.len() && #[trigger] r0[i] is Op implies is_arith(op_of(r0[i])) by {
                assert(r0[i] == r[i]);
            }
        }
        lemma_shunt_frame(p, base, r0);
        let (x, ys) = shunt_from(e, r0);
        let t = r.last();
        assert(r[r.len() - 1] == t);
        match t {
            Tok::Num(n) => {
                assert((p + x).push(Tok::Num(n)) =~= p + x.push(Tok::Num(n)));
            },
            Tok::Op(op) => {
                assert(is_arith(op));
                assert(!yields_to(base, op));
                lemma_push_frame(p, x, base, ys, op);
            },
        }
    }
}

/// Every operator token is one of `+ - * / % ^`.
pub open spec fn well_formed_ops(t: Seq<Tok>) -> bool {
    forall|i: int| 0 <= i < t.len() && #[trigger] t[i] is Op ==> is_arith(op_of(t[i]))
}

proof fn lemma_drain_split(out: Seq<Tok>, base: Seq<Op>, ops: Seq<Op>)
    ensures
        drain(out, base + ops) == drain(drain(out, ops), base),
    decreases ops.len(),
{
    if ops.len() == 0 {
        assert(base + ops =~= base);
    } else {
        assert((base + ops).last() == ops.last());
        assert((base + ops).drop_last() =~= base + ops.drop_last());
        lemma_drain_split(out.push(Tok::Op(ops.last())), base, ops.drop_last());
    }
}

proof fn lemma_drain_prefix(p: Seq<Tok>, x: Seq<Tok>, ops: Seq<Op>)
    ensures
        drain(p + x, ops) == p + drain(x, ops),
    decreases ops.len(),
{
    if ops.len() > 0 {
        assert((p + x).push(Tok::Op(ops.last())) =~= p + x.push(Tok::Op(ops.last())));
        lemma_drain_prefix(p, x.push(Tok::Op(ops.last())), ops.drop_last());
    }
}

proof fn lemma_push_keeps(out: Seq<Tok>, ops: Seq<Op>, r: Op, o: Op)
    requires
        forall|i: int| 0 <= i < ops.len() ==> yields_to(#[trigger] ops[i], o),
        yields_to(r, o),
    ensures
        forall|i: int| 0 <= i < push_operator(out, ops, r).1.len() ==> yields_to(
            #[trigger] push_operator(out, ops, r).1[i],
            o,
        ),
    decreases ops.len(),
{
    if ops.len() > 0 && yields_to(ops.last(), r) {
        let d = ops.drop_last();
        assert forall|i: int| 0 <= i < d.len() implies yields_to(#[trigger] d[i], o) by {
            assert(d[i] == ops[i]);
        }
        lemma_push_keeps(out.push(Tok::Op(ops.last())), d, r, o);
        assert(push_operator(out, ops, r) == push_operator(out.push(Tok::Op(ops.last())), d, r));
    } else {
        let res = ops.push(r);
        assert(push_operator(out, ops, r) == (out, res));
        assert forall|i: int| 0 <= i < res.len() implies yields_to(#[trigger] res[i], o) by {
            if i < ops.len() {
                assert(res[i] == ops[i]);
            }
        }
    }
}

/// When every operator of `toks` yields to `o`, so does every operator left on the stack.
proof fn lemma_stack_yields(toks: Seq<Tok>, o: Op)
    requires
        well_formed_ops(toks),
        forall|i: int| 0 <= i < toks.len() && #[trigger] toks[i] is Op ==> yields_to(op_of(toks[i]), o),
    ensures
        forall|i: int| 0 <= i < shunt(toks).1.len() ==> yields_to(#[trigger] shunt(toks).1[i], o),
    decreases toks.len(),
{
    if toks.len() > 0 {
        let d = toks.drop_last();
        assert forall|i: int| 0 <= i < d.len() && #[trigger] d[i] is Op implies yields_to(op_of(d[i]), o) && is_arith(op_of(d[i])) by {
            assert(d[i] == toks[i]);
        }
        lemma_stack_yields(d, o);
        let t = toks.last();
        assert(toks[toks.len() - 1] == t);
        assert(shunt(toks) == shunt_step(shunt(d), t));
        match t {
            Tok::Num(n) => {
                assert(shunt(toks).1 == shunt(d).1);
            },
            Tok::Op(r) => {
                assert(is_arith(r));
                lemma_push_keeps(shunt(d).0, shunt(d).1, r, o);
                assert(shunt(toks) == push_operator(shunt(d).0, shunt(d).1, r));
            },
        }
    }
}

proof fn lemma_lowest_bound(t: Seq<Tok>, n: int, j: int)
    requires
        0 <= j < n <= t.len(),
        t[j] is Op,
    ensures
        lowest(t, n) <= prec_of(op_of(t[j])),
    decreases n,
{
    if j < n - 1 {
        lemma_lowest_bound(t, n - 1, j);
    }
}

proof fn lemma_lowest_found(t: Seq<Tok>, n: int)
    requires
        0 <= n <= t.len(),
        lowest(t, n) < 4,
    ensures
        0 <= last_at(t, n, lowest(t, n)) < n,
        t[last_at(t, n, lowest(t, n))] is Op,
        prec_of(op_of(t[last_at(t, n, lowest(t, n))])) == lowest(t, n),
        forall|j: int| last_at(t, n, lowest(t, n)) < j < n && #[trigger] t[j] is Op ==> prec_of(op_of(t[j])) != lowest(t, n),
    decreases n,
{
    let m = lowest(t, n);
    let here: u8 = if t[n - 1] is Op { prec_of(op_of(t[n - 1])) } else { 4 };
    if t[n - 1] is Op && here == m {
    } else {
        assert(lowest(t, n - 1) == m);
        lemma_lowest_found(t, n - 1);
    }
}

/// Where the last-applied operator of a well-formed expression stands, and how the
/// operators on either side relate to it.
proof fn lemma_split(t: Seq<Tok>)
    requires
        well_formed(t),
        t.len() >= 3,
    ensures
        1 <= split(t) < t.len() - 1,
        split(t) % 2 == 1,
        t[split(t)] is Op,
        forall|j: int| 0 <= j < split(t) && #[trigger] t[j] is Op ==> yields_to(op_of(t[j]), op_of(t[split(t)])),
        forall|j: int| split(t) < j < t.len() && #[trigger] t[j] is Op ==> !yields_to(op_of(t[split(t)]), op_of(t[j])),
{
    let n = t.len() as int;
    let m = lowest(t, n);
    let k = split(t);
    assert(t[1] is Op);
    assert(t[n - 1] is Num);
    if m < 4 {
        lemma_lowest_found(t, n);
        if k % 2 == 0 {
            assert(t[k] is Num);
        }
        assert forall|j: int| 0 <= j < k && #[trigger] t[j] is Op implies yields_to(op_of(t[j]), op_of(t[k])) by {
            lemma_lowest_bound(t, n, j);
        }
        assert forall|j: int| k < j < n && #[trigger] t[j] is Op implies !yields_to(op_of(t[k]), op_of(t[j])) by {
            lemma_lowest_bound(t, n, j);
        }
    } else {
        assert forall|j: int| 0 <= j < k && #[trigger] t[j] is Op implies yields_to(op_of(t[j]), op_of(t[k])) by {
            assert(j % 2 == 0);
        }
        assert forall|j: int| k < j < n && #[trigger] t[j] is Op implies !yields_to(op_of(t[k]), op_of(t[j])) by {
            lemma_lowest_bound(t, n, j);
            lemma_lowest_bound(t, n, 1);
            assert(j % 2 == 1);
        }
    }
}

proof fn lemma_parts_well_formed(t: Seq<Tok>, k: int)
    requires
        well_formed(t),
        1 <= k < t.len() - 1,
        k % 2 == 1,
    ensures
        well_formed(t.subrange(0, k)),
        well_formed(t.subrange(k + 1, t.len() as int)),
        well_formed_ops(t.subrange(k + 1, t.len() as int)),
        well_formed_ops(t.subrange(0, k)),
{
    let l = t.subrange(0, k);
    let r = t.subrange(k + 1, t.len() as int);
    assert forall|i: int| 0 <= i < l.len() implies (if i % 2 == 0 {
        #[trigger] l[i] is Num
    } else {
        l[i] matches Tok::Op(op) && is_arith(op)
    }) by {
        assert(l[i] == t[i]);
    }
    assert forall|i: int| 0 <= i < r.len() implies (if i % 2 == 0 {
        #[trigger] r[i] is Num
    } else {
        r[i] matches Tok::Op(op) && is_arith(op)
    }) by {
        assert(r[i] == t[i + k + 1]);
        assert((i + k + 1) % 2 == i % 2);
    }
    assert forall|i: int| 0 <= i < r.len() && #[trigger] r[i] is Op implies is_arith(op_of(r[i])) by {
        assert(r[i] == t[i + k + 1]);
    }
    assert forall|i: int| 0 <= i < l.len() && #[trigger] l[i] is Op implies is_arith(op_of(l[i])) by {
        assert(l[i] == t[i]);
    }
}

/// The conversion puts a well-formed expression in the postfix order of its tree.
proof fn lemma_postfix_is_tree(t: Seq<Tok>)
    requires
        well_formed(t),
    ensures
        postfix(t) == tree_postfix(t),
    decreases t.len(),
{
    let e = (Seq::<Tok>::empty(), Seq::<Op>::empty());
    if t.len() == 1 {
        assert(t[0] is Num);
        let n = t[0]->Num_0;
        assert(t.drop_last() =~= Seq::<Tok>::empty());
        assert(t.last() == Tok::Num(n));
        assert(Seq::<Tok>::empty().push(Tok::Num(n)) =~= t);
        assert(shunt(Seq::<Tok>::empty()) == (Seq::<Tok>::empty(), Seq::<Op>::empty()));
        assert(shunt(t) == shunt_step(shunt(t.drop_last()), t.last()));
        assert(shunt(t) == (t, Seq::<Op>::empty()));
    } else {
        lemma_split(t);
        let k = split(t);
        let l = t.subrange(0, k);
        let r = t.subrange(k + 1, t.len() as int);
        let o = op_of(t[k]);
        lemma_parts_well_formed(t, k);
        lemma_postfix_is_tree(l);
        lemma_postfix_is_tree(r);
        assert(t =~= l + seq![t[k]] + r);
        assert(t[k] == Tok::Op(o));
        lemma_shunt_from_empty(t);
        lemma_shunt_from_empty(l);
        lemma_shunt_from_empty(r);
        lemma_shunt_from_append(e, l + seq![t[k]], r);
        lemma_shunt_from_append(e, l, seq![t[k]]);
        // the left side, then its operators flushed by `o`
        assert forall|i: int| 0 <= i < l.len() && #[trigger] l[i] is Op implies yields_to(op_of(l[i]), o) by {
            assert(l[i] == t[i]);
        }
        lemma_stack_yields(l, o);
        let (ol, sl) = shunt(l);
        lemma_push_flushes(ol, sl, o);
        assert(seq![t[k]].drop_last() =~= Seq::<Tok>::empty());
        assert(seq![t[k]].last() == Tok::Op(o));
        assert(is_arith(o));
        assert(shunt_from(shunt(l), seq![t[k]].drop_last()) == shunt(l));
        assert(shunt_from(shunt(l), seq![t[k]]) == push_operator(ol, sl, o));
        assert(postfix(l) == drain(ol, sl));
        assert(shunt_from(shunt(l), seq![t[k]]) == (tree_postfix(l), seq![o]));
        // the right side, above `o`
        assert forall|i: int| 0 <= i < r.len() && #[trigger] r[i] is Op implies !yields_to(o, op_of(r[i])) by {
            assert(r[i] == t[i + k + 1]);
        }
        lemma_shunt_frame(tree_postfix(l), o, r);
        let (x, ys) = shunt(r);
        assert(shunt(t) == (tree_postfix(l) + x, seq![o] + ys));
        lemma_drain_split(tree_postfix(l) + x, seq![o], ys);
        lemma_drain_prefix(tree_postfix(l), x, ys);
        assert(seq![o].drop_last() =~= Seq::<Op>::empty());
        assert(seq![o].last() == o);
        let dy = drain(tree_postfix(l) + x, ys);
        assert(drain(dy.push(Tok::Op(o)), Seq::<Op>::empty()) == dy.push(Tok::Op(o)));
        assert(drain(drain(tree_postfix(l) + x, ys), seq![o]) == drain(tree_postfix(l) + x, ys).push(Tok::Op(o)));
        assert((tree_postfix(l) + tree_postfix(r)).push(Tok::Op(o)) =~= tree_postfix(l) + tree_postfix(r) + seq![t[k]]);
    }
}

// ---- stack evaluation from an arbitrary starting stack ----

pub open spec fn eval_from(st: Seq<i64>, toks: Seq<Tok>) -> Result<Seq<i64>, RfError>
    decreases toks.len(),
{
    if toks.len() == 0 {
        Ok(st)
    } else {
        match eval_from(st, toks.drop_last()) {
            Err(e) => Err(e),
            Ok(s) => match toks.last() {
                Tok::Num(n) => Ok(s.push(n)),
                Tok::Op(op) => if s.len() < 2 {
                    Err(RfError::MissingOperands(op))
                } else {
                    match apply_op(op, s[s.len() - 2], s[s.len() - 1]) {
                        Ok(v) => Ok(s.drop_last().drop_last().push(v)),
                        Err(e) => Err(e),
                    }
                },
            },
        }
    }
}

proof fn lemma_eval_from_empty(toks: Seq<Tok>)
    ensures
        run_postfix(toks) == eval_from(Seq::empty(), toks),
    decreases toks.len(),
{
    if toks.len() > 0 {
        lemma_eval_from_empty(toks.drop_last());
    }
}

proof fn lemma_eval_from_append(st: Seq<i64>, a: Seq<Tok>, b: Seq<Tok>)
    ensures
        eval_from(st, a + b) == match eval_from(st, a) {
            Ok(s) => eval_from(s, b),
            Err(e) => Err(e),
        },
    decreases b.len(),
{
    if b.len() == 0 {
        assert(a + b =~= a);
    } else {
        assert((a + b).drop_last() =~= a + b.drop_last());
        assert((a + b).last() == b.last());
        lemma_eval_from_append(st, a, b.drop_last());
    }
}

/// Evaluating the tree's postfix order pushes the expression's value, or fails as it does.
proof fn lemma_eval_tree(st: Seq<i64>, t: Seq<Tok>)
    requires
        well_formed(t),
    ensures
        eval_from(st, tree_postfix(t)) == match tree_value(t) {
            Ok(v) => Ok(st.push(v)),
            Err(e) => Err::<Seq<i64>, RfError>(e),
        },
    decreases t.len(),
{
    if t.len() == 1 {
        assert(t[0] is Num);
        assert(t.drop_last() =~= Seq::<Tok>::empty());
        assert(t.last() == t[0]);
        assert(tree_postfix(t) == t);
        assert(eval_from(st, t.drop_last()) == Ok::<Seq<i64>, RfError>(st));
    } else {
        lemma_split(t);
        let k = split(t);
        let l = t.subrange(0, k);
        let r = t.subrange(k + 1, t.len() as int);
        lemma_parts_well_formed(t, k);
        assert(t[k] == Tok::Op(op_of(t[k])));
        let pl = tree_postfix(l);
        let pr = tree_postfix(r);
        let last = seq![t[k]];
        assert(tree_postfix(t) == pl + pr + last);
        lemma_eval_from_append(st, pl + pr, last);
        lemma_eval_from_append(st, pl, pr);
        lemma_eval_tree(st, l);
        match tree_value(l) {
            Err(e) => {},
            Ok(x) => {
                lemma_eval_tree(st.push(x), r);
                match tree_value(r) {
                    Err(e) => {},
                    Ok(y) => {
                        let s2 = st.push(x).push(y);
                        assert(last.drop_last() =~= Seq::<Tok>::empty());
                        assert(last.last() == t[k]);
                        assert(eval_from(s2, last.drop_last()) == Ok::<Seq<i64>, RfError>(s2));
                        assert(s2[s2.len() - 2] == x);
                        assert(s2[s2.len() - 1] == y);
                        assert(s2.drop_last().drop_last() =~= st);
                    },
                }
            },
        }
    }
}

/// For every well-formed expression of integer literals and `+ - * / % ^`, converting to
/// postfix and evaluating on a stack gives its value by precedence (`^` over `* / %` over
/// `+ -`) and associativity (`^` to the right, the others to the left), failing exactly
/// where that evaluation, left side first, meets a zero divisor.
pub proof fn lemma_postfix_matches_precedence(t: Seq<Tok>)
    requires
        well_formed(t),
    ensures
        postfix_value(postfix(t)) == tree_value(t),
{
    lemma_postfix_is_tree(t);
    lemma_eval_from_empty(tree_postfix(t));
    lemma_eval_tree(Seq::empty(), t);
    match tree_value(t) {
        Ok(v) => {
            assert(Seq::<i64>::empty().push(v).last() == v);
        },
        Err(e) => {},
    }
}

} // verus!
