//! Send statements: `expr > .` prints, `expr > a, b` assigns, `expr op> a` augments.
use vstd::prelude::*;
use crate::env::{lookup, Env};
use crate::error::RfError;
use crate::eval::{eval_expr, eval_value, lemma_vals_push, value_result};
use crate::lex::lemma_find_from_bounds;
use crate::rpn::{apply, apply_op, Op};
use crate::text::{decimal, find_char, find_from, int_text, slice_of, string_of, trim, trim_range};
use crate::value::{text_of, Val, Value};

verus! {

/// The lines of an output vector.
pub open spec fn lines(v: Seq<String>) -> Seq<Seq<char>> {
    v.map_values(|l: String| l@)
}

/// The characters that, just before `>`, make a send augmented.
pub open spec fn is_aug(c: char) -> bool {
    c == '+' || c == '-' || c == '*' || c == '/' || c == '^' || c == '%'
}

/// The operator an augmentation character stands for.
pub open spec fn aug_op(c: char) -> Op {
    if c == '+' {
        Op::Add
    } else if c == '-' {
        Op::Sub
    } else if c == '*' {
        Op::Mul
    } else if c == '/' {
        Op::Div
    } else if c == '^' {
        Op::Pow
    } else {
        Op::Rem
    }
}

/// A target's current value combined with a sent value under an augmentation.
/// Two integers combine arithmetically; `+` appends an integer to a list, or its decimal
/// text to a text.
pub open spec fn combine(cur: Value, v: Value, c: char) -> Result<Value, RfError> {
    match (cur, v) {
        (Value::Int(a), Value::Int(b)) => match apply_op(aug_op(c), a, b) {
            Ok(x) => Ok(Value::Int(x)),
            Err(e) => Err(e),
        },
        (Value::List(items), Value::Int(b)) => if c == '+' {
            Ok(Value::List(items.push(Value::Int(b))))
        } else {
            Err(RfError::UnsupportedAugment)
        },
        (Value::Text(s), Value::Int(b)) => if c == '+' {
            Ok(Value::Text(s + decimal(b as int)))
        } else {
            Err(RfError::UnsupportedAugment)
        },
        _ => Err(RfError::UnsupportedAugment),
    }
}

/// The comma-separated, trimmed, non-empty names of `s`, from position `i` on.
pub open spec fn target_names(s: Seq<char>, i: int) -> Seq<Seq<char>>
    decreases s.len() - i
    via target_names_decreases
{
    if i < 0 || i > s.len() {
        Seq::empty()
    } else {
        let j = find_from(s, i, ',');
        let p = trim(s.subrange(i, j));
        let rest = if j < s.len() {
            target_names(s, j + 1)
        } else {
            Seq::empty()
        };
        if p.len() == 0 {
            rest
        } else {
            seq![p] + rest
        }
    }
}

#[via_fn]
proof fn target_names_decreases(s: Seq<char>, i: int) {
    if 0 <= i <= s.len() {
        lemma_find_from_bounds(s, i, ',');
    }
}

/// The bindings after sending `v` to each name in turn, plainly or under an augmentation.
pub open spec fn assign_all(
    env: Map<Seq<char>, Value>,
    names: Seq<Seq<char>>,
    v: Value,
    aug: Option<char>,
) -> Result<Map<Seq<char>, Value>, RfError>
    decreases names.len(),
{
    if names.len() == 0 {
        Ok(env)
    } else {
        let k = names[0];
        let nv = match aug {
            None => Ok(v),
            Some(c) => combine(lookup(env, k), v, c),
        };
        match nv {
            Err(e) => Err(e),
            Ok(x) => assign_all(env.insert(k, x), names.drop_first(), v, aug),
        }
    }
}

/// What a send statement does: the new bindings and the line it prints, if any.
pub open spec fn send_effect(stmt: Seq<char>, env: Map<Seq<char>, Value>) -> Result<
    (Map<Seq<char>, Value>, Option<Seq<char>>),
    RfError,
> {
    let s = trim(stmt);
    let pos = find_from(s, 0, '>');
    if s.len() == 0 {
        Ok((env, None))
    } else if pos >= s.len() {
        Err(RfError::NoSendOperator)
    } else if pos == 0 {
        Err(RfError::InvalidStatement)
    } else {
        let left = trim(s.subrange(0, pos));
        let aug = left.len() > 0 && is_aug(left.last());
        let expr = if aug { trim(left.drop_last()) } else { left };
        let right = trim(s.subrange(pos + 1, s.len() as int));
        match eval_value(expr, env) {
            Err(e) => Err(e),
            Ok(v) => if right == seq!['.'] {
                Ok((env, Some(text_of(v))))
            } else {
                match assign_all(
                    env,
                    target_names(right, 0),
                    v,
                    if aug { Some(left.last()) } else { None },
                ) {
                    Ok(m) => Ok((m, None::<Seq<char>>)),
                    Err(e) => Err(e),
                }
            },
        }
    }
}

fn combine_vals(cur: Val, v: &Val, c: char) -> (r: Result<Val, RfError>)
    requires
        is_aug(c),
    ensures
        value_result(r) == combine(cur.model(), v.model(), c),
{
    let op = if c == '+' {
        Op::Add
    } else if c == '-' {
        Op::Sub
    } else if c == '*' {
        Op::Mul
    } else if c == '/' {
        Op::Div
    } else if c == '^' {
        Op::Pow
    } else {
        Op::Rem
    };
    match (cur, v) {
        (Val::Int(a), Val::Int(b)) => match apply(op, a, *b) {
            Ok(x) => Ok(Val::Int(x)),
            Err(e) => Err(e),
        },
        (Val::List(items), Val::Int(b)) => {
            if c == '+' {
                let mut items = items;
                let ghost before = items;
                items.push(Val::Int(*b));
                proof {
                    lemma_vals_push(before, items, Val::Int(*b));
                }
                Ok(Val::List(items))
            } else {
                Err(RfError::UnsupportedAugment)
            }
        },
        (Val::Text(s), Val::Int(b)) => {
            if c == '+' {
                let mut s = s;
                let d = int_text(*b);
                s.append(d.as_str());
                Ok(Val::Text(s))
            } else {
                Err(RfError::UnsupportedAugment)
            }
        },
        _ => Err(RfError::UnsupportedAugment),
    }
}

/// The names listed in `s`.
pub fn names_at(s: &Vec<char>) -> (r: Vec<Vec<char>>)
    ensures
        r@.map_values(|x: Vec<char>| x@) == target_names(s@, 0),
{
    let n = s.len();
    let mut out: Vec<Vec<char>> = Vec::new();
    let mut i: usize = 0;
    assert(out@.map_values(|x: Vec<char>| x@) =~= Seq::<Seq<char>>::empty());
    loop
        invariant
            n == s.len(),
            i <= n,
            target_names(s@, 0) == out@.map_values(|x: Vec<char>| x@) + target_names(s@, i as int),
        decreases n + 1 - i,
    {
        let j = find_char(s, i, ',');
        let (lo, hi) = trim_range(s, i, j);
        let ghost before = out@;
        let ghost rest = if j < n { target_names(s@, j + 1) } else { Seq::empty() };
        if lo < hi {
            let p = slice_of(s, lo, hi);
            out.push(p);
            assert(before.map_values(|x: Vec<char>| x@) + (seq![p@] + rest) =~= out@.map_values(|x: Vec<char>| x@) + rest);
        }
        if j < n {
            i = j + 1;
        } else {
            assert(out@.map_values(|x: Vec<char>| x@) + Seq::<Seq<char>>::empty() =~= out@.map_values(|x: Vec<char>| x@));
            return out;
        }
    }
}

/// The output after a send: one more line when it printed.
pub open spec fn after_print(before: Seq<Seq<char>>, line: Option<Seq<char>>) -> Seq<Seq<char>> {
    match line {
        Some(l) => before.push(l),
        None => before,
    }
}

/// Runs one send statement: prints to `out` or updates `env`. On an error neither changes.
pub fn exec_stmt(stmt: &Vec<char>, env: &mut Env, out: &mut Vec<String>) -> (r: Result<(), RfError>)
    requires
        old(env).wf(),
    ensures
        final(env).wf(),
        match send_effect(stmt@, old(env)@) {
            Ok((m, line)) => r is Ok && final(env)@ == m && lines(final(out)@) == after_print(
                lines(old(out)@),
                line,
            ),
            Err(e) => r == Err::<(), RfError>(e) && final(env)@ == old(env)@ && final(out)@ == old(out)@,
        },
{
    let (lo, hi) = trim_range(stmt, 0, stmt.len());
    assert(stmt@.subrange(0, stmt.len() as int) == stmt@);
    let s = slice_of(stmt, lo, hi);
    let n = s.len();
    if n == 0 {
        return Ok(());
    }
    let pos = find_char(&s, 0, '>');
    if pos >= n {
        return Err(RfError::NoSendOperator);
    }
    if pos == 0 {
        return Err(RfError::InvalidStatement);
    }
    let (l0, l1) = trim_range(&s, 0, pos);
    let aug = l1 > l0 && (s[l1 - 1] == '+' || s[l1 - 1] == '-' || s[l1 - 1] == '*' || s[l1 - 1] == '/'
        || s[l1 - 1] == '^' || s[l1 - 1] == '%');
    let ghost left = s@.subrange(l0 as int, l1 as int);
    let (e0, e1) = if aug {
        assert(left.drop_last() == s@.subrange(l0 as int, l1 - 1));
        trim_range(&s, l0, l1 - 1)
    } else {
        (l0, l1)
    };
    let c = if aug { s[l1 - 1] } else { ' ' };
    let expr = slice_of(&s, e0, e1);
    let (r0, r1) = trim_range(&s, pos + 1, n);
    let v = match eval_expr(&expr, env) {
        Ok(v) => v,
        Err(e) => {
            return Err(e);
        },
    };
    let ghost right = s@.subrange(r0 as int, r1 as int);
    let is_dot = r1 > r0 && r1 - r0 == 1 && s[r0] == '.';
    assert(is_dot == (right == seq!['.'])) by {
        if r1 == r0 + 1 {
            assert(right =~= seq![s@[r0 as int]]);
            assert(seq![s@[r0 as int]][0] == s@[r0 as int]);
            assert(seq!['.'][0] == '.');
            if s@[r0 as int] == '.' {
                assert(seq![s@[r0 as int]] =~= seq!['.']);
            }
        } else {
            assert(right.len() != seq!['.'].len());
        }
    }
    if is_dot {
        let line = v.as_string();
        let ghost before = out@;
        out.push(line);
        assert(lines(out@) =~= lines(before).push(line@));
        return Ok(());
    }
    let rs = slice_of(&s, r0, r1);
    let names = names_at(&rs);
    let ghost all = names@.map_values(|x: Vec<char>| x@);
    let ghost augc: Option<char> = if aug { Some(c) } else { None };
    let ghost vm = v.model();
    let saved = env.copy();
    let mut k: usize = 0;
    assert(all.skip(0) == all);
    assert(send_effect(stmt@, old(env)@) == match assign_all(old(env)@, all, vm, augc) {
        Ok(m) => Ok((m, None::<Seq<char>>)),
        Err(e) => Err(e),
    });
    while k < names.len()
        invariant
            env.wf(),
            k <= names.len(),
            all == names@.map_values(|x: Vec<char>| x@),
            vm == v.model(),
            aug ==> is_aug(c),
            augc == if aug { Some(c) } else { None::<char> },
            out@ == old(out)@,
            saved.wf(),
            saved@ == old(env)@,
            send_effect(stmt@, old(env)@) == match assign_all(old(env)@, all, vm, augc) {
                Ok(m) => Ok((m, None::<Seq<char>>)),
                Err(e) => Err(e),
            },
            assign_all(old(env)@, all, vm, augc) == assign_all(env@, all.skip(k as int), vm, augc),
        decreases names.len() - k,
    {
        assert(all.skip(k as int)[0] == all[k as int]);
        assert(all.skip(k as int).drop_first() == all.skip(k + 1));
        let name = string_of(names[k].as_slice());
        assert(name@ == all[k as int]);
        let ghost e0 = env@;
        let nv = if aug {
            let cur = env.get(&name);
            let ghost cm = cur.model();
            match combine_vals(cur, &v, c) {
                Ok(x) => x,
                Err(e) => {
                    assert(cm == lookup(env@, all.skip(k as int)[0]));
                    *env = saved;
                    return Err(e);
                },
            }
        } else {
            v.copy()
        };
        proof {
            if aug {
                assert(augc == Some(c));
            } else {
                assert(nv.model() == vm);
            }
        }
        env.set(&name, nv);
        k = k + 1;
    }
    assert(all.skip(k as int).len() == 0);
    Ok(())
}

} // verus!
