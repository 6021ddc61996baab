//! Evaluating an expression to a value: macros, list and text literals, arithmetic.
use vstd::prelude::*;
use crate::env::{lookup, Env};
use crate::error::RfError;
use crate::lex::{lemma_find_from_bounds, lex_from, tokenize};
use crate::rpn::{eval_rpn, postfix, postfix_value, to_rpn};
use crate::text::{find_char, find_from, parse_i64, parse_int, slice_of, string_of, trim, trim_range};
use crate::value::{lemma_list_model_len, lemma_list_model_prefix, list_model, sum_of, Val, Value};

verus! {

/// `$s[x]` and `$l[x]`: the sum or the length of the value bound to `x`.
pub open spec fn macro_value(t: Seq<char>, env: Map<Seq<char>, Value>) -> Result<Value, RfError> {
    let br = find_from(t, 0, '[');
    let end = find_from(t, br + 1, ']');
    if br >= t.len() {
        Err(RfError::MacroMissingOpen)
    } else if end >= t.len() {
        Err(RfError::MacroMissingClose)
    } else {
        let name = t.subrange(1, br);
        let v = lookup(env, trim(t.subrange(br + 1, end)));
        if name == seq!['s'] {
            match v {
                Value::List(items) => Ok(Value::Int(sum_of(items, items.len() as nat))),
                Value::Int(n) => Ok(Value::Int(n)),
                Value::Text(st) => match parse_i64(st) {
                    Some(n) => Ok(Value::Int(n)),
                    None => Err(RfError::SumOfText),
                },
            }
        } else if name == seq!['l'] {
            match v {
                Value::List(items) => Ok(Value::Int(items.len() as i64)),
                Value::Text(st) => Ok(Value::Int(st.len() as i64)),
                Value::Int(n) => Err(RfError::LengthOfInt(n)),
            }
        } else {
            Err(RfError::UnknownMacro)
        }
    }
}

/// One trimmed element of a list literal: nothing when empty, quoted text, or an integer.
pub open spec fn item_value(p: Seq<char>) -> Result<Option<Value>, RfError> {
    if p.len() == 0 {
        Ok(None)
    } else if p.len() >= 2 && p[0] == '"' && p.last() == '"' {
        Ok(Some(Value::Text(p.subrange(1, p.len() - 1))))
    } else {
        match parse_i64(p) {
            Some(n) => Ok(Some(Value::Int(n))),
            None => Err(RfError::BadListElement),
        }
    }
}

/// The elements of the comma-separated text `s`, from position `i` on.
pub open spec fn list_items(s: Seq<char>, i: int) -> Result<Seq<Value>, RfError>
    decreases s.len() - i
    via list_items_decreases
{
    if i < 0 || i > s.len() {
        Ok(Seq::empty())
    } else {
        let j = find_from(s, i, ',');
        match item_value(trim(s.subrange(i, j))) {
            Err(e) => Err(e),
            Ok(x) => {
                let rest = if j < s.len() {
                    list_items(s, j + 1)
                } else {
                    Ok(Seq::empty())
                };
                match rest {
                    Err(e) => Err(e),
                    Ok(r) => Ok(
                        match x {
                            Some(v) => seq![v] + r,
                            None => r,
                        },
                    ),
                }
            },
        }
    }
}

#[via_fn]
proof fn list_items_decreases(s: Seq<char>, i: int) {
    if 0 <= i <= s.len() {
        lemma_find_from_bounds(s, i, ',');
    }
}

/// A list literal `,[e1,e2,...]`.
pub open spec fn list_literal(t: Seq<char>) -> Result<Value, RfError> {
    let rest = trim(t.drop_first());
    if rest.len() >= 2 && rest[0] == '[' && rest.last() == ']' {
        let inner = rest.subrange(1, rest.len() - 1);
        if trim(inner).len() == 0 {
            Ok(Value::List(Seq::empty()))
        } else {
            match list_items(inner, 0) {
                Ok(items) => Ok(Value::List(items)),
                Err(e) => Err(e),
            }
        }
    } else {
        Err(RfError::BadListLiteral)
    }
}

/// The value of an expression text against the bindings of `env`. After trimming: empty
/// text is 0; `$` starts a macro; `,` a list literal; text wrapped in double quotes is
/// that text; anything else is integer arithmetic.
pub open spec fn eval_value(s: Seq<char>, env: Map<Seq<char>, Value>) -> Result<Value, RfError> {
    let t = trim(s);
    if t.len() == 0 {
        Ok(Value::Int(0))
    } else if t[0] == '$' {
        macro_value(t, env)
    } else if t[0] == ',' {
        list_literal(t)
    } else if t.len() >= 2 && t[0] == '"' && t.last() == '"' {
        Ok(Value::Text(t.subrange(1, t.len() - 1)))
    } else {
        match lex_from(t, env, 0) {
            Err(e) => Err(e),
            Ok(toks) => match postfix_value(postfix(toks)) {
                Ok(v) => Ok(Value::Int(v)),
                Err(e) => Err(e),
            },
        }
    }
}

/// The content of a value result.
pub open spec fn value_result(r: Result<Val, RfError>) -> Result<Value, RfError> {
    match r {
        Ok(v) => Ok(v.model()),
        Err(e) => Err(e),
    }
}

fn macro_at(t: &Vec<char>, env: &Env) -> (r: Result<Val, RfError>)
    requires
        env.wf(),
        t.len() > 0,
        t@[0] == '$',
    ensures
        value_result(r) == macro_value(t@, env@),
{
    let n = t.len();
    let br = find_char(t, 0, '[');
    if br >= n {
        return Err(RfError::MacroMissingOpen);
    }
    proof {
        lemma_find_from_bounds(t@, 1, '[');
        assert(br >= 1);
    }
    let end = find_char(t, br + 1, ']');
    if end >= n {
        return Err(RfError::MacroMissingClose);
    }
    let (lo, hi) = trim_range(t, br + 1, end);
    let arg = string_of(slice_of(t, lo, hi).as_slice());
    let v = env.get(&arg);
    let is_s = br == 2 && t[1] == 's';
    let is_l = br == 2 && t[1] == 'l';
    assert(is_s == (t@.subrange(1, br as int) == seq!['s'])) by {
        if br == 2 {
            assert(t@.subrange(1, 2) =~= seq![t@[1]]);
            assert(seq![t@[1]][0] == t@[1]);
            assert(seq!['s'][0] == 's');
            if t@[1] == 's' {
                assert(seq![t@[1]] =~= seq!['s']);
            }
        } else {
            assert(t@.subrange(1, br as int).len() != seq!['s'].len());
        }
    }
    assert(is_l == (t@.subrange(1, br as int) == seq!['l'])) by {
        if br == 2 {
            assert(t@.subrange(1, 2) =~= seq![t@[1]]);
            assert(seq![t@[1]][0] == t@[1]);
            assert(seq!['l'][0] == 'l');
            if t@[1] == 'l' {
                assert(seq![t@[1]] =~= seq!['l']);
            }
        } else {
            assert(t@.subrange(1, br as int).len() != seq!['l'].len());
        }
    }
    if is_s {
        match v {
            Val::List(_) => Ok(Val::Int(v.as_i64())),
            Val::Int(n) => Ok(Val::Int(n)),
            Val::Text(st) => match parse_int(st.as_str()) {
                Some(n) => Ok(Val::Int(n)),
                None => Err(RfError::SumOfText),
            },
        }
    } else if is_l {
        match v {
            Val::List(items) => {
                proof {
                    lemma_list_model_len(items, items.len() as nat);
                }
                Ok(Val::Int(#[verifier::truncate] (items.len() as i64)))
            },
            Val::Text(st) => Ok(Val::Int(#[verifier::truncate] (st.as_str().unicode_len() as i64))),
            Val::Int(n) => Err(RfError::LengthOfInt(n)),
        }
    } else {
        Err(RfError::UnknownMacro)
    }
}

/// The contents of a vector of values.
pub open spec fn vals_model(v: Vec<Val>) -> Seq<Value> {
    list_model(v, v.len() as nat)
}

pub proof fn lemma_vals_push(before: Vec<Val>, after: Vec<Val>, x: Val)
    requires
        after@ == before@.push(x),
    ensures
        vals_model(after) == vals_model(before).push(x.model()),
{
    lemma_list_model_prefix(after, before, before.len() as nat);
}

/// `p` in front of the items of `rest`, or the error of `rest`.
pub open spec fn prepend_items(p: Seq<Value>, rest: Result<Seq<Value>, RfError>) -> Result<Seq<Value>, RfError> {
    match rest {
        Ok(r) => Ok(p + r),
        Err(e) => Err(e),
    }
}

fn item_at(p: &Vec<char>) -> (r: Result<Option<Val>, RfError>)
    ensures
        match (r, item_value(p@)) {
            (Ok(Some(v)), Ok(Some(w))) => v.model() == w,
            (Ok(None), Ok(None)) => true,
            (Err(e), Err(f)) => e == f,
            _ => false,
        },
{
    let n = p.len();
    if n == 0 {
        Ok(None)
    } else if n >= 2 && p[0] == '"' && p[n - 1] == '"' {
        Ok(Some(Val::Text(string_of(slice_of(p, 1, n - 1).as_slice()))))
    } else {
        match parse_int(string_of(p.as_slice()).as_str()) {
            Some(v) => Ok(Some(Val::Int(v))),
            None => Err(RfError::BadListElement),
        }
    }
}

fn items_at(s: &Vec<char>) -> (r: Result<Vec<Val>, RfError>)
    ensures
        match r {
            Ok(v) => list_items(s@, 0) == Ok::<Seq<Value>, RfError>(vals_model(v)),
            Err(e) => list_items(s@, 0) == Err::<Seq<Value>, RfError>(e),
        },
{
    let n = s.len();
    let mut out: Vec<Val> = Vec::new();
    let mut i: usize = 0;
    assert(vals_model(out) =~= Seq::<Value>::empty());
    assert(forall|x: Seq<Value>| Seq::<Value>::empty() + x =~= x);
    loop
        invariant
            n == s.len(),
            i <= n,
            list_items(s@, 0) == prepend_items(vals_model(out), list_items(s@, i as int)),
        decreases n + 1 - i,
    {
        let j = find_char(s, i, ',');
        let (lo, hi) = trim_range(s, i, j);
        let part = slice_of(s, lo, hi);
        let ghost before = out;
        match item_at(&part) {
            Err(e) => {
                return Err(e);
            },
            Ok(x) => {
                match x {
                    Some(v) => {
                        let ghost m = v.model();
                        out.push(v);
                        proof {
                            lemma_vals_push(before, out, v);
                            let rest = if j < n { list_items(s@, j + 1) } else { Ok(Seq::empty()) };
                            if rest is Ok {
                                assert(vals_model(before) + (seq![m] + rest.unwrap()) =~= vals_model(out) + rest.unwrap());
                            }
                        }
                    },
                    None => {},
                }
            },
        }
        if j < n {
            i = j + 1;
        } else {
            proof {
                assert(vals_model(out) + Seq::<Value>::empty() =~= vals_model(out));
            }
            return Ok(out);
        }
    }
}

fn list_literal_at(t: &Vec<char>) -> (r: Result<Val, RfError>)
    requires
        t.len() > 0,
    ensures
        value_result(r) == list_literal(t@),
{
    let n = t.len();
    let (lo, hi) = trim_range(t, 1, n);
    assert(t@.subrange(1, n as int) == t@.drop_first());
    if hi - lo >= 2 && t[lo] == '[' && t[hi - 1] == ']' {
        let inner = slice_of(t, lo + 1, hi - 1);
        assert(inner@ == t@.subrange(lo as int, hi as int).subrange(1, (hi - lo - 1) as int));
        let (a, b) = trim_range(&inner, 0, inner.len());
        assert(inner@.subrange(0, inner.len() as int) == inner@);
        if a == b {
            let empty: Vec<Val> = Vec::new();
            let r = Val::List(empty);
            assert(r.model() == Value::List(Seq::empty()));
            return Ok(r);
        }
        match items_at(&inner) {
            Ok(v) => Ok(Val::List(v)),
            Err(e) => Err(e),
        }
    } else {
        Err(RfError::BadListLiteral)
    }
}

/// Evaluates an expression text against the bindings of `env`.
pub fn eval_expr(s: &Vec<char>, env: &Env) -> (r: Result<Val, RfError>)
    requires
        env.wf(),
    ensures
        value_result(r) == eval_value(s@, env@),
{
    let (lo, hi) = trim_range(s, 0, s.len());
    assert(s@.subrange(0, s.len() as int) == s@);
    let t = slice_of(s, lo, hi);
    let n = t.len();
    if n == 0 {
        return Ok(Val::Int(0));
    }
    if t[0] == '$' {
        return macro_at(&t, env);
    }
    if t[0] == ',' {
        return list_literal_at(&t);
    }
    if n >= 2 && t[0] == '"' && t[n - 1] == '"' {
        return Ok(Val::Text(string_of(slice_of(&t, 1, n - 1).as_slice())));
    }
    match tokenize(&t, env) {
        Err(e) => Err(e),
        Ok(toks) => {
            let rpn = to_rpn(&toks);
            match eval_rpn(&rpn) {
                Ok(v) => Ok(Val::Int(v)),
                Err(e) => Err(e),
            }
        },
    }
}

} // verus!
