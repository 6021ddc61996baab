//! Runtime values and their coercions to integers and text.
use vstd::prelude::*;
use crate::text::{decimal, int_text, parse_i64, parse_int};

verus! {

/// A runtime value: an integer, a piece of text, or a list of values.
#[derive(Debug)]
pub enum Val {
    Int(i64),
    Text(String),
    List(Vec<Val>),
}

/// The mathematical content of a value.
pub enum Value {
    Int(i64),
    Text(Seq<char>),
    List(Seq<Value>),
}

/// The content of a value.
pub open spec fn val_model(v: Val) -> Value
    decreases v, 1nat,
{
    match v {
        Val::Int(i) => Value::Int(i),
        Val::Text(s) => Value::Text(s@),
        Val::List(l) => Value::List(list_model(l, l.len() as nat)),
    }
}

/// The content of the first `k` values of a vector.
pub open spec fn list_model(l: Vec<Val>, k: nat) -> Seq<Value>
    decreases l, k,
{
    if k == 0 || k > l.len() {
        Seq::empty()
    } else {
        list_model(l, (k - 1) as nat).push(val_model(l@[k - 1]))
    }
}

/// The integer a value coerces to: text is parsed (0 when that fails), a list sums its
/// elements, wrapping on overflow.
pub open spec fn int_of(v: Value) -> i64
    decreases v, 1nat,
{
    match v {
        Value::Int(i) => i,
        Value::Text(s) => match parse_i64(s) {
            Some(n) => n,
            None => 0,
        },
        Value::List(l) => sum_of(l, l.len() as nat),
    }
}

/// Wrapping sum of `int_of` over the first `k` values.
pub open spec fn sum_of(l: Seq<Value>, k: nat) -> i64
    decreases l, k,
{
    if k == 0 || k > l.len() {
        0
    } else {
        vstd::wrapping::i64_specs::wrapping_add(sum_of(l, (k - 1) as nat), int_of(l[k - 1]))
    }
}

/// The text a value renders to: integers in decimal, text as itself, lists as
/// `[e1,e2,...]` with no spaces.
pub open spec fn text_of(v: Value) -> Seq<char>
    decreases v, 1nat,
{
    match v {
        Value::Int(i) => decimal(i as int),
        Value::Text(s) => s,
        Value::List(l) => seq!['['] + joined(l, l.len() as nat) + seq![']'],
    }
}

/// The renderings of the first `k` values, joined by commas.
pub open spec fn joined(l: Seq<Value>, k: nat) -> Seq<char>
    decreases l, k,
{
    if k == 0 || k > l.len() {
        Seq::empty()
    } else if k == 1 {
        text_of(l[0])
    } else {
        joined(l, (k - 1) as nat) + seq![','] + text_of(l[k - 1])
    }
}

impl Val {
    pub open spec fn model(self) -> Value {
        val_model(self)
    }

    /// A deep copy.
    pub fn copy(&self) -> (r: Val)
        ensures
            r.model() == self.model(),
        decreases self,
    {
        match self {
            Val::Int(i) => Val::Int(*i),
            Val::Text(s) => Val::Text(s.clone()),
            Val::List(l) => {
                let mut out: Vec<Val> = Vec::new();
                let mut k: usize = 0;
                while k < l.len()
                    invariant
                        *self == Val::List(*l),
                        k <= l.len(),
                        out.len() == k,
                        list_model(out, k as nat) == list_model(*l, k as nat),
                    decreases l.len() - k,
                {
                    proof {
                        broadcast use vstd::std_specs::vec::axiom_vec_index_decreases;
                        assert(decreases_to!(*self => self->List_0));
                        assert(decreases_to!(*l => l@[k as int]));
                    }
                    let c = l[k].copy();
                    let ghost before = out;
                    out.push(c);
                    proof {
                        assert forall|j: nat| j <= k implies list_model(out, j) == list_model(before, j) by {
                            lemma_list_model_prefix(out, before, j);
                        }
                    }
                    k = k + 1;
                }
                Val::List(out)
            },
        }
    }

    /// The integer this value coerces to.
    pub fn as_i64(&self) -> (r: i64)
        ensures
            r == int_of(self.model()),
        decreases self,
    {
        match self {
            Val::Int(i) => *i,
            Val::Text(s) => match parse_int(s.as_str()) {
                Some(n) => n,
                None => 0,
            },
            Val::List(l) => {
                proof {
                    lemma_list_model_len(*l, l.len() as nat);
                }
                let mut sum: i64 = 0;
                let mut k: usize = 0;
                while k < l.len()
                    invariant
                        *self == Val::List(*l),
                        k <= l.len(),
                        sum == sum_of(list_model(*l, l.len() as nat), k as nat),
                    decreases l.len() - k,
                {
                    proof {
                        broadcast use vstd::std_specs::vec::axiom_vec_index_decreases;
                        assert(decreases_to!(*self => self->List_0));
                        assert(decreases_to!(*l => l@[k as int]));
                        lemma_list_model_index(*l, k as nat);
                    }
                    let x = l[k].as_i64();
                    sum = sum.wrapping_add(x);
                    k = k + 1;
                }
                sum
            },
        }
    }

    /// The text this value renders to.
    pub fn as_string(&self) -> (r: String)
        ensures
            r@ == text_of(self.model()),
        decreases self,
    {
        match self {
            Val::Int(i) => int_text(*i),
            Val::Text(s) => s.clone(),
            Val::List(l) => {
                let mut out = String::from_str("[");
                let mut k: usize = 0;
                let ghost m = list_model(*l, l.len() as nat);
                proof {
                    lemma_list_model_len(*l, l.len() as nat);
                    reveal_strlit("[");
                }
                while k < l.len()
                    invariant
                        *self == Val::List(*l),
                        k <= l.len(),
                        m == list_model(*l, l.len() as nat),
                        m.len() == l.len(),
                        out@ == seq!['['] + joined(m, k as nat),
                    decreases l.len() - k,
                {
                    proof {
                        broadcast use vstd::std_specs::vec::axiom_vec_index_decreases;
                        assert(decreases_to!(*self => self->List_0));
                        assert(decreases_to!(*l => l@[k as int]));
                        lemma_list_model_index(*l, k as nat);
                    }
                    if k > 0 {
                        out.append(",");
                        proof {
                            reveal_strlit(",");
                        }
                    }
                    let part = l[k].as_string();
                    out.append(part.as_str());
                    assert(out@ == seq!['['] + joined(m, (k + 1) as nat));
                    k = k + 1;
                }
                out.append("]");
                proof {
                    reveal_strlit("]");
                }
                out
            },
        }
    }
}

pub proof fn lemma_list_model_prefix(a: Vec<Val>, b: Vec<Val>, j: nat)
    requires
        j <= b.len(),
        b.len() <= a.len(),
        forall|i: int| 0 <= i < b.len() ==> a@[i] == b@[i],
    ensures
        list_model(a, j) == list_model(b, j),
    decreases j,
{
    if j > 0 {
        lemma_list_model_prefix(a, b, (j - 1) as nat);
    }
}

pub proof fn lemma_list_model_index(l: Vec<Val>, k: nat)
    requires
        k < l.len(),
    ensures
        list_model(l, l.len() as nat).len() == l.len(),
        list_model(l, l.len() as nat)[k as int] == val_model(l@[k as int]),
{
    lemma_list_model_len(l, l.len() as nat);
    lemma_list_model_at(l, l.len() as nat, k);
}

pub proof fn lemma_list_model_len(l: Vec<Val>, j: nat)
    requires
        j <= l.len(),
    ensures
        list_model(l, j).len() == j,
    decreases j,
{
    if j > 0 {
        lemma_list_model_len(l, (j - 1) as nat);
    }
}

proof fn lemma_list_model_at(l: Vec<Val>, j: nat, k: nat)
    requires
        k < j <= l.len(),
    ensures
        list_model(l, j)[k as int] == val_model(l@[k as int]),
    decreases j,
{
    lemma_list_model_len(l, j);
    if k < j - 1 {
        lemma_list_model_len(l, (j - 1) as nat);
        lemma_list_model_at(l, (j - 1) as nat, k);
    }
}

} // verus!
