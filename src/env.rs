//! The one flat mapping from variable names to values that a program run shares.
use vstd::prelude::*;
use crate::value::{val_model, Val, Value};

verus! {

/// Variable bindings. A name may be bound once; later bindings replace it.
pub struct Env {
    names: Vec<String>,
    vals: Vec<Val>,
}

/// The index of the last of the first `n` names that reads `k`.
pub open spec fn slot(names: Seq<String>, k: Seq<char>, n: int) -> Option<int>
    decreases n,
{
    if n <= 0 || n > names.len() {
        None
    } else if names[n - 1]@ == k {
        Some(n - 1)
    } else {
        slot(names, k, n - 1)
    }
}

proof fn lemma_slot_bounds(names: Seq<String>, k: Seq<char>, n: int)
    requires
        0 <= n <= names.len(),
    ensures
        slot(names, k, n) matches Some(i) ==> 0 <= i < n && names[i]@ == k,
        slot(names, k, n) is None ==> forall|j: int| 0 <= j < n ==> names[j]@ != k,
    decreases n,
{
    if n > 0 {
        lemma_slot_bounds(names, k, n - 1);
    }
}

proof fn lemma_slot_push(names: Seq<String>, s: String, k: Seq<char>)
    ensures
        slot(names.push(s), k, names.len() + 1int) == if s@ == k {
            Some(names.len() as int)
        } else {
            slot(names, k, names.len() as int)
        },
{
    let n = names.len() as int;
    assert(names.push(s)[n] == s);
    if s@ != k {
        lemma_slot_same(names.push(s), names, k, n);
    }
}

proof fn lemma_slot_same(a: Seq<String>, b: Seq<String>, k: Seq<char>, n: int)
    requires
        0 <= n <= b.len(),
        n <= a.len(),
        forall|i: int| 0 <= i < n ==> a[i] == b[i],
    ensures
        slot(a, k, n) == slot(b, k, n),
    decreases n,
{
    if n > 0 {
        lemma_slot_same(a, b, k, n - 1);
    }
}

/// The value bound to `k` in `m`; `Value::Int(0)` when `k` is unbound.
pub open spec fn lookup(m: Map<Seq<char>, Value>, k: Seq<char>) -> Value {
    if m.contains_key(k) {
        m[k]
    } else {
        Value::Int(0)
    }
}

impl Env {
    /// The bindings, by name.
    pub closed spec fn view(self) -> Map<Seq<char>, Value> {
        Map::new(|k: Seq<char>| self.binds(k), |k: Seq<char>| self.value_of(k))
    }

    pub closed spec fn wf(self) -> bool {
        self.names.len() == self.vals.len()
    }

    /// The value bound to `k`; `Value::Int(0)` when `k` is unbound.
    closed spec fn value_of(self, k: Seq<char>) -> Value {
        match slot(self.names@, k, self.names.len() as int) {
            Some(i) => val_model(self.vals@[i]),
            None => Value::Int(0),
        }
    }

    /// Whether `k` has been bound.
    closed spec fn binds(self, k: Seq<char>) -> bool {
        slot(self.names@, k, self.names.len() as int) is Some
    }

    /// An environment with no bindings.
    pub fn new() -> (r: Env)
        ensures
            r.wf(),
            r.view() == Map::<Seq<char>, Value>::empty(),
    {
        let r = Env { names: Vec::new(), vals: Vec::new() };
        assert(r.view() =~= Map::<Seq<char>, Value>::empty());
        r
    }

    /// A copy with the same bindings.
    pub fn copy(&self) -> (r: Env)
        requires
            self.wf(),
        ensures
            r.wf(),
            r@ == self@,
    {
        let mut names: Vec<String> = Vec::new();
        let mut vals: Vec<Val> = Vec::new();
        let mut k: usize = 0;
        while k < self.names.len()
            invariant
                self.wf(),
                k <= self.names.len(),
                names.len() == k,
                vals.len() == k,
                forall|i: int| 0 <= i < k ==> names@[i] == self.names@[i],
                forall|i: int| 0 <= i < k ==> val_model(#[trigger] vals@[i]) == val_model(self.vals@[i]),
            decreases self.names.len() - k,
        {
            names.push(self.names[k].clone());
            vals.push(self.vals[k].copy());
            k = k + 1;
        }
        let r = Env { names, vals };
        proof {
            let n = self.names.len() as int;
            assert forall|key: Seq<char>| #[trigger] r.value_of(key) == self.value_of(key) && r.binds(key) == self.binds(key) by {
                lemma_slot_same(r.names@, self.names@, key, n);
                lemma_slot_bounds(self.names@, key, n);
            }
            assert forall|key: Seq<char>| #[trigger] r.binds(key) == self.binds(key) by {
                lemma_slot_same(r.names@, self.names@, key, n);
            }
            assert(r.view() =~= self.view());
        }
        r
    }

    fn position(&self, name: &String) -> (r: Option<usize>)
        requires
            self.wf(),
        ensures
            r matches Some(i) ==> i < self.names.len() && slot(self.names@, name@, self.names.len() as int) == Some(i as int),
            r is None ==> slot(self.names@, name@, self.names.len() as int) is None,
    {
        let mut n = self.names.len();
        while n > 0
            invariant
                n <= self.names.len(),
                slot(self.names@, name@, self.names.len() as int) == slot(self.names@, name@, n as int),
            decreases n,
        {
            if self.names[n - 1] == *name {
                return Some(n - 1);
            }
            n = n - 1;
        }
        None
    }

    /// A reference to the value bound to `name`, if any.
    pub fn lookup(&self, name: &String) -> (r: Option<&Val>)
        requires
            self.wf(),
        ensures
            r is Some <==> self.view().contains_key(name@),
            r matches Some(v) ==> val_model(*v) == lookup(self.view(), name@),
            r is None ==> lookup(self.view(), name@) == Value::Int(0),
    {
        match self.position(name) {
            Some(i) => Some(&self.vals[i]),
            None => None,
        }
    }

    /// A copy of the value bound to `name`, or `Int(0)` when it is unbound.
    pub fn get(&self, name: &String) -> (r: Val)
        requires
            self.wf(),
        ensures
            r.model() == lookup(self.view(), name@),
    {
        match self.position(name) {
            Some(i) => self.vals[i].copy(),
            None => Val::Int(0),
        }
    }

    /// Binds `name` to `v`, replacing any earlier binding.
    pub fn set(&mut self, name: &String, v: Val)
        requires
            old(self).wf(),
        ensures
            final(self).wf(),
            final(self).view() == old(self).view().insert(name@, v.model()),
    {
        match self.position(name) {
            Some(i) => {
                let ghost before = self.vals@;
                self.vals.set(i, v);
                proof {
                    assert(self.names == old(self).names);
                    assert(self.vals@ == before.update(i as int, v));
                    assert forall|k: Seq<char>| #[trigger] self.value_of(k) == if k == name@ {
                        v.model()
                    } else {
                        old(self).value_of(k)
                    } by {
                        lemma_slot_bounds(self.names@, k, self.names.len() as int);
                        lemma_slot_bounds(self.names@, name@, self.names.len() as int);
                    }
                    assert forall|k: Seq<char>| #[trigger] self.binds(k) == (k == name@ || old(self).binds(k)) by {
                        lemma_slot_bounds(self.names@, name@, self.names.len() as int);
                    }
                    assert(self.view() =~= old(self).view().insert(name@, v.model()));
                }
            },
            None => {
                let ghost names0 = self.names@;
                self.names.push(name.clone());
                self.vals.push(v);
                proof {
                    assert forall|k: Seq<char>| #[trigger] self.value_of(k) == if k == name@ {
                        v.model()
                    } else {
                        old(self).value_of(k)
                    } by {
                        lemma_slot_push(names0, self.names@.last(), k);
                        assert(self.names@ == names0.push(self.names@.last()));
                        lemma_slot_bounds(names0, k, names0.len() as int);
                    }
                    assert forall|k: Seq<char>| #[trigger] self.binds(k) == (k == name@ || old(self).binds(k)) by {
                        lemma_slot_push(names0, self.names@.last(), k);
                        assert(self.names@ == names0.push(self.names@.last()));
                    }
                    assert(self.view() =~= old(self).view().insert(name@, v.model()));
                }
            },
        }
    }
}

} // verus!
