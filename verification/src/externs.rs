//! Registries of pure functions that expressions may call.

use crate::error::{value_outcome, EvalError, Fault};
use crate::text::same_text;
use crate::value::{views, Json, Value};
use vstd::prelude::*;

verus! {

/// What each registered function returns on each sequence of arguments.
pub type Registry = spec_fn(Seq<char>, Seq<Json>) -> Result<Json, Fault>;

/// A registry of pure functions. Each returns a value that depends on its arguments alone and
/// has no other effect.
pub trait Externs: Sized {
    /// What the function that is registered under a name returns. Of an implementation that does
    /// not say, it is not known.
    open spec fn outcome(&self, ref_: Seq<char>, args: Seq<Json>) -> Result<Json, Fault> {
        arbitrary::<spec_fn(Self, Seq<char>, Seq<Json>) -> Result<Json, Fault>>()(*self, ref_, args)
    }

    /// Calls the function that is registered under a name.
    fn call(&self, ref_: &str, args: &[Value]) -> (r: Result<Value, EvalError>)
        ensures
            value_outcome(r) == self.outcome(ref_@, views(args@)),
    ;
}

/// The functions of a registry.
pub open spec fn registry<X: Externs>(x: &X) -> Registry {
    |ref_: Seq<char>, args: Seq<Json>| x.outcome(ref_, args)
}

/// The registry without functions.
pub struct NoExterns;

impl Externs for NoExterns {
    open spec fn outcome(&self, ref_: Seq<char>, args: Seq<Json>) -> Result<Json, Fault> {
        Err(Fault::ExternError { ref_, msg: "no externs registry configured"@ })
    }

    fn call(&self, ref_: &str, args: &[Value]) -> Result<Value, EvalError> {
        Err(
            EvalError::ExternError {
                ref_: ref_.to_owned(),
                msg: "no externs registry configured".to_owned(),
            },
        )
    }
}

/// Whether a function can be called with any arguments, and what it returns depends on what
/// the arguments stand for alone.
pub open spec fn pure<F: Fn(&[Value]) -> Result<Value, EvalError>>(f: F) -> bool {
    &&& forall|a: &[Value]| #[trigger] call_requires(f, (a,))
    &&& forall|
        a: &[Value],
        b: &[Value],
        r: Result<Value, EvalError>,
        s: Result<Value, EvalError>,
    | #[trigger]
        call_ensures(f, (a,), r) && #[trigger] call_ensures(f, (b,), s) && views(a@) == views(b@)
            ==> value_outcome(r) == value_outcome(s)
}

/// Whether a function can return a result on arguments.
pub open spec fn returns_on<F: Fn(&[Value]) -> Result<Value, EvalError>>(
    f: F,
    args: Seq<Json>,
    o: Result<Json, Fault>,
) -> bool {
    exists|a: &[Value], r: Result<Value, EvalError>| #[trigger]
        call_ensures(f, (a,), r) && views(a@) == args && value_outcome(r) == o
}

/// A registry of closures.
pub struct ExternMap<F: Fn(&[Value]) -> Result<Value, EvalError>> {
    names: Vec<String>,
    fns: Vec<F>,
}

impl<F: Fn(&[Value]) -> Result<Value, EvalError>> ExternMap<F> {
    /// The registered functions by name.
    pub closed spec fn view(&self) -> Map<Seq<char>, F> {
        Map::new(
            |k: Seq<char>| exists|i: int| 0 <= i < self.names@.len() && #[trigger] self.names@[i]@ == k,
            |k: Seq<char>|
                self.fns@[choose|i: int|
                    0 <= i < self.names@.len() && #[trigger] self.names@[i]@ == k],
        )
    }

    #[verifier::type_invariant]
    spec fn inv(self) -> bool {
        &&& self.names@.len() == self.fns@.len()
        &&& forall|i: int, j: int|
            0 <= i < j < self.names@.len() ==> #[trigger] self.names@[i]@ != #[trigger] self.names@[j]@
        &&& forall|i: int| 0 <= i < self.fns@.len() ==> pure(#[trigger] self.fns@[i])
    }

    /// A registry without functions.
    pub fn new() -> (r: Self)
        ensures
            r@ == Map::<Seq<char>, F>::empty(),
    {
        let r = ExternMap { names: Vec::new(), fns: Vec::new() };
        proof {
            assert(r@ =~= Map::<Seq<char>, F>::empty());
        }
        r
    }

    /// Where a name stands.
    fn place(&self, name: &str) -> (r: Option<usize>)
        ensures
            match r {
                Some(i) => i < self.names@.len() && self.names@[i as int]@ == name@
                    && self@.contains_key(name@) && i < self.fns@.len() && self@[name@]
                    == self.fns@[i as int],
                None => !self@.contains_key(name@) && forall|i: int|
                    0 <= i < self.names@.len() ==> #[trigger] self.names@[i]@ != name@,
            },
    {
        proof {
            use_type_invariant(self);
        }
        let mut i: usize = 0;
        while i < self.names.len()
            invariant
                i <= self.names@.len(),
                self.names@.len() == self.fns@.len(),
                forall|a: int, b: int|
                    0 <= a < b < self.names@.len() ==> #[trigger] self.names@[a]@
                        != #[trigger] self.names@[b]@,
                forall|j: int| 0 <= j < i ==> #[trigger] self.names@[j]@ != name@,
            decreases self.names@.len() - i,
        {
            if same_text(self.names[i].as_str(), name) {
                proof {
                    let k = name@;
                    let j = choose|j: int|
                        0 <= j < self.names@.len() && #[trigger] self.names@[j]@ == k;
                    assert(self.names@[i as int]@ == k);
                    assert(j == i);
                }
                return Some(i);
            }
            i = i + 1;
        }
        None
    }

    /// Registers a pure function under a name, in place of the one that had the name.
    pub fn register(&mut self, name: &str, f: F)
        requires
            pure(f),
        ensures
            final(self)@ == old(self)@.insert(name@, f),
    {
        let at = self.place(name);
        proof {
            use_type_invariant(&*self);
        }
        let ghost before = *self;
        let mut taken = ExternMap { names: Vec::new(), fns: Vec::new() };
        std::mem::swap(self, &mut taken);
        let ExternMap { mut names, mut fns } = taken;
        match at {
            Some(i) => {
                fns.set(i, f);
            },
            None => {
                names.push(name.to_owned());
                fns.push(f);
            },
        }
        let mut made = ExternMap { names, fns };
        proof {
            lemma_registered(before, made, name@, f, at);
        }
        std::mem::swap(self, &mut made);
    }

    /// Whether a name is registered.
    pub fn contains(&self, name: &str) -> (r: bool)
        ensures
            r == self@.contains_key(name@),
    {
        self.place(name).is_some()
    }
}

impl<F: Fn(&[Value]) -> Result<Value, EvalError>> Default for ExternMap<F> {
    fn default() -> (r: Self)
        ensures
            r@ == Map::<Seq<char>, F>::empty(),
    {
        Self::new()
    }
}

proof fn lemma_registered<F: Fn(&[Value]) -> Result<Value, EvalError>>(
    before: ExternMap<F>,
    after: ExternMap<F>,
    name: Seq<char>,
    f: F,
    at: Option<usize>,
)
    requires
        before.inv(),
        after.inv(),
        match at {
            Some(i) => i < before.names@.len() && before.names@[i as int]@ == name && after.names@
                == before.names@ && after.fns@ == before.fns@.update(i as int, f),
            None => after.names@.len() == before.names@.len() + 1 && (forall|i: int|
                0 <= i < before.names@.len() ==> #[trigger] after.names@[i] == before.names@[i])
                && after.names@.last()@ == name && after.fns@ == before.fns@.push(f) && forall|i: int|
                0 <= i < before.names@.len() ==> #[trigger] before.names@[i]@ != name,
        },
    ensures
        after@ == before@.insert(name, f),
{
    let n = before.names@.len() as int;
    assert forall|k: Seq<char>| #[trigger] after@.contains_key(k) <==> before@.insert(
        name,
        f,
    ).contains_key(k) by {
        if before@.contains_key(k) {
            let i = choose|i: int| 0 <= i < before.names@.len() && #[trigger] before.names@[i]@ == k;
            assert(after.names@[i]@ == k);
        }
        if k == name {
            match at {
                Some(i) => {
                    assert(after.names@[i as int]@ == k);
                },
                None => {
                    assert(after.names@[n]@ == k);
                },
            }
        }
        if after@.contains_key(k) {
            let i = choose|i: int| 0 <= i < after.names@.len() && #[trigger] after.names@[i]@ == k;
            if i < n {
                assert(before.names@[i]@ == k);
            }
        }
    }
    assert forall|k: Seq<char>| #[trigger] after@.contains_key(k) implies after@[k]
        == before@.insert(name, f)[k] by {
        let i = choose|i: int| 0 <= i < after.names@.len() && #[trigger] after.names@[i]@ == k;
        if k == name {
            match at {
                Some(j) => {
                    assert(after.names@[j as int]@ == k);
                    assert(i == j);
                },
                None => {
                    assert(after.names@[n]@ == k);
                    assert(i == n);
                },
            }
        } else {
            let j = choose|j: int| 0 <= j < before.names@.len() && #[trigger] before.names@[j]@ == k;
            if i < n {
                assert(before.names@[i]@ == k);
                assert(i == j);
            }
        }
    }
    assert(after@ =~= before@.insert(name, f));
}

impl<F: Fn(&[Value]) -> Result<Value, EvalError>> Externs for ExternMap<F> {
    open spec fn outcome(&self, ref_: Seq<char>, args: Seq<Json>) -> Result<Json, Fault> {
        if self@.contains_key(ref_) {
            choose|o: Result<Json, Fault>| returns_on(self@[ref_], args, o)
        } else {
            Err(Fault::ExternError { ref_, msg: "not registered in externs"@ })
        }
    }

    fn call(&self, ref_: &str, args: &[Value]) -> Result<Value, EvalError> {
        match self.place(ref_) {
            Some(i) => {
                proof {
                    use_type_invariant(self);
                    assert(pure(self.fns@[i as int]));
                }
                let r = (self.fns[i])(args);
                proof {
                    let f = self.fns@[i as int];
                    assert(returns_on(f, views(args@), value_outcome(r)));
                }
                r
            },
            None => Err(
                EvalError::ExternError {
                    ref_: ref_.to_owned(),
                    msg: "not registered in externs".to_owned(),
                },
            ),
        }
    }
}

} // verus!
