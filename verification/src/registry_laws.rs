//! What holds of registries of functions and of closures that carry out steps.

use crate::dispatch::Dispatcher;
use crate::error::{value_outcome, EvalError, Fault};
use crate::externs::{pure, registry, returns_on, ExternMap, Externs, NoExterns};
use crate::runs::served;
use crate::value::{views, Json, Value};
use vstd::prelude::*;

verus! {

/// A call of a registered function gives what the function returns on arguments that stand for the
/// same values, its failures included.
pub proof fn law_registered_functions_are_called<F: Fn(&[Value]) -> Result<Value, EvalError>>(
    m: ExternMap<F>,
    name: Seq<char>,
    args: &[Value],
    r: Result<Value, EvalError>,
)
    requires
        m@.contains_key(name),
        pure(m@[name]),
        call_ensures(m@[name], (args,), r),
    ensures
        registry(&m)(name, views(args@)) == value_outcome(r),
{
    let f = m@[name];
    let want = value_outcome(r);
    assert(returns_on(f, views(args@), want));
    let got = choose|o: Result<Json, Fault>| returns_on(f, views(args@), o);
    assert(returns_on(f, views(args@), got));
    let (b, s) = choose|b: &[Value], s: Result<Value, EvalError>| #[trigger]
        call_ensures(f, (b,), s) && views(b@) == views(args@) && value_outcome(s) == got;
    assert(call_ensures(f, (args,), r) && call_ensures(f, (b,), s));
}

/// A call of what is not registered fails and names it, whatever its arguments.
pub proof fn law_other_functions_are_missing<F: Fn(&[Value]) -> Result<Value, EvalError>>(
    m: ExternMap<F>,
    name: Seq<char>,
    args: Seq<Json>,
)
    ensures
        !m@.contains_key(name) ==> registry(&m)(name, args) == Err::<Json, Fault>(
            Fault::ExternError { ref_: name, msg: "not registered in externs"@ },
        ),
        registry(&NoExterns)(name, args) == Err::<Json, Fault>(
            Fault::ExternError { ref_: name, msg: "no externs registry configured"@ },
        ),
{
}

/// A run has the rules of its dispatcher and the functions of its registry.
pub proof fn law_runs_are_served<D: Dispatcher, X: Externs>(
    d: D,
    x: &X,
    name: Seq<char>,
    args: Seq<Json>,
)
    ensures
        served(d, x).rules == d.rules(),
        (served(d, x).registry)(name, args) == x.outcome(name, args),
{
}

/// A closure may be asked for the steps that it can be called for, and replies what it returns on
/// the reference and the input.
pub proof fn law_closures_carry_out_steps<F>(
    f: F,
    ref_: Seq<char>,
    input: Json,
    reply: Result<Json, Fault>,
) where F: Fn(&str, Value) -> Result<Value, EvalError>
    ensures
        (f.rules().allows)((), ref_, input) <==> forall|a: &str, v: Value|
            a@ == ref_ && v@ == input ==> #[trigger] call_requires(f, (a, v)),
        (f.rules().replies)((), ref_, input, reply, ()) <==> exists|
            a: &str,
            v: Value,
            r: Result<Value, EvalError>,
        | #[trigger]
            call_ensures(f, (a, v), r) && a@ == ref_ && v@ == input && value_outcome(r) == reply,
{
}

} // verus!
