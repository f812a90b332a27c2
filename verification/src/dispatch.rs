//! What carries out the steps of a flow.

use crate::error::{value_outcome, EvalError, Fault};
use crate::value::{Json, Value};
use vstd::prelude::*;

verus! {

/// What a dispatcher may be asked for and may reply, depending on its state.
#[verifier::reject_recursive_types(W)]
pub struct Rules<W> {
    /// Whether it may be asked for a step with an input in a state.
    pub allows: spec_fn(W, Seq<char>, Json) -> bool,
    /// Whether it may give a reply to a step with an input in a state, and be in another state
    /// after it.
    pub replies: spec_fn(W, Seq<char>, Json, Result<Json, Fault>, W) -> bool,
}

/// Carries out steps. What it replies may depend on what it has carried out before, and on more.
///
/// An implementation that does not say what it replies may reply anything.
pub trait Dispatcher: Sized {
    /// What its replies depend on and change.
    type State;

    /// The state now.
    open spec fn state(&self) -> Self::State {
        arbitrary::<spec_fn(Self) -> Self::State>()(*self)
    }

    /// What it may be asked for and may reply. This does not change.
    open spec fn rules(&self) -> Rules<Self::State> {
        Rules {
            allows: |w: Self::State, ref_: Seq<char>, input: Json| true,
            replies: |
                w: Self::State,
                ref_: Seq<char>,
                input: Json,
                reply: Result<Json, Fault>,
                post: Self::State,
            |
                true,
        }
    }

    /// Carries out the step that `ref_` refers to.
    fn dispatch(&mut self, ref_: &str, input: Value) -> (r: Result<Value, EvalError>)
        requires
            (old(self).rules().allows)(old(self).state(), ref_@, input@),
        ensures
            (old(self).rules().replies)(
                old(self).state(),
                ref_@,
                input@,
                value_outcome(r),
                final(self).state(),
            ),
            final(self).rules() == old(self).rules(),
    ;
}

/// A closure stays as it is: it has one state.
impl<F> Dispatcher for F where F: Fn(&str, Value) -> Result<Value, EvalError> {
    type State = ();

    open spec fn state(&self) -> () {
        ()
    }

    open spec fn rules(&self) -> Rules<()> {
        let f = *self;
        Rules {
            allows: |w: (), ref_: Seq<char>, input: Json|
                forall|a: &str, v: Value|
                    a@ == ref_ && v@ == input ==> #[trigger] call_requires(f, (a, v)),
            replies: |w: (), ref_: Seq<char>, input: Json, reply: Result<Json, Fault>, post: ()|
                exists|a: &str, v: Value, r: Result<Value, EvalError>| #[trigger]
                    call_ensures(f, (a, v), r) && a@ == ref_ && v@ == input && value_outcome(r)
                        == reply,
        }
    }

    fn dispatch(&mut self, ref_: &str, input: Value) -> Result<Value, EvalError> {
        (*self)(ref_, input)
    }
}

} // verus!
