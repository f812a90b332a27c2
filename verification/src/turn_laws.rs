//! What holds of how far a run in turns has come.

use crate::error::{EvalError, Fault};
use crate::flow::Progress;
use crate::semantics::{may_branches, private, Host};
use crate::storage::CtxStorage;
use crate::value::{views, Json};
use vstd::prelude::*;

verus! {

/// A run that is done ends with what it says, in the state that it is in.
pub proof fn law_done_is_the_end<S: CtxStorage>(
    x: Result<(), EvalError>,
    h: Host<S::State>,
    s0: S::State,
    r: Result<(), Fault>,
    s1: S::State,
)
    ensures
        Progress::Done(x).may_end::<S>(h, s0, r, s1) <==> s1 == s0 && match x {
            Ok(_) => r is Ok,
            Err(e) => r == Err::<(), Fault>(e@),
        },
{
    if let (Ok(a), Ok(b)) = (x, r) {
        assert(a == () && b == ());
    }
}

/// A run that asks for a step goes on with some reply to that very step and that very input.
pub proof fn law_dispatch_asks_for_its_step<S: CtxStorage>(
    p: Progress,
    h: Host<S::State>,
    s0: S::State,
    r: Result<(), Fault>,
    s1: S::State,
) -> (end: (Result<Json, Fault>, S::State))
    requires
        p is Dispatch,
        p.may_end::<S>(h, s0, r, s1),
    ensures
        (h.replies)(p->ref_@, p->input@, end.0),
        (h.meanwhile)(s0, end.1),
        p->Dispatch_rest.may_end::<S>(h, end.0, end.1, r, s1),
{
    let (ref_, input, rest) = (p->ref_, p->input, p->Dispatch_rest);
    choose|reply: Result<Json, Fault>, sm: S::State|
        #[trigger] (h.replies)(ref_@, input@, reply) && #[trigger] (h.meanwhile)(s0, sm)
            && rest.may_end::<S>(h, reply, sm, r, s1)
}

/// A run that asks for branches goes on with what they may join to, from the contexts that it
/// hands out.
pub proof fn law_fanout_asks_for_its_branches<S: CtxStorage>(
    p: Progress,
    h: Host<S::State>,
    s0: S::State,
    r: Result<(), Fault>,
    s1: S::State,
) -> (end: (Result<Json, Fault>, S::State))
    requires
        p is Fanout,
        p.may_end::<S>(h, s0, r, s1),
    ensures
        may_branches(p->join, p->body@, private(h), views(p->contexts@), end.0),
        (h.meanwhile)(s0, end.1),
        p->Fanout_rest.may_end::<S>(h, end.0, end.1, r, s1),
{
    let (join, body, contexts, rest) = (p->join, p->body, p->contexts, p->Fanout_rest);
    choose|reply: Result<Json, Fault>, sm: S::State|
        #[trigger] may_branches(join, body@, private(h), views(contexts@), reply)
            && #[trigger] (h.meanwhile)(s0, sm) && rest.may_end::<S>(h, reply, sm, r, s1)
}

} // verus!
