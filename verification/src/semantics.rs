//! How a run of a flow may go.
//!
//! A run starts in a state of the storage and ends with success or a fault, in a state. What
//! the dispatcher replies is not known beforehand, so the meaning of a flow is a relation: it
//! says which ends a run that starts in a given state may have.

use crate::error::{fault_text, Fault};
use crate::expr::{truthy, value_of, Term};
use crate::externs::Registry;
use crate::node::{target, written, JoinMode, Tree};
use crate::path::shown;
use crate::render::json_debug;
use crate::storage::{CtxStorage, MemoryCtx};
use crate::value::{Json, Number};
use vstd::prelude::*;

verus! {

/// What a run has around it, where `T` is the state of the storage.
#[verifier::reject_recursive_types(T)]
pub struct Host<T> {
    /// Whether the dispatcher may give a reply to a step with an input.
    pub replies: spec_fn(Seq<char>, Json, Result<Json, Fault>) -> bool,
    /// The external functions.
    pub registry: Registry,
    /// Whether the branches of a fanout run at the same time; if not, they run in order.
    pub concurrent: bool,
    /// Whether others may lead the storage from one state to another while a run waits for a step
    /// or for branches.
    pub meanwhile: spec_fn(T, T) -> bool,
}

/// The host as the branches of a fanout have it: no one else has their contexts.
pub open spec fn private<T>(h: Host<T>) -> Host<Json> {
    Host {
        replies: h.replies,
        registry: h.registry,
        concurrent: h.concurrent,
        meanwhile: |a: Json, b: Json| a == b,
    }
}

/// Whether no one writes to the storage while a run waits.
pub open spec fn undisturbed<T>(h: Host<T>) -> bool {
    forall|a: T, b: T| #[trigger] (h.meanwhile)(a, b) ==> a == b
}

/// Whether it may be that no one writes to the storage while a run waits.
pub open spec fn calm<T>(h: Host<T>) -> bool {
    forall|a: T| #[trigger] (h.meanwhile)(a, a)
}

/// Names an end of a part of a run. It holds of every end: where the relations below say that
/// there is one, they name it by this.
pub open spec fn through<T>(r: Result<(), Fault>, s: T) -> bool {
    true
}

/// Names results of the branches of a fanout, in the same way.
pub open spec fn results(rs: Seq<Result<Json, Fault>>) -> bool {
    true
}

/// An integer as a value.
pub open spec fn count(n: nat) -> Json {
    Json::Num(Number::PosInt(n as u64))
}

/// What a failed step fails with.
pub open spec fn step_fault(ref_: Seq<char>, f: Fault) -> Fault {
    Fault::DispatcherError { ref_, msg: fault_text(f) }
}

/// What a fanout over something else than an array fails with.
pub open spec fn items_fault(v: Json) -> Fault {
    Fault::TypeError { op: "fanout.items"@, msg: "expected array, got "@ + json_debug(v) }
}

/// What a fanout without items fails with, where one branch has to give the result.
pub open spec fn empty_fault(op: Seq<char>) -> Fault {
    Fault::TypeError { op, msg: "requires at least one item"@ }
}

/// The record of how a branch did.
pub open spec fn record(r: Result<Json, Fault>) -> Json {
    match r {
        Ok(c) => Json::Obj(
            Map::empty().insert("status"@, Json::Str("fulfilled"@)).insert("value"@, c),
        ),
        Err(f) => Json::Obj(
            Map::empty().insert("status"@, Json::Str("rejected"@)).insert(
                "reason"@,
                Json::Str(fault_text(f)),
            ),
        ),
    }
}

/// The records of how branches did.
pub open spec fn records(rs: Seq<Result<Json, Fault>>) -> Seq<Json> {
    Seq::new(rs.len(), |i: int| record(rs[i]))
}

/// The context that each branch starts with.
pub open spec fn starts(bind: Term, snap: Json, items: Seq<Json>) -> Seq<Json> {
    Seq::new(items.len(), |i: int| written(bind, snap, items[i])->Ok_0)
}

/// The results of branches whose items cannot be written where they are to find them.
pub open spec fn unbound(bind: Term, snap: Json, items: Seq<Json>) -> Seq<Result<Json, Fault>> {
    Seq::new(items.len(), |i: int| Err(written(bind, snap, items[i])->Err_0))
}

/// Whether writing a result leads from one state to an end.
pub open spec fn delivers<S: CtxStorage>(
    out: Term,
    v: Result<Json, Fault>,
    s0: S::State,
    r: Result<(), Fault>,
    s1: S::State,
) -> bool {
    match v {
        Err(f) => r == Err::<(), Fault>(f) && s1 == s0,
        Ok(v) => match target(out) {
            Err(f) => r == Err::<(), Fault>(f) && s1 == s0,
            Ok(p) => S::takes(s0, shown(p), v, r, s1),
        },
    }
}

/// The same after a wait.
pub open spec fn delivers_later<S: CtxStorage>(
    h: Host<S::State>,
    out: Term,
    v: Result<Json, Fault>,
    s0: S::State,
    r: Result<(), Fault>,
    s1: S::State,
) -> bool {
    exists|sm: S::State| #[trigger] (h.meanwhile)(s0, sm) && delivers::<S>(out, v, sm, r, s1)
}

/// The result of a step, given what the dispatcher replied.
pub open spec fn step_result(ref_: Seq<char>, reply: Result<Json, Fault>) -> Result<Json, Fault> {
    match reply {
        Ok(v) => Ok(v),
        Err(f) => Err(step_fault(ref_, f)),
    }
}

/// Whether a run of a flow that starts in state `s0` may end with `r` in state `s1`.
pub open spec fn may<S: CtxStorage>(
    t: Tree,
    h: Host<S::State>,
    s0: S::State,
    r: Result<(), Fault>,
    s1: S::State,
) -> bool
    decreases t, 0nat, 0nat,
{
    match t {
        Tree::Step { ref_, input, out } => exists|snap: Json|
            #[trigger] S::shows(s0, snap) && match value_of(input, snap, h.registry) {
                Err(f) => r == Err::<(), Fault>(f) && s1 == s0,
                Ok(v) => exists|reply: Result<Json, Fault>| #[trigger]
                    (h.replies)(ref_, v, reply) && delivers_later::<S>(
                        h,
                        out,
                        step_result(ref_, reply),
                        s0,
                        r,
                        s1,
                    ),
            },
        Tree::Sequence(children) => may_all::<S>(children, h, s0, r, s1),
        Tree::Branch { cond, yes, no } => exists|snap: Json|
            #[trigger] S::shows(s0, snap) && match value_of(cond, snap, h.registry) {
                Err(f) => r == Err::<(), Fault>(f) && s1 == s0,
                Ok(Json::Bool(true)) => may::<S>(*yes, h, s0, r, s1),
                Ok(Json::Bool(false)) => may::<S>(*no, h, s0, r, s1),
                Ok(v) => r == Err::<(), Fault>(Fault::NonBoolCond(v)) && s1 == s0,
            },
        Tree::Fanout { items, bind, body, join, out } => exists|snap: Json|
            #[trigger] S::shows(s0, snap) && match value_of(items, snap, h.registry) {
                Err(f) => r == Err::<(), Fault>(f) && s1 == s0,
                Ok(Json::Arr(xs)) => exists|joined: Result<Json, Fault>| #[trigger]
                    delivers_later::<S>(h, out, joined, s0, r, s1) && may_join(
                        join,
                        bind,
                        *body,
                        private(h),
                        snap,
                        xs,
                        joined,
                    ),
                Ok(v) => r == Err::<(), Fault>(items_fault(v)) && s1 == s0,
            },
        Tree::Loop { counter, cond, body, max } => match target(counter) {
            Err(f) => r == Err::<(), Fault>(f) && s1 == s0,
            Ok(p) => exists|ra: Result<(), Fault>, sa: S::State| #[trigger]
                S::takes(s0, shown(p), count(0), ra, sa) && match ra {
                    Err(f) => r == ra && s1 == sa,
                    Ok(_) => may_loop::<S>(shown(p), cond, *body, max, 0, h, sa, r, s1),
                },
        },
        Tree::Try { body, catch, err_at } => exists|
            snap: Json,
            ra: Result<(), Fault>,
            sa: S::State,
        |
            #[trigger] S::shows(s0, snap) && #[trigger] through(ra, sa) && may::<S>(
                *body,
                h,
                s0,
                ra,
                sa,
            ) && match ra {
                Ok(_) => r == ra && s1 == sa,
                Err(f) => may_catch::<S>(*catch, err_at, f, snap, h, sa, r, s1),
            },
        Tree::Let { at, value } => exists|snap: Json|
            #[trigger] S::shows(s0, snap) && match value_of(value, snap, h.registry) {
                Err(f) => r == Err::<(), Fault>(f) && s1 == s0,
                Ok(v) => S::takes(s0, shown(at), v, r, s1),
            },
    }
}

/// The same of flows one after the other, up to the first that fails.
pub open spec fn may_all<S: CtxStorage>(
    children: Seq<Tree>,
    h: Host<S::State>,
    s0: S::State,
    r: Result<(), Fault>,
    s1: S::State,
) -> bool
    decreases children, 0nat, 0nat,
{
    if children.len() == 0 {
        r is Ok && s1 == s0
    } else {
        exists|ra: Result<(), Fault>, sa: S::State| #[trigger]
            through(ra, sa) && may::<S>(children[0], h, s0, ra, sa) && match ra {
                Ok(_) => may_all::<S>(children.drop_first(), h, sa, r, s1),
                Err(f) => r == ra && s1 == sa,
            }
    }
}

/// The same of a loop with `n` finished rounds.
pub open spec fn may_loop<S: CtxStorage>(
    counter: Seq<char>,
    cond: Term,
    body: Tree,
    max: u32,
    n: nat,
    h: Host<S::State>,
    s0: S::State,
    r: Result<(), Fault>,
    s1: S::State,
) -> bool
    decreases body, 1nat, max - n,
{
    if n >= max {
        r is Ok && s1 == s0
    } else {
        exists|snap: Json|
            #[trigger] S::shows(s0, snap) && match value_of(cond, snap, h.registry) {
                Err(f) => r == Err::<(), Fault>(f) && s1 == s0,
                Ok(v) => if !truthy(v) {
                    r is Ok && s1 == s0
                } else {
                    exists|ra: Result<(), Fault>, sa: S::State| #[trigger]
                        through(ra, sa) && may::<S>(body, h, s0, ra, sa) && match ra {
                            Err(f) => r == ra && s1 == sa,
                            Ok(_) => exists|rb: Result<(), Fault>, sb: S::State| #[trigger]
                                S::takes(sa, counter, count(n + 1), rb, sb) && match rb {
                                    Err(f) => r == rb && s1 == sb,
                                    Ok(_) => may_loop::<S>(
                                        counter,
                                        cond,
                                        body,
                                        max,
                                        n + 1,
                                        h,
                                        sb,
                                        r,
                                        s1,
                                    ),
                                },
                        }
                },
            }
    }
}

/// The same of what follows the failure of the body of a try.
pub open spec fn may_catch<S: CtxStorage>(
    catch: Tree,
    err_at: Option<Term>,
    f: Fault,
    snap: Json,
    h: Host<S::State>,
    s0: S::State,
    r: Result<(), Fault>,
    s1: S::State,
) -> bool
    decreases catch, 1nat, 0nat,
{
    exists|sa: S::State| #[trigger]
        S::becomes(s0, snap, sa) && match err_at {
            None => may::<S>(catch, h, sa, r, s1),
            Some(at) => match target(at) {
                Err(g) => r == Err::<(), Fault>(g) && s1 == sa,
                Ok(p) => exists|rb: Result<(), Fault>, sb: S::State| #[trigger]
                    S::takes(sa, shown(p), Json::Str(fault_text(f)), rb, sb) && match rb {
                        Err(g) => r == rb && s1 == sb,
                        Ok(_) => may::<S>(catch, h, sb, r, s1),
                    },
            },
        }
}

/// Whether a run on a context in memory may end with a context or a fault.
pub open spec fn may_end(t: Tree, h: Host<Json>, ctx: Json, r: Result<Json, Fault>) -> bool
    decreases t, 1nat, 0nat,
{
    match r {
        Ok(c) => may::<MemoryCtx>(t, h, ctx, Ok(()), c),
        Err(f) => exists|c: Json| #[trigger]
            through(Err(f), c) && may::<MemoryCtx>(t, h, ctx, Err(f), c),
    }
}

/// Whether the branches of a fanout may give a joined result.
pub open spec fn may_join(
    join: JoinMode,
    bind: Term,
    body: Tree,
    h: Host<Json>,
    snap: Json,
    items: Seq<Json>,
    joined: Result<Json, Fault>,
) -> bool
    decreases body, 5nat, 0nat,
{
    if items.len() == 0 {
        joined == match join {
            JoinMode::All | JoinMode::AllSettled => Ok::<Json, Fault>(Json::Arr(Seq::empty())),
            JoinMode::Any => Err(empty_fault("fanout.any"@)),
            JoinMode::Race => Err(empty_fault("fanout.race"@)),
        }
    } else {
        match written(bind, snap, items[0]) {
            Err(f) => joined == if join == JoinMode::AllSettled {
                Ok::<Json, Fault>(Json::Arr(records(unbound(bind, snap, items))))
            } else {
                Err(f)
            },
            Ok(_) => may_branches(join, body, h, starts(bind, snap, items), joined),
        }
    }
}

/// The same of branches that have their contexts.
pub open spec fn may_branches(
    join: JoinMode,
    body: Tree,
    h: Host<Json>,
    ctxs: Seq<Json>,
    joined: Result<Json, Fault>,
) -> bool
    decreases body, 4nat, 0nat,
{
    if h.concurrent {
        may_settle(join, body, h, ctxs, joined)
    } else {
        may_follow(join, body, h, ctxs, Seq::empty(), joined)
    }
}

/// The same of branches that run at the same time, of which there is at least one.
pub open spec fn may_settle(
    join: JoinMode,
    body: Tree,
    h: Host<Json>,
    ctxs: Seq<Json>,
    joined: Result<Json, Fault>,
) -> bool
    decreases body, 3nat, 0nat,
{
    match join {
        JoinMode::All => match joined {
            Ok(v) => v is Arr && v->Arr_0.len() == ctxs.len() && forall|i: int|
                #![trigger ctxs[i]]
                0 <= i < ctxs.len() ==> may_end(body, h, ctxs[i], Ok(v->Arr_0[i])),
            Err(f) => exists|i: int|
                #![trigger ctxs[i]]
                0 <= i < ctxs.len() && may_end(body, h, ctxs[i], Err(f)),
        },
        JoinMode::Any => match joined {
            Ok(v) => exists|i: int|
                #![trigger ctxs[i]]
                0 <= i < ctxs.len() && may_end(body, h, ctxs[i], Ok(v)),
            Err(f) => exists|rs: Seq<Result<Json, Fault>>, j: int| #[trigger]
                results(rs) && rs.len() == ctxs.len() && 0 <= j < rs.len() && #[trigger] rs[j]
                    == Err::<Json, Fault>(f) && forall|i: int|
                    #![trigger ctxs[i]]
                    0 <= i < ctxs.len() ==> rs[i] is Err && may_end(body, h, ctxs[i], rs[i]),
        },
        JoinMode::Race => exists|i: int|
            #![trigger ctxs[i]]
            0 <= i < ctxs.len() && may_end(body, h, ctxs[i], joined),
        JoinMode::AllSettled => exists|rs: Seq<Result<Json, Fault>>| #[trigger]
            results(rs) && rs.len() == ctxs.len() && joined == Ok::<Json, Fault>(
                Json::Arr(records(rs)),
            ) && forall|i: int|
                #![trigger ctxs[i]]
                0 <= i < ctxs.len() ==> may_end(body, h, ctxs[i], rs[i]),
    }
}

/// The same of branches that run in order, after the first ones have given the results `done`.
pub open spec fn may_follow(
    join: JoinMode,
    body: Tree,
    h: Host<Json>,
    ctxs: Seq<Json>,
    done: Seq<Result<Json, Fault>>,
    joined: Result<Json, Fault>,
) -> bool
    decreases body, 2nat, ctxs.len() - done.len(),
{
    match decision(join, ctxs.len(), done) {
        Some(j) => joined == j,
        None => done.len() < ctxs.len() && exists|x: Result<Json, Fault>| #[trigger]
            results(done.push(x)) && may_end(body, h, ctxs[done.len() as int], x) && may_follow(
                join,
                body,
                h,
                ctxs,
                done.push(x),
                joined,
            ),
    }
}

/// The joined result of a fanout over `n` items whose branches run in order, once the results of
/// the first branches decide it.
pub open spec fn decision(join: JoinMode, n: nat, done: Seq<Result<Json, Fault>>) -> Option<
    Result<Json, Fault>,
> {
    match join {
        JoinMode::All => if done.len() > 0 && done.last() is Err {
            Some(done.last())
        } else if done.len() >= n {
            Some(Ok(Json::Arr(successes(done))))
        } else {
            None
        },
        JoinMode::Any => if done.len() > 0 && (done.last() is Ok || done.len() >= n) {
            Some(done.last())
        } else {
            None
        },
        JoinMode::Race => if done.len() > 0 {
            Some(done.last())
        } else {
            None
        },
        JoinMode::AllSettled => if done.len() >= n {
            Some(Ok(Json::Arr(records(done))))
        } else {
            None
        },
    }
}

/// The contexts of branches that succeeded.
pub open spec fn successes(rs: Seq<Result<Json, Fault>>) -> Seq<Json> {
    Seq::new(rs.len(), |i: int| rs[i]->Ok_0)
}

} // verus!
