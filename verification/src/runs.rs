//! How a run from start to end goes, step by step.
//!
//! A dispatcher may change with each step that it carries out: it has a state, and what it replies
//! leads from one state to another. The relations below follow a run whose branches run in order
//! through the states of the storage and of the dispatcher. The dispatcher changes only where the
//! run comes to a step, and once for each time that it does.

use crate::dispatch::{Dispatcher, Rules};
use crate::error::{fault_text, Fault};
use crate::expr::{truthy, value_of, Term};
use crate::externs::{registry, Externs, Registry};
use crate::node::{target, written, JoinMode, Tree};
use crate::path::shown;
use crate::semantics::{
    count, decision, delivers, empty_fault, items_fault, records, starts, step_result, through,
    unbound,
};
use crate::storage::{CtxStorage, MemoryCtx};
use crate::value::Json;
use vstd::prelude::*;

verus! {

/// What a run depends on besides the flow and the states.
#[verifier::reject_recursive_types(W)]
pub struct Env<W> {
    /// What the dispatcher may be asked for and may reply.
    pub rules: Rules<W>,
    /// The external functions.
    pub registry: Registry,
}

/// What a run depends on that has a dispatcher and external functions.
pub open spec fn served<D: Dispatcher, X: Externs>(d: D, externs: &X) -> Env<D::State> {
    Env { rules: d.rules(), registry: registry(externs) }
}

/// Names the result of a branch and the state that the dispatcher is in then. It holds of all of
/// them.
pub open spec fn branch_end<W>(x: Result<Json, Fault>, w: W) -> bool {
    true
}

/// Whether a run of a flow that starts with the storage in state `s0` and the dispatcher in state
/// `w0` may end with `r`, the storage in state `s1` and the dispatcher in state `w1`.
pub open spec fn runs<S: CtxStorage, W>(
    t: Tree,
    env: Env<W>,
    s0: S::State,
    w0: W,
    r: Result<(), Fault>,
    s1: S::State,
    w1: W,
) -> bool
    decreases t, 0nat, 0nat,
{
    match t {
        Tree::Step { ref_, input, out } => exists|snap: Json|
            #[trigger] S::shows(s0, snap) && match value_of(input, snap, env.registry) {
                Err(f) => r == Err::<(), Fault>(f) && s1 == s0 && w1 == w0,
                Ok(v) => exists|reply: Result<Json, Fault>| #[trigger]
                    (env.rules.replies)(w0, ref_, v, reply, w1) && delivers::<S>(
                        out,
                        step_result(ref_, reply),
                        s0,
                        r,
                        s1,
                    ),
            },
        Tree::Sequence(children) => runs_all::<S, W>(children, env, s0, w0, r, s1, w1),
        Tree::Branch { cond, yes, no } => exists|snap: Json|
            #[trigger] S::shows(s0, snap) && match value_of(cond, snap, env.registry) {
                Err(f) => r == Err::<(), Fault>(f) && s1 == s0 && w1 == w0,
                Ok(Json::Bool(true)) => runs::<S, W>(*yes, env, s0, w0, r, s1, w1),
                Ok(Json::Bool(false)) => runs::<S, W>(*no, env, s0, w0, r, s1, w1),
                Ok(v) => r == Err::<(), Fault>(Fault::NonBoolCond(v)) && s1 == s0 && w1 == w0,
            },
        Tree::Fanout { items, bind, body, join, out } => exists|snap: Json|
            #[trigger] S::shows(s0, snap) && match value_of(items, snap, env.registry) {
                Err(f) => r == Err::<(), Fault>(f) && s1 == s0 && w1 == w0,
                Ok(Json::Arr(xs)) => exists|joined: Result<Json, Fault>| #[trigger]
                    delivers::<S>(out, joined, s0, r, s1) && runs_join::<W>(
                        join,
                        bind,
                        *body,
                        env,
                        snap,
                        xs,
                        w0,
                        joined,
                        w1,
                    ),
                Ok(v) => r == Err::<(), Fault>(items_fault(v)) && s1 == s0 && w1 == w0,
            },
        Tree::Loop { counter, cond, body, max } => match target(counter) {
            Err(f) => r == Err::<(), Fault>(f) && s1 == s0 && w1 == w0,
            Ok(p) => exists|ra: Result<(), Fault>, sa: S::State| #[trigger]
                S::takes(s0, shown(p), count(0), ra, sa) && match ra {
                    Err(f) => r == ra && s1 == sa && w1 == w0,
                    Ok(_) => runs_loop::<S, W>(
                        shown(p),
                        cond,
                        *body,
                        max,
                        0,
                        env,
                        sa,
                        w0,
                        r,
                        s1,
                        w1,
                    ),
                },
        },
        Tree::Try { body, catch, err_at } => exists|
            snap: Json,
            ra: Result<(), Fault>,
            sa: S::State,
            wa: W,
        |
            #[trigger] S::shows(s0, snap) && #[trigger] through(ra, (sa, wa)) && runs::<S, W>(
                *body,
                env,
                s0,
                w0,
                ra,
                sa,
                wa,
            ) && match ra {
                Ok(_) => r == ra && s1 == sa && w1 == wa,
                Err(f) => runs_catch::<S, W>(*catch, err_at, f, snap, env, sa, wa, r, s1, w1),
            },
        Tree::Let { at, value } => w1 == w0 && exists|snap: Json|
            #[trigger] S::shows(s0, snap) && match value_of(value, snap, env.registry) {
                Err(f) => r == Err::<(), Fault>(f) && s1 == s0,
                Ok(v) => S::takes(s0, shown(at), v, r, s1),
            },
    }
}

/// The same of flows one after the other, up to the first that fails.
pub open spec fn runs_all<S: CtxStorage, W>(
    children: Seq<Tree>,
    env: Env<W>,
    s0: S::State,
    w0: W,
    r: Result<(), Fault>,
    s1: S::State,
    w1: W,
) -> bool
    decreases children, 0nat, 0nat,
{
    if children.len() == 0 {
        r is Ok && s1 == s0 && w1 == w0
    } else {
        exists|ra: Result<(), Fault>, sa: S::State, wa: W| #[trigger]
            through(ra, (sa, wa)) && runs::<S, W>(children[0], env, s0, w0, ra, sa, wa)
                && match ra {
                Ok(_) => runs_all::<S, W>(children.drop_first(), env, sa, wa, r, s1, w1),
                Err(f) => r == ra && s1 == sa && w1 == wa,
            }
    }
}

/// The same of a loop with `n` finished rounds.
pub open spec fn runs_loop<S: CtxStorage, W>(
    counter: Seq<char>,
    cond: Term,
    body: Tree,
    max: u32,
    n: nat,
    env: Env<W>,
    s0: S::State,
    w0: W,
    r: Result<(), Fault>,
    s1: S::State,
    w1: W,
) -> bool
    decreases body, 1nat, max - n,
{
    if n >= max {
        r is Ok && s1 == s0 && w1 == w0
    } else {
        exists|snap: Json|
            #[trigger] S::shows(s0, snap) && match value_of(cond, snap, env.registry) {
                Err(f) => r == Err::<(), Fault>(f) && s1 == s0 && w1 == w0,
                Ok(v) => if !truthy(v) {
                    r is Ok && s1 == s0 && w1 == w0
                } else {
                    exists|ra: Result<(), Fault>, sa: S::State, wa: W| #[trigger]
                        through(ra, (sa, wa)) && runs::<S, W>(body, env, s0, w0, ra, sa, wa)
                            && match ra {
                            Err(f) => r == ra && s1 == sa && w1 == wa,
                            Ok(_) => exists|rb: Result<(), Fault>, sb: S::State| #[trigger]
                                S::takes(sa, counter, count(n + 1), rb, sb) && match rb {
                                    Err(f) => r == rb && s1 == sb && w1 == wa,
                                    Ok(_) => runs_loop::<S, W>(
                                        counter,
                                        cond,
                                        body,
                                        max,
                                        n + 1,
                                        env,
                                        sb,
                                        wa,
                                        r,
                                        s1,
                                        w1,
                                    ),
                                },
                        }
                },
            }
    }
}

/// The same of what follows the failure of the body of a try.
pub open spec fn runs_catch<S: CtxStorage, W>(
    catch: Tree,
    err_at: Option<Term>,
    f: Fault,
    snap: Json,
    env: Env<W>,
    s0: S::State,
    w0: W,
    r: Result<(), Fault>,
    s1: S::State,
    w1: W,
) -> bool
    decreases catch, 1nat, 0nat,
{
    exists|sa: S::State| #[trigger]
        S::becomes(s0, snap, sa) && match err_at {
            None => runs::<S, W>(catch, env, sa, w0, r, s1, w1),
            Some(at) => match target(at) {
                Err(g) => r == Err::<(), Fault>(g) && s1 == sa && w1 == w0,
                Ok(p) => exists|rb: Result<(), Fault>, sb: S::State| #[trigger]
                    S::takes(sa, shown(p), Json::Str(fault_text(f)), rb, sb) && match rb {
                        Err(g) => r == rb && s1 == sb && w1 == w0,
                        Ok(_) => runs::<S, W>(catch, env, sb, w0, r, s1, w1),
                    },
            },
        }
}

/// Whether a run on a context in memory may end with a context or a fault, and lead the dispatcher
/// from one state to another.
pub open spec fn runs_to<W>(
    t: Tree,
    env: Env<W>,
    ctx: Json,
    w0: W,
    r: Result<Json, Fault>,
    w1: W,
) -> bool
    decreases t, 1nat, 0nat,
{
    match r {
        Ok(c) => runs::<MemoryCtx, W>(t, env, ctx, w0, Ok(()), c, w1),
        Err(f) => exists|c: Json| #[trigger]
            through(Err(f), c) && runs::<MemoryCtx, W>(t, env, ctx, w0, Err(f), c, w1),
    }
}

/// Whether the branches of a fanout may give a joined result, and lead the dispatcher from one
/// state to another.
pub open spec fn runs_join<W>(
    join: JoinMode,
    bind: Term,
    body: Tree,
    env: Env<W>,
    snap: Json,
    items: Seq<Json>,
    w0: W,
    joined: Result<Json, Fault>,
    w1: W,
) -> bool
    decreases body, 3nat, 0nat,
{
    if items.len() == 0 {
        w1 == w0 && joined == match join {
            JoinMode::All | JoinMode::AllSettled => Ok::<Json, Fault>(Json::Arr(Seq::empty())),
            JoinMode::Any => Err(empty_fault("fanout.any"@)),
            JoinMode::Race => Err(empty_fault("fanout.race"@)),
        }
    } else {
        match written(bind, snap, items[0]) {
            Err(f) => w1 == w0 && joined == if join == JoinMode::AllSettled {
                Ok::<Json, Fault>(Json::Arr(records(unbound(bind, snap, items))))
            } else {
                Err(f)
            },
            Ok(_) => runs_follow::<W>(
                join,
                body,
                env,
                starts(bind, snap, items),
                Seq::empty(),
                w0,
                joined,
                w1,
            ),
        }
    }
}

/// The same of branches, after the first ones have given the results `done`.
pub open spec fn runs_follow<W>(
    join: JoinMode,
    body: Tree,
    env: Env<W>,
    ctxs: Seq<Json>,
    done: Seq<Result<Json, Fault>>,
    w0: W,
    joined: Result<Json, Fault>,
    w1: W,
) -> bool
    decreases body, 2nat, ctxs.len() - done.len(),
{
    match decision(join, ctxs.len(), done) {
        Some(j) => joined == j && w1 == w0,
        None => done.len() < ctxs.len() && exists|x: Result<Json, Fault>, wa: W| #[trigger]
            branch_end(x, wa) && runs_to::<W>(body, env, ctxs[done.len() as int], w0, x, wa)
                && runs_follow::<W>(join, body, env, ctxs, done.push(x), wa, joined, w1),
    }
}

} // verus!
