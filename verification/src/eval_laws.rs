//! What holds of what evaluation returns.

use crate::error::Fault;
use crate::expr::{value_of, Term};
use crate::externs::Registry;
use crate::fanout_laws::{
    has_bound, is_joined, law_fanout_writes_what_its_branches_join_to,
    law_idle_branches_give_back_their_items,
};
use crate::loop_laws::{integer, law_idle_loop_counts_to_its_cap, tells};
use crate::node::{JoinMode, Node, Tree};
use crate::path::{clash, possible, put, read_keys, PathView};
use crate::requests::{asks, Request};
use crate::run_laws::{keeps, law_runs_are_possible, serves};
use crate::runs::{runs, runs_to, Env};
use crate::semantics::{calm, may, may_join, private, through, undisturbed, Host};
use crate::storage::{CtxStorage, MemoryCtx};
use crate::value::Json;
use vstd::prelude::*;

verus! {

/// The host whose dispatcher may reply anything, whose branches run in order, and whose contexts no
/// one else writes to.
pub open spec fn any_host(reg: Registry) -> Host<Json> {
    Host {
        replies: |ref_: Seq<char>, v: Json, reply: Result<Json, Fault>| true,
        registry: reg,
        concurrent: false,
        meanwhile: |a: Json, b: Json| a == b,
    }
}

/// What evaluation returns is what a run may end with: a context that a run that succeeds may
/// leave, or a failure of a run.
pub proof fn law_evaluation_ends_as_a_run<W>(
    t: Tree,
    env: Env<W>,
    ctx: Json,
    w0: W,
    r: Result<Json, Fault>,
    w1: W,
) -> (left: Json)
    requires
        runs_to::<W>(t, env, ctx, w0, r, w1),
    ensures
        undisturbed(any_host(env.registry)),
        match r {
            Ok(c) => left == c && may::<MemoryCtx>(t, any_host(env.registry), ctx, Ok(()), c),
            Err(f) => may::<MemoryCtx>(t, any_host(env.registry), ctx, Err(f), left),
        },
{
    let h = any_host(env.registry);
    let inv = |w: W| true;
    assert(calm(h));
    assert(serves::<Json, W>(h, env, inv));
    assert forall|q: Request<W>| #[trigger]
        asks::<MemoryCtx, W>(t, env, ctx, w0, q) implies keeps::<W>(env, inv, q) by {}
    match r {
        Ok(c) => {
            law_runs_are_possible::<MemoryCtx, W>(t, env, ctx, w0, Ok(()), c, w1, inv, h);
            c
        },
        Err(f) => {
            let c = choose|c: Json| #[trigger]
                through(Err(f), c) && runs::<MemoryCtx, W>(t, env, ctx, w0, Err(f), c, w1);
            law_runs_are_possible::<MemoryCtx, W>(t, env, ctx, w0, Err(f), c, w1, inv, h);
            c
        },
    }
}

/// Evaluating a fanout whose branches do nothing gives the context with an array where the fanout
/// says: in the place of each item stands the context with that item where the branch finds it.
pub proof fn law_evaluated_fanout_keeps_every_item<W>(
    node: Node,
    p: PathView,
    q: PathView,
    items: Seq<Json>,
    env: Env<W>,
    ctx: Json,
    w0: W,
    r: Result<Json, Fault>,
    w1: W,
)
    requires
        node is Fanout,
        node->Fanout_join == JoinMode::All,
        node->Fanout_bind@ == Term::Path(p),
        node->Fanout_out@ == Term::Path(q),
        possible(q),
        clash(ctx, p.keys) is None,
        clash(ctx, q.keys) is None,
        *node->Fanout_body is Sequence,
        (*node->Fanout_body)->Sequence_children@.len() == 0,
        value_of(node->Fanout_items@, ctx, env.registry) == Ok::<Json, Fault>(Json::Arr(items)),
        runs_to::<W>(node@, env, ctx, w0, r, w1),
    ensures
        r matches Ok(c1) && (read_keys(c1, q.keys) matches Some(Json::Arr(cs)) && cs.len()
            == items.len() && has_bound(c1, ctx, q.keys, Json::Arr(cs)) && forall|i: int|
            #![trigger cs[i]]
            #![trigger items[i]]
            0 <= i < items.len() ==> read_keys(cs[i], p.keys) == Some(items[i])),
{
    let h = any_host(env.registry);
    let left = law_evaluation_ends_as_a_run::<W>(node@, env, ctx, w0, r, w1);
    let ended: Result<(), Fault> = match r {
        Ok(_) => Ok(()),
        Err(f) => Err(f),
    };
    law_fanout_writes_what_its_branches_join_to(node, h, ctx, ended, left);
    let joined = choose|joined: Result<Json, Fault>| #[trigger]
        may_join(
            node->Fanout_join,
            node->Fanout_bind@,
            node->Fanout_body@,
            private(h),
            ctx,
            items,
            joined,
        ) && is_joined(node->Fanout_out@, joined, ctx, ended, left);
    law_idle_branches_give_back_their_items(
        p,
        *node->Fanout_body,
        private(h),
        ctx,
        items,
        joined,
    );
}

/// Evaluating a loop that does nothing for as long as it may gives the context with the number of
/// rounds that there may be as its counter, and else as it was.
pub proof fn law_evaluated_loop_counts_to_its_cap<W>(
    node: Node,
    p: PathView,
    v: Json,
    env: Env<W>,
    ctx: Json,
    w0: W,
    r: Result<Json, Fault>,
    w1: W,
)
    requires
        node is Loop,
        node->Loop_counter@ == Term::Path(p),
        node->Loop_cond@ == Term::Lit(v),
        v != Json::Null,
        v != Json::Bool(false),
        *node->Loop_body is Sequence,
        (*node->Loop_body)->Sequence_children@.len() == 0,
        possible(p),
        clash(ctx, p.keys) is None,
        runs_to::<W>(node@, env, ctx, w0, r, w1),
    ensures
        r matches Ok(c1) && tells(c1, p.keys, node->Loop_max as int) && c1 == put(
            ctx,
            p.keys,
            integer(node->Loop_max as int),
        ),
{
    let h = any_host(env.registry);
    let left = law_evaluation_ends_as_a_run::<W>(node@, env, ctx, w0, r, w1);
    let ended: Result<(), Fault> = match r {
        Ok(_) => Ok(()),
        Err(f) => Err(f),
    };
    law_idle_loop_counts_to_its_cap(node, p, v, h, ctx, ended, left);
}

} // verus!
