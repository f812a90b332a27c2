//! A dispatcher that stays as it is decides no more than the replies of a host do.

use crate::error::{fault_text, Fault};
use crate::expr::{truthy, value_of, Term};
use crate::node::{target, written, JoinMode, Tree};
use crate::path::shown;
use crate::requests::Request;
use crate::run_laws::{keeps, law_runs_are_possible, serves};
use crate::runs::{
    branch_end, runs, runs_all, runs_catch, runs_follow, runs_join, runs_loop, runs_to, Env,
};
use crate::semantics::{
    calm, count, decision, delivers, delivers_later, items_fault, may, may_all, may_catch, may_end,
    may_follow, may_join, may_loop, private, results, starts, step_result, through, undisturbed,
    Host,
};
use crate::storage::{CtxStorage, MemoryCtx};
use crate::value::Json;
use vstd::prelude::*;

verus! {

/// Whether a dispatcher in a state may give the replies of a host that runs branches in order, and
/// stay in that state.
pub open spec fn repeats<T, W>(h: Host<T>, env: Env<W>, w: W) -> bool {
    &&& h.registry == env.registry
    &&& !h.concurrent
    &&& undisturbed(h)
    &&& forall|ref_: Seq<char>, v: Json, reply: Result<Json, Fault>| #[trigger]
        (h.replies)(ref_, v, reply) ==> (env.rules.replies)(w, ref_, v, reply, w)
}

proof fn lemma_private_repeats<T, W>(h: Host<T>, env: Env<W>, w: W)
    requires
        repeats::<T, W>(h, env, w),
    ensures
        repeats::<Json, W>(private(h), env, w),
{
    let p = private(h);
    assert forall|ref_: Seq<char>, v: Json, reply: Result<Json, Fault>| #[trigger]
        (p.replies)(ref_, v, reply) implies (env.rules.replies)(w, ref_, v, reply, w) by {
        assert((h.replies)(ref_, v, reply));
    }
}

proof fn lemma_delivered_now<S: CtxStorage>(
    h: Host<S::State>,
    out: Term,
    v: Result<Json, Fault>,
    s0: S::State,
    r: Result<(), Fault>,
    s1: S::State,
)
    requires
        undisturbed(h),
        delivers_later::<S>(h, out, v, s0, r, s1),
    ensures
        delivers::<S>(out, v, s0, r, s1),
{
    let sm = choose|sm: S::State| #[trigger]
        (h.meanwhile)(s0, sm) && delivers::<S>(out, v, sm, r, s1);
    assert(sm == s0);
}

/// What a run may do with a host, a run does with a dispatcher that may give the replies of the
/// host and stay as it is.
pub proof fn law_steady_dispatcher_runs<S: CtxStorage, W>(
    t: Tree,
    env: Env<W>,
    s0: S::State,
    w: W,
    r: Result<(), Fault>,
    s1: S::State,
    h: Host<S::State>,
)
    requires
        repeats::<S::State, W>(h, env, w),
        may::<S>(t, h, s0, r, s1),
    ensures
        runs::<S, W>(t, env, s0, w, r, s1, w),
    decreases t, 0nat, 0nat,
{
    match t {
        Tree::Step { ref_, input, out } => {
            let snap = choose|snap: Json|
                #[trigger] S::shows(s0, snap) && match value_of(input, snap, env.registry) {
                    Err(f) => r == Err::<(), Fault>(f) && s1 == s0,
                    Ok(v) => exists|reply: Result<Json, Fault>| #[trigger]
                        (h.replies)(ref_, v, reply) && delivers_later::<S>(
                            h,
                            out,
                            step_result(ref_, reply),
                            s0,
                            r,
                            s1,
                        ),
                };
            assert(S::shows(s0, snap));
            if let Ok(v) = value_of(input, snap, env.registry) {
                let reply = choose|reply: Result<Json, Fault>| #[trigger]
                    (h.replies)(ref_, v, reply) && delivers_later::<S>(
                        h,
                        out,
                        step_result(ref_, reply),
                        s0,
                        r,
                        s1,
                    );
                lemma_delivered_now::<S>(h, out, step_result(ref_, reply), s0, r, s1);
                assert((env.rules.replies)(w, ref_, v, reply, w));
            }
        },
        Tree::Sequence(children) => {
            steady_all::<S, W>(children, env, s0, w, r, s1, h);
        },
        Tree::Branch { cond, yes, no } => {
            let snap = choose|snap: Json|
                #[trigger] S::shows(s0, snap) && match value_of(cond, snap, env.registry) {
                    Err(f) => r == Err::<(), Fault>(f) && s1 == s0,
                    Ok(Json::Bool(true)) => may::<S>(*yes, h, s0, r, s1),
                    Ok(Json::Bool(false)) => may::<S>(*no, h, s0, r, s1),
                    Ok(v) => r == Err::<(), Fault>(Fault::NonBoolCond(v)) && s1 == s0,
                };
            assert(S::shows(s0, snap));
            match value_of(cond, snap, env.registry) {
                Ok(Json::Bool(true)) => law_steady_dispatcher_runs::<S, W>(
                    *yes,
                    env,
                    s0,
                    w,
                    r,
                    s1,
                    h,
                ),
                Ok(Json::Bool(false)) => law_steady_dispatcher_runs::<S, W>(
                    *no,
                    env,
                    s0,
                    w,
                    r,
                    s1,
                    h,
                ),
                _ => {},
            }
        },
        Tree::Fanout { items, bind, body, join, out } => {
            let snap = choose|snap: Json|
                #[trigger] S::shows(s0, snap) && match value_of(items, snap, env.registry) {
                    Err(f) => r == Err::<(), Fault>(f) && s1 == s0,
                    Ok(Json::Arr(xs)) => exists|joined: Result<Json, Fault>| #[trigger]
                        delivers_later::<S>(h, out, joined, s0, r, s1) && may_join(
                            join,
                            bind,
                            *body,
                            private(h),
                            snap,
                            xs,
                            joined,
                        ),
                    Ok(v) => r == Err::<(), Fault>(items_fault(v)) && s1 == s0,
                };
            assert(S::shows(s0, snap));
            if let Ok(Json::Arr(xs)) = value_of(items, snap, env.registry) {
                let joined = choose|joined: Result<Json, Fault>| #[trigger]
                    delivers_later::<S>(h, out, joined, s0, r, s1) && may_join(
                        join,
                        bind,
                        *body,
                        private(h),
                        snap,
                        xs,
                        joined,
                    );
                lemma_delivered_now::<S>(h, out, joined, s0, r, s1);
                lemma_private_repeats::<S::State, W>(h, env, w);
                steady_join::<W>(join, bind, *body, env, snap, xs, w, joined, private(h));
                assert(delivers::<S>(out, joined, s0, r, s1));
            }
        },
        Tree::Loop { counter, cond, body, max } => {
            if let Ok(p) = target(counter) {
                let (ra, sa) = choose|ra: Result<(), Fault>, sa: S::State| #[trigger]
                    S::takes(s0, shown(p), count(0), ra, sa) && match ra {
                        Err(f) => r == ra && s1 == sa,
                        Ok(_) => may_loop::<S>(shown(p), cond, *body, max, 0, h, sa, r, s1),
                    };
                assert(S::takes(s0, shown(p), count(0), ra, sa));
                if ra is Ok {
                    steady_loop::<S, W>(shown(p), cond, *body, max, 0, env, sa, w, r, s1, h);
                }
            }
        },
        Tree::Try { body, catch, err_at } => {
            let (snap, ra, sa) = choose|snap: Json, ra: Result<(), Fault>, sa: S::State|
                #[trigger] S::shows(s0, snap) && #[trigger] through(ra, sa) && may::<S>(
                    *body,
                    h,
                    s0,
                    ra,
                    sa,
                ) && match ra {
                    Ok(_) => r == ra && s1 == sa,
                    Err(f) => may_catch::<S>(*catch, err_at, f, snap, h, sa, r, s1),
                };
            assert(S::shows(s0, snap) && through(ra, (sa, w)));
            law_steady_dispatcher_runs::<S, W>(*body, env, s0, w, ra, sa, h);
            if let Err(f) = ra {
                steady_catch::<S, W>(*catch, err_at, f, snap, env, sa, w, r, s1, h);
            }
        },
        Tree::Let { at, value } => {
            let snap = choose|snap: Json|
                #[trigger] S::shows(s0, snap) && match value_of(value, snap, env.registry) {
                    Err(f) => r == Err::<(), Fault>(f) && s1 == s0,
                    Ok(v) => S::takes(s0, shown(at), v, r, s1),
                };
            assert(S::shows(s0, snap));
        },
    }
}

proof fn steady_all<S: CtxStorage, W>(
    children: Seq<Tree>,
    env: Env<W>,
    s0: S::State,
    w: W,
    r: Result<(), Fault>,
    s1: S::State,
    h: Host<S::State>,
)
    requires
        repeats::<S::State, W>(h, env, w),
        may_all::<S>(children, h, s0, r, s1),
    ensures
        runs_all::<S, W>(children, env, s0, w, r, s1, w),
    decreases children, 0nat, 0nat,
{
    if children.len() > 0 {
        let (ra, sa) = choose|ra: Result<(), Fault>, sa: S::State| #[trigger]
            through(ra, sa) && may::<S>(children[0], h, s0, ra, sa) && match ra {
                Ok(_) => may_all::<S>(children.drop_first(), h, sa, r, s1),
                Err(f) => r == ra && s1 == sa,
            };
        assert(through(ra, (sa, w)));
        law_steady_dispatcher_runs::<S, W>(children[0], env, s0, w, ra, sa, h);
        if ra is Ok {
            steady_all::<S, W>(children.drop_first(), env, sa, w, r, s1, h);
        }
    }
}

/// Whether a loop whose round has written its counter may go on to an end.
spec fn may_go_on<S: CtxStorage>(
    counter: Seq<char>,
    cond: Term,
    body: Tree,
    max: u32,
    n: nat,
    h: Host<S::State>,
    s0: S::State,
    r: Result<(), Fault>,
    s1: S::State,
) -> bool {
    exists|rb: Result<(), Fault>, sb: S::State| #[trigger]
        S::takes(s0, counter, count(n + 1), rb, sb) && match rb {
            Err(f) => r == rb && s1 == sb,
            Ok(_) => may_loop::<S>(counter, cond, body, max, n + 1, h, sb, r, s1),
        }
}

proof fn steady_loop<S: CtxStorage, W>(
    counter: Seq<char>,
    cond: Term,
    body: Tree,
    max: u32,
    n: nat,
    env: Env<W>,
    s0: S::State,
    w: W,
    r: Result<(), Fault>,
    s1: S::State,
    h: Host<S::State>,
)
    requires
        repeats::<S::State, W>(h, env, w),
        may_loop::<S>(counter, cond, body, max, n, h, s0, r, s1),
    ensures
        runs_loop::<S, W>(counter, cond, body, max, n, env, s0, w, r, s1, w),
    decreases body, 1nat, max - n,
{
    if n < max {
        let snap = choose|snap: Json|
            #[trigger] S::shows(s0, snap) && match value_of(cond, snap, env.registry) {
                Err(f) => r == Err::<(), Fault>(f) && s1 == s0,
                Ok(v) => if !truthy(v) {
                    r is Ok && s1 == s0
                } else {
                    exists|ra: Result<(), Fault>, sa: S::State| #[trigger]
                        through(ra, sa) && may::<S>(body, h, s0, ra, sa) && match ra {
                            Err(f) => r == ra && s1 == sa,
                            Ok(_) => may_go_on::<S>(counter, cond, body, max, n, h, sa, r, s1),
                        }
                },
            };
        assert(S::shows(s0, snap));
        if let Ok(v) = value_of(cond, snap, env.registry) {
            if truthy(v) {
                let (ra, sa) = choose|ra: Result<(), Fault>, sa: S::State| #[trigger]
                    through(ra, sa) && may::<S>(body, h, s0, ra, sa) && match ra {
                        Err(f) => r == ra && s1 == sa,
                        Ok(_) => may_go_on::<S>(counter, cond, body, max, n, h, sa, r, s1),
                    };
                assert(through(ra, (sa, w)));
                law_steady_dispatcher_runs::<S, W>(body, env, s0, w, ra, sa, h);
                if ra is Ok {
                    let (rb, sb) = choose|rb: Result<(), Fault>, sb: S::State| #[trigger]
                        S::takes(sa, counter, count(n + 1), rb, sb) && match rb {
                            Err(f) => r == rb && s1 == sb,
                            Ok(_) => may_loop::<S>(
                                counter,
                                cond,
                                body,
                                max,
                                n + 1,
                                h,
                                sb,
                                r,
                                s1,
                            ),
                        };
                    assert(S::takes(sa, counter, count(n + 1), rb, sb));
                    if rb is Ok {
                        steady_loop::<S, W>(
                            counter,
                            cond,
                            body,
                            max,
                            n + 1,
                            env,
                            sb,
                            w,
                            r,
                            s1,
                            h,
                        );
                    }
                }
            }
        }
    }
}

proof fn steady_catch<S: CtxStorage, W>(
    catch: Tree,
    err_at: Option<Term>,
    f: Fault,
    snap: Json,
    env: Env<W>,
    s0: S::State,
    w: W,
    r: Result<(), Fault>,
    s1: S::State,
    h: Host<S::State>,
)
    requires
        repeats::<S::State, W>(h, env, w),
        may_catch::<S>(catch, err_at, f, snap, h, s0, r, s1),
    ensures
        runs_catch::<S, W>(catch, err_at, f, snap, env, s0, w, r, s1, w),
    decreases catch, 1nat, 0nat,
{
    let note = Json::Str(fault_text(f));
    let sa = choose|sa: S::State| #[trigger]
        S::becomes(s0, snap, sa) && match err_at {
            None => may::<S>(catch, h, sa, r, s1),
            Some(at) => match target(at) {
                Err(g) => r == Err::<(), Fault>(g) && s1 == sa,
                Ok(p) => exists|rb: Result<(), Fault>, sb: S::State| #[trigger]
                    S::takes(sa, shown(p), note, rb, sb) && match rb {
                        Err(g) => r == rb && s1 == sb,
                        Ok(_) => may::<S>(catch, h, sb, r, s1),
                    },
            },
        };
    assert(S::becomes(s0, snap, sa));
    match err_at {
        None => law_steady_dispatcher_runs::<S, W>(catch, env, sa, w, r, s1, h),
        Some(at) => {
            if let Ok(p) = target(at) {
                let (rb, sb) = choose|rb: Result<(), Fault>, sb: S::State| #[trigger]
                    S::takes(sa, shown(p), note, rb, sb) && match rb {
                        Err(g) => r == rb && s1 == sb,
                        Ok(_) => may::<S>(catch, h, sb, r, s1),
                    };
                assert(S::takes(sa, shown(p), note, rb, sb));
                if rb is Ok {
                    law_steady_dispatcher_runs::<S, W>(catch, env, sb, w, r, s1, h);
                }
            }
        },
    }
}

proof fn steady_end<W>(
    t: Tree,
    env: Env<W>,
    ctx: Json,
    w: W,
    r: Result<Json, Fault>,
    h: Host<Json>,
)
    requires
        repeats::<Json, W>(h, env, w),
        may_end(t, h, ctx, r),
    ensures
        runs_to::<W>(t, env, ctx, w, r, w),
    decreases t, 1nat, 0nat,
{
    match r {
        Ok(c) => law_steady_dispatcher_runs::<MemoryCtx, W>(t, env, ctx, w, Ok(()), c, h),
        Err(f) => {
            let c = choose|c: Json| #[trigger]
                through(Err(f), c) && may::<MemoryCtx>(t, h, ctx, Err(f), c);
            law_steady_dispatcher_runs::<MemoryCtx, W>(t, env, ctx, w, Err(f), c, h);
            assert(through(Err::<(), Fault>(f), c));
        },
    }
}

proof fn steady_join<W>(
    join: JoinMode,
    bind: Term,
    body: Tree,
    env: Env<W>,
    snap: Json,
    items: Seq<Json>,
    w: W,
    joined: Result<Json, Fault>,
    h: Host<Json>,
)
    requires
        repeats::<Json, W>(h, env, w),
        may_join(join, bind, body, h, snap, items, joined),
    ensures
        runs_join::<W>(join, bind, body, env, snap, items, w, joined, w),
    decreases body, 3nat, 0nat,
{
    if items.len() > 0 && written(bind, snap, items[0]) is Ok {
        let ctxs = starts(bind, snap, items);
        steady_follow::<W>(join, body, env, ctxs, Seq::empty(), w, joined, h);
    }
}

proof fn steady_follow<W>(
    join: JoinMode,
    body: Tree,
    env: Env<W>,
    ctxs: Seq<Json>,
    done: Seq<Result<Json, Fault>>,
    w: W,
    joined: Result<Json, Fault>,
    h: Host<Json>,
)
    requires
        repeats::<Json, W>(h, env, w),
        may_follow(join, body, h, ctxs, done, joined),
    ensures
        runs_follow::<W>(join, body, env, ctxs, done, w, joined, w),
    decreases body, 2nat, ctxs.len() - done.len(),
{
    if decision(join, ctxs.len(), done) is None {
        let ctx = ctxs[done.len() as int];
        let x = choose|x: Result<Json, Fault>| #[trigger]
            results(done.push(x)) && may_end(body, h, ctx, x) && may_follow(
                join,
                body,
                h,
                ctxs,
                done.push(x),
                joined,
            );
        assert(branch_end(x, w));
        steady_end::<W>(body, env, ctx, w, x, h);
        steady_follow::<W>(join, body, env, ctxs, done.push(x), w, joined, h);
    }
}

/// The host that a dispatcher is that stays as it is.
pub open spec fn steady_host<T, W>(env: Env<W>, w: W) -> Host<T> {
    Host {
        replies: |ref_: Seq<char>, v: Json, reply: Result<Json, Fault>|
            (env.rules.replies)(w, ref_, v, reply, w),
        registry: env.registry,
        concurrent: false,
        meanwhile: |a: T, b: T| a == b,
    }
}

/// A run with a dispatcher that stays as it is, such as a closure, does what a run may do with the
/// replies of that dispatcher, and leaves the dispatcher as it was.
pub proof fn law_steady_dispatcher<S: CtxStorage, W>(
    t: Tree,
    env: Env<W>,
    s0: S::State,
    w0: W,
    r: Result<(), Fault>,
    s1: S::State,
    w1: W,
)
    requires
        forall|ref_: Seq<char>, v: Json, reply: Result<Json, Fault>, post: W| #[trigger]
            (env.rules.replies)(w0, ref_, v, reply, post) ==> post == w0,
    ensures
        runs::<S, W>(t, env, s0, w0, r, s1, w1) <==> w1 == w0 && may::<S>(
            t,
            steady_host::<S::State, W>(env, w0),
            s0,
            r,
            s1,
        ),
{
    let h = steady_host::<S::State, W>(env, w0);
    let inv = |w: W| w == w0;
    if runs::<S, W>(t, env, s0, w0, r, s1, w1) {
        assert forall|q: Request<W>| keeps::<W>(env, inv, q) by {}
        assert(calm(h));
        assert(serves::<S::State, W>(h, env, inv));
        law_runs_are_possible::<S, W>(t, env, s0, w0, r, s1, w1, inv, h);
    }
    if may::<S>(t, h, s0, r, s1) {
        assert(undisturbed(h));
        law_steady_dispatcher_runs::<S, W>(t, env, s0, w0, r, s1, h);
    }
}

} // verus!
