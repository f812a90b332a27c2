//! A run on a context in memory has only one end that its dispatcher does not decide.

use crate::determinism::{lemma_delivers_once, lemma_ok, lemma_takes_once};
use crate::error::{fault_text, Fault};
use crate::expr::{truthy, value_of, Term};
use crate::node::{target, written, JoinMode, Tree};
use crate::path::shown;
use crate::runs::{
    branch_end, runs, runs_all, runs_catch, runs_follow, runs_join, runs_loop, runs_to, Env,
};
use crate::semantics::{count, decision, delivers, starts, step_result, through};
use crate::storage::{CtxStorage, MemoryCtx};
use crate::value::Json;
use vstd::prelude::*;

verus! {

/// Whether a dispatcher has at most one reply to each step with an input in a state, and at most
/// one state after it.
pub open spec fn settled_replies<W>(env: Env<W>) -> bool {
    forall|
        w: W,
        ref_: Seq<char>,
        v: Json,
        a: Result<Json, Fault>,
        wa: W,
        b: Result<Json, Fault>,
        wb: W,
    |
        #[trigger] (env.rules.replies)(w, ref_, v, a, wa) && #[trigger] (env.rules.replies)(
            w,
            ref_,
            v,
            b,
            wb,
        ) ==> a == b && wa == wb
}

/// With a dispatcher that has at most one reply to each step in a state, and at most one state
/// after it, a run on a context in memory has at most one end, and leaves the dispatcher in one
/// state.
pub proof fn law_runs_end_in_one_way<W>(
    t: Tree,
    env: Env<W>,
    c0: Json,
    w0: W,
    r1: Result<(), Fault>,
    c1: Json,
    w1: W,
    r2: Result<(), Fault>,
    c2: Json,
    w2: W,
)
    requires
        settled_replies::<W>(env),
        runs::<MemoryCtx, W>(t, env, c0, w0, r1, c1, w1),
        runs::<MemoryCtx, W>(t, env, c0, w0, r2, c2, w2),
    ensures
        r1 == r2,
        c1 == c2,
        w1 == w2,
    decreases t, 0nat, 0nat,
{
    match t {
        Tree::Step { ref_, input, out } => {
            if let Ok(v) = value_of(input, c0, env.registry) {
                let a = choose|a: Result<Json, Fault>| #[trigger]
                    (env.rules.replies)(w0, ref_, v, a, w1) && delivers::<MemoryCtx>(
                        out,
                        step_result(ref_, a),
                        c0,
                        r1,
                        c1,
                    );
                let b = choose|b: Result<Json, Fault>| #[trigger]
                    (env.rules.replies)(w0, ref_, v, b, w2) && delivers::<MemoryCtx>(
                        out,
                        step_result(ref_, b),
                        c0,
                        r2,
                        c2,
                    );
                assert((env.rules.replies)(w0, ref_, v, a, w1));
                assert((env.rules.replies)(w0, ref_, v, b, w2));
                lemma_delivers_once(out, step_result(ref_, a), c0, r1, c1, r2, c2);
            }
        },
        Tree::Sequence(children) => {
            one_way_all::<W>(children, env, c0, w0, r1, c1, w1, r2, c2, w2);
        },
        Tree::Branch { cond, yes, no } => {
            match value_of(cond, c0, env.registry) {
                Ok(Json::Bool(true)) => law_runs_end_in_one_way::<W>(
                    *yes,
                    env,
                    c0,
                    w0,
                    r1,
                    c1,
                    w1,
                    r2,
                    c2,
                    w2,
                ),
                Ok(Json::Bool(false)) => law_runs_end_in_one_way::<W>(
                    *no,
                    env,
                    c0,
                    w0,
                    r1,
                    c1,
                    w1,
                    r2,
                    c2,
                    w2,
                ),
                _ => {},
            }
        },
        Tree::Fanout { items, bind, body, join, out } => {
            if let Ok(Json::Arr(xs)) = value_of(items, c0, env.registry) {
                let a = choose|a: Result<Json, Fault>| #[trigger]
                    delivers::<MemoryCtx>(out, a, c0, r1, c1) && runs_join::<W>(
                        join,
                        bind,
                        *body,
                        env,
                        c0,
                        xs,
                        w0,
                        a,
                        w1,
                    );
                let b = choose|b: Result<Json, Fault>| #[trigger]
                    delivers::<MemoryCtx>(out, b, c0, r2, c2) && runs_join::<W>(
                        join,
                        bind,
                        *body,
                        env,
                        c0,
                        xs,
                        w0,
                        b,
                        w2,
                    );
                one_way_join::<W>(join, bind, *body, env, c0, xs, w0, a, w1, b, w2);
                lemma_delivers_once(out, a, c0, r1, c1, r2, c2);
            }
        },
        Tree::Loop { counter, cond, body, max } => {
            if let Ok(p) = target(counter) {
                let (ra, sa) = choose|ra: Result<(), Fault>, sa: Json| #[trigger]
                    MemoryCtx::takes(c0, shown(p), count(0), ra, sa) && match ra {
                        Err(f) => r1 == ra && c1 == sa && w1 == w0,
                        Ok(_) => runs_loop::<MemoryCtx, W>(
                            shown(p),
                            cond,
                            *body,
                            max,
                            0,
                            env,
                            sa,
                            w0,
                            r1,
                            c1,
                            w1,
                        ),
                    };
                let (rb, sb) = choose|rb: Result<(), Fault>, sb: Json| #[trigger]
                    MemoryCtx::takes(c0, shown(p), count(0), rb, sb) && match rb {
                        Err(f) => r2 == rb && c2 == sb && w2 == w0,
                        Ok(_) => runs_loop::<MemoryCtx, W>(
                            shown(p),
                            cond,
                            *body,
                            max,
                            0,
                            env,
                            sb,
                            w0,
                            r2,
                            c2,
                            w2,
                        ),
                    };
                lemma_takes_once(c0, shown(p), count(0), ra, sa, rb, sb);
                if ra is Ok {
                    one_way_loop::<W>(
                        shown(p),
                        cond,
                        *body,
                        max,
                        0,
                        env,
                        sa,
                        w0,
                        r1,
                        c1,
                        w1,
                        r2,
                        c2,
                        w2,
                    );
                }
            }
        },
        Tree::Try { body, catch, err_at } => {
            let (xa, ra, sa, wa) = choose|
                snap: Json,
                ra: Result<(), Fault>,
                sa: Json,
                wa: W,
            |
                #[trigger] MemoryCtx::shows(c0, snap) && #[trigger] through(ra, (sa, wa)) && runs::<
                    MemoryCtx,
                    W,
                >(*body, env, c0, w0, ra, sa, wa) && match ra {
                    Ok(_) => r1 == ra && c1 == sa && w1 == wa,
                    Err(f) => runs_catch::<MemoryCtx, W>(
                        *catch,
                        err_at,
                        f,
                        snap,
                        env,
                        sa,
                        wa,
                        r1,
                        c1,
                        w1,
                    ),
                };
            let (xb, rb, sb, wb) = choose|
                snap: Json,
                ra: Result<(), Fault>,
                sa: Json,
                wa: W,
            |
                #[trigger] MemoryCtx::shows(c0, snap) && #[trigger] through(ra, (sa, wa)) && runs::<
                    MemoryCtx,
                    W,
                >(*body, env, c0, w0, ra, sa, wa) && match ra {
                    Ok(_) => r2 == ra && c2 == sa && w2 == wa,
                    Err(f) => runs_catch::<MemoryCtx, W>(
                        *catch,
                        err_at,
                        f,
                        snap,
                        env,
                        sa,
                        wa,
                        r2,
                        c2,
                        w2,
                    ),
                };
            law_runs_end_in_one_way::<W>(*body, env, c0, w0, ra, sa, wa, rb, sb, wb);
            if let Err(f) = ra {
                one_way_catch::<W>(
                    *catch,
                    err_at,
                    f,
                    c0,
                    env,
                    sa,
                    wa,
                    r1,
                    c1,
                    w1,
                    r2,
                    c2,
                    w2,
                );
            }
        },
        Tree::Let { at, value } => {
            if let Ok(v) = value_of(value, c0, env.registry) {
                lemma_takes_once(c0, shown(at), v, r1, c1, r2, c2);
            }
        },
    }
}

proof fn one_way_all<W>(
    children: Seq<Tree>,
    env: Env<W>,
    c0: Json,
    w0: W,
    r1: Result<(), Fault>,
    c1: Json,
    w1: W,
    r2: Result<(), Fault>,
    c2: Json,
    w2: W,
)
    requires
        settled_replies::<W>(env),
        runs_all::<MemoryCtx, W>(children, env, c0, w0, r1, c1, w1),
        runs_all::<MemoryCtx, W>(children, env, c0, w0, r2, c2, w2),
    ensures
        r1 == r2,
        c1 == c2,
        w1 == w2,
    decreases children, 0nat, 0nat,
{
    if children.len() > 0 {
        let rest = children.drop_first();
        let (ra, sa, wa) = choose|ra: Result<(), Fault>, sa: Json, wa: W| #[trigger]
            through(ra, (sa, wa)) && runs::<MemoryCtx, W>(children[0], env, c0, w0, ra, sa, wa)
                && match ra {
                Ok(_) => runs_all::<MemoryCtx, W>(rest, env, sa, wa, r1, c1, w1),
                Err(f) => r1 == ra && c1 == sa && w1 == wa,
            };
        let (rb, sb, wb) = choose|rb: Result<(), Fault>, sb: Json, wb: W| #[trigger]
            through(rb, (sb, wb)) && runs::<MemoryCtx, W>(children[0], env, c0, w0, rb, sb, wb)
                && match rb {
                Ok(_) => runs_all::<MemoryCtx, W>(rest, env, sb, wb, r2, c2, w2),
                Err(f) => r2 == rb && c2 == sb && w2 == wb,
            };
        law_runs_end_in_one_way::<W>(children[0], env, c0, w0, ra, sa, wa, rb, sb, wb);
        if ra is Ok {
            one_way_all::<W>(rest, env, sa, wa, r1, c1, w1, r2, c2, w2);
        }
    } else {
        lemma_ok(r1, r2);
    }
}

/// Whether a loop whose round has written its counter may go on to an end.
spec fn goes_on<W>(
    counter: Seq<char>,
    cond: Term,
    body: Tree,
    max: u32,
    n: nat,
    env: Env<W>,
    c0: Json,
    w0: W,
    r: Result<(), Fault>,
    c: Json,
    w: W,
) -> bool {
    exists|rb: Result<(), Fault>, sb: Json| #[trigger]
        MemoryCtx::takes(c0, counter, count(n + 1), rb, sb) && match rb {
            Err(f) => r == rb && c == sb && w == w0,
            Ok(_) => runs_loop::<MemoryCtx, W>(
                counter,
                cond,
                body,
                max,
                n + 1,
                env,
                sb,
                w0,
                r,
                c,
                w,
            ),
        }
}

proof fn one_way_loop<W>(
    counter: Seq<char>,
    cond: Term,
    body: Tree,
    max: u32,
    n: nat,
    env: Env<W>,
    c0: Json,
    w0: W,
    r1: Result<(), Fault>,
    c1: Json,
    w1: W,
    r2: Result<(), Fault>,
    c2: Json,
    w2: W,
)
    requires
        settled_replies::<W>(env),
        runs_loop::<MemoryCtx, W>(counter, cond, body, max, n, env, c0, w0, r1, c1, w1),
        runs_loop::<MemoryCtx, W>(counter, cond, body, max, n, env, c0, w0, r2, c2, w2),
    ensures
        r1 == r2,
        c1 == c2,
        w1 == w2,
    decreases body, 1nat, max - n,
{
    if r1 is Ok && r2 is Ok {
        lemma_ok(r1, r2);
    }
    if n < max {
        if let Ok(v) = value_of(cond, c0, env.registry) {
            if truthy(v) {
                let (ra, sa, wa) = choose|ra: Result<(), Fault>, sa: Json, wa: W| #[trigger]
                    through(ra, (sa, wa)) && runs::<MemoryCtx, W>(body, env, c0, w0, ra, sa, wa)
                        && match ra {
                        Err(f) => r1 == ra && c1 == sa && w1 == wa,
                        Ok(_) => goes_on::<W>(
                            counter,
                            cond,
                            body,
                            max,
                            n,
                            env,
                            sa,
                            wa,
                            r1,
                            c1,
                            w1,
                        ),
                    };
                let (rb, sb, wb) = choose|ra: Result<(), Fault>, sa: Json, wa: W| #[trigger]
                    through(ra, (sa, wa)) && runs::<MemoryCtx, W>(body, env, c0, w0, ra, sa, wa)
                        && match ra {
                        Err(f) => r2 == ra && c2 == sa && w2 == wa,
                        Ok(_) => goes_on::<W>(
                            counter,
                            cond,
                            body,
                            max,
                            n,
                            env,
                            sa,
                            wa,
                            r2,
                            c2,
                            w2,
                        ),
                    };
                law_runs_end_in_one_way::<W>(body, env, c0, w0, ra, sa, wa, rb, sb, wb);
                if ra is Ok {
                    let (rx, sx) = choose|rb: Result<(), Fault>, sb: Json| #[trigger]
                        MemoryCtx::takes(sa, counter, count(n + 1), rb, sb) && match rb {
                            Err(f) => r1 == rb && c1 == sb && w1 == wa,
                            Ok(_) => runs_loop::<MemoryCtx, W>(
                                counter,
                                cond,
                                body,
                                max,
                                n + 1,
                                env,
                                sb,
                                wa,
                                r1,
                                c1,
                                w1,
                            ),
                        };
                    let (ry, sy) = choose|rb: Result<(), Fault>, sb: Json| #[trigger]
                        MemoryCtx::takes(sa, counter, count(n + 1), rb, sb) && match rb {
                            Err(f) => r2 == rb && c2 == sb && w2 == wa,
                            Ok(_) => runs_loop::<MemoryCtx, W>(
                                counter,
                                cond,
                                body,
                                max,
                                n + 1,
                                env,
                                sb,
                                wa,
                                r2,
                                c2,
                                w2,
                            ),
                        };
                    lemma_takes_once(sa, counter, count(n + 1), rx, sx, ry, sy);
                    if rx is Ok {
                        one_way_loop::<W>(
                            counter,
                            cond,
                            body,
                            max,
                            n + 1,
                            env,
                            sx,
                            wa,
                            r1,
                            c1,
                            w1,
                            r2,
                            c2,
                            w2,
                        );
                    }
                }
            }
        }
    }
}

proof fn one_way_catch<W>(
    catch: Tree,
    err_at: Option<Term>,
    f: Fault,
    snap: Json,
    env: Env<W>,
    c0: Json,
    w0: W,
    r1: Result<(), Fault>,
    c1: Json,
    w1: W,
    r2: Result<(), Fault>,
    c2: Json,
    w2: W,
)
    requires
        settled_replies::<W>(env),
        runs_catch::<MemoryCtx, W>(catch, err_at, f, snap, env, c0, w0, r1, c1, w1),
        runs_catch::<MemoryCtx, W>(catch, err_at, f, snap, env, c0, w0, r2, c2, w2),
    ensures
        r1 == r2,
        c1 == c2,
        w1 == w2,
    decreases catch, 1nat, 0nat,
{
    let note = Json::Str(fault_text(f));
    match err_at {
        None => {
            law_runs_end_in_one_way::<W>(catch, env, snap, w0, r1, c1, w1, r2, c2, w2);
        },
        Some(at) => {
            if let Ok(p) = target(at) {
                let (rx, sx) = choose|rb: Result<(), Fault>, sb: Json| #[trigger]
                    MemoryCtx::takes(snap, shown(p), note, rb, sb) && match rb {
                        Err(g) => r1 == rb && c1 == sb && w1 == w0,
                        Ok(_) => runs::<MemoryCtx, W>(catch, env, sb, w0, r1, c1, w1),
                    };
                let (ry, sy) = choose|rb: Result<(), Fault>, sb: Json| #[trigger]
                    MemoryCtx::takes(snap, shown(p), note, rb, sb) && match rb {
                        Err(g) => r2 == rb && c2 == sb && w2 == w0,
                        Ok(_) => runs::<MemoryCtx, W>(catch, env, sb, w0, r2, c2, w2),
                    };
                lemma_takes_once(snap, shown(p), note, rx, sx, ry, sy);
                if rx is Ok {
                    law_runs_end_in_one_way::<W>(catch, env, sx, w0, r1, c1, w1, r2, c2, w2);
                }
            }
        },
    }
}

proof fn one_way_end<W>(
    t: Tree,
    env: Env<W>,
    ctx: Json,
    w0: W,
    a: Result<Json, Fault>,
    w1: W,
    b: Result<Json, Fault>,
    w2: W,
)
    requires
        settled_replies::<W>(env),
        runs_to::<W>(t, env, ctx, w0, a, w1),
        runs_to::<W>(t, env, ctx, w0, b, w2),
    ensures
        a == b,
        w1 == w2,
    decreases t, 1nat, 0nat,
{
    let (ra, ca): (Result<(), Fault>, Json) = match a {
        Ok(c) => (Ok(()), c),
        Err(f) => (
            Err(f),
            choose|c: Json| #[trigger]
                through(Err(f), c) && runs::<MemoryCtx, W>(t, env, ctx, w0, Err(f), c, w1),
        ),
    };
    let (rb, cb): (Result<(), Fault>, Json) = match b {
        Ok(c) => (Ok(()), c),
        Err(f) => (
            Err(f),
            choose|c: Json| #[trigger]
                through(Err(f), c) && runs::<MemoryCtx, W>(t, env, ctx, w0, Err(f), c, w2),
        ),
    };
    law_runs_end_in_one_way::<W>(t, env, ctx, w0, ra, ca, w1, rb, cb, w2);
}

proof fn one_way_join<W>(
    join: JoinMode,
    bind: Term,
    body: Tree,
    env: Env<W>,
    snap: Json,
    items: Seq<Json>,
    w0: W,
    a: Result<Json, Fault>,
    w1: W,
    b: Result<Json, Fault>,
    w2: W,
)
    requires
        settled_replies::<W>(env),
        runs_join::<W>(join, bind, body, env, snap, items, w0, a, w1),
        runs_join::<W>(join, bind, body, env, snap, items, w0, b, w2),
    ensures
        a == b,
        w1 == w2,
    decreases body, 3nat, 0nat,
{
    if items.len() > 0 && written(bind, snap, items[0]) is Ok {
        let ctxs = starts(bind, snap, items);
        one_way_follow::<W>(join, body, env, ctxs, Seq::empty(), w0, a, w1, b, w2);
    }
}

proof fn one_way_follow<W>(
    join: JoinMode,
    body: Tree,
    env: Env<W>,
    ctxs: Seq<Json>,
    done: Seq<Result<Json, Fault>>,
    w0: W,
    a: Result<Json, Fault>,
    w1: W,
    b: Result<Json, Fault>,
    w2: W,
)
    requires
        settled_replies::<W>(env),
        runs_follow::<W>(join, body, env, ctxs, done, w0, a, w1),
        runs_follow::<W>(join, body, env, ctxs, done, w0, b, w2),
    ensures
        a == b,
        w1 == w2,
    decreases body, 2nat, ctxs.len() - done.len(),
{
    if decision(join, ctxs.len(), done) is None {
        let ctx = ctxs[done.len() as int];
        let (x, wx) = choose|x: Result<Json, Fault>, wx: W| #[trigger]
            branch_end(x, wx) && runs_to::<W>(body, env, ctx, w0, x, wx) && runs_follow::<W>(
                join,
                body,
                env,
                ctxs,
                done.push(x),
                wx,
                a,
                w1,
            );
        let (y, wy) = choose|y: Result<Json, Fault>, wy: W| #[trigger]
            branch_end(y, wy) && runs_to::<W>(body, env, ctx, w0, y, wy) && runs_follow::<W>(
                join,
                body,
                env,
                ctxs,
                done.push(y),
                wy,
                b,
                w2,
            );
        one_way_end::<W>(body, env, ctx, w0, x, wx, y, wy);
        one_way_follow::<W>(join, body, env, ctxs, done.push(x), wx, a, w1, b, w2);
    }
}

} // verus!
