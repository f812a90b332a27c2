//! What holds of what runs do to the dispatcher, and how it bears on what runs may do.

use crate::error::{fault_text, Fault};
use crate::expr::{truthy, value_of, Term};
use crate::node::{target, written, JoinMode, Tree};
use crate::path::shown;
use crate::requests::{
    asks, asks_all, asks_catch, asks_follow, asks_join, asks_loop, caught, Request,
};
use crate::runs::{
    branch_end, runs, runs_all, runs_catch, runs_follow, runs_join, runs_loop, runs_to, Env,
};
use crate::semantics::{
    calm, count, decision, delivers, delivers_later, items_fault, may, may_all, may_catch, may_end,
    may_follow, may_join, may_loop, private, results, starts, step_result, through, Host,
};
use crate::storage::{write_text, CtxStorage, MemoryCtx};
use crate::value::Json;
use vstd::prelude::*;

verus! {

/// Whether a dispatcher that is asked for a step in one of a set of states stays in that set.
pub open spec fn keeps<W>(env: Env<W>, inv: spec_fn(W) -> bool, q: Request<W>) -> bool {
    inv(q.at) ==> forall|reply: Result<Json, Fault>, post: W| #[trigger]
        (env.rules.replies)(q.at, q.ref_, q.input, reply, post) ==> inv(post)
}

/// Whether a host that runs branches in order may give the replies that a dispatcher gives in a set
/// of states.
pub open spec fn serves<T, W>(
    h: Host<T>,
    env: Env<W>,
    inv: spec_fn(W) -> bool,
) -> bool {
    &&& h.registry == env.registry
    &&& !h.concurrent
    &&& calm(h)
    &&& forall|w: W, ref_: Seq<char>, v: Json, reply: Result<Json, Fault>, post: W|
        inv(w) && #[trigger] (env.rules.replies)(w, ref_, v, reply, post) ==> (h.replies)(
            ref_,
            v,
            reply,
        )
}

proof fn lemma_private_serves<T, W>(
    h: Host<T>,
    env: Env<W>,
    inv: spec_fn(W) -> bool,
)
    requires
        serves::<T, W>(h, env, inv),
    ensures
        serves::<Json, W>(private(h), env, inv),
{
    let p = private(h);
    assert forall|w: W, ref_: Seq<char>, v: Json, reply: Result<Json, Fault>, post: W|
        inv(w) && #[trigger] (env.rules.replies)(w, ref_, v, reply, post) implies (p.replies)(
        ref_,
        v,
        reply,
    ) by {
        assert((h.replies)(ref_, v, reply));
    }
}

proof fn lemma_delivers_now<S: CtxStorage>(
    h: Host<S::State>,
    out: Term,
    v: Result<Json, Fault>,
    s0: S::State,
    r: Result<(), Fault>,
    s1: S::State,
)
    requires
        calm(h),
        delivers::<S>(out, v, s0, r, s1),
    ensures
        delivers_later::<S>(h, out, v, s0, r, s1),
{
    assert((h.meanwhile)(s0, s0));
}

/// A dispatcher that stays in a set of states at each step that a run may ask for is still in it
/// at the end, and the run does what it may do with a host that gives the replies of those states.
pub proof fn law_runs_are_possible<S: CtxStorage, W>(
    t: Tree,
    env: Env<W>,
    s0: S::State,
    w0: W,
    r: Result<(), Fault>,
    s1: S::State,
    w1: W,
    inv: spec_fn(W) -> bool,
    h: Host<S::State>,
)
    requires
        inv(w0),
        forall|q: Request<W>| #[trigger]
            asks::<S, W>(t, env, s0, w0, q) ==> keeps::<W>(env, inv, q),
        serves::<S::State, W>(h, env, inv),
        runs::<S, W>(t, env, s0, w0, r, s1, w1),
    ensures
        inv(w1),
        may::<S>(t, h, s0, r, s1),
    decreases t, 0nat, 0nat,
{
    match t {
        Tree::Step { ref_, input, out } => {
            let snap = choose|snap: Json|
                #[trigger] S::shows(s0, snap) && match value_of(input, snap, env.registry) {
                    Err(f) => r == Err::<(), Fault>(f) && s1 == s0 && w1 == w0,
                    Ok(v) => exists|reply: Result<Json, Fault>| #[trigger]
                        (env.rules.replies)(w0, ref_, v, reply, w1) && delivers::<S>(
                            out,
                            step_result(ref_, reply),
                            s0,
                            r,
                            s1,
                        ),
                };
            assert(S::shows(s0, snap));
            if let Ok(v) = value_of(input, snap, env.registry) {
                let reply = choose|reply: Result<Json, Fault>| #[trigger]
                    (env.rules.replies)(w0, ref_, v, reply, w1) && delivers::<S>(
                        out,
                        step_result(ref_, reply),
                        s0,
                        r,
                        s1,
                    );
                let q = Request { ref_, input: v, at: w0 };
                assert(asks::<S, W>(t, env, s0, w0, q));
                assert((h.replies)(ref_, v, reply));
                lemma_delivers_now::<S>(h, out, step_result(ref_, reply), s0, r, s1);
            }
        },
        Tree::Sequence(children) => {
            assert forall|q: Request<W>| #[trigger]
                asks_all::<S, W>(children, env, s0, w0, q) implies keeps::<W>(env, inv, q) by {
                assert(asks::<S, W>(t, env, s0, w0, q));
            }
            possible_all::<S, W>(children, env, s0, w0, r, s1, w1, inv, h);
        },
        Tree::Branch { cond, yes, no } => {
            let snap = choose|snap: Json|
                #[trigger] S::shows(s0, snap) && match value_of(cond, snap, env.registry) {
                    Err(f) => r == Err::<(), Fault>(f) && s1 == s0 && w1 == w0,
                    Ok(Json::Bool(true)) => runs::<S, W>(*yes, env, s0, w0, r, s1, w1),
                    Ok(Json::Bool(false)) => runs::<S, W>(*no, env, s0, w0, r, s1, w1),
                    Ok(v) => r == Err::<(), Fault>(Fault::NonBoolCond(v)) && s1 == s0 && w1 == w0,
                };
            assert(S::shows(s0, snap));
            match value_of(cond, snap, env.registry) {
                Ok(Json::Bool(true)) => {
                    assert forall|q: Request<W>| #[trigger]
                        asks::<S, W>(*yes, env, s0, w0, q) implies keeps::<W>(env, inv, q) by {
                        assert(asks::<S, W>(t, env, s0, w0, q));
                    }
                    law_runs_are_possible::<S, W>(*yes, env, s0, w0, r, s1, w1, inv, h);
                },
                Ok(Json::Bool(false)) => {
                    assert forall|q: Request<W>| #[trigger]
                        asks::<S, W>(*no, env, s0, w0, q) implies keeps::<W>(env, inv, q) by {
                        assert(asks::<S, W>(t, env, s0, w0, q));
                    }
                    law_runs_are_possible::<S, W>(*no, env, s0, w0, r, s1, w1, inv, h);
                },
                _ => {},
            }
        },
        Tree::Fanout { items, bind, body, join, out } => {
            let snap = choose|snap: Json|
                #[trigger] S::shows(s0, snap) && match value_of(items, snap, env.registry) {
                    Err(f) => r == Err::<(), Fault>(f) && s1 == s0 && w1 == w0,
                    Ok(Json::Arr(xs)) => exists|joined: Result<Json, Fault>| #[trigger]
                        delivers::<S>(out, joined, s0, r, s1) && runs_join::<W>(
                            join,
                            bind,
                            *body,
                            env,
                            snap,
                            xs,
                            w0,
                            joined,
                            w1,
                        ),
                    Ok(v) => r == Err::<(), Fault>(items_fault(v)) && s1 == s0 && w1 == w0,
                };
            assert(S::shows(s0, snap));
            if let Ok(Json::Arr(xs)) = value_of(items, snap, env.registry) {
                let joined = choose|joined: Result<Json, Fault>| #[trigger]
                    delivers::<S>(out, joined, s0, r, s1) && runs_join::<W>(
                        join,
                        bind,
                        *body,
                        env,
                        snap,
                        xs,
                        w0,
                        joined,
                        w1,
                    );
                assert forall|q: Request<W>| #[trigger]
                    asks_join::<W>(join, bind, *body, env, snap, xs, w0, q) implies keeps::<W>(
                    env,
                    inv,
                    q,
                ) by {
                    assert(asks::<S, W>(t, env, s0, w0, q));
                }
                lemma_private_serves::<S::State, W>(h, env, inv);
                possible_join::<W>(
                    join,
                    bind,
                    *body,
                    env,
                    snap,
                    xs,
                    w0,
                    joined,
                    w1,
                    inv,
                    private(h),
                );
                lemma_delivers_now::<S>(h, out, joined, s0, r, s1);
            }
        },
        Tree::Loop { counter, cond, body, max } => {
            if let Ok(p) = target(counter) {
                let (ra, sa) = choose|ra: Result<(), Fault>, sa: S::State| #[trigger]
                    S::takes(s0, shown(p), count(0), ra, sa) && match ra {
                        Err(f) => r == ra && s1 == sa && w1 == w0,
                        Ok(_) => runs_loop::<S, W>(
                            shown(p),
                            cond,
                            *body,
                            max,
                            0,
                            env,
                            sa,
                            w0,
                            r,
                            s1,
                            w1,
                        ),
                    };
                assert(S::takes(s0, shown(p), count(0), ra, sa));
                if ra is Ok {
                    assert forall|q: Request<W>| #[trigger]
                        asks_loop::<S, W>(
                            shown(p),
                            cond,
                            *body,
                            max,
                            0,
                            env,
                            sa,
                            w0,
                            q,
                        ) implies keeps::<W>(env, inv, q) by {
                        assert(asks::<S, W>(t, env, s0, w0, q));
                    }
                    possible_loop::<S, W>(
                        shown(p),
                        cond,
                        *body,
                        max,
                        0,
                        env,
                        sa,
                        w0,
                        r,
                        s1,
                        w1,
                        inv,
                        h,
                    );
                }
            }
        },
        Tree::Try { body, catch, err_at } => {
            let (snap, ra, sa, wa) = choose|
                snap: Json,
                ra: Result<(), Fault>,
                sa: S::State,
                wa: W,
            |
                #[trigger] S::shows(s0, snap) && #[trigger] through(ra, (sa, wa)) && runs::<S, W>(
                    *body,
                    env,
                    s0,
                    w0,
                    ra,
                    sa,
                    wa,
                ) && match ra {
                    Ok(_) => r == ra && s1 == sa && w1 == wa,
                    Err(f) => runs_catch::<S, W>(*catch, err_at, f, snap, env, sa, wa, r, s1, w1),
                };
            assert(S::shows(s0, snap) && through(ra, (sa, wa)) && through(ra, sa));
            assert forall|q: Request<W>| #[trigger]
                asks::<S, W>(*body, env, s0, w0, q) implies keeps::<W>(env, inv, q) by {
                assert(asks::<S, W>(t, env, s0, w0, q));
            }
            law_runs_are_possible::<S, W>(*body, env, s0, w0, ra, sa, wa, inv, h);
            if let Err(f) = ra {
                assert forall|q: Request<W>| #[trigger]
                    asks_catch::<S, W>(
                        *catch,
                        err_at,
                        f,
                        snap,
                        env,
                        sa,
                        wa,
                        q,
                    ) implies keeps::<W>(env, inv, q) by {
                    assert(S::shows(s0, snap) && through(ra, (sa, wa)));
                    assert(asks::<S, W>(t, env, s0, w0, q));
                }
                possible_catch::<S, W>(
                    *catch,
                    err_at,
                    f,
                    snap,
                    env,
                    sa,
                    wa,
                    r,
                    s1,
                    w1,
                    inv,
                    h,
                );
            }
        },
        Tree::Let { at, value } => {
            let snap = choose|snap: Json|
                #[trigger] S::shows(s0, snap) && match value_of(value, snap, env.registry) {
                    Err(f) => r == Err::<(), Fault>(f) && s1 == s0,
                    Ok(v) => S::takes(s0, shown(at), v, r, s1),
                };
            assert(S::shows(s0, snap));
        },
    }
}

proof fn possible_all<S: CtxStorage, W>(
    children: Seq<Tree>,
    env: Env<W>,
    s0: S::State,
    w0: W,
    r: Result<(), Fault>,
    s1: S::State,
    w1: W,
    inv: spec_fn(W) -> bool,
    h: Host<S::State>,
)
    requires
        inv(w0),
        forall|q: Request<W>| #[trigger]
            asks_all::<S, W>(children, env, s0, w0, q) ==> keeps::<W>(env, inv, q),
        serves::<S::State, W>(h, env, inv),
        runs_all::<S, W>(children, env, s0, w0, r, s1, w1),
    ensures
        inv(w1),
        may_all::<S>(children, h, s0, r, s1),
    decreases children, 0nat, 0nat,
{
    if children.len() > 0 {
        let (ra, sa, wa) = choose|ra: Result<(), Fault>, sa: S::State, wa: W| #[trigger]
            through(ra, (sa, wa)) && runs::<S, W>(children[0], env, s0, w0, ra, sa, wa)
                && match ra {
                Ok(_) => runs_all::<S, W>(children.drop_first(), env, sa, wa, r, s1, w1),
                Err(f) => r == ra && s1 == sa && w1 == wa,
            };
        assert(through(ra, (sa, wa)) && through(ra, sa));
        assert forall|q: Request<W>| #[trigger]
            asks::<S, W>(children[0], env, s0, w0, q) implies keeps::<W>(env, inv, q) by {
            assert(asks_all::<S, W>(children, env, s0, w0, q));
        }
        law_runs_are_possible::<S, W>(children[0], env, s0, w0, ra, sa, wa, inv, h);
        if ra is Ok {
            assert forall|q: Request<W>| #[trigger]
                asks_all::<S, W>(children.drop_first(), env, sa, wa, q) implies keeps::<W>(
                env,
                inv,
                q,
            ) by {
                assert(through(ra, (sa, wa)));
                assert(asks_all::<S, W>(children, env, s0, w0, q));
            }
            possible_all::<S, W>(children.drop_first(), env, sa, wa, r, s1, w1, inv, h);
        }
    }
}

proof fn possible_loop<S: CtxStorage, W>(
    counter: Seq<char>,
    cond: Term,
    body: Tree,
    max: u32,
    n: nat,
    env: Env<W>,
    s0: S::State,
    w0: W,
    r: Result<(), Fault>,
    s1: S::State,
    w1: W,
    inv: spec_fn(W) -> bool,
    h: Host<S::State>,
)
    requires
        inv(w0),
        forall|q: Request<W>| #[trigger]
            asks_loop::<S, W>(counter, cond, body, max, n, env, s0, w0, q) ==> keeps::<W>(
                env,
                inv,
                q,
            ),
        serves::<S::State, W>(h, env, inv),
        runs_loop::<S, W>(counter, cond, body, max, n, env, s0, w0, r, s1, w1),
    ensures
        inv(w1),
        may_loop::<S>(counter, cond, body, max, n, h, s0, r, s1),
    decreases body, 1nat, max - n,
{
    if n < max {
        let snap = choose|snap: Json|
            #[trigger] S::shows(s0, snap) && match value_of(cond, snap, env.registry) {
                Err(f) => r == Err::<(), Fault>(f) && s1 == s0 && w1 == w0,
                Ok(v) => if !truthy(v) {
                    r is Ok && s1 == s0 && w1 == w0
                } else {
                    goes_round::<S, W>(counter, cond, body, max, n, env, s0, w0, r, s1, w1)
                },
            };
        assert(S::shows(s0, snap));
        if let Ok(v) = value_of(cond, snap, env.registry) {
            if truthy(v) {
                assert forall|q: Request<W>| #[trigger]
                    asks::<S, W>(body, env, s0, w0, q) implies keeps::<W>(env, inv, q) by {
                    assert(asks_loop::<S, W>(counter, cond, body, max, n, env, s0, w0, q));
                }
                let (ra, sa, wa) = choose|
                    ra: Result<(), Fault>,
                    sa: S::State,
                    wa: W,
                | #[trigger]
                    through(ra, (sa, wa)) && runs::<S, W>(body, env, s0, w0, ra, sa, wa)
                        && ends_round::<S, W>(
                        counter,
                        cond,
                        body,
                        max,
                        n,
                        env,
                        ra,
                        sa,
                        wa,
                        r,
                        s1,
                        w1,
                    );
                assert(through(ra, (sa, wa)) && through(ra, sa));
                law_runs_are_possible::<S, W>(body, env, s0, w0, ra, sa, wa, inv, h);
                if ra is Ok {
                    let (rb, sb) = choose|rb: Result<(), Fault>, sb: S::State| #[trigger]
                        S::takes(sa, counter, count(n + 1), rb, sb) && match rb {
                            Err(f) => r == rb && s1 == sb && w1 == wa,
                            Ok(_) => runs_loop::<S, W>(
                                counter,
                                cond,
                                body,
                                max,
                                n + 1,
                                env,
                                sb,
                                wa,
                                r,
                                s1,
                                w1,
                            ),
                        };
                    assert(S::takes(sa, counter, count(n + 1), rb, sb));
                    if rb is Ok {
                        assert forall|q: Request<W>| #[trigger]
                            asks_loop::<S, W>(
                                counter,
                                cond,
                                body,
                                max,
                                n + 1,
                                env,
                                sb,
                                wa,
                                q,
                            ) implies keeps::<W>(env, inv, q) by {
                            assert(S::shows(s0, snap) && through(ra, (sa, wa)));
                            assert(S::takes(sa, counter, count(n + 1), rb, sb));
                            assert(asks_loop::<S, W>(counter, cond, body, max, n, env, s0, w0, q));
                        }
                        possible_loop::<S, W>(
                            counter,
                            cond,
                            body,
                            max,
                            n + 1,
                            env,
                            sb,
                            wa,
                            r,
                            s1,
                            w1,
                            inv,
                            h,
                        );
                    }
                }
            }
        }
    }
}

/// Whether a round of a loop and the rounds after it may go from one pair of states to another.
spec fn goes_round<S: CtxStorage, W>(
    counter: Seq<char>,
    cond: Term,
    body: Tree,
    max: u32,
    n: nat,
    env: Env<W>,
    s0: S::State,
    w0: W,
    r: Result<(), Fault>,
    s1: S::State,
    w1: W,
) -> bool {
    exists|ra: Result<(), Fault>, sa: S::State, wa: W| #[trigger]
        through(ra, (sa, wa)) && runs::<S, W>(body, env, s0, w0, ra, sa, wa) && ends_round::<S, W>(
            counter,
            cond,
            body,
            max,
            n,
            env,
            ra,
            sa,
            wa,
            r,
            s1,
            w1,
        )
}

/// The same once the body of the round has ended.
spec fn ends_round<S: CtxStorage, W>(
    counter: Seq<char>,
    cond: Term,
    body: Tree,
    max: u32,
    n: nat,
    env: Env<W>,
    ra: Result<(), Fault>,
    sa: S::State,
    wa: W,
    r: Result<(), Fault>,
    s1: S::State,
    w1: W,
) -> bool {
    match ra {
        Err(f) => r == ra && s1 == sa && w1 == wa,
        Ok(_) => exists|rb: Result<(), Fault>, sb: S::State| #[trigger]
            S::takes(sa, counter, count(n + 1), rb, sb) && match rb {
                Err(f) => r == rb && s1 == sb && w1 == wa,
                Ok(_) => runs_loop::<S, W>(
                    counter,
                    cond,
                    body,
                    max,
                    n + 1,
                    env,
                    sb,
                    wa,
                    r,
                    s1,
                    w1,
                ),
            },
    }
}

proof fn possible_catch<S: CtxStorage, W>(
    catch: Tree,
    err_at: Option<Term>,
    f: Fault,
    snap: Json,
    env: Env<W>,
    s0: S::State,
    w0: W,
    r: Result<(), Fault>,
    s1: S::State,
    w1: W,
    inv: spec_fn(W) -> bool,
    h: Host<S::State>,
)
    requires
        inv(w0),
        forall|q: Request<W>| #[trigger]
            asks_catch::<S, W>(catch, err_at, f, snap, env, s0, w0, q) ==> keeps::<W>(env, inv, q),
        serves::<S::State, W>(h, env, inv),
        runs_catch::<S, W>(catch, err_at, f, snap, env, s0, w0, r, s1, w1),
    ensures
        inv(w1),
        may_catch::<S>(catch, err_at, f, snap, h, s0, r, s1),
    decreases catch, 1nat, 0nat,
{
    let note = Json::Str(fault_text(f));
    let sa = choose|sa: S::State| #[trigger]
        S::becomes(s0, snap, sa) && match err_at {
            None => runs::<S, W>(catch, env, sa, w0, r, s1, w1),
            Some(at) => match target(at) {
                Err(g) => r == Err::<(), Fault>(g) && s1 == sa && w1 == w0,
                Ok(p) => exists|rb: Result<(), Fault>, sb: S::State| #[trigger]
                    S::takes(sa, shown(p), note, rb, sb) && match rb {
                        Err(g) => r == rb && s1 == sb && w1 == w0,
                        Ok(_) => runs::<S, W>(catch, env, sb, w0, r, s1, w1),
                    },
            },
        };
    assert(S::becomes(s0, snap, sa));
    match err_at {
        None => {
            assert forall|q: Request<W>| #[trigger]
                asks::<S, W>(catch, env, sa, w0, q) implies keeps::<W>(env, inv, q) by {
                assert(asks_catch::<S, W>(catch, err_at, f, snap, env, s0, w0, q));
            }
            law_runs_are_possible::<S, W>(catch, env, sa, w0, r, s1, w1, inv, h);
        },
        Some(at) => {
            if let Ok(p) = target(at) {
                let (rb, sb) = choose|rb: Result<(), Fault>, sb: S::State| #[trigger]
                    S::takes(sa, shown(p), note, rb, sb) && match rb {
                        Err(g) => r == rb && s1 == sb && w1 == w0,
                        Ok(_) => runs::<S, W>(catch, env, sb, w0, r, s1, w1),
                    };
                assert(S::takes(sa, shown(p), note, rb, sb));
                if rb is Ok {
                    assert forall|q: Request<W>| #[trigger]
                        asks::<S, W>(catch, env, sb, w0, q) implies keeps::<W>(env, inv, q) by {
                        assert(asks_catch::<S, W>(catch, err_at, f, snap, env, s0, w0, q));
                    }
                    law_runs_are_possible::<S, W>(catch, env, sb, w0, r, s1, w1, inv, h);
                }
            }
        },
    }
}

proof fn possible_end<W>(
    t: Tree,
    env: Env<W>,
    ctx: Json,
    w0: W,
    r: Result<Json, Fault>,
    w1: W,
    inv: spec_fn(W) -> bool,
    h: Host<Json>,
)
    requires
        inv(w0),
        forall|q: Request<W>| #[trigger]
            asks::<MemoryCtx, W>(t, env, ctx, w0, q) ==> keeps::<W>(env, inv, q),
        serves::<Json, W>(h, env, inv),
        runs_to::<W>(t, env, ctx, w0, r, w1),
    ensures
        inv(w1),
        may_end(t, h, ctx, r),
    decreases t, 1nat, 0nat,
{
    match r {
        Ok(c) => law_runs_are_possible::<MemoryCtx, W>(t, env, ctx, w0, Ok(()), c, w1, inv, h),
        Err(f) => {
            let c = choose|c: Json| #[trigger]
                through(Err(f), c) && runs::<MemoryCtx, W>(t, env, ctx, w0, Err(f), c, w1);
            law_runs_are_possible::<MemoryCtx, W>(t, env, ctx, w0, Err(f), c, w1, inv, h);
            assert(through(Err::<(), Fault>(f), c));
        },
    }
}

proof fn possible_join<W>(
    join: JoinMode,
    bind: Term,
    body: Tree,
    env: Env<W>,
    snap: Json,
    items: Seq<Json>,
    w0: W,
    joined: Result<Json, Fault>,
    w1: W,
    inv: spec_fn(W) -> bool,
    h: Host<Json>,
)
    requires
        inv(w0),
        forall|q: Request<W>| #[trigger]
            asks_join::<W>(join, bind, body, env, snap, items, w0, q) ==> keeps::<W>(env, inv, q),
        serves::<Json, W>(h, env, inv),
        runs_join::<W>(join, bind, body, env, snap, items, w0, joined, w1),
    ensures
        inv(w1),
        may_join(join, bind, body, h, snap, items, joined),
    decreases body, 3nat, 0nat,
{
    if items.len() > 0 && written(bind, snap, items[0]) is Ok {
        let ctxs = starts(bind, snap, items);
        let none = Seq::<Result<Json, Fault>>::empty();
        assert forall|q: Request<W>| #[trigger]
            asks_follow::<W>(join, body, env, ctxs, none, w0, q) implies keeps::<W>(
            env,
            inv,
            q,
        ) by {
            assert(asks_join::<W>(join, bind, body, env, snap, items, w0, q));
        }
        possible_follow::<W>(join, body, env, ctxs, none, w0, joined, w1, inv, h);
    }
}

proof fn possible_follow<W>(
    join: JoinMode,
    body: Tree,
    env: Env<W>,
    ctxs: Seq<Json>,
    done: Seq<Result<Json, Fault>>,
    w0: W,
    joined: Result<Json, Fault>,
    w1: W,
    inv: spec_fn(W) -> bool,
    h: Host<Json>,
)
    requires
        inv(w0),
        forall|q: Request<W>| #[trigger]
            asks_follow::<W>(join, body, env, ctxs, done, w0, q) ==> keeps::<W>(env, inv, q),
        serves::<Json, W>(h, env, inv),
        runs_follow::<W>(join, body, env, ctxs, done, w0, joined, w1),
    ensures
        inv(w1),
        may_follow(join, body, h, ctxs, done, joined),
    decreases body, 2nat, ctxs.len() - done.len(),
{
    if decision(join, ctxs.len(), done) is None {
        let ctx = ctxs[done.len() as int];
        let (x, wa) = choose|x: Result<Json, Fault>, wa: W| #[trigger]
            branch_end(x, wa) && runs_to::<W>(body, env, ctx, w0, x, wa) && runs_follow::<W>(
                join,
                body,
                env,
                ctxs,
                done.push(x),
                wa,
                joined,
                w1,
            );
        assert(branch_end(x, wa) && results(done.push(x)));
        assert forall|q: Request<W>| #[trigger]
            asks::<MemoryCtx, W>(body, env, ctx, w0, q) implies keeps::<W>(env, inv, q) by {
            assert(asks_follow::<W>(join, body, env, ctxs, done, w0, q));
        }
        possible_end::<W>(body, env, ctx, w0, x, wa, inv, h);
        assert forall|q: Request<W>| #[trigger]
            asks_follow::<W>(join, body, env, ctxs, done.push(x), wa, q) implies keeps::<W>(
            env,
            inv,
            q,
        ) by {
            assert(branch_end(x, wa));
            assert(asks_follow::<W>(join, body, env, ctxs, done, w0, q));
        }
        possible_follow::<W>(join, body, env, ctxs, done.push(x), wa, joined, w1, inv, h);
    }
}

/// A dispatcher that stays in a set of states at each step that a run may ask for is still in it
/// at the end.
pub proof fn law_dispatcher_is_kept<S: CtxStorage, W>(
    t: Tree,
    env: Env<W>,
    s0: S::State,
    w0: W,
    r: Result<(), Fault>,
    s1: S::State,
    w1: W,
    inv: spec_fn(W) -> bool,
)
    requires
        inv(w0),
        forall|q: Request<W>| #[trigger]
            asks::<S, W>(t, env, s0, w0, q) ==> keeps::<W>(env, inv, q),
        runs::<S, W>(t, env, s0, w0, r, s1, w1),
    ensures
        inv(w1),
{
    let h = Host::<S::State> {
        replies: |ref_: Seq<char>, v: Json, reply: Result<Json, Fault>| true,
        registry: env.registry,
        concurrent: false,
        meanwhile: |a: S::State, b: S::State| a == b,
    };
    law_runs_are_possible::<S, W>(t, env, s0, w0, r, s1, w1, inv, h);
}

/// A run that asks for no step leaves the dispatcher as it was.
pub proof fn law_unasked_dispatcher_stays<S: CtxStorage, W>(
    t: Tree,
    env: Env<W>,
    s0: S::State,
    w0: W,
    r: Result<(), Fault>,
    s1: S::State,
    w1: W,
)
    requires
        forall|q: Request<W>| !#[trigger] asks::<S, W>(t, env, s0, w0, q),
        runs::<S, W>(t, env, s0, w0, r, s1, w1),
    ensures
        w1 == w0,
{
    law_dispatcher_is_kept::<S, W>(t, env, s0, w0, r, s1, w1, |w: W| w == w0);
}

/// A step whose input has a value is carried out once, with that value: the dispatcher goes from
/// its state before to its state after by one reply, and the run goes on with that reply. A step
/// whose input has none is not carried out.
pub proof fn law_step_is_carried_out_once<W>(
    ref_: Seq<char>,
    input: Term,
    out: Term,
    env: Env<W>,
    c0: Json,
    w0: W,
    r: Result<(), Fault>,
    c1: Json,
    w1: W,
)
    ensures
        runs::<MemoryCtx, W>((Tree::Step { ref_, input, out }), env, c0, w0, r, c1, w1)
            <==> match value_of(input, c0, env.registry) {
            Err(f) => r == Err::<(), Fault>(f) && c1 == c0 && w1 == w0,
            Ok(v) => exists|reply: Result<Json, Fault>| #[trigger]
                (env.rules.replies)(w0, ref_, v, reply, w1) && delivers::<MemoryCtx>(
                    out,
                    step_result(ref_, reply),
                    c0,
                    r,
                    c1,
                ),
        },
{
    assert(MemoryCtx::shows(c0, c0));
}

/// If a dispatcher counts the steps that it carries out, a step adds one to the count where its
/// input has a value and nothing where it has none.
pub proof fn law_step_counts_once<W>(
    ref_: Seq<char>,
    input: Term,
    out: Term,
    env: Env<W>,
    c0: Json,
    w0: W,
    r: Result<(), Fault>,
    c1: Json,
    w1: W,
    tally: spec_fn(W) -> int,
)
    requires
        forall|w: W, a: Seq<char>, v: Json, reply: Result<Json, Fault>, post: W|
            #[trigger] (env.rules.replies)(w, a, v, reply, post) ==> tally(post) == tally(w) + 1,
        runs::<MemoryCtx, W>((Tree::Step { ref_, input, out }), env, c0, w0, r, c1, w1),
    ensures
        tally(w1) == tally(w0) + if value_of(input, c0, env.registry) is Ok {
            1int
        } else {
            0int
        },
{
    law_step_is_carried_out_once::<W>(ref_, input, out, env, c0, w0, r, c1, w1);
}

/// Running flows one after the other is running the first ones and then, if they succeed, the
/// others, with the dispatcher as the first ones leave it.
pub proof fn law_sequences_run_in_turn<S: CtxStorage, W>(
    a: Seq<Tree>,
    b: Seq<Tree>,
    env: Env<W>,
    s0: S::State,
    w0: W,
    r: Result<(), Fault>,
    s1: S::State,
    w1: W,
)
    ensures
        runs_all::<S, W>(a + b, env, s0, w0, r, s1, w1) <==> exists|
            ra: Result<(), Fault>,
            sa: S::State,
            wa: W,
        | #[trigger]
            through(ra, (sa, wa)) && runs_all::<S, W>(a, env, s0, w0, ra, sa, wa) && match ra {
                Ok(_) => runs_all::<S, W>(b, env, sa, wa, r, s1, w1),
                Err(_) => r == ra && s1 == sa && w1 == wa,
            },
    decreases a.len(),
{
    let ok = Ok::<(), Fault>(());
    if a.len() == 0 {
        assert(a + b =~= b);
        assert(through(ok, (s0, w0)) && runs_all::<S, W>(a, env, s0, w0, ok, s0, w0));
    } else {
        let all = a + b;
        let rest = a.drop_first();
        assert(all[0] == a[0]);
        assert(all.drop_first() =~= rest + b);
        if runs_all::<S, W>(all, env, s0, w0, r, s1, w1) {
            let (rx, sx, wx) = choose|rx: Result<(), Fault>, sx: S::State, wx: W| #[trigger]
                through(rx, (sx, wx)) && runs::<S, W>(all[0], env, s0, w0, rx, sx, wx)
                    && match rx {
                    Ok(_) => runs_all::<S, W>(all.drop_first(), env, sx, wx, r, s1, w1),
                    Err(f) => r == rx && s1 == sx && w1 == wx,
                };
            assert(through(rx, (sx, wx)));
            if rx is Ok {
                law_sequences_run_in_turn::<S, W>(rest, b, env, sx, wx, r, s1, w1);
                let (ra, sa, wa) = choose|
                    ra: Result<(), Fault>,
                    sa: S::State,
                    wa: W,
                | #[trigger]
                    through(ra, (sa, wa)) && runs_all::<S, W>(rest, env, sx, wx, ra, sa, wa)
                        && match ra {
                        Ok(_) => runs_all::<S, W>(b, env, sa, wa, r, s1, w1),
                        Err(_) => r == ra && s1 == sa && w1 == wa,
                    };
                assert(through(ra, (sa, wa)) && runs_all::<S, W>(a, env, s0, w0, ra, sa, wa));
            } else {
                assert(runs_all::<S, W>(a, env, s0, w0, rx, sx, wx));
            }
        }
        if exists|ra: Result<(), Fault>, sa: S::State, wa: W| #[trigger]
            through(ra, (sa, wa)) && runs_all::<S, W>(a, env, s0, w0, ra, sa, wa) && match ra {
                Ok(_) => runs_all::<S, W>(b, env, sa, wa, r, s1, w1),
                Err(_) => r == ra && s1 == sa && w1 == wa,
            } {
            let (ra, sa, wa) = choose|ra: Result<(), Fault>, sa: S::State, wa: W| #[trigger]
                through(ra, (sa, wa)) && runs_all::<S, W>(a, env, s0, w0, ra, sa, wa) && match ra {
                    Ok(_) => runs_all::<S, W>(b, env, sa, wa, r, s1, w1),
                    Err(_) => r == ra && s1 == sa && w1 == wa,
                };
            let (rx, sx, wx) = choose|rx: Result<(), Fault>, sx: S::State, wx: W| #[trigger]
                through(rx, (sx, wx)) && runs::<S, W>(a[0], env, s0, w0, rx, sx, wx) && match rx {
                    Ok(_) => runs_all::<S, W>(rest, env, sx, wx, ra, sa, wa),
                    Err(f) => ra == rx && sa == sx && wa == wx,
                };
            assert(through(rx, (sx, wx)) && through(ra, (sa, wa)));
            if rx is Ok {
                law_sequences_run_in_turn::<S, W>(rest, b, env, sx, wx, r, s1, w1);
            }
        }
    }
}

/// A try runs its body once. Where the body fails, what catches the failure runs once after it,
/// with the dispatcher as the body leaves it, on the context as it was before the body with the
/// message of the failure noted.
pub proof fn law_try_runs_its_body_and_its_catch<W>(
    body: Tree,
    catch: Tree,
    err_at: Option<Term>,
    env: Env<W>,
    c0: Json,
    w0: W,
    r: Result<(), Fault>,
    c1: Json,
    w1: W,
)
    ensures
        runs::<MemoryCtx, W>(
            (Tree::Try { body: Box::new(body), catch: Box::new(catch), err_at }),
            env,
            c0,
            w0,
            r,
            c1,
            w1,
        ) <==> (r is Ok && runs::<MemoryCtx, W>(body, env, c0, w0, r, c1, w1)) || exists|
            f: Fault,
            c: Json,
            wa: W,
        | #[trigger]
            through(Err(f), (c, wa)) && runs::<MemoryCtx, W>(body, env, c0, w0, Err(f), c, wa)
                && match caught(err_at, c0, f) {
                Ok(start) => runs::<MemoryCtx, W>(catch, env, start, wa, r, c1, w1),
                Err(g) => r == Err::<(), Fault>(g) && c1 == c0 && w1 == wa,
            },
{
    let t = Tree::Try { body: Box::new(body), catch: Box::new(catch), err_at };
    if runs::<MemoryCtx, W>(t, env, c0, w0, r, c1, w1) {
        let (snap, ra, sa, wa) = choose|
            snap: Json,
            ra: Result<(), Fault>,
            sa: Json,
            wa: W,
        |
            #[trigger] MemoryCtx::shows(c0, snap) && #[trigger] through(ra, (sa, wa)) && runs::<
                MemoryCtx,
                W,
            >(body, env, c0, w0, ra, sa, wa) && match ra {
                Ok(_) => r == ra && c1 == sa && w1 == wa,
                Err(f) => runs_catch::<MemoryCtx, W>(
                    catch,
                    err_at,
                    f,
                    snap,
                    env,
                    sa,
                    wa,
                    r,
                    c1,
                    w1,
                ),
            };
        if let Err(f) = ra {
            assert(through(Err::<(), Fault>(f), (sa, wa)));
            lemma_runs_caught::<W>(catch, err_at, f, env, c0, sa, wa, r, c1, w1);
        }
    }
    if r is Ok && runs::<MemoryCtx, W>(body, env, c0, w0, r, c1, w1) {
        assert(MemoryCtx::shows(c0, c0) && through(r, (c1, w1)));
    }
    if exists|f: Fault, c: Json, wa: W| #[trigger]
        through(Err(f), (c, wa)) && runs::<MemoryCtx, W>(body, env, c0, w0, Err(f), c, wa)
            && match caught(err_at, c0, f) {
            Ok(start) => runs::<MemoryCtx, W>(catch, env, start, wa, r, c1, w1),
            Err(g) => r == Err::<(), Fault>(g) && c1 == c0 && w1 == wa,
        } {
        let (f, c, wa) = choose|f: Fault, c: Json, wa: W| #[trigger]
            through(Err(f), (c, wa)) && runs::<MemoryCtx, W>(body, env, c0, w0, Err(f), c, wa)
                && match caught(err_at, c0, f) {
                Ok(start) => runs::<MemoryCtx, W>(catch, env, start, wa, r, c1, w1),
                Err(g) => r == Err::<(), Fault>(g) && c1 == c0 && w1 == wa,
            };
        let ra = Err::<(), Fault>(f);
        assert(MemoryCtx::shows(c0, c0) && through(ra, (c, wa)));
        lemma_runs_caught::<W>(catch, err_at, f, env, c0, c, wa, r, c1, w1);
    }
}

/// What follows the failure of the body of a try, on a context in memory.
proof fn lemma_runs_caught<W>(
    catch: Tree,
    err_at: Option<Term>,
    f: Fault,
    env: Env<W>,
    c0: Json,
    c: Json,
    w0: W,
    r: Result<(), Fault>,
    c1: Json,
    w1: W,
)
    ensures
        runs_catch::<MemoryCtx, W>(catch, err_at, f, c0, env, c, w0, r, c1, w1) <==> match caught(
            err_at,
            c0,
            f,
        ) {
            Ok(start) => runs::<MemoryCtx, W>(catch, env, start, w0, r, c1, w1),
            Err(g) => r == Err::<(), Fault>(g) && c1 == c0 && w1 == w0,
        },
{
    assert(MemoryCtx::becomes(c, c0, c0));
    if let Some(at) = err_at {
        if let Ok(p) = target(at) {
            let note = Json::Str(fault_text(f));
            match write_text(shown(p), c0, note) {
                Ok(start) => assert(MemoryCtx::takes(c0, shown(p), note, Ok(()), start)),
                Err(g) => assert(MemoryCtx::takes(c0, shown(p), note, Err(g), c0)),
            }
        }
    }
}

/// Whether branches may run one after the other, each once, with the results `rs`, and lead the
/// dispatcher from one state to another, from a branch on.
pub open spec fn each_in_turn<W>(
    body: Tree,
    env: Env<W>,
    ctxs: Seq<Json>,
    rs: Seq<Result<Json, Fault>>,
    i: int,
    w0: W,
    w1: W,
) -> bool
    decreases rs.len() - i,
{
    if i >= rs.len() {
        w1 == w0
    } else {
        exists|wa: W| #[trigger]
            branch_end(rs[i], wa) && runs_to::<W>(body, env, ctxs[i], w0, rs[i], wa)
                && each_in_turn::<W>(body, env, ctxs, rs, i + 1, wa, w1)
    }
}

/// Whether results decide what a fanout over `n` items gives, and no fewer of them from `k` on do.
pub open spec fn decides(
    join: JoinMode,
    n: nat,
    rs: Seq<Result<Json, Fault>>,
    k: int,
    joined: Result<Json, Fault>,
) -> bool {
    decision(join, n, rs) == Some(joined) && forall|j: int|
        k <= j < rs.len() ==> decision(join, n, #[trigger] rs.take(j)) is None
}

/// The branches of a fanout run one after the other, each once, until their results decide what the
/// fanout gives; those that come later do not run.
pub proof fn law_branches_run_until_decided<W>(
    join: JoinMode,
    body: Tree,
    env: Env<W>,
    ctxs: Seq<Json>,
    w0: W,
    joined: Result<Json, Fault>,
    w1: W,
)
    ensures
        runs_follow::<W>(join, body, env, ctxs, Seq::empty(), w0, joined, w1) <==> exists|
            rs: Seq<Result<Json, Fault>>,
        | #[trigger]
            results(rs) && rs.len() <= ctxs.len() && decides(join, ctxs.len(), rs, 0, joined)
                && each_in_turn::<W>(body, env, ctxs, rs, 0, w0, w1),
{
    let none = Seq::<Result<Json, Fault>>::empty();
    if runs_follow::<W>(join, body, env, ctxs, none, w0, joined, w1) {
        let rs = lemma_decided::<W>(join, body, env, ctxs, none, w0, joined, w1);
        assert(results(rs));
    }
    if exists|rs: Seq<Result<Json, Fault>>| #[trigger]
        results(rs) && rs.len() <= ctxs.len() && decides(join, ctxs.len(), rs, 0, joined)
            && each_in_turn::<W>(body, env, ctxs, rs, 0, w0, w1) {
        let rs = choose|rs: Seq<Result<Json, Fault>>| #[trigger]
            results(rs) && rs.len() <= ctxs.len() && decides(join, ctxs.len(), rs, 0, joined)
                && each_in_turn::<W>(body, env, ctxs, rs, 0, w0, w1);
        assert(rs.take(0) =~= none);
        lemma_undecided::<W>(join, body, env, ctxs, rs, 0, w0, joined, w1);
    }
}

/// The results of branches that run until they decide.
proof fn lemma_decided<W>(
    join: JoinMode,
    body: Tree,
    env: Env<W>,
    ctxs: Seq<Json>,
    done: Seq<Result<Json, Fault>>,
    w0: W,
    joined: Result<Json, Fault>,
    w1: W,
) -> (rs: Seq<Result<Json, Fault>>)
    requires
        done.len() <= ctxs.len(),
        runs_follow::<W>(join, body, env, ctxs, done, w0, joined, w1),
    ensures
        done.len() <= rs.len() <= ctxs.len(),
        rs.take(done.len() as int) == done,
        decides(join, ctxs.len(), rs, done.len() as int, joined),
        each_in_turn::<W>(body, env, ctxs, rs, done.len() as int, w0, w1),
    decreases ctxs.len() - done.len(),
{
    let n = done.len() as int;
    if decision(join, ctxs.len(), done) is Some {
        assert(done.take(n) =~= done);
        done
    } else {
        let (x, wa) = choose|x: Result<Json, Fault>, wa: W| #[trigger]
            branch_end(x, wa) && runs_to::<W>(body, env, ctxs[n], w0, x, wa) && runs_follow::<W>(
                join,
                body,
                env,
                ctxs,
                done.push(x),
                wa,
                joined,
                w1,
            );
        let more = done.push(x);
        let rs = lemma_decided::<W>(join, body, env, ctxs, more, wa, joined, w1);
        assert(rs.take(n + 1)[n] == x);
        assert(rs.take(n) =~= more.take(n));
        assert(more.take(n) =~= done);
        assert(branch_end(rs[n], wa));
        assert forall|j: int| n <= j < rs.len() implies decision(
            join,
            ctxs.len(),
            #[trigger] rs.take(j),
        ) is None by {
            if j > n {
                assert(more.len() <= j);
            }
        }
        rs
    }
}

/// Branches with results that decide run until they do.
proof fn lemma_undecided<W>(
    join: JoinMode,
    body: Tree,
    env: Env<W>,
    ctxs: Seq<Json>,
    rs: Seq<Result<Json, Fault>>,
    k: int,
    w0: W,
    joined: Result<Json, Fault>,
    w1: W,
)
    requires
        0 <= k <= rs.len() <= ctxs.len(),
        decides(join, ctxs.len(), rs, k, joined),
        each_in_turn::<W>(body, env, ctxs, rs, k, w0, w1),
    ensures
        runs_follow::<W>(join, body, env, ctxs, rs.take(k), w0, joined, w1),
    decreases rs.len() - k,
{
    let done = rs.take(k);
    if k == rs.len() {
        assert(done =~= rs);
    } else {
        assert(decision(join, ctxs.len(), done) is None);
        let wa = choose|wa: W| #[trigger]
            branch_end(rs[k], wa) && runs_to::<W>(body, env, ctxs[k], w0, rs[k], wa)
                && each_in_turn::<W>(body, env, ctxs, rs, k + 1, wa, w1);
        assert(branch_end(rs[k], wa));
        lemma_undecided::<W>(join, body, env, ctxs, rs, k + 1, wa, joined, w1);
        assert(done.push(rs[k]) =~= rs.take(k + 1));
    }
}

/// A race of branches in order runs its first branch, once, and no other.
pub proof fn law_race_runs_the_first<W>(
    bind: Term,
    body: Tree,
    env: Env<W>,
    snap: Json,
    items: Seq<Json>,
    w0: W,
    joined: Result<Json, Fault>,
    w1: W,
)
    requires
        items.len() > 0,
    ensures
        runs_join::<W>(JoinMode::Race, bind, body, env, snap, items, w0, joined, w1)
            <==> match written(bind, snap, items[0]) {
            Ok(c) => runs_to::<W>(body, env, c, w0, joined, w1),
            Err(f) => joined == Err::<Json, Fault>(f) && w1 == w0,
        },
{
    let ctxs = starts(bind, snap, items);
    let none = Seq::<Result<Json, Fault>>::empty();
    if written(bind, snap, items[0]) is Ok {
        assert(ctxs[0] == written(bind, snap, items[0])->Ok_0);
        if runs_to::<W>(body, env, ctxs[0], w0, joined, w1) {
            assert(branch_end(joined, w1));
            assert(none.push(joined).last() == joined);
            assert(runs_follow::<W>(
                JoinMode::Race,
                body,
                env,
                ctxs,
                none.push(joined),
                w1,
                joined,
                w1,
            ));
        }
        if runs_follow::<W>(JoinMode::Race, body, env, ctxs, none, w0, joined, w1) {
            let (x, wa) = choose|x: Result<Json, Fault>, wa: W| #[trigger]
                branch_end(x, wa) && runs_to::<W>(body, env, ctxs[0], w0, x, wa) && runs_follow::<
                    W,
                >(JoinMode::Race, body, env, ctxs, none.push(x), wa, joined, w1);
            assert(none.push(x).last() == x);
        }
    }
}

} // verus!
