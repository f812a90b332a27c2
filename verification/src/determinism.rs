//! Every run on a context in memory has an end, and with branches in order it has only one that
//! the replies of the dispatcher do not decide.

use crate::error::{fault_text, Fault};
use crate::expr::{truthy, value_of, Term};
use crate::node::{target, written, JoinMode, Tree};
use crate::path::shown;
use crate::semantics::{
    calm, count, decision, delivers, delivers_later, empty_fault, items_fault, may, may_all,
    may_branches, may_catch, may_end, may_follow, may_join, may_loop, may_settle, private,
    records, results, starts, step_result, successes, through, unbound, undisturbed, Host,
};
use crate::storage::{write_text, CtxStorage, MemoryCtx};
use crate::value::Json;
use vstd::prelude::*;

verus! {

/// Whether the dispatcher has at most one reply to each step with an input.
pub open spec fn one_reply<T>(h: Host<T>) -> bool {
    forall|ref_: Seq<char>, v: Json, a: Result<Json, Fault>, b: Result<Json, Fault>|
        #[trigger] (h.replies)(ref_, v, a) && #[trigger] (h.replies)(ref_, v, b) ==> a == b
}

/// Whether the dispatcher has a reply to a step with an input.
pub open spec fn replied<T>(h: Host<T>, ref_: Seq<char>, v: Json) -> bool {
    exists|a: Result<Json, Fault>| #[trigger] (h.replies)(ref_, v, a)
}

/// Whether the dispatcher has a reply to each step with an input.
pub open spec fn some_reply<T>(h: Host<T>) -> bool {
    forall|ref_: Seq<char>, v: Json| #[trigger] replied(h, ref_, v)
}

spec fn fixed(h: Host<Json>) -> bool {
    one_reply(h) && !h.concurrent && undisturbed(h)
}

/// Branches have the dispatcher of their run.
pub proof fn lemma_private_replies<T>(h: Host<T>)
    ensures
        one_reply(h) ==> one_reply(private(h)),
        some_reply(h) ==> some_reply(private(h)),
        undisturbed(private(h)),
        calm(private(h)),
{
    let p = private(h);
    if one_reply(h) {
        assert forall|ref_: Seq<char>, v: Json, a: Result<Json, Fault>, b: Result<Json, Fault>|
            #[trigger] (p.replies)(ref_, v, a) && #[trigger] (p.replies)(
                ref_,
                v,
                b,
            ) implies a == b by {
            assert((h.replies)(ref_, v, a) && (h.replies)(ref_, v, b));
        }
    }
    if some_reply(h) {
        assert forall|ref_: Seq<char>, v: Json| #[trigger] replied(p, ref_, v) by {
            assert(replied(h, ref_, v));
            let a = choose|a: Result<Json, Fault>| #[trigger] (h.replies)(ref_, v, a);
            assert((p.replies)(ref_, v, a));
        }
    }
}

/// There is one success.
pub(crate) proof fn lemma_ok(a: Result<(), Fault>, b: Result<(), Fault>)
    requires
        a is Ok,
        b is Ok,
    ensures
        a == b,
        a == Ok::<(), Fault>(()),
{
    assert(a->Ok_0 == ());
    assert(b->Ok_0 == ());
}

pub(crate) proof fn lemma_takes_once(
    s: Json,
    path: Seq<char>,
    v: Json,
    r1: Result<(), Fault>,
    p1: Json,
    r2: Result<(), Fault>,
    p2: Json,
)
    requires
        MemoryCtx::takes(s, path, v, r1, p1),
        MemoryCtx::takes(s, path, v, r2, p2),
    ensures
        r1 == r2,
        p1 == p2,
{
    if r1 is Ok {
        lemma_ok(r1, r2);
    }
}

pub(crate) proof fn lemma_delivers_once(
    out: Term,
    v: Result<Json, Fault>,
    s: Json,
    r1: Result<(), Fault>,
    p1: Json,
    r2: Result<(), Fault>,
    p2: Json,
)
    requires
        delivers::<MemoryCtx>(out, v, s, r1, p1),
        delivers::<MemoryCtx>(out, v, s, r2, p2),
    ensures
        r1 == r2,
        p1 == p2,
{
    if v is Ok {
        if let Ok(p) = target(out) {
            lemma_takes_once(s, shown(p), v->Ok_0, r1, p1, r2, p2);
        }
    }
}

proof fn lemma_later_once(
    h: Host<Json>,
    out: Term,
    v: Result<Json, Fault>,
    s: Json,
    r1: Result<(), Fault>,
    p1: Json,
    r2: Result<(), Fault>,
    p2: Json,
)
    requires
        undisturbed(h),
        delivers_later::<MemoryCtx>(h, out, v, s, r1, p1),
        delivers_later::<MemoryCtx>(h, out, v, s, r2, p2),
    ensures
        r1 == r2,
        p1 == p2,
{
    let a = choose|sm: Json| #[trigger]
        (h.meanwhile)(s, sm) && delivers::<MemoryCtx>(out, v, sm, r1, p1);
    let b = choose|sm: Json| #[trigger]
        (h.meanwhile)(s, sm) && delivers::<MemoryCtx>(out, v, sm, r2, p2);
    assert((h.meanwhile)(s, a) && (h.meanwhile)(s, b));
    lemma_delivers_once(out, v, s, r1, p1, r2, p2);
}

/// With branches in order and at most one reply to each request of a step, a run on a context in
/// memory that no one else writes to has at most one end.
pub proof fn law_runs_have_one_end(
    t: Tree,
    h: Host<Json>,
    c0: Json,
    r1: Result<(), Fault>,
    c1: Json,
    r2: Result<(), Fault>,
    c2: Json,
)
    requires
        one_reply(h),
        !h.concurrent,
        undisturbed(h),
        may::<MemoryCtx>(t, h, c0, r1, c1),
        may::<MemoryCtx>(t, h, c0, r2, c2),
    ensures
        r1 == r2,
        c1 == c2,
    decreases t, 0nat, 0nat,
{
    match t {
        Tree::Step { ref_, input, out } => {
            if let Ok(v) = value_of(input, c0, h.registry) {
                let a = choose|a: Result<Json, Fault>| #[trigger]
                    (h.replies)(ref_, v, a) && delivers_later::<MemoryCtx>(
                        h,
                        out,
                        step_result(ref_, a),
                        c0,
                        r1,
                        c1,
                    );
                let b = choose|b: Result<Json, Fault>| #[trigger]
                    (h.replies)(ref_, v, b) && delivers_later::<MemoryCtx>(
                        h,
                        out,
                        step_result(ref_, b),
                        c0,
                        r2,
                        c2,
                    );
                assert((h.replies)(ref_, v, a) && (h.replies)(ref_, v, b));
                lemma_later_once(h, out, step_result(ref_, a), c0, r1, c1, r2, c2);
            }
        },
        Tree::Sequence(children) => {
            unique_all(children, h, c0, r1, c1, r2, c2);
        },
        Tree::Branch { cond, yes, no } => {
            match value_of(cond, c0, h.registry) {
                Ok(Json::Bool(true)) => law_runs_have_one_end(*yes, h, c0, r1, c1, r2, c2),
                Ok(Json::Bool(false)) => law_runs_have_one_end(*no, h, c0, r1, c1, r2, c2),
                _ => {},
            }
        },
        Tree::Fanout { items, bind, body, join, out } => {
            if let Ok(Json::Arr(xs)) = value_of(items, c0, h.registry) {
                let a = choose|a: Result<Json, Fault>| #[trigger]
                    delivers_later::<MemoryCtx>(h, out, a, c0, r1, c1) && may_join(
                        join,
                        bind,
                        *body,
                        private(h),
                        c0,
                        xs,
                        a,
                    );
                let b = choose|b: Result<Json, Fault>| #[trigger]
                    delivers_later::<MemoryCtx>(h, out, b, c0, r2, c2) && may_join(
                        join,
                        bind,
                        *body,
                        private(h),
                        c0,
                        xs,
                        b,
                    );
                assert(may_join(join, bind, *body, private(h), c0, xs, a));
                assert(may_join(join, bind, *body, private(h), c0, xs, b));
                lemma_private_replies(h);
                unique_join(join, bind, *body, private(h), c0, xs, a, b);
                lemma_later_once(h, out, a, c0, r1, c1, r2, c2);
            }
        },
        Tree::Loop { counter, cond, body, max } => {
            if let Ok(p) = target(counter) {
                let (ra, sa) = choose|ra: Result<(), Fault>, sa: Json| #[trigger]
                    MemoryCtx::takes(c0, shown(p), count(0), ra, sa) && match ra {
                        Err(f) => r1 == ra && c1 == sa,
                        Ok(_) => may_loop::<MemoryCtx>(
                            shown(p),
                            cond,
                            *body,
                            max,
                            0,
                            h,
                            sa,
                            r1,
                            c1,
                        ),
                    };
                let (rb, sb) = choose|rb: Result<(), Fault>, sb: Json| #[trigger]
                    MemoryCtx::takes(c0, shown(p), count(0), rb, sb) && match rb {
                        Err(f) => r2 == rb && c2 == sb,
                        Ok(_) => may_loop::<MemoryCtx>(
                            shown(p),
                            cond,
                            *body,
                            max,
                            0,
                            h,
                            sb,
                            r2,
                            c2,
                        ),
                    };
                lemma_takes_once(c0, shown(p), count(0), ra, sa, rb, sb);
                if ra is Ok {
                    unique_loop(shown(p), cond, *body, max, 0, h, sa, r1, c1, r2, c2);
                }
            }
        },
        Tree::Try { body, catch, err_at } => {
            let (xa, ra, sa) = choose|snap: Json, ra: Result<(), Fault>, sa: Json|
                #[trigger] MemoryCtx::shows(c0, snap) && #[trigger] through(ra, sa)
                    && may::<MemoryCtx>(*body, h, c0, ra, sa) && match ra {
                    Ok(_) => r1 == ra && c1 == sa,
                    Err(f) => may_catch::<MemoryCtx>(*catch, err_at, f, snap, h, sa, r1, c1),
                };
            let (xb, rb, sb) = choose|snap: Json, ra: Result<(), Fault>, sa: Json|
                #[trigger] MemoryCtx::shows(c0, snap) && #[trigger] through(ra, sa)
                    && may::<MemoryCtx>(*body, h, c0, ra, sa) && match ra {
                    Ok(_) => r2 == ra && c2 == sa,
                    Err(f) => may_catch::<MemoryCtx>(*catch, err_at, f, snap, h, sa, r2, c2),
                };
            law_runs_have_one_end(*body, h, c0, ra, sa, rb, sb);
            if let Err(f) = ra {
                unique_catch(*catch, err_at, f, c0, h, sa, r1, c1, r2, c2);
            }
        },
        Tree::Let { at, value } => {
            if let Ok(v) = value_of(value, c0, h.registry) {
                lemma_takes_once(c0, shown(at), v, r1, c1, r2, c2);
            }
        },
    }
}

proof fn unique_all(
    children: Seq<Tree>,
    h: Host<Json>,
    c0: Json,
    r1: Result<(), Fault>,
    c1: Json,
    r2: Result<(), Fault>,
    c2: Json,
)
    requires
        fixed(h),
        may_all::<MemoryCtx>(children, h, c0, r1, c1),
        may_all::<MemoryCtx>(children, h, c0, r2, c2),
    ensures
        r1 == r2,
        c1 == c2,
    decreases children, 0nat, 0nat,
{
    if children.len() > 0 {
        let (ra, sa) = choose|ra: Result<(), Fault>, sa: Json| #[trigger]
            through(ra, sa) && may::<MemoryCtx>(children[0], h, c0, ra, sa) && match ra {
                Ok(_) => may_all::<MemoryCtx>(children.drop_first(), h, sa, r1, c1),
                Err(f) => r1 == ra && c1 == sa,
            };
        let (rb, sb) = choose|rb: Result<(), Fault>, sb: Json| #[trigger]
            through(rb, sb) && may::<MemoryCtx>(children[0], h, c0, rb, sb) && match rb {
                Ok(_) => may_all::<MemoryCtx>(children.drop_first(), h, sb, r2, c2),
                Err(f) => r2 == rb && c2 == sb,
            };
        law_runs_have_one_end(children[0], h, c0, ra, sa, rb, sb);
        if ra is Ok {
            unique_all(children.drop_first(), h, sa, r1, c1, r2, c2);
        }
    } else {
        lemma_ok(r1, r2);
    }
}

proof fn unique_loop(
    counter: Seq<char>,
    cond: Term,
    body: Tree,
    max: u32,
    n: nat,
    h: Host<Json>,
    c0: Json,
    r1: Result<(), Fault>,
    c1: Json,
    r2: Result<(), Fault>,
    c2: Json,
)
    requires
        fixed(h),
        may_loop::<MemoryCtx>(counter, cond, body, max, n, h, c0, r1, c1),
        may_loop::<MemoryCtx>(counter, cond, body, max, n, h, c0, r2, c2),
    ensures
        r1 == r2,
        c1 == c2,
    decreases body, 1nat, max - n,
{
    if r1 is Ok && r2 is Ok {
        lemma_ok(r1, r2);
    }
    if n < max {
        if let Ok(v) = value_of(cond, c0, h.registry) {
            if truthy(v) {
                let (ra, sa) = choose|ra: Result<(), Fault>, sa: Json| #[trigger]
                    through(ra, sa) && may::<MemoryCtx>(body, h, c0, ra, sa) && match ra {
                        Err(f) => r1 == ra && c1 == sa,
                        Ok(_) => exists|rb: Result<(), Fault>, sb: Json| #[trigger]
                            MemoryCtx::takes(sa, counter, count(n + 1), rb, sb) && match rb {
                                Err(f) => r1 == rb && c1 == sb,
                                Ok(_) => may_loop::<MemoryCtx>(
                                    counter,
                                    cond,
                                    body,
                                    max,
                                    n + 1,
                                    h,
                                    sb,
                                    r1,
                                    c1,
                                ),
                            },
                    };
                let (rb, sb) = choose|ra: Result<(), Fault>, sa: Json| #[trigger]
                    through(ra, sa) && may::<MemoryCtx>(body, h, c0, ra, sa) && match ra {
                        Err(f) => r2 == ra && c2 == sa,
                        Ok(_) => exists|rb: Result<(), Fault>, sb: Json| #[trigger]
                            MemoryCtx::takes(sa, counter, count(n + 1), rb, sb) && match rb {
                                Err(f) => r2 == rb && c2 == sb,
                                Ok(_) => may_loop::<MemoryCtx>(
                                    counter,
                                    cond,
                                    body,
                                    max,
                                    n + 1,
                                    h,
                                    sb,
                                    r2,
                                    c2,
                                ),
                            },
                    };
                law_runs_have_one_end(body, h, c0, ra, sa, rb, sb);
                if ra is Ok {
                    let (rx, sx) = choose|rb: Result<(), Fault>, sb: Json| #[trigger]
                        MemoryCtx::takes(sa, counter, count(n + 1), rb, sb) && match rb {
                            Err(f) => r1 == rb && c1 == sb,
                            Ok(_) => may_loop::<MemoryCtx>(
                                counter,
                                cond,
                                body,
                                max,
                                n + 1,
                                h,
                                sb,
                                r1,
                                c1,
                            ),
                        };
                    let (ry, sy) = choose|rb: Result<(), Fault>, sb: Json| #[trigger]
                        MemoryCtx::takes(sa, counter, count(n + 1), rb, sb) && match rb {
                            Err(f) => r2 == rb && c2 == sb,
                            Ok(_) => may_loop::<MemoryCtx>(
                                counter,
                                cond,
                                body,
                                max,
                                n + 1,
                                h,
                                sb,
                                r2,
                                c2,
                            ),
                        };
                    lemma_takes_once(sa, counter, count(n + 1), rx, sx, ry, sy);
                    if rx is Ok {
                        unique_loop(counter, cond, body, max, n + 1, h, sx, r1, c1, r2, c2);
                    }
                }
            }
        }
    }
}

proof fn unique_catch(
    catch: Tree,
    err_at: Option<Term>,
    f: Fault,
    snap: Json,
    h: Host<Json>,
    c0: Json,
    r1: Result<(), Fault>,
    c1: Json,
    r2: Result<(), Fault>,
    c2: Json,
)
    requires
        fixed(h),
        may_catch::<MemoryCtx>(catch, err_at, f, snap, h, c0, r1, c1),
        may_catch::<MemoryCtx>(catch, err_at, f, snap, h, c0, r2, c2),
    ensures
        r1 == r2,
        c1 == c2,
    decreases catch, 1nat, 0nat,
{
    let note = Json::Str(fault_text(f));
    match err_at {
        None => {
            let sa = choose|sa: Json| #[trigger]
                MemoryCtx::becomes(c0, snap, sa) && may::<MemoryCtx>(catch, h, sa, r1, c1);
            let sb = choose|sa: Json| #[trigger]
                MemoryCtx::becomes(c0, snap, sa) && may::<MemoryCtx>(catch, h, sa, r2, c2);
            law_runs_have_one_end(catch, h, snap, r1, c1, r2, c2);
        },
        Some(at) => {
            if let Ok(p) = target(at) {
                let sa = choose|sa: Json| #[trigger]
                    MemoryCtx::becomes(c0, snap, sa) && exists|rb: Result<(), Fault>, sb: Json|
                     #[trigger]
                        MemoryCtx::takes(sa, shown(p), note, rb, sb) && match rb {
                            Err(g) => r1 == rb && c1 == sb,
                            Ok(_) => may::<MemoryCtx>(catch, h, sb, r1, c1),
                        };
                let sb = choose|sa: Json| #[trigger]
                    MemoryCtx::becomes(c0, snap, sa) && exists|rb: Result<(), Fault>, sb: Json|
                     #[trigger]
                        MemoryCtx::takes(sa, shown(p), note, rb, sb) && match rb {
                            Err(g) => r2 == rb && c2 == sb,
                            Ok(_) => may::<MemoryCtx>(catch, h, sb, r2, c2),
                        };
                let (rx, sx) = choose|rb: Result<(), Fault>, sb: Json| #[trigger]
                    MemoryCtx::takes(snap, shown(p), note, rb, sb) && match rb {
                        Err(g) => r1 == rb && c1 == sb,
                        Ok(_) => may::<MemoryCtx>(catch, h, sb, r1, c1),
                    };
                let (ry, sy) = choose|rb: Result<(), Fault>, sb: Json| #[trigger]
                    MemoryCtx::takes(snap, shown(p), note, rb, sb) && match rb {
                        Err(g) => r2 == rb && c2 == sb,
                        Ok(_) => may::<MemoryCtx>(catch, h, sb, r2, c2),
                    };
                lemma_takes_once(snap, shown(p), note, rx, sx, ry, sy);
                if rx is Ok {
                    law_runs_have_one_end(catch, h, sx, r1, c1, r2, c2);
                }
            }
        },
    }
}

proof fn unique_end(t: Tree, h: Host<Json>, ctx: Json, a: Result<Json, Fault>, b: Result<Json, Fault>)
    requires
        fixed(h),
        may_end(t, h, ctx, a),
        may_end(t, h, ctx, b),
    ensures
        a == b,
    decreases t, 1nat, 0nat,
{
    let (ra, ca): (Result<(), Fault>, Json) = match a {
        Ok(c) => (Ok(()), c),
        Err(f) => (
            Err(f),
            choose|c: Json| #[trigger]
                through(Err(f), c) && may::<MemoryCtx>(t, h, ctx, Err(f), c),
        ),
    };
    let (rb, cb): (Result<(), Fault>, Json) = match b {
        Ok(c) => (Ok(()), c),
        Err(f) => (
            Err(f),
            choose|c: Json| #[trigger]
                through(Err(f), c) && may::<MemoryCtx>(t, h, ctx, Err(f), c),
        ),
    };
    law_runs_have_one_end(t, h, ctx, ra, ca, rb, cb);
}

proof fn unique_join(
    join: JoinMode,
    bind: Term,
    body: Tree,
    h: Host<Json>,
    snap: Json,
    items: Seq<Json>,
    a: Result<Json, Fault>,
    b: Result<Json, Fault>,
)
    requires
        fixed(h),
        may_join(join, bind, body, h, snap, items, a),
        may_join(join, bind, body, h, snap, items, b),
    ensures
        a == b,
    decreases body, 4nat, 0nat,
{
    if items.len() > 0 && written(bind, snap, items[0]) is Ok {
        unique_follow(join, body, h, starts(bind, snap, items), Seq::empty(), a, b);
    }
}

proof fn unique_follow(
    join: JoinMode,
    body: Tree,
    h: Host<Json>,
    ctxs: Seq<Json>,
    done: Seq<Result<Json, Fault>>,
    a: Result<Json, Fault>,
    b: Result<Json, Fault>,
)
    requires
        fixed(h),
        may_follow(join, body, h, ctxs, done, a),
        may_follow(join, body, h, ctxs, done, b),
    ensures
        a == b,
    decreases body, 2nat, ctxs.len() - done.len(),
{
    if decision(join, ctxs.len(), done) is None {
        let x = choose|x: Result<Json, Fault>| #[trigger]
            results(done.push(x)) && may_end(body, h, ctxs[done.len() as int], x) && may_follow(
                join,
                body,
                h,
                ctxs,
                done.push(x),
                a,
            );
        let y = choose|y: Result<Json, Fault>| #[trigger]
            results(done.push(y)) && may_end(body, h, ctxs[done.len() as int], y) && may_follow(
                join,
                body,
                h,
                ctxs,
                done.push(y),
                b,
            );
        unique_end(body, h, ctxs[done.len() as int], x, y);
        unique_follow(join, body, h, ctxs, done.push(x), a, b);
    }
}

/// What a context in memory makes of a write.
pub open spec fn taken(s: Json, path: Seq<char>, v: Json) -> (Result<(), Fault>, Json) {
    match write_text(path, s, v) {
        Ok(w) => (Ok(()), w),
        Err(f) => (Err(f), s),
    }
}

/// What a context in memory makes of a result.
pub open spec fn delivered(out: Term, v: Result<Json, Fault>, s: Json) -> (Result<(), Fault>, Json) {
    match v {
        Err(f) => (Err(f), s),
        Ok(v) => match target(out) {
            Err(f) => (Err(f), s),
            Ok(p) => taken(s, shown(p), v),
        },
    }
}

/// If the dispatcher always replies, and no one has to write to it in the meantime, a run on a
/// context in memory has an end.
pub proof fn law_runs_have_an_end(t: Tree, h: Host<Json>, c0: Json) -> (end: (Result<(), Fault>, Json))
    requires
        some_reply(h),
        calm(h),
    ensures
        may::<MemoryCtx>(t, h, c0, end.0, end.1),
    decreases t, 0nat, 0nat,
{
    assert(MemoryCtx::shows(c0, c0));
    match t {
        Tree::Step { ref_, input, out } => match value_of(input, c0, h.registry) {
            Ok(v) => {
                assert(replied(h, ref_, v));
                let a = choose|a: Result<Json, Fault>| #[trigger] (h.replies)(ref_, v, a);
                let end = delivered(out, step_result(ref_, a), c0);
                assert((h.meanwhile)(c0, c0));
                assert(delivers_later::<MemoryCtx>(
                    h,
                    out,
                    step_result(ref_, a),
                    c0,
                    end.0,
                    end.1,
                ));
                end
            },
            Err(f) => (Err(f), c0),
        },
        Tree::Sequence(children) => some_all(children, h, c0),
        Tree::Branch { cond, yes, no } => match value_of(cond, c0, h.registry) {
            Ok(Json::Bool(true)) => law_runs_have_an_end(*yes, h, c0),
            Ok(Json::Bool(false)) => law_runs_have_an_end(*no, h, c0),
            Ok(v) => (Err(Fault::NonBoolCond(v)), c0),
            Err(f) => (Err(f), c0),
        },
        Tree::Fanout { items, bind, body, join, out } => match value_of(items, c0, h.registry) {
            Ok(Json::Arr(xs)) => {
                lemma_private_replies(h);
                let joined = some_join(join, bind, *body, private(h), c0, xs);
                let end = delivered(out, joined, c0);
                assert((h.meanwhile)(c0, c0));
                assert(delivers::<MemoryCtx>(out, joined, c0, end.0, end.1));
                assert(delivers_later::<MemoryCtx>(h, out, joined, c0, end.0, end.1));
                end
            },
            Ok(v) => (Err(items_fault(v)), c0),
            Err(f) => (Err(f), c0),
        },
        Tree::Loop { counter, cond, body, max } => match target(counter) {
            Ok(p) => {
                let first = taken(c0, shown(p), count(0));
                assert(MemoryCtx::takes(c0, shown(p), count(0), first.0, first.1));
                match first.0 {
                    Ok(_) => some_loop(shown(p), cond, *body, max, 0, h, first.1),
                    Err(f) => first,
                }
            },
            Err(f) => (Err(f), c0),
        },
        Tree::Try { body, catch, err_at } => {
            let end = law_runs_have_an_end(*body, h, c0);
            assert(through(end.0, end.1));
            match end.0 {
                Ok(_) => end,
                Err(f) => {
                    let last = some_catch(*catch, err_at, f, c0, h, end.1);
                    last
                },
            }
        },
        Tree::Let { at, value } => match value_of(value, c0, h.registry) {
            Ok(v) => taken(c0, shown(at), v),
            Err(f) => (Err(f), c0),
        },
    }
}

/// The same of flows one after the other.
pub proof fn some_all(children: Seq<Tree>, h: Host<Json>, c0: Json) -> (end: (Result<(), Fault>, Json))
    requires
        some_reply(h),
        calm(h),
    ensures
        may_all::<MemoryCtx>(children, h, c0, end.0, end.1),
    decreases children, 0nat, 0nat,
{
    if children.len() == 0 {
        (Ok(()), c0)
    } else {
        let end = law_runs_have_an_end(children[0], h, c0);
        assert(through(end.0, end.1));
        match end.0 {
            Ok(_) => some_all(children.drop_first(), h, end.1),
            Err(f) => end,
        }
    }
}

/// The same of a loop.
pub proof fn some_loop(
    counter: Seq<char>,
    cond: Term,
    body: Tree,
    max: u32,
    n: nat,
    h: Host<Json>,
    c0: Json,
) -> (end: (Result<(), Fault>, Json))
    requires
        some_reply(h),
        calm(h),
    ensures
        may_loop::<MemoryCtx>(counter, cond, body, max, n, h, c0, end.0, end.1),
    decreases body, 1nat, max - n,
{
    assert(MemoryCtx::shows(c0, c0));
    if n >= max {
        (Ok(()), c0)
    } else {
        match value_of(cond, c0, h.registry) {
            Err(f) => (Err(f), c0),
            Ok(v) => if !truthy(v) {
                (Ok(()), c0)
            } else {
                let end = law_runs_have_an_end(body, h, c0);
                assert(through(end.0, end.1));
                match end.0 {
                    Err(f) => end,
                    Ok(_) => {
                        let next = taken(end.1, counter, count(n + 1));
                        assert(MemoryCtx::takes(end.1, counter, count(n + 1), next.0, next.1));
                        match next.0 {
                            Err(f) => next,
                            Ok(_) => some_loop(counter, cond, body, max, n + 1, h, next.1),
                        }
                    },
                }
            },
        }
    }
}

/// The same of what follows the failure of the body of a try.
pub proof fn some_catch(
    catch: Tree,
    err_at: Option<Term>,
    f: Fault,
    snap: Json,
    h: Host<Json>,
    c0: Json,
) -> (end: (Result<(), Fault>, Json))
    requires
        some_reply(h),
        calm(h),
    ensures
        may_catch::<MemoryCtx>(catch, err_at, f, snap, h, c0, end.0, end.1),
    decreases catch, 1nat, 0nat,
{
    assert(MemoryCtx::becomes(c0, snap, snap));
    match err_at {
        None => law_runs_have_an_end(catch, h, snap),
        Some(at) => match target(at) {
            Err(g) => (Err(g), snap),
            Ok(p) => {
                let note = Json::Str(fault_text(f));
                let next = taken(snap, shown(p), note);
                assert(MemoryCtx::takes(snap, shown(p), note, next.0, next.1));
                match next.0 {
                    Err(g) => next,
                    Ok(_) => law_runs_have_an_end(catch, h, next.1),
                }
            },
        },
    }
}

/// The same with the context that the run leaves.
pub proof fn some_end(t: Tree, h: Host<Json>, ctx: Json) -> (end: Result<Json, Fault>)
    requires
        some_reply(h),
        calm(h),
    ensures
        may_end(t, h, ctx, end),
    decreases t, 1nat, 0nat,
{
    let end = law_runs_have_an_end(t, h, ctx);
    assert(through(end.0, end.1));
    match end.0 {
        Ok(u) => {
            assert(u == ());
            Ok(end.1)
        },
        Err(f) => Err(f),
    }
}

proof fn some_join(
    join: JoinMode,
    bind: Term,
    body: Tree,
    h: Host<Json>,
    snap: Json,
    items: Seq<Json>,
) -> (joined: Result<Json, Fault>)
    requires
        some_reply(h),
        calm(h),
    ensures
        may_join(join, bind, body, h, snap, items, joined),
    decreases body, 5nat, 0nat,
{
    if items.len() == 0 {
        match join {
            JoinMode::All | JoinMode::AllSettled => Ok(Json::Arr(Seq::empty())),
            JoinMode::Any => Err(empty_fault("fanout.any"@)),
            JoinMode::Race => Err(empty_fault("fanout.race"@)),
        }
    } else {
        match written(bind, snap, items[0]) {
            Err(f) => if join == JoinMode::AllSettled {
                Ok(Json::Arr(records(unbound(bind, snap, items))))
            } else {
                Err(f)
            },
            Ok(_) => some_branches(join, body, h, starts(bind, snap, items)),
        }
    }
}

/// The same of branches that have their contexts.
pub proof fn some_branches(join: JoinMode, body: Tree, h: Host<Json>, ctxs: Seq<Json>) -> (joined:
    Result<Json, Fault>)
    requires
        some_reply(h),
        calm(h),
        ctxs.len() > 0,
    ensures
        may_branches(join, body, h, ctxs, joined),
    decreases body, 4nat, 0nat,
{
    if h.concurrent {
        some_settle(join, body, h, ctxs)
    } else {
        some_follow(join, body, h, ctxs, Seq::empty())
    }
}

proof fn some_follow(
    join: JoinMode,
    body: Tree,
    h: Host<Json>,
    ctxs: Seq<Json>,
    done: Seq<Result<Json, Fault>>,
) -> (joined: Result<Json, Fault>)
    requires
        some_reply(h),
        calm(h),
        done.len() <= ctxs.len(),
        ctxs.len() > 0,
    ensures
        may_follow(join, body, h, ctxs, done, joined),
    decreases body, 2nat, ctxs.len() - done.len(),
{
    match decision(join, ctxs.len(), done) {
        Some(j) => j,
        None => {
            let x = some_end(body, h, ctxs[done.len() as int]);
            assert(results(done.push(x)));
            some_follow(join, body, h, ctxs, done.push(x))
        },
    }
}

proof fn some_results(body: Tree, h: Host<Json>, ctxs: Seq<Json>, n: nat) -> (rs: Seq<
    Result<Json, Fault>,
>)
    requires
        some_reply(h),
        calm(h),
        n <= ctxs.len(),
    ensures
        rs.len() == n,
        forall|i: int| #![trigger ctxs[i]] 0 <= i < n ==> may_end(body, h, ctxs[i], rs[i]),
    decreases body, 2nat, n,
{
    if n == 0 {
        Seq::empty()
    } else {
        let init = some_results(body, h, ctxs, (n - 1) as nat);
        let x = some_end(body, h, ctxs[n - 1]);
        let rs = init.push(x);
        assert forall|i: int| 0 <= i < n implies may_end(body, h, #[trigger] ctxs[i], rs[i]) by {
            if i < n - 1 {
                assert(rs[i] == init[i]);
            }
        }
        rs
    }
}

proof fn some_settle(join: JoinMode, body: Tree, h: Host<Json>, ctxs: Seq<Json>) -> (joined: Result<
    Json,
    Fault,
>)
    requires
        some_reply(h),
        calm(h),
        ctxs.len() > 0,
    ensures
        may_settle(join, body, h, ctxs, joined),
    decreases body, 3nat, 0nat,
{
    let rs = some_results(body, h, ctxs, ctxs.len());
    assert(results(rs));
    assert(may_end(body, h, ctxs[0], rs[0]));
    match join {
        JoinMode::Race => rs[0],
        JoinMode::AllSettled => Ok(Json::Arr(records(rs))),
        JoinMode::All => {
            if exists|i: int| 0 <= i < rs.len() && (#[trigger] rs[i]) is Err {
                let i = choose|i: int| 0 <= i < rs.len() && (#[trigger] rs[i]) is Err;
                assert(may_end(body, h, ctxs[i], rs[i]));
                rs[i]
            } else {
                let cs = successes(rs);
                assert forall|i: int| 0 <= i < ctxs.len() implies may_end(
                    body,
                    h,
                    #[trigger] ctxs[i],
                    Ok(cs[i]),
                ) by {
                    assert(rs[i] is Ok);
                }
                Ok(Json::Arr(cs))
            }
        },
        JoinMode::Any => {
            if exists|i: int| 0 <= i < rs.len() && (#[trigger] rs[i]) is Ok {
                let i = choose|i: int| 0 <= i < rs.len() && (#[trigger] rs[i]) is Ok;
                assert(may_end(body, h, ctxs[i], rs[i]));
                rs[i]
            } else {
                assert(rs[0] == Err::<Json, Fault>(rs[0]->Err_0));
                assert forall|i: int| 0 <= i < ctxs.len() implies rs[i] is Err && may_end(
                    body,
                    h,
                    #[trigger] ctxs[i],
                    rs[i],
                ) by {
                    assert(!(rs[i] is Ok));
                }
                rs[0]
            }
        },
    }
}

} // verus!
