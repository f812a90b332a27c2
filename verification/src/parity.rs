//! How running the branches of a fanout in order compares with running them at the same time.

use crate::determinism::{replied, some_end, some_reply};
use crate::error::{fault_text, Fault};
use crate::expr::{truthy, value_of, Term};
use crate::node::{target, written, JoinMode, Tree};
use crate::path::shown;
use crate::semantics::{
    calm, count, decision, delivers, delivers_later, items_fault, may, may_all, may_catch,
    may_end, may_follow, may_join, may_loop, may_settle, private, records, results, starts,
    step_result, successes, through, Host,
};
use crate::storage::{CtxStorage, MemoryCtx};
use crate::value::Json;
use vstd::prelude::*;

verus! {

/// The host that runs branches in order, or at the same time.
pub open spec fn with_branches<T>(h: Host<T>, concurrent: bool) -> Host<T> {
    Host { replies: h.replies, registry: h.registry, concurrent, meanwhile: h.meanwhile }
}

/// Whether every fanout of a flow lets all of its branches settle.
pub open spec fn settling(t: Tree) -> bool
    decreases t, 0nat,
{
    match t {
        Tree::Step { ref_, input, out } => true,
        Tree::Sequence(children) => all_settling(children),
        Tree::Branch { cond, yes, no } => settling(*yes) && settling(*no),
        Tree::Fanout { items, bind, body, join, out } => join == JoinMode::AllSettled && settling(
            *body,
        ),
        Tree::Loop { counter, cond, body, max } => settling(*body),
        Tree::Try { body, catch, err_at } => settling(*body) && settling(*catch),
        Tree::Let { at, value } => true,
    }
}

/// The same of each of a sequence of flows.
pub open spec fn all_settling(s: Seq<Tree>) -> bool
    decreases s, s.len(),
{
    s.len() == 0 || (settling(s[0]) && all_settling(s.drop_first()))
}

/// Whether every fanout of a flow collects the results of all of its branches, and none whose
/// failure another node gets to see may fail because of them.
pub open spec fn gathering(t: Tree) -> bool
    decreases t, 0nat,
{
    match t {
        Tree::Step { ref_, input, out } => true,
        Tree::Sequence(children) => all_gathering(children),
        Tree::Branch { cond, yes, no } => gathering(*yes) && gathering(*no),
        Tree::Fanout { items, bind, body, join, out } => match join {
            JoinMode::All => gathering(*body),
            JoinMode::AllSettled => settling(*body),
            _ => false,
        },
        Tree::Loop { counter, cond, body, max } => gathering(*body),
        Tree::Try { body, catch, err_at } => settling(*body) && gathering(*catch),
        Tree::Let { at, value } => true,
    }
}

/// The same of each of a sequence of flows.
pub open spec fn all_gathering(s: Seq<Tree>) -> bool
    decreases s, s.len(),
{
    s.len() == 0 || (gathering(s[0]) && all_gathering(s.drop_first()))
}

/// Whether what a flow may do with another host it may also do with this one, where `ok` tells
/// whether it succeeds.
spec fn alike<T>(t: Tree, h: Host<T>, ok: bool) -> bool {
    h.concurrent || settling(t) || (ok && gathering(t))
}

/// Whether two hosts differ in how they run branches alone.
spec fn carries<T>(h1: Host<T>, h2: Host<T>) -> bool {
    &&& h1.replies == h2.replies
    &&& h1.registry == h2.registry
    &&& h1.concurrent != h2.concurrent
    &&& h1.meanwhile == h2.meanwhile
}

proof fn carry_later<S: CtxStorage>(
    h1: Host<S::State>,
    h2: Host<S::State>,
    out: Term,
    v: Result<Json, Fault>,
    s0: S::State,
    r: Result<(), Fault>,
    s1: S::State,
)
    requires
        carries(h1, h2),
        delivers_later::<S>(h1, out, v, s0, r, s1),
    ensures
        delivers_later::<S>(h2, out, v, s0, r, s1),
{
    let sm = choose|sm: S::State| #[trigger]
        (h1.meanwhile)(s0, sm) && delivers::<S>(out, v, sm, r, s1);
    assert((h2.meanwhile)(s0, sm));
}

proof fn carry<S: CtxStorage>(
    t: Tree,
    h1: Host<S::State>,
    h2: Host<S::State>,
    s0: S::State,
    r: Result<(), Fault>,
    s1: S::State,
)
    requires
        carries(h1, h2),
        alike(t, h2, r is Ok),
        may::<S>(t, h1, s0, r, s1),
    ensures
        may::<S>(t, h2, s0, r, s1),
    decreases t, 0nat, 0nat,
{
    match t {
        Tree::Step { ref_, input, out } => {
            let snap = choose|snap: Json|
                #[trigger] S::shows(s0, snap) && match value_of(input, snap, h1.registry) {
                    Err(f) => r == Err::<(), Fault>(f) && s1 == s0,
                    Ok(v) => exists|reply: Result<Json, Fault>| #[trigger]
                        (h1.replies)(ref_, v, reply) && delivers_later::<S>(
                            h1,
                            out,
                            step_result(ref_, reply),
                            s0,
                            r,
                            s1,
                        ),
                };
            assert(S::shows(s0, snap));
            if let Ok(v) = value_of(input, snap, h1.registry) {
                let reply = choose|reply: Result<Json, Fault>| #[trigger]
                    (h1.replies)(ref_, v, reply) && delivers_later::<S>(
                        h1,
                        out,
                        step_result(ref_, reply),
                        s0,
                        r,
                        s1,
                    );
                assert((h2.replies)(ref_, v, reply));
                carry_later::<S>(h1, h2, out, step_result(ref_, reply), s0, r, s1);
            }
        },
        Tree::Sequence(children) => {
            carry_all::<S>(children, h1, h2, s0, r, s1);
        },
        Tree::Branch { cond, yes, no } => {
            let snap = choose|snap: Json|
                #[trigger] S::shows(s0, snap) && match value_of(cond, snap, h1.registry) {
                    Err(f) => r == Err::<(), Fault>(f) && s1 == s0,
                    Ok(Json::Bool(true)) => may::<S>(*yes, h1, s0, r, s1),
                    Ok(Json::Bool(false)) => may::<S>(*no, h1, s0, r, s1),
                    Ok(v) => r == Err::<(), Fault>(Fault::NonBoolCond(v)) && s1 == s0,
                };
            assert(S::shows(s0, snap));
            match value_of(cond, snap, h1.registry) {
                Ok(Json::Bool(true)) => carry::<S>(*yes, h1, h2, s0, r, s1),
                Ok(Json::Bool(false)) => carry::<S>(*no, h1, h2, s0, r, s1),
                _ => {},
            }
        },
        Tree::Fanout { items, bind, body, join, out } => {
            let snap = choose|snap: Json|
                #[trigger] S::shows(s0, snap) && match value_of(items, snap, h1.registry) {
                    Err(f) => r == Err::<(), Fault>(f) && s1 == s0,
                    Ok(Json::Arr(xs)) => exists|joined: Result<Json, Fault>| #[trigger]
                        delivers_later::<S>(h1, out, joined, s0, r, s1) && may_join(
                            join,
                            bind,
                            *body,
                            private(h1),
                            snap,
                            xs,
                            joined,
                        ),
                    Ok(v) => r == Err::<(), Fault>(items_fault(v)) && s1 == s0,
                };
            assert(S::shows(s0, snap));
            if let Ok(Json::Arr(xs)) = value_of(items, snap, h1.registry) {
                let joined = choose|joined: Result<Json, Fault>| #[trigger]
                    delivers_later::<S>(h1, out, joined, s0, r, s1) && may_join(
                        join,
                        bind,
                        *body,
                        private(h1),
                        snap,
                        xs,
                        joined,
                    );
                carry_later::<S>(h1, h2, out, joined, s0, r, s1);
                carry_join(join, bind, *body, private(h1), private(h2), snap, xs, joined);
            }
        },
        Tree::Loop { counter, cond, body, max } => {
            if let Ok(p) = target(counter) {
                let (ra, sa) = choose|ra: Result<(), Fault>, sa: S::State| #[trigger]
                    S::takes(s0, shown(p), count(0), ra, sa) && match ra {
                        Err(f) => r == ra && s1 == sa,
                        Ok(_) => may_loop::<S>(shown(p), cond, *body, max, 0, h1, sa, r, s1),
                    };
                assert(S::takes(s0, shown(p), count(0), ra, sa));
                if ra is Ok {
                    carry_loop::<S>(shown(p), cond, *body, max, 0, h1, h2, sa, r, s1);
                }
            }
        },
        Tree::Try { body, catch, err_at } => {
            let (snap, ra, sa) = choose|snap: Json, ra: Result<(), Fault>, sa: S::State|
                #[trigger] S::shows(s0, snap) && #[trigger] through(ra, sa) && may::<S>(
                    *body,
                    h1,
                    s0,
                    ra,
                    sa,
                ) && match ra {
                    Ok(_) => r == ra && s1 == sa,
                    Err(f) => may_catch::<S>(*catch, err_at, f, snap, h1, sa, r, s1),
                };
            assert(S::shows(s0, snap) && through(ra, sa));
            carry::<S>(*body, h1, h2, s0, ra, sa);
            if let Err(f) = ra {
                carry_catch::<S>(*catch, err_at, f, snap, h1, h2, sa, r, s1);
            }
        },
        Tree::Let { at, value } => {
            let snap = choose|snap: Json|
                #[trigger] S::shows(s0, snap) && match value_of(value, snap, h1.registry) {
                    Err(f) => r == Err::<(), Fault>(f) && s1 == s0,
                    Ok(v) => S::takes(s0, shown(at), v, r, s1),
                };
            assert(S::shows(s0, snap));
        },
    }
}

proof fn carry_all<S: CtxStorage>(
    children: Seq<Tree>,
    h1: Host<S::State>,
    h2: Host<S::State>,
    s0: S::State,
    r: Result<(), Fault>,
    s1: S::State,
)
    requires
        carries(h1, h2),
        h2.concurrent || all_settling(children) || (r is Ok && all_gathering(children)),
        may_all::<S>(children, h1, s0, r, s1),
    ensures
        may_all::<S>(children, h2, s0, r, s1),
    decreases children, 0nat, 0nat,
{
    if children.len() > 0 {
        let (ra, sa) = choose|ra: Result<(), Fault>, sa: S::State| #[trigger]
            through(ra, sa) && may::<S>(children[0], h1, s0, ra, sa) && match ra {
                Ok(_) => may_all::<S>(children.drop_first(), h1, sa, r, s1),
                Err(f) => r == ra && s1 == sa,
            };
        assert(through(ra, sa));
        carry::<S>(children[0], h1, h2, s0, ra, sa);
        if ra is Ok {
            carry_all::<S>(children.drop_first(), h1, h2, sa, r, s1);
        }
    }
}

proof fn carry_loop<S: CtxStorage>(
    counter: Seq<char>,
    cond: Term,
    body: Tree,
    max: u32,
    n: nat,
    h1: Host<S::State>,
    h2: Host<S::State>,
    s0: S::State,
    r: Result<(), Fault>,
    s1: S::State,
)
    requires
        carries(h1, h2),
        alike(body, h2, r is Ok),
        may_loop::<S>(counter, cond, body, max, n, h1, s0, r, s1),
    ensures
        may_loop::<S>(counter, cond, body, max, n, h2, s0, r, s1),
    decreases body, 1nat, max - n,
{
    if n < max {
        let snap = choose|snap: Json|
            #[trigger] S::shows(s0, snap) && match value_of(cond, snap, h1.registry) {
                Err(f) => r == Err::<(), Fault>(f) && s1 == s0,
                Ok(v) => if !truthy(v) {
                    r is Ok && s1 == s0
                } else {
                    exists|ra: Result<(), Fault>, sa: S::State| #[trigger]
                        through(ra, sa) && may::<S>(body, h1, s0, ra, sa) && match ra {
                            Err(f) => r == ra && s1 == sa,
                            Ok(_) => exists|rb: Result<(), Fault>, sb: S::State| #[trigger]
                                S::takes(sa, counter, count(n + 1), rb, sb) && match rb {
                                    Err(f) => r == rb && s1 == sb,
                                    Ok(_) => may_loop::<S>(
                                        counter,
                                        cond,
                                        body,
                                        max,
                                        n + 1,
                                        h1,
                                        sb,
                                        r,
                                        s1,
                                    ),
                                },
                        }
                },
            };
        assert(S::shows(s0, snap));
        if let Ok(v) = value_of(cond, snap, h1.registry) {
            if truthy(v) {
                let (ra, sa) = choose|ra: Result<(), Fault>, sa: S::State| #[trigger]
                    through(ra, sa) && may::<S>(body, h1, s0, ra, sa) && match ra {
                        Err(f) => r == ra && s1 == sa,
                        Ok(_) => exists|rb: Result<(), Fault>, sb: S::State| #[trigger]
                            S::takes(sa, counter, count(n + 1), rb, sb) && match rb {
                                Err(f) => r == rb && s1 == sb,
                                Ok(_) => may_loop::<S>(
                                    counter,
                                    cond,
                                    body,
                                    max,
                                    n + 1,
                                    h1,
                                    sb,
                                    r,
                                    s1,
                                ),
                            },
                    };
                assert(through(ra, sa));
                carry::<S>(body, h1, h2, s0, ra, sa);
                if ra is Ok {
                    let (rb, sb) = choose|rb: Result<(), Fault>, sb: S::State| #[trigger]
                        S::takes(sa, counter, count(n + 1), rb, sb) && match rb {
                            Err(f) => r == rb && s1 == sb,
                            Ok(_) => may_loop::<S>(
                                counter,
                                cond,
                                body,
                                max,
                                n + 1,
                                h1,
                                sb,
                                r,
                                s1,
                            ),
                        };
                    assert(S::takes(sa, counter, count(n + 1), rb, sb));
                    if rb is Ok {
                        carry_loop::<S>(counter, cond, body, max, n + 1, h1, h2, sb, r, s1);
                    }
                }
            }
        }
    }
}

proof fn carry_catch<S: CtxStorage>(
    catch: Tree,
    err_at: Option<Term>,
    f: Fault,
    snap: Json,
    h1: Host<S::State>,
    h2: Host<S::State>,
    s0: S::State,
    r: Result<(), Fault>,
    s1: S::State,
)
    requires
        carries(h1, h2),
        alike(catch, h2, r is Ok),
        may_catch::<S>(catch, err_at, f, snap, h1, s0, r, s1),
    ensures
        may_catch::<S>(catch, err_at, f, snap, h2, s0, r, s1),
    decreases catch, 1nat, 0nat,
{
    let sa = choose|sa: S::State| #[trigger]
        S::becomes(s0, snap, sa) && match err_at {
            None => may::<S>(catch, h1, sa, r, s1),
            Some(at) => match target(at) {
                Err(g) => r == Err::<(), Fault>(g) && s1 == sa,
                Ok(p) => exists|rb: Result<(), Fault>, sb: S::State| #[trigger]
                    S::takes(sa, shown(p), Json::Str(fault_text(f)), rb, sb) && match rb {
                        Err(g) => r == rb && s1 == sb,
                        Ok(_) => may::<S>(catch, h1, sb, r, s1),
                    },
            },
        };
    assert(S::becomes(s0, snap, sa));
    match err_at {
        None => carry::<S>(catch, h1, h2, sa, r, s1),
        Some(at) => {
            if let Ok(p) = target(at) {
                let (rb, sb) = choose|rb: Result<(), Fault>, sb: S::State| #[trigger]
                    S::takes(sa, shown(p), Json::Str(fault_text(f)), rb, sb) && match rb {
                        Err(g) => r == rb && s1 == sb,
                        Ok(_) => may::<S>(catch, h1, sb, r, s1),
                    };
                assert(S::takes(sa, shown(p), Json::Str(fault_text(f)), rb, sb));
                if rb is Ok {
                    carry::<S>(catch, h1, h2, sb, r, s1);
                }
            }
        },
    }
}

proof fn carry_end(t: Tree, h1: Host<Json>, h2: Host<Json>, ctx: Json, r: Result<Json, Fault>)
    requires
        carries(h1, h2),
        alike(t, h2, r is Ok),
        may_end(t, h1, ctx, r),
    ensures
        may_end(t, h2, ctx, r),
    decreases t, 1nat, 0nat,
{
    match r {
        Ok(c) => carry::<MemoryCtx>(t, h1, h2, ctx, Ok(()), c),
        Err(f) => {
            let c = choose|c: Json| #[trigger]
                through(Err(f), c) && may::<MemoryCtx>(t, h1, ctx, Err(f), c);
            carry::<MemoryCtx>(t, h1, h2, ctx, Err(f), c);
            assert(through(Err::<(), Fault>(f), c));
        },
    }
}

proof fn carry_join(
    join: JoinMode,
    bind: Term,
    body: Tree,
    h1: Host<Json>,
    h2: Host<Json>,
    snap: Json,
    items: Seq<Json>,
    joined: Result<Json, Fault>,
)
    requires
        carries(h1, h2),
        h2.concurrent || (join == JoinMode::AllSettled && settling(body)) || (join == JoinMode::All
            && joined is Ok && gathering(body)),
        may_join(join, bind, body, h1, snap, items, joined),
    ensures
        may_join(join, bind, body, h2, snap, items, joined),
    decreases body, 5nat, 0nat,
{
    if items.len() > 0 && written(bind, snap, items[0]) is Ok {
        let ctxs = starts(bind, snap, items);
        if h2.concurrent {
            carry_follow(join, body, h1, h2, ctxs, Seq::empty(), joined);
        } else if join == JoinMode::All {
            let cs = joined->Ok_0->Arr_0;
            assert forall|i: int| 0 <= i < ctxs.len() implies may_end(
                body,
                h2,
                #[trigger] ctxs[i],
                Ok(cs[i]),
            ) by {
                carry_end(body, h1, h2, ctxs[i], Ok(cs[i]));
            }
            lemma_all_succeed(body, h2, ctxs, cs, 0);
            assert(fulfilled(cs.take(0)) =~= Seq::<Result<Json, Fault>>::empty());
        } else {
            let rs = choose|rs: Seq<Result<Json, Fault>>| #[trigger]
                results(rs) && rs.len() == ctxs.len() && joined == Ok::<Json, Fault>(
                    Json::Arr(records(rs)),
                ) && forall|i: int|
                    #![trigger ctxs[i]]
                    0 <= i < ctxs.len() ==> may_end(body, h1, ctxs[i], rs[i]);
            assert forall|i: int| 0 <= i < ctxs.len() implies may_end(
                body,
                h2,
                #[trigger] ctxs[i],
                rs[i],
            ) by {
                carry_end(body, h1, h2, ctxs[i], rs[i]);
            }
            lemma_in_order(body, h2, ctxs, rs, 0);
            assert(rs.take(0) =~= Seq::<Result<Json, Fault>>::empty());
        }
    }
}

/// Results that are all successes.
spec fn fulfilled(cs: Seq<Json>) -> Seq<Result<Json, Fault>> {
    Seq::new(cs.len(), |i: int| Ok(cs[i]))
}

/// Branches that all succeed may do so in order.
proof fn lemma_all_succeed(body: Tree, h: Host<Json>, ctxs: Seq<Json>, cs: Seq<Json>, k: int)
    requires
        0 <= k <= cs.len(),
        cs.len() == ctxs.len(),
        forall|i: int|
            #![trigger ctxs[i]]
            0 <= i < ctxs.len() ==> may_end(body, h, ctxs[i], Ok(cs[i])),
    ensures
        may_follow(JoinMode::All, body, h, ctxs, fulfilled(cs.take(k)), Ok(Json::Arr(cs))),
    decreases cs.len() - k,
{
    let done = fulfilled(cs.take(k));
    if k > 0 {
        assert(done.last() == Ok::<Json, Fault>(cs[k - 1]));
    }
    if k == cs.len() {
        assert(successes(done) =~= cs);
    } else {
        lemma_all_succeed(body, h, ctxs, cs, k + 1);
        let x: Result<Json, Fault> = Ok(cs[k]);
        assert(done.push(x) =~= fulfilled(cs.take(k + 1)));
        assert(results(done.push(x)));
        assert(may_end(body, h, ctxs[k], Ok(cs[k])));
    }
}

/// Branches that all settle may do so in order.
proof fn lemma_in_order(
    body: Tree,
    h: Host<Json>,
    ctxs: Seq<Json>,
    rs: Seq<Result<Json, Fault>>,
    k: int,
)
    requires
        0 <= k <= rs.len(),
        rs.len() == ctxs.len(),
        forall|i: int|
            #![trigger ctxs[i]]
            0 <= i < ctxs.len() ==> may_end(body, h, ctxs[i], rs[i]),
    ensures
        may_follow(
            JoinMode::AllSettled,
            body,
            h,
            ctxs,
            rs.take(k),
            Ok(Json::Arr(records(rs))),
        ),
    decreases rs.len() - k,
{
    if k == rs.len() {
        assert(rs.take(k) =~= rs);
    } else {
        lemma_in_order(body, h, ctxs, rs, k + 1);
        assert(rs.take(k).push(rs[k]) =~= rs.take(k + 1));
        assert(results(rs.take(k).push(rs[k])));
        assert(may_end(body, h, ctxs[k], rs[k]));
    }
}

proof fn carry_follow(
    join: JoinMode,
    body: Tree,
    h1: Host<Json>,
    h2: Host<Json>,
    ctxs: Seq<Json>,
    done: Seq<Result<Json, Fault>>,
    joined: Result<Json, Fault>,
)
    requires
        carries(h1, h2),
        h2.concurrent,
        done.len() <= ctxs.len(),
        ctxs.len() > 0,
        may_follow(join, body, h1, ctxs, done, joined),
        forall|i: int|
            #![trigger ctxs[i]]
            0 <= i < done.len() ==> may_end(body, h2, ctxs[i], done[i]),
        join == JoinMode::All ==> forall|i: int|
            0 <= i < done.len() - 1 ==> (#[trigger] done[i]) is Ok,
        join == JoinMode::Any ==> forall|i: int|
            0 <= i < done.len() - 1 ==> (#[trigger] done[i]) is Err,
    ensures
        may_settle(join, body, h2, ctxs, joined),
    decreases body, 2nat, ctxs.len() - done.len(),
{
    let n = done.len() as int;
    match decision(join, ctxs.len(), done) {
        Some(j) => {
            if n > 0 {
                assert(may_end(body, h2, ctxs[n - 1], done[n - 1]));
            }
            match join {
                JoinMode::All => {
                    if joined is Ok {
                        assert forall|i: int| 0 <= i < ctxs.len() implies may_end(
                            body,
                            h2,
                            #[trigger] ctxs[i],
                            Ok(successes(done)[i]),
                        ) by {
                            assert(done[i] is Ok);
                            assert(may_end(body, h2, ctxs[i], done[i]));
                        }
                    }
                },
                JoinMode::Any => {
                    if joined is Err {
                        assert(results(done) && done[n - 1] == joined);
                        assert forall|i: int| 0 <= i < ctxs.len() implies done[i] is Err && may_end(
                            body,
                            h2,
                            #[trigger] ctxs[i],
                            done[i],
                        ) by {}
                    }
                },
                JoinMode::Race => {},
                JoinMode::AllSettled => {
                    assert(results(done));
                },
            }
        },
        None => {
            let x = choose|x: Result<Json, Fault>| #[trigger]
                results(done.push(x)) && may_end(body, h1, ctxs[done.len() as int], x)
                    && may_follow(join, body, h1, ctxs, done.push(x), joined);
            carry_end(body, h1, h2, ctxs[n], x);
            let more = done.push(x);
            assert forall|i: int| 0 <= i < more.len() implies may_end(
                body,
                h2,
                #[trigger] ctxs[i],
                more[i],
            ) by {
                if i < n {
                    assert(more[i] == done[i]);
                }
            }
            carry_follow(join, body, h1, h2, ctxs, more, joined);
        },
    }
}

/// Whatever a run may do whose fanouts run their branches in order, a run whose fanouts run
/// them at the same time may do too.
pub proof fn law_in_order_is_concurrent<S: CtxStorage>(
    t: Tree,
    h: Host<S::State>,
    s0: S::State,
    r: Result<(), Fault>,
    s1: S::State,
)
    requires
        may::<S>(t, with_branches(h, false), s0, r, s1),
    ensures
        may::<S>(t, with_branches(h, true), s0, r, s1),
{
    carry::<S>(t, with_branches(h, false), with_branches(h, true), s0, r, s1);
}

/// Where every fanout lets all of its branches settle, and so where there is no fanout at all,
/// runs may do the same whether branches run in order or at the same time.
pub proof fn law_settling_is_the_same<S: CtxStorage>(
    t: Tree,
    h: Host<S::State>,
    s0: S::State,
    r: Result<(), Fault>,
    s1: S::State,
)
    requires
        settling(t),
    ensures
        may::<S>(t, with_branches(h, false), s0, r, s1) <==> may::<S>(
            t,
            with_branches(h, true),
            s0,
            r,
            s1,
        ),
{
    if may::<S>(t, with_branches(h, false), s0, r, s1) {
        carry::<S>(t, with_branches(h, false), with_branches(h, true), s0, r, s1);
    }
    if may::<S>(t, with_branches(h, true), s0, r, s1) {
        carry::<S>(t, with_branches(h, true), with_branches(h, false), s0, r, s1);
    }
}

/// Where every fanout collects the results of all of its branches, runs may succeed alike whether
/// branches run in order or at the same time. Left out are flows in which a node gets to see
/// which branch it was that failed.
pub proof fn law_gathering_succeeds_alike<S: CtxStorage>(
    t: Tree,
    h: Host<S::State>,
    s0: S::State,
    s1: S::State,
)
    requires
        gathering(t),
    ensures
        may::<S>(t, with_branches(h, false), s0, Ok(()), s1) <==> may::<S>(
            t,
            with_branches(h, true),
            s0,
            Ok(()),
            s1,
        ),
{
    let ok = Ok::<(), Fault>(());
    if may::<S>(t, with_branches(h, false), s0, ok, s1) {
        carry::<S>(t, with_branches(h, false), with_branches(h, true), s0, ok, s1);
    }
    if may::<S>(t, with_branches(h, true), s0, ok, s1) {
        carry::<S>(t, with_branches(h, true), with_branches(h, false), s0, ok, s1);
    }
}

/// If a fanout that needs all branches to succeed may fail with branches at the same time, it may
/// also fail with branches in order, if not for the same branch.
pub proof fn law_all_fails_alike(
    bind: Term,
    body: Tree,
    h: Host<Json>,
    snap: Json,
    items: Seq<Json>,
    f: Fault,
)
    requires
        some_reply(h),
        calm(h),
        settling(body),
        may_join(JoinMode::All, bind, body, with_branches(h, true), snap, items, Err(f)),
    ensures
        exists|g: Fault| #[trigger]
            through(Err::<(), Fault>(g), snap) && may_join(
                JoinMode::All,
                bind,
                body,
                with_branches(h, false),
                snap,
                items,
                Err(g),
            ),
{
    let (h1, h2) = (with_branches(h, true), with_branches(h, false));
    if items.len() > 0 {
        if written(bind, snap, items[0]) is Ok {
            let ctxs = starts(bind, snap, items);
            let i = choose|i: int|
                #![trigger ctxs[i]]
                0 <= i < ctxs.len() && may_end(body, h1, ctxs[i], Err(f));
            assert forall|ref_: Seq<char>, v: Json| #[trigger] replied(h2, ref_, v) by {
                assert(replied(h, ref_, v));
                let a = choose|a: Result<Json, Fault>| #[trigger] (h.replies)(ref_, v, a);
                assert((h2.replies)(ref_, v, a));
            }
            carry_end(body, h1, h2, ctxs[i], Err(f));
            let g = lemma_some_failure(body, h2, ctxs, i, f, Seq::empty());
            assert(through(Err::<(), Fault>(g), snap));
        } else {
            assert(through(Err::<(), Fault>(f), snap));
        }
    }
}

/// If a branch may fail, branches in order may fail with it or before it.
proof fn lemma_some_failure(
    body: Tree,
    h: Host<Json>,
    ctxs: Seq<Json>,
    i: int,
    f: Fault,
    done: Seq<Result<Json, Fault>>,
) -> (g: Fault)
    requires
        some_reply(h),
        calm(h),
        0 <= done.len() <= i < ctxs.len(),
        may_end(body, h, ctxs[i], Err(f)),
        forall|j: int| 0 <= j < done.len() ==> (#[trigger] done[j]) is Ok,
    ensures
        may_follow(JoinMode::All, body, h, ctxs, done, Err(g)),
    decreases i - done.len(),
{
    let k = done.len() as int;
    if k > 0 {
        assert(done[k - 1] is Ok);
    }
    let x = if k == i {
        Err(f)
    } else {
        some_end(body, h, ctxs[k])
    };
    let more = done.push(x);
    assert(results(more));
    assert(may_end(body, h, ctxs[k], x));
    assert(more.last() == x);
    match x {
        Err(g) => {
            assert(may_follow(JoinMode::All, body, h, ctxs, more, Err(g)));
            g
        },
        Ok(_) => {
            assert forall|j: int| 0 <= j < more.len() implies (#[trigger] more[j]) is Ok by {
                if j < k {
                    assert(more[j] == done[j]);
                }
            }
            lemma_some_failure(body, h, ctxs, i, f, more)
        },
    }
}

/// With no more than one item, a fanout does the same in any mode whether branches run in order
/// or at the same time.
pub proof fn law_one_item_joins_alike(
    join: JoinMode,
    bind: Term,
    body: Tree,
    h: Host<Json>,
    snap: Json,
    items: Seq<Json>,
    joined: Result<Json, Fault>,
)
    requires
        items.len() <= 1,
        settling(body),
    ensures
        may_join(join, bind, body, with_branches(h, false), snap, items, joined) <==> may_join(
            join,
            bind,
            body,
            with_branches(h, true),
            snap,
            items,
            joined,
        ),
{
    let (h1, h2) = (with_branches(h, true), with_branches(h, false));
    if may_join(join, bind, body, h2, snap, items, joined) {
        carry_join(join, bind, body, h2, h1, snap, items, joined);
    }
    if items.len() == 1 && written(bind, snap, items[0]) is Ok && may_join(
        join,
        bind,
        body,
        h1,
        snap,
        items,
        joined,
    ) {
        let ctxs = starts(bind, snap, items);
        let x: Result<Json, Fault> = match join {
            JoinMode::All => match joined {
                Ok(v) => Ok(v->Arr_0[0]),
                Err(f) => Err(f),
            },
            JoinMode::AllSettled => {
                let rs = choose|rs: Seq<Result<Json, Fault>>| #[trigger]
                    results(rs) && rs.len() == ctxs.len() && joined == Ok::<Json, Fault>(
                        Json::Arr(records(rs)),
                    ) && forall|i: int|
                        #![trigger ctxs[i]]
                        0 <= i < ctxs.len() ==> may_end(body, h1, ctxs[i], rs[i]);
                assert(records(seq![rs[0]]) =~= records(rs));
                rs[0]
            },
            _ => joined,
        };
        assert(may_end(body, h1, ctxs[0], x));
        carry_end(body, h1, h2, ctxs[0], x);
        let none = Seq::<Result<Json, Fault>>::empty();
        let one = none.push(x);
        assert(results(one));
        assert(one.last() == x);
        if join == JoinMode::All && joined is Ok {
            assert(successes(one) =~= joined->Ok_0->Arr_0);
        }
        if join == JoinMode::AllSettled {
            assert(one =~= seq![x]);
        }
        assert(may_follow(join, body, h2, ctxs, one, joined));
        assert(may_follow(join, body, h2, ctxs, none, joined));
    }
}

} // verus!
