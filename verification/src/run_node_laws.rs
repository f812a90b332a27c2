//! What holds of what each kind of node does to the dispatcher.

use crate::error::Fault;
use crate::expr::{truthy, value_of, Term};
use crate::loop_laws::{integer, tells};
use crate::node::{written, JoinMode, Node, Tree};
use crate::operator_laws::{counts_as_false, counts_as_true};
use crate::path::{clash, possible, put, shown, PathView};
use crate::path_laws::{law_path_round_trip, law_write_then_read};
use crate::runs::{runs, runs_all, runs_join, runs_loop, Env};
use crate::semantics::{count, delivers, through};
use crate::storage::{CtxStorage, MemoryCtx};
use crate::value::Json;
use vstd::prelude::*;

verus! {

/// A branch runs one side, once, and not the other; a branch on what is no boolean, or on what
/// fails, runs neither.
pub proof fn law_branch_runs_one_side<W>(
    node: Node,
    env: Env<W>,
    c0: Json,
    w0: W,
    r: Result<(), Fault>,
    c1: Json,
    w1: W,
)
    requires
        node is Branch,
    ensures
        runs::<MemoryCtx, W>(node@, env, c0, w0, r, c1, w1) <==> match value_of(
            node->Branch_cond@,
            c0,
            env.registry,
        ) {
            Ok(Json::Bool(true)) => runs::<MemoryCtx, W>(node->then_@, env, c0, w0, r, c1, w1),
            Ok(Json::Bool(false)) => runs::<MemoryCtx, W>(node->else_@, env, c0, w0, r, c1, w1),
            Ok(v) => r == Err::<(), Fault>(Fault::NonBoolCond(v)) && c1 == c0 && w1 == w0,
            Err(f) => r == Err::<(), Fault>(f) && c1 == c0 && w1 == w0,
        },
{
    assert(MemoryCtx::shows(c0, c0));
}

/// A let leaves the dispatcher as it was.
pub proof fn law_let_leaves_the_dispatcher<S: CtxStorage, W>(
    node: Node,
    env: Env<W>,
    s0: S::State,
    w0: W,
    r: Result<(), Fault>,
    s1: S::State,
    w1: W,
)
    requires
        node is Let,
        runs::<S, W>(node@, env, s0, w0, r, s1, w1),
    ensures
        w1 == w0,
{
}

/// A sequence of nothing, and a sequence of one node.
pub proof fn law_short_sequences<S: CtxStorage, W>(
    t: Tree,
    env: Env<W>,
    s0: S::State,
    w0: W,
    r: Result<(), Fault>,
    s1: S::State,
    w1: W,
)
    ensures
        runs::<S, W>(Tree::Sequence(Seq::empty()), env, s0, w0, r, s1, w1) <==> r is Ok && s1 == s0
            && w1 == w0,
        runs::<S, W>(Tree::Sequence(seq![t]), env, s0, w0, r, s1, w1) <==> runs::<S, W>(
            t,
            env,
            s0,
            w0,
            r,
            s1,
            w1,
        ),
{
    let none = Seq::<Tree>::empty();
    let one = seq![t];
    assert(one.drop_first() =~= none);
    assert(runs::<S, W>(Tree::Sequence(none), env, s0, w0, r, s1, w1) == runs_all::<S, W>(
        none,
        env,
        s0,
        w0,
        r,
        s1,
        w1,
    ));
    assert(runs::<S, W>(Tree::Sequence(one), env, s0, w0, r, s1, w1) == runs_all::<S, W>(
        one,
        env,
        s0,
        w0,
        r,
        s1,
        w1,
    ));
    if runs::<S, W>(t, env, s0, w0, r, s1, w1) {
        assert(through(r, (s1, w1)));
        if let Ok(u) = r {
            assert(runs_all::<S, W>(one.drop_first(), env, s1, w1, r, s1, w1));
        }
    }
    if runs_all::<S, W>(one, env, s0, w0, r, s1, w1) {
        let (ra, sa, wa) = choose|ra: Result<(), Fault>, sa: S::State, wa: W| #[trigger]
            through(ra, (sa, wa)) && runs::<S, W>(one[0], env, s0, w0, ra, sa, wa) && match ra {
                Ok(_) => runs_all::<S, W>(one.drop_first(), env, sa, wa, r, s1, w1),
                Err(f) => r == ra && s1 == sa && w1 == wa,
            };
        if let Ok(u) = ra {
            assert(u == ());
            assert(r->Ok_0 == ());
        }
    }
}

/// Whether a round leads from one context and state of the dispatcher to the next: its condition
/// counts as true, its body runs once and succeeds, and the counter is set.
pub open spec fn ran_round<W>(
    keys: Seq<Seq<char>>,
    cond: Term,
    body: Tree,
    env: Env<W>,
    a: (Json, W),
    b: (Json, W),
    n: int,
) -> bool {
    counts_as_true(value_of(cond, a.0, env.registry)) && exists|d: Json| #[trigger]
        through(Ok::<(), Fault>(()), d) && runs::<MemoryCtx, W>(
            body,
            env,
            a.0,
            a.1,
            Ok(()),
            d,
            b.1,
        ) && clash(d, keys) is None && b.0 == put(d, keys, integer(n))
}

/// Whether contexts and states of the dispatcher are those before the first round of a loop and
/// after each finished round, from the one with `n` finished rounds on.
pub open spec fn ran_rounds<W>(
    keys: Seq<Seq<char>>,
    cond: Term,
    body: Tree,
    env: Env<W>,
    cs: Seq<(Json, W)>,
    n: int,
) -> bool {
    &&& cs.len() > 0
    &&& forall|i: int| 0 <= i < cs.len() ==> tells((#[trigger] cs[i]).0, keys, n + i)
    &&& forall|i: int, j: int|
        0 <= i && j == i + 1 && j < cs.len() ==> ran_round(
            keys,
            cond,
            body,
            env,
            #[trigger] cs[i],
            #[trigger] cs[j],
            n + j,
        )
}

/// Whether a loop ends with `r` after `k` finished rounds.
pub open spec fn ran_out<W>(
    keys: Seq<Seq<char>>,
    cond: Term,
    body: Tree,
    max: u32,
    env: Env<W>,
    c: (Json, W),
    k: int,
    r: Result<(), Fault>,
    c1: Json,
    w1: W,
) -> bool {
    match r {
        Ok(_) => c1 == c.0 && w1 == c.1 && (k == max || counts_as_false(
            value_of(cond, c.0, env.registry),
        )),
        Err(f) => k < max && ({
            ||| value_of(cond, c.0, env.registry) == Err::<Json, Fault>(f) && c1 == c.0 && w1 == c.1
            ||| counts_as_true(value_of(cond, c.0, env.registry)) && runs::<MemoryCtx, W>(
                body,
                env,
                c.0,
                c.1,
                Err(f),
                c1,
                w1,
            )
            ||| counts_as_true(value_of(cond, c.0, env.registry)) && runs::<MemoryCtx, W>(
                body,
                env,
                c.0,
                c.1,
                Ok(()),
                c1,
                w1,
            ) && clash(c1, keys) is Some && (f matches Fault::TypeError { op, msg } && op
                == "path.write"@)
        }),
    }
}

/// Whether a round that has run its body once goes on to an end.
spec fn goes_on<W>(
    p: PathView,
    cond: Term,
    body: Tree,
    max: u32,
    n: nat,
    env: Env<W>,
    s: Json,
    w: W,
    r: Result<(), Fault>,
    c1: Json,
    w1: W,
) -> bool {
    exists|rb: Result<(), Fault>, sb: Json| #[trigger]
        MemoryCtx::takes(s, shown(p), count(n + 1), rb, sb) && match rb {
            Err(f) => r == rb && c1 == sb && w1 == w,
            Ok(_) => runs_loop::<MemoryCtx, W>(
                shown(p),
                cond,
                body,
                max,
                n + 1,
                env,
                sb,
                w,
                r,
                c1,
                w1,
            ),
        }
}

proof fn lemma_ran<W>(
    p: PathView,
    cond: Term,
    body: Tree,
    max: u32,
    n: nat,
    env: Env<W>,
    s: Json,
    w: W,
    r: Result<(), Fault>,
    c1: Json,
    w1: W,
) -> (cs: Seq<(Json, W)>)
    requires
        possible(p),
        n <= max,
        tells(s, p.keys, n as int),
        runs_loop::<MemoryCtx, W>(shown(p), cond, body, max, n, env, s, w, r, c1, w1),
    ensures
        ran_rounds(p.keys, cond, body, env, cs, n as int),
        cs[0] == (s, w),
        n + cs.len() - 1 <= max,
        ran_out(p.keys, cond, body, max, env, cs.last(), n + cs.len() - 1, r, c1, w1),
    decreases max - n,
{
    let keys = p.keys;
    let here = seq![(s, w)];
    assert(here.last() == (s, w));
    if n >= max {
        here
    } else {
        assert(MemoryCtx::shows(s, s));
        match value_of(cond, s, env.registry) {
            Err(f) => here,
            Ok(v) => if !truthy(v) {
                here
            } else {
                law_path_round_trip(p);
                let (ra, sa, wa) = choose|ra: Result<(), Fault>, sa: Json, wa: W| #[trigger]
                    through(ra, (sa, wa)) && runs::<MemoryCtx, W>(body, env, s, w, ra, sa, wa)
                        && match ra {
                        Err(f) => r == ra && c1 == sa && w1 == wa,
                        Ok(_) => goes_on(p, cond, body, max, n, env, sa, wa, r, c1, w1),
                    };
                match ra {
                    Err(f) => here,
                    Ok(u) => {
                        assert(u == ());
                        assert(goes_on(p, cond, body, max, n, env, sa, wa, r, c1, w1));
                        let (rb, sb) = choose|rb: Result<(), Fault>, sb: Json| #[trigger]
                            MemoryCtx::takes(sa, shown(p), count(n + 1), rb, sb) && match rb {
                                Err(f) => r == rb && c1 == sb && w1 == wa,
                                Ok(_) => runs_loop::<MemoryCtx, W>(
                                    shown(p),
                                    cond,
                                    body,
                                    max,
                                    n + 1,
                                    env,
                                    sb,
                                    wa,
                                    r,
                                    c1,
                                    w1,
                                ),
                            };
                        if rb is Ok {
                            law_write_then_read(sa, keys, count(n + 1));
                            let rest = lemma_ran(p, cond, body, max, n + 1, env, sb, wa, r, c1, w1);
                            let cs = here + rest;
                            assert(through(Ok::<(), Fault>(()), sa));
                            assert(ran_round(
                                keys,
                                cond,
                                body,
                                env,
                                (s, w),
                                (sb, wa),
                                (n + 1) as int,
                            ));
                            assert forall|i: int| 0 <= i < cs.len() implies tells(
                                (#[trigger] cs[i]).0,
                                keys,
                                n + i,
                            ) by {
                                if i > 0 {
                                    assert(cs[i] == rest[i - 1]);
                                }
                            }
                            assert forall|i: int, j: int|
                                0 <= i && j == i + 1 && j < cs.len() implies ran_round(
                                keys,
                                cond,
                                body,
                                env,
                                #[trigger] cs[i],
                                #[trigger] cs[j],
                                n + j,
                            ) by {
                                if i > 0 {
                                    assert(cs[i] == rest[i - 1] && cs[j] == rest[j - 1]);
                                    assert(ran_round(
                                        keys,
                                        cond,
                                        body,
                                        env,
                                        rest[i - 1],
                                        rest[j - 1],
                                        n + 1 + (j - 1),
                                    ));
                                }
                            }
                            assert(cs.last() == rest.last());
                            cs
                        } else {
                            here
                        }
                    },
                }
            },
        }
    }
}

/// A loop runs its body once in each round, one round after the other, with the dispatcher as the
/// round before left it, and does not run it once its condition counts as false or there have been
/// as many rounds as there may be.
pub proof fn law_loop_runs_its_rounds<W>(
    node: Node,
    p: PathView,
    env: Env<W>,
    c0: Json,
    w0: W,
    r: Result<(), Fault>,
    c1: Json,
    w1: W,
) -> (cs: Seq<(Json, W)>)
    requires
        node is Loop,
        node->Loop_counter@ == Term::Path(p),
        possible(p),
        clash(c0, p.keys) is None,
        runs::<MemoryCtx, W>(node@, env, c0, w0, r, c1, w1),
    ensures
        ran_rounds(p.keys, node->Loop_cond@, node->Loop_body@, env, cs, 0),
        cs[0] == (put(c0, p.keys, integer(0)), w0),
        cs.len() - 1 <= node->Loop_max,
        ran_out(
            p.keys,
            node->Loop_cond@,
            node->Loop_body@,
            node->Loop_max,
            env,
            cs.last(),
            cs.len() - 1,
            r,
            c1,
            w1,
        ),
{
    let (cond, body, max) = (node->Loop_cond@, node->Loop_body@, node->Loop_max);
    law_path_round_trip(p);
    let (ra, sa) = choose|ra: Result<(), Fault>, sa: Json| #[trigger]
        MemoryCtx::takes(c0, shown(p), count(0), ra, sa) && match ra {
            Err(f) => r == ra && c1 == sa && w1 == w0,
            Ok(_) => runs_loop::<MemoryCtx, W>(
                shown(p),
                cond,
                body,
                max,
                0,
                env,
                sa,
                w0,
                r,
                c1,
                w1,
            ),
        };
    law_write_then_read(c0, p.keys, count(0));
    lemma_ran(p, cond, body, max, 0, env, sa, w0, r, c1, w1)
}

/// A fanout runs its branches once, writes what they join to, and leaves the dispatcher as they
/// leave it; where there are no items to run branches for, it leaves the dispatcher as it was.
pub proof fn law_fanout_runs_its_branches<W>(
    node: Node,
    env: Env<W>,
    c0: Json,
    w0: W,
    r: Result<(), Fault>,
    c1: Json,
    w1: W,
)
    requires
        node is Fanout,
    ensures
        runs::<MemoryCtx, W>(node@, env, c0, w0, r, c1, w1) ==> match value_of(
            node->Fanout_items@,
            c0,
            env.registry,
        ) {
            Err(f) => r == Err::<(), Fault>(f) && c1 == c0 && w1 == w0,
            Ok(Json::Arr(items)) => exists|joined: Result<Json, Fault>| #[trigger]
                delivers::<MemoryCtx>(node->Fanout_out@, joined, c0, r, c1) && runs_join::<W>(
                    node->Fanout_join,
                    node->Fanout_bind@,
                    node->Fanout_body@,
                    env,
                    c0,
                    items,
                    w0,
                    joined,
                    w1,
                ),
            Ok(_) => r is Err && c1 == c0 && w1 == w0,
        },
{
    assert(MemoryCtx::shows(c0, c0));
}

/// Without branches the dispatcher is left as it was.
pub proof fn law_no_branches_leave_the_dispatcher<W>(
    join: JoinMode,
    bind: Term,
    body: Tree,
    env: Env<W>,
    snap: Json,
    items: Seq<Json>,
    w0: W,
    joined: Result<Json, Fault>,
    w1: W,
)
    requires
        runs_join::<W>(join, bind, body, env, snap, items, w0, joined, w1),
        items.len() == 0 || written(bind, snap, items[0]) is Err,
    ensures
        w1 == w0,
{
}

} // verus!
