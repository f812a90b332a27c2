//! Which steps a run may have carried out.
//!
//! A run asks the dispatcher for a step only where it comes to that step. The relations below say
//! which steps a run whose branches run in order may come to from where it starts, with which
//! inputs, and in which states of the dispatcher.

use crate::error::{fault_text, Fault};
use crate::expr::{truthy, value_of, Term};
use crate::flow_laws::caught_ctx;
use crate::node::{target, written, JoinMode, Tree};
use crate::path::{clash, possible, put, shown, PathView};
use crate::path_laws::law_path_round_trip;
use crate::runs::{branch_end, runs, runs_all, runs_to, Env};
use crate::semantics::{count, decision, starts, through};
use crate::storage::{write_text, CtxStorage, MemoryCtx};
use crate::value::Json;
use vstd::prelude::*;

verus! {

/// A step, as the dispatcher is asked for it.
pub struct Request<W> {
    /// What the dispatcher knows it by.
    pub ref_: Seq<char>,
    /// Its input.
    pub input: Json,
    /// The state that the dispatcher is in.
    pub at: W,
}

/// Whether the dispatcher may be asked for a step.
pub open spec fn admits<W>(env: Env<W>, q: Request<W>) -> bool {
    (env.rules.allows)(q.at, q.ref_, q.input)
}

/// Whether a run of a flow that starts with the storage in state `s0` and the dispatcher in state
/// `w0` may ask for a step.
pub open spec fn asks<S: CtxStorage, W>(
    t: Tree,
    env: Env<W>,
    s0: S::State,
    w0: W,
    q: Request<W>,
) -> bool
    decreases t, 0nat, 0nat,
{
    match t {
        Tree::Step { ref_, input, out } => exists|snap: Json|
            #[trigger] S::shows(s0, snap) && ref_ == q.ref_ && q.at == w0 && value_of(
                input,
                snap,
                env.registry,
            ) == Ok::<Json, Fault>(q.input),
        Tree::Sequence(children) => asks_all::<S, W>(children, env, s0, w0, q),
        Tree::Branch { cond, yes, no } => exists|snap: Json|
            #[trigger] S::shows(s0, snap) && match value_of(cond, snap, env.registry) {
                Ok(Json::Bool(true)) => asks::<S, W>(*yes, env, s0, w0, q),
                Ok(Json::Bool(false)) => asks::<S, W>(*no, env, s0, w0, q),
                _ => false,
            },
        Tree::Fanout { items, bind, body, join, out } => exists|snap: Json|
            #[trigger] S::shows(s0, snap) && match value_of(items, snap, env.registry) {
                Ok(Json::Arr(xs)) => asks_join::<W>(join, bind, *body, env, snap, xs, w0, q),
                _ => false,
            },
        Tree::Loop { counter, cond, body, max } => match target(counter) {
            Ok(p) => exists|ra: Result<(), Fault>, sa: S::State| #[trigger]
                S::takes(s0, shown(p), count(0), ra, sa) && ra is Ok && asks_loop::<S, W>(
                    shown(p),
                    cond,
                    *body,
                    max,
                    0,
                    env,
                    sa,
                    w0,
                    q,
                ),
            _ => false,
        },
        Tree::Try { body, catch, err_at } => asks::<S, W>(*body, env, s0, w0, q) || exists|
            snap: Json,
            ra: Result<(), Fault>,
            sa: S::State,
            wa: W,
        |
            #[trigger] S::shows(s0, snap) && #[trigger] through(ra, (sa, wa)) && runs::<S, W>(
                *body,
                env,
                s0,
                w0,
                ra,
                sa,
                wa,
            ) && (ra matches Err(f) && asks_catch::<S, W>(
                *catch,
                err_at,
                f,
                snap,
                env,
                sa,
                wa,
                q,
            )),
        Tree::Let { at, value } => false,
    }
}

/// The same of flows one after the other: one that is not the first is come to if those before it
/// succeed.
pub open spec fn asks_all<S: CtxStorage, W>(
    children: Seq<Tree>,
    env: Env<W>,
    s0: S::State,
    w0: W,
    q: Request<W>,
) -> bool
    decreases children, 0nat, 0nat,
{
    children.len() > 0 && (asks::<S, W>(children[0], env, s0, w0, q) || exists|
        ra: Result<(), Fault>,
        sa: S::State,
        wa: W,
    | #[trigger]
        through(ra, (sa, wa)) && ra is Ok && runs::<S, W>(children[0], env, s0, w0, ra, sa, wa)
            && asks_all::<S, W>(children.drop_first(), env, sa, wa, q))
}

/// The same of a loop with `n` finished rounds.
pub open spec fn asks_loop<S: CtxStorage, W>(
    counter: Seq<char>,
    cond: Term,
    body: Tree,
    max: u32,
    n: nat,
    env: Env<W>,
    s0: S::State,
    w0: W,
    q: Request<W>,
) -> bool
    decreases body, 1nat, max - n,
{
    n < max && exists|snap: Json|
        #[trigger] S::shows(s0, snap) && (value_of(cond, snap, env.registry) matches Ok(v)
            && truthy(v)) && (asks::<S, W>(body, env, s0, w0, q) || exists|
            ra: Result<(), Fault>,
            sa: S::State,
            wa: W,
        | #[trigger]
            through(ra, (sa, wa)) && ra is Ok && runs::<S, W>(body, env, s0, w0, ra, sa, wa)
                && exists|rb: Result<(), Fault>, sb: S::State| #[trigger]
                S::takes(sa, counter, count(n + 1), rb, sb) && rb is Ok && asks_loop::<S, W>(
                    counter,
                    cond,
                    body,
                    max,
                    n + 1,
                    env,
                    sb,
                    wa,
                    q,
                ))
}

/// The same of what follows the failure of the body of a try.
pub open spec fn asks_catch<S: CtxStorage, W>(
    catch: Tree,
    err_at: Option<Term>,
    f: Fault,
    snap: Json,
    env: Env<W>,
    s0: S::State,
    w0: W,
    q: Request<W>,
) -> bool
    decreases catch, 1nat, 0nat,
{
    exists|sa: S::State| #[trigger]
        S::becomes(s0, snap, sa) && match err_at {
            None => asks::<S, W>(catch, env, sa, w0, q),
            Some(at) => match target(at) {
                Err(_) => false,
                Ok(p) => exists|rb: Result<(), Fault>, sb: S::State| #[trigger]
                    S::takes(sa, shown(p), Json::Str(fault_text(f)), rb, sb) && rb is Ok && asks::<
                        S,
                        W,
                    >(catch, env, sb, w0, q),
            },
        }
}

/// The same of the branches of a fanout.
pub open spec fn asks_join<W>(
    join: JoinMode,
    bind: Term,
    body: Tree,
    env: Env<W>,
    snap: Json,
    items: Seq<Json>,
    w0: W,
    q: Request<W>,
) -> bool
    decreases body, 3nat, 0nat,
{
    items.len() > 0 && written(bind, snap, items[0]) is Ok && asks_follow::<W>(
        join,
        body,
        env,
        starts(bind, snap, items),
        Seq::empty(),
        w0,
        q,
    )
}

/// The same of branches that run in order, after the first ones have given the results `done`: the
/// next is come to if those results do not decide.
pub open spec fn asks_follow<W>(
    join: JoinMode,
    body: Tree,
    env: Env<W>,
    ctxs: Seq<Json>,
    done: Seq<Result<Json, Fault>>,
    w0: W,
    q: Request<W>,
) -> bool
    decreases body, 2nat, ctxs.len() - done.len(),
{
    decision(join, ctxs.len(), done) is None && done.len() < ctxs.len() && (asks::<MemoryCtx, W>(
        body,
        env,
        ctxs[done.len() as int],
        w0,
        q,
    ) || exists|x: Result<Json, Fault>, wa: W| #[trigger]
        branch_end(x, wa) && runs_to::<W>(body, env, ctxs[done.len() as int], w0, x, wa)
            && asks_follow::<W>(join, body, env, ctxs, done.push(x), wa, q))
}

/// A step asks for itself, with the value of its input and the dispatcher as it is then, and for
/// nothing else.
pub proof fn law_step_asks_for_itself<W>(
    ref_: Seq<char>,
    input: Term,
    out: Term,
    env: Env<W>,
    c0: Json,
    w0: W,
    q: Request<W>,
)
    ensures
        asks::<MemoryCtx, W>((Tree::Step { ref_, input, out }), env, c0, w0, q) <==> q.ref_ == ref_
            && q.at == w0 && value_of(input, c0, env.registry) == Ok::<Json, Fault>(q.input),
{
    assert(MemoryCtx::shows(c0, c0));
}

/// A let asks for nothing.
pub proof fn law_let_asks_for_nothing<S: CtxStorage, W>(
    at: PathView,
    value: Term,
    env: Env<W>,
    s0: S::State,
    w0: W,
    q: Request<W>,
)
    ensures
        !asks::<S, W>((Tree::Let { at, value }), env, s0, w0, q),
{
}

/// A branch asks for what the side asks for that its condition takes, and for nothing where its
/// condition is no boolean.
pub proof fn law_branch_asks_on_one_side<W>(
    cond: Term,
    yes: Tree,
    no: Tree,
    env: Env<W>,
    c0: Json,
    w0: W,
    q: Request<W>,
)
    ensures
        asks::<MemoryCtx, W>(
            (Tree::Branch { cond, yes: Box::new(yes), no: Box::new(no) }),
            env,
            c0,
            w0,
            q,
        ) <==> match value_of(cond, c0, env.registry) {
            Ok(Json::Bool(true)) => asks::<MemoryCtx, W>(yes, env, c0, w0, q),
            Ok(Json::Bool(false)) => asks::<MemoryCtx, W>(no, env, c0, w0, q),
            _ => false,
        },
{
    assert(MemoryCtx::shows(c0, c0));
}

/// Flows one after the other ask for what the first ones ask for and then, where they succeed, for
/// what the others ask for.
pub proof fn law_sequences_ask_in_turn<S: CtxStorage, W>(
    a: Seq<Tree>,
    b: Seq<Tree>,
    env: Env<W>,
    s0: S::State,
    w0: W,
    q: Request<W>,
)
    ensures
        asks_all::<S, W>(a + b, env, s0, w0, q) <==> asks_all::<S, W>(a, env, s0, w0, q) || exists|
            ra: Result<(), Fault>,
            sa: S::State,
            wa: W,
        | #[trigger]
            through(ra, (sa, wa)) && ra is Ok && runs_all::<S, W>(a, env, s0, w0, ra, sa, wa)
                && asks_all::<S, W>(b, env, sa, wa, q),
    decreases a.len(),
{
    let ok = Ok::<(), Fault>(());
    if a.len() == 0 {
        assert(a + b =~= b);
        assert(through(ok, (s0, w0)) && runs_all::<S, W>(a, env, s0, w0, ok, s0, w0));
    } else {
        let all = a + b;
        let rest = a.drop_first();
        assert(all[0] == a[0]);
        assert(all.drop_first() =~= rest + b);
        if asks_all::<S, W>(all, env, s0, w0, q) && !asks::<S, W>(a[0], env, s0, w0, q) {
            let (rx, sx, wx) = choose|rx: Result<(), Fault>, sx: S::State, wx: W| #[trigger]
                through(rx, (sx, wx)) && rx is Ok && runs::<S, W>(all[0], env, s0, w0, rx, sx, wx)
                    && asks_all::<S, W>(all.drop_first(), env, sx, wx, q);
            assert(through(rx, (sx, wx)));
            law_sequences_ask_in_turn::<S, W>(rest, b, env, sx, wx, q);
            if !asks_all::<S, W>(rest, env, sx, wx, q) {
                let (ra, sa, wa) = choose|
                    ra: Result<(), Fault>,
                    sa: S::State,
                    wa: W,
                | #[trigger]
                    through(ra, (sa, wa)) && ra is Ok && runs_all::<S, W>(
                        rest,
                        env,
                        sx,
                        wx,
                        ra,
                        sa,
                        wa,
                    ) && asks_all::<S, W>(b, env, sa, wa, q);
                assert(through(ra, (sa, wa)) && runs_all::<S, W>(a, env, s0, w0, ra, sa, wa));
            }
        }
        if asks_all::<S, W>(a, env, s0, w0, q) && !asks::<S, W>(a[0], env, s0, w0, q) {
            let (rx, sx, wx) = choose|rx: Result<(), Fault>, sx: S::State, wx: W| #[trigger]
                through(rx, (sx, wx)) && rx is Ok && runs::<S, W>(a[0], env, s0, w0, rx, sx, wx)
                    && asks_all::<S, W>(rest, env, sx, wx, q);
            assert(through(rx, (sx, wx)));
            law_sequences_ask_in_turn::<S, W>(rest, b, env, sx, wx, q);
        }
        if exists|ra: Result<(), Fault>, sa: S::State, wa: W| #[trigger]
            through(ra, (sa, wa)) && ra is Ok && runs_all::<S, W>(a, env, s0, w0, ra, sa, wa)
                && asks_all::<S, W>(b, env, sa, wa, q) {
            let (ra, sa, wa) = choose|ra: Result<(), Fault>, sa: S::State, wa: W| #[trigger]
                through(ra, (sa, wa)) && ra is Ok && runs_all::<S, W>(a, env, s0, w0, ra, sa, wa)
                    && asks_all::<S, W>(b, env, sa, wa, q);
            let (rx, sx, wx) = choose|rx: Result<(), Fault>, sx: S::State, wx: W| #[trigger]
                through(rx, (sx, wx)) && runs::<S, W>(a[0], env, s0, w0, rx, sx, wx) && match rx {
                    Ok(_) => runs_all::<S, W>(rest, env, sx, wx, ra, sa, wa),
                    Err(f) => ra == rx && sa == sx && wa == wx,
                };
            assert(through(rx, (sx, wx)) && through(ra, (sa, wa)));
            law_sequences_ask_in_turn::<S, W>(rest, b, env, sx, wx, q);
        }
    }
}

/// Whether the branches from one to before another may all fail, and lead the dispatcher from one
/// state to another.
pub open spec fn fail_up_to<W>(
    body: Tree,
    env: Env<W>,
    ctxs: Seq<Json>,
    i: int,
    k: int,
    w0: W,
    w1: W,
) -> bool
    decreases k - i,
{
    if i >= k {
        w1 == w0
    } else {
        exists|x: Result<Json, Fault>, wa: W| #[trigger]
            branch_end(x, wa) && x is Err && runs_to::<W>(body, env, ctxs[i], w0, x, wa)
                && fail_up_to::<W>(body, env, ctxs, i + 1, k, wa, w1)
    }
}

/// Branches in order of which one has to win ask for what a branch asks for before which all may
/// fail, and for nothing more once one has won.
pub proof fn law_any_asks_up_to_the_winner<W>(
    body: Tree,
    env: Env<W>,
    ctxs: Seq<Json>,
    done: Seq<Result<Json, Fault>>,
    w0: W,
    q: Request<W>,
)
    ensures
        asks_follow::<W>(JoinMode::Any, body, env, ctxs, done, w0, q) <==> !(done.len() > 0
            && done.last() is Ok) && exists|k: int, w: W| #[trigger]
            through(Ok::<(), Fault>(()), (ctxs[k], w)) && done.len() <= k < ctxs.len()
                && fail_up_to::<W>(
                body,
                env,
                ctxs,
                done.len() as int,
                k,
                w0,
                w,
            ) && asks::<MemoryCtx, W>(body, env, ctxs[k], w, q),
    decreases ctxs.len() - done.len(),
{
    let n = done.len() as int;
    if asks_follow::<W>(JoinMode::Any, body, env, ctxs, done, w0, q) {
        if asks::<MemoryCtx, W>(body, env, ctxs[n], w0, q) {
            assert(through(Ok::<(), Fault>(()), (ctxs[n], w0)));
        } else {
            let (x, wa) = choose|x: Result<Json, Fault>, wa: W| #[trigger]
                branch_end(x, wa) && runs_to::<W>(body, env, ctxs[n], w0, x, wa) && asks_follow::<
                    W,
                >(JoinMode::Any, body, env, ctxs, done.push(x), wa, q);
            let more = done.push(x);
            law_any_asks_up_to_the_winner::<W>(body, env, ctxs, more, wa, q);
            assert(more.last() == x);
            let (k, w) = choose|k: int, w: W| #[trigger]
                through(Ok::<(), Fault>(()), (ctxs[k], w)) && more.len() <= k < ctxs.len()
                    && fail_up_to::<W>(
                    body,
                    env,
                    ctxs,
                    more.len() as int,
                    k,
                    wa,
                    w,
                ) && asks::<MemoryCtx, W>(body, env, ctxs[k], w, q);
            assert(branch_end(x, wa));
            assert(fail_up_to::<W>(body, env, ctxs, n, k, w0, w));
            assert(through(Ok::<(), Fault>(()), (ctxs[k], w)));
        }
    }
    if !(done.len() > 0 && done.last() is Ok) && exists|k: int, w: W| #[trigger]
        through(Ok::<(), Fault>(()), (ctxs[k], w)) && done.len() <= k < ctxs.len()
            && fail_up_to::<W>(
            body,
            env,
            ctxs,
            n,
            k,
            w0,
            w,
        ) && asks::<MemoryCtx, W>(body, env, ctxs[k], w, q) {
        let (k, w) = choose|k: int, w: W| #[trigger]
            through(Ok::<(), Fault>(()), (ctxs[k], w)) && done.len() <= k < ctxs.len()
                && fail_up_to::<W>(
                body,
                env,
                ctxs,
                n,
                k,
                w0,
                w,
            ) && asks::<MemoryCtx, W>(body, env, ctxs[k], w, q);
        if n < k {
            let (x, wa) = choose|x: Result<Json, Fault>, wa: W| #[trigger]
                branch_end(x, wa) && x is Err && runs_to::<W>(body, env, ctxs[n], w0, x, wa)
                    && fail_up_to::<W>(body, env, ctxs, n + 1, k, wa, w);
            let more = done.push(x);
            assert(more.last() == x);
            assert(through(Ok::<(), Fault>(()), (ctxs[k], w)));
            law_any_asks_up_to_the_winner::<W>(body, env, ctxs, more, wa, q);
            assert(branch_end(x, wa));
        }
    }
}

/// A race of branches in order asks for what its first branch asks for, and for nothing else.
pub proof fn law_race_asks_for_the_first<W>(
    bind: Term,
    body: Tree,
    env: Env<W>,
    snap: Json,
    items: Seq<Json>,
    w0: W,
    q: Request<W>,
)
    requires
        items.len() > 0,
    ensures
        asks_join::<W>(JoinMode::Race, bind, body, env, snap, items, w0, q) <==> (written(
            bind,
            snap,
            items[0],
        ) matches Ok(c) && asks::<MemoryCtx, W>(body, env, c, w0, q)),
{
    let ctxs = starts(bind, snap, items);
    let none = Seq::<Result<Json, Fault>>::empty();
    if written(bind, snap, items[0]) is Ok {
        assert(ctxs[0] == written(bind, snap, items[0])->Ok_0);
        assert forall|x: Result<Json, Fault>, w: W| !#[trigger] asks_follow::<W>(
            JoinMode::Race,
            body,
            env,
            ctxs,
            none.push(x),
            w,
            q,
        ) by {}
    }
}

/// What catches a failure starts from this context, if it is come to: the one before the body,
/// with the message of the failure where the try says.
pub open spec fn caught(err_at: Option<Term>, c0: Json, f: Fault) -> Result<Json, Fault> {
    match err_at {
        None => Ok(c0),
        Some(at) => match target(at) {
            Err(g) => Err(g),
            Ok(p) => write_text(shown(p), c0, Json::Str(fault_text(f))),
        },
    }
}

/// A try asks for what its body asks for and, where the body may fail, for what catches the
/// failure asks for, on the context as it was before, with the message of the failure noted. Where
/// the message cannot be noted, nothing is asked for after the failure.
pub proof fn law_try_asks_for_its_catch<W>(
    body: Tree,
    catch: Tree,
    err_at: Option<Term>,
    env: Env<W>,
    c0: Json,
    w0: W,
    q: Request<W>,
)
    ensures
        asks::<MemoryCtx, W>(
            (Tree::Try { body: Box::new(body), catch: Box::new(catch), err_at }),
            env,
            c0,
            w0,
            q,
        ) <==> asks::<MemoryCtx, W>(body, env, c0, w0, q) || exists|
            f: Fault,
            c: Json,
            wa: W,
        | #[trigger]
            through(Err(f), (c, wa)) && runs::<MemoryCtx, W>(body, env, c0, w0, Err(f), c, wa) && (
            caught(err_at, c0, f) matches Ok(start) && asks::<MemoryCtx, W>(
                catch,
                env,
                start,
                wa,
                q,
            )),
{
    let t = Tree::Try { body: Box::new(body), catch: Box::new(catch), err_at };
    if asks::<MemoryCtx, W>(t, env, c0, w0, q) && !asks::<MemoryCtx, W>(body, env, c0, w0, q) {
        let (snap, ra, sa, wa) = choose|
            snap: Json,
            ra: Result<(), Fault>,
            sa: Json,
            wa: W,
        |
            #[trigger] MemoryCtx::shows(c0, snap) && #[trigger] through(ra, (sa, wa)) && runs::<
                MemoryCtx,
                W,
            >(body, env, c0, w0, ra, sa, wa) && (ra matches Err(f) && asks_catch::<MemoryCtx, W>(
                catch,
                err_at,
                f,
                snap,
                env,
                sa,
                wa,
                q,
            ));
        let f = ra->Err_0;
        assert(ra == Err::<(), Fault>(f));
        assert(through(Err::<(), Fault>(f), (sa, wa)));
        lemma_asks_caught::<W>(catch, err_at, f, env, c0, sa, wa, q);
    }
    if exists|f: Fault, c: Json, wa: W| #[trigger]
        through(Err(f), (c, wa)) && runs::<MemoryCtx, W>(body, env, c0, w0, Err(f), c, wa) && (
        caught(err_at, c0, f) matches Ok(start) && asks::<MemoryCtx, W>(catch, env, start, wa, q)) {
        let (f, c, wa) = choose|f: Fault, c: Json, wa: W| #[trigger]
            through(Err(f), (c, wa)) && runs::<MemoryCtx, W>(body, env, c0, w0, Err(f), c, wa) && (
            caught(err_at, c0, f) matches Ok(start) && asks::<MemoryCtx, W>(
                catch,
                env,
                start,
                wa,
                q,
            ));
        let ra = Err::<(), Fault>(f);
        assert(MemoryCtx::shows(c0, c0) && through(ra, (c, wa)));
        lemma_asks_caught::<W>(catch, err_at, f, env, c0, c, wa, q);
    }
}

/// What follows the failure of the body of a try, on a context in memory.
proof fn lemma_asks_caught<W>(
    catch: Tree,
    err_at: Option<Term>,
    f: Fault,
    env: Env<W>,
    c0: Json,
    c: Json,
    w0: W,
    q: Request<W>,
)
    ensures
        asks_catch::<MemoryCtx, W>(catch, err_at, f, c0, env, c, w0, q) <==> (caught(
            err_at,
            c0,
            f,
        ) matches Ok(start) && asks::<MemoryCtx, W>(catch, env, start, w0, q)),
{
    assert(MemoryCtx::becomes(c, c0, c0));
    if let Some(at) = err_at {
        if let Ok(p) = target(at) {
            let note = Json::Str(fault_text(f));
            if let Ok(start) = write_text(shown(p), c0, note) {
                assert(MemoryCtx::takes(c0, shown(p), note, Ok(()), start));
            }
        }
    }
}

/// A path that can be read back, with nothing in its way, has the message of a failure written
/// there for what catches it.
pub proof fn law_failure_is_noted(err_at: Option<PathView>, c0: Json, f: Fault)
    requires
        err_at matches Some(p) ==> possible(p) && clash(c0, p.keys) is None,
    ensures
        caught(
            match err_at {
                Some(p) => Some(Term::Path(p)),
                None => None,
            },
            c0,
            f,
        ) == Ok::<Json, Fault>(caught_ctx(err_at, c0, f)),
{
    if let Some(p) = err_at {
        law_path_round_trip(p);
    }
}

/// A try that notes the failure of its body at a path, with nothing in its way, asks for what its
/// body asks for and, where the body may fail, for what catches the failure asks for on the context
/// as it was before with the message written at that path.
pub proof fn law_try_asks_with_the_failure_noted<W>(
    body: Tree,
    catch: Tree,
    p: PathView,
    env: Env<W>,
    c0: Json,
    w0: W,
    q: Request<W>,
)
    requires
        possible(p),
        clash(c0, p.keys) is None,
    ensures
        asks::<MemoryCtx, W>(
            (Tree::Try {
                body: Box::new(body),
                catch: Box::new(catch),
                err_at: Some(Term::Path(p)),
            }),
            env,
            c0,
            w0,
            q,
        ) <==> asks::<MemoryCtx, W>(body, env, c0, w0, q) || exists|
            f: Fault,
            c: Json,
            wa: W,
        | #[trigger]
            through(Err(f), (c, wa)) && runs::<MemoryCtx, W>(body, env, c0, w0, Err(f), c, wa)
                && asks::<MemoryCtx, W>(
                catch,
                env,
                put(c0, p.keys, Json::Str(fault_text(f))),
                wa,
                q,
            ),
{
    law_try_asks_for_its_catch::<W>(body, catch, Some(Term::Path(p)), env, c0, w0, q);
    assert forall|f: Fault| #[trigger] caught(Some(Term::Path(p)), c0, f) == Ok::<Json, Fault>(
        put(c0, p.keys, Json::Str(fault_text(f))),
    ) by {
        law_failure_is_noted(Some(p), c0, f);
    }
}

} // verus!
