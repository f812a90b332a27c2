//! The evaluator that runs a flow from start to end.

use crate::dispatch::Dispatcher;
use crate::error::{fault_text, unit_outcome, value_outcome, value_outcomes, EvalError, Fault};
use crate::expr::{eval_expr_with_externs, is_truthy, Expr, Term};
use crate::externs::{Externs, NoExterns};
use crate::node::{lemma_trees, path_of, trees, write_path, written, JoinMode, Node, Tree};
use crate::path::{shown, Path};
use crate::render::debug;
use crate::requests::{
    admits, asks, asks_all, asks_catch, asks_follow, asks_join, asks_loop, Request,
};
use crate::runs::{
    branch_end, runs, runs_all, runs_catch, runs_follow, runs_join, runs_loop, runs_to, served, Env,
};
use crate::semantics::{
    count, decision, delivers, empty_fault, record, records, starts, successes, through, unbound,
};
use crate::storage::{CtxStorage, MemoryCtx};
use crate::value::{lemma_views, lemma_views_push, views, Json, Number, Object, Value};
use vstd::prelude::*;

verus! {

/// Whether a dispatcher may be asked for every step that a run may ask for.
pub open spec fn allowed<S: CtxStorage, W>(
    t: Tree,
    env: Env<W>,
    s0: S::State,
    w0: W,
) -> bool {
    forall|q: Request<W>| #[trigger]
        asks::<S, W>(t, env, s0, w0, q) ==> admits(env, q)
}

/// An integer as a value.
pub(crate) fn counted(n: u32) -> (r: Value)
    ensures
        r@ == count(n as nat),
{
    Value::Number(Number::PosInt(n as u64))
}

/// Runs a flow on a storage.
pub fn eval_with_storage_externs<S: CtxStorage, D: Dispatcher, X: Externs>(
    node: &Node,
    ctx: &mut S,
    dispatcher: &mut D,
    externs: &X,
) -> (r: Result<(), EvalError>)
    requires
        allowed::<S, D::State>(
            node@,
            served(*old(dispatcher), externs),
            old(ctx).state(),
            old(dispatcher).state(),
        ),
    ensures
        final(dispatcher).rules() == old(dispatcher).rules(),
        runs::<S, D::State>(
            node@,
            served(*old(dispatcher), externs),
            old(ctx).state(),
            old(dispatcher).state(),
            unit_outcome(r),
            final(ctx).state(),
            final(dispatcher).state(),
        ),
    decreases node, 1nat,
{
    match node {
        Node::Step { ref_, in_, out } => eval_step(ref_, in_, out, ctx, dispatcher, externs),
        Node::Sequence { children } => {
            proof {
                let env = served(*dispatcher, externs);
                assert forall|q: Request<D::State>| #[trigger]
                    asks_all::<S, D::State>(
                        trees(children@),
                        env,
                        ctx.state(),
                        dispatcher.state(),
                        q,
                    ) implies admits(env, q) by {
                    assert(asks::<S, D::State>(node@, env, ctx.state(), dispatcher.state(), q));
                }
            }
            eval_children(Ghost(*node), children, ctx, dispatcher, externs)
        },
        Node::Branch { cond, then_, else_ } => eval_branch(
            Ghost(*node),
            cond,
            then_,
            else_,
            ctx,
            dispatcher,
            externs,
        ),
        Node::Fanout { items, bind, body, join, out } => eval_fanout(
            items,
            bind,
            body,
            *join,
            out,
            ctx,
            dispatcher,
            externs,
        ),
        Node::Loop { counter, cond, body, max } => eval_loop(
            counter,
            cond,
            body,
            *max,
            ctx,
            dispatcher,
            externs,
        ),
        Node::Try { body, catch, err_at } => eval_try(
            Ghost(*node),
            body,
            catch,
            err_at,
            ctx,
            dispatcher,
            externs,
        ),
        Node::Let { at, value } => eval_let(at, value, ctx, dispatcher, externs),
    }
}

/// Has a step carried out and writes its output.
fn eval_step<S: CtxStorage, D: Dispatcher, X: Externs>(
    ref_: &String,
    in_: &Expr,
    out: &Expr,
    ctx: &mut S,
    dispatcher: &mut D,
    externs: &X,
) -> (r: Result<(), EvalError>)
    requires
        allowed::<S, D::State>(
            (Tree::Step { ref_: ref_@, input: in_@, out: out@ }),
            served(*old(dispatcher), externs),
            old(ctx).state(),
            old(dispatcher).state(),
        ),
    ensures
        final(dispatcher).rules() == old(dispatcher).rules(),
        runs::<S, D::State>(
            (Tree::Step { ref_: ref_@, input: in_@, out: out@ }),
            served(*old(dispatcher), externs),
            old(ctx).state(),
            old(dispatcher).state(),
            unit_outcome(r),
            final(ctx).state(),
            final(dispatcher).state(),
        ),
{
    let ghost s0 = ctx.state();
    let ghost w0 = dispatcher.state();
    let ghost env = served(*dispatcher, externs);
    let ghost t = Tree::Step { ref_: ref_@, input: in_@, out: out@ };
    let snap = ctx.snapshot();
    assert(S::shows(s0, snap@));
    let input = match eval_expr_with_externs(in_, &snap, externs) {
        Ok(v) => v,
        Err(e) => return Err(e),
    };
    let ghost v = input@;
    proof {
        let q = Request { ref_: ref_@, input: v, at: w0 };
        assert(asks::<S, D::State>(t, env, s0, w0, q));
    }
    let reply = dispatcher.dispatch(ref_.as_str(), input);
    assert((env.rules.replies)(w0, ref_@, v, value_outcome(reply), dispatcher.state()));
    let output = match reply {
        Ok(o) => o,
        Err(e) => return Err(
            EvalError::DispatcherError { ref_: ref_.clone(), msg: e.to_string() },
        ),
    };
    let path = match path_of(out) {
        Ok(p) => p,
        Err(e) => return Err(e),
    };
    ctx.write(path.to_string().as_str(), output)
}

/// Runs one of two nodes.
fn eval_branch<S: CtxStorage, D: Dispatcher, X: Externs>(
    Ghost(whole): Ghost<Node>,
    cond: &Expr,
    then_: &Node,
    else_: &Node,
    ctx: &mut S,
    dispatcher: &mut D,
    externs: &X,
) -> (r: Result<(), EvalError>)
    requires
        decreases_to!(whole => *then_),
        decreases_to!(whole => *else_),
        allowed::<S, D::State>(
            (Tree::Branch { cond: cond@, yes: Box::new(then_@), no: Box::new(else_@) }),
            served(*old(dispatcher), externs),
            old(ctx).state(),
            old(dispatcher).state(),
        ),
    ensures
        final(dispatcher).rules() == old(dispatcher).rules(),
        runs::<S, D::State>(
            (Tree::Branch { cond: cond@, yes: Box::new(then_@), no: Box::new(else_@) }),
            served(*old(dispatcher), externs),
            old(ctx).state(),
            old(dispatcher).state(),
            unit_outcome(r),
            final(ctx).state(),
            final(dispatcher).state(),
        ),
    decreases whole, 0nat,
{
    let ghost s0 = ctx.state();
    let ghost w0 = dispatcher.state();
    let ghost env = served(*dispatcher, externs);
    let ghost t = Tree::Branch { cond: cond@, yes: Box::new(then_@), no: Box::new(else_@) };
    let snap = ctx.snapshot();
    assert(S::shows(s0, snap@));
    let taken = eval_expr_with_externs(cond, &snap, externs);
    proof {
        assert forall|q: Request<D::State>| #[trigger]
            asks::<S, D::State>(then_@, env, s0, w0, q) && value_outcome(taken) == Ok::<
                Json,
                Fault,
            >(
                Json::Bool(true),
            ) implies admits(env, q) by {
            assert(asks::<S, D::State>(t, env, s0, w0, q));
        }
        assert forall|q: Request<D::State>| #[trigger]
            asks::<S, D::State>(else_@, env, s0, w0, q) && value_outcome(taken) == Ok::<
                Json,
                Fault,
            >(
                Json::Bool(false),
            ) implies admits(env, q) by {
            assert(asks::<S, D::State>(t, env, s0, w0, q));
        }
    }
    match taken {
        Err(e) => Err(e),
        Ok(Value::Bool(true)) => eval_with_storage_externs(then_, ctx, dispatcher, externs),
        Ok(Value::Bool(false)) => eval_with_storage_externs(
            else_,
            ctx,
            dispatcher,
            externs,
        ),
        Ok(other) => Err(EvalError::NonBoolCond(other)),
    }
}

/// Runs the branches of a fanout and writes what is joined of their results.
fn eval_fanout<S: CtxStorage, D: Dispatcher, X: Externs>(
    items: &Expr,
    bind: &Expr,
    body: &Node,
    join: JoinMode,
    out: &Expr,
    ctx: &mut S,
    dispatcher: &mut D,
    externs: &X,
) -> (r: Result<(), EvalError>)
    requires
        allowed::<S, D::State>(
            (Tree::Fanout { items: items@, bind: bind@, body: Box::new(body@), join, out: out@ }),
            served(*old(dispatcher), externs),
            old(ctx).state(),
            old(dispatcher).state(),
        ),
    ensures
        final(dispatcher).rules() == old(dispatcher).rules(),
        runs::<S, D::State>(
            (Tree::Fanout { items: items@, bind: bind@, body: Box::new(body@), join, out: out@ }),
            served(*old(dispatcher), externs),
            old(ctx).state(),
            old(dispatcher).state(),
            unit_outcome(r),
            final(ctx).state(),
            final(dispatcher).state(),
        ),
    decreases body, 3nat,
{
    let ghost s0 = ctx.state();
    let ghost w0 = dispatcher.state();
    let ghost env = served(*dispatcher, externs);
    let ghost t = Tree::Fanout {
        items: items@,
        bind: bind@,
        body: Box::new(body@),
        join,
        out: out@,
    };
    let snap = ctx.snapshot();
    assert(S::shows(s0, snap@));
    let items_arr = match eval_expr_with_externs(items, &snap, externs) {
        Err(e) => return Err(e),
        Ok(Value::Array(a)) => a,
        Ok(other) => {
            let mut msg = "expected array, got ".to_owned();
            msg.append(debug(&other).as_str());
            return Err(EvalError::TypeError { op: "fanout.items".to_owned(), msg });
        },
    };
    let ghost xs = views(items_arr@);
    proof {
        assert forall|q: Request<D::State>| #[trigger]
            asks_join::<D::State>(
                join,
                bind@,
                body@,
                env,
                snap@,
                xs,
                w0,
                q,
            ) implies admits(env, q) by {
            assert(asks::<S, D::State>(t, env, s0, w0, q));
        }
    }
    let joined = fanout_eval_sync(bind, body, join, &snap, items_arr, dispatcher, externs);
    let ghost j = value_outcome(joined);
    let r = deliver(out, joined, ctx);
    assert(delivers::<S>(out@, j, s0, unit_outcome(r), ctx.state()));
    r
}

/// Starts a loop and runs its rounds.
fn eval_loop<S: CtxStorage, D: Dispatcher, X: Externs>(
    counter: &Expr,
    cond: &Expr,
    body: &Node,
    max: u32,
    ctx: &mut S,
    dispatcher: &mut D,
    externs: &X,
) -> (r: Result<(), EvalError>)
    requires
        allowed::<S, D::State>(
            (Tree::Loop { counter: counter@, cond: cond@, body: Box::new(body@), max }),
            served(*old(dispatcher), externs),
            old(ctx).state(),
            old(dispatcher).state(),
        ),
    ensures
        final(dispatcher).rules() == old(dispatcher).rules(),
        runs::<S, D::State>(
            (Tree::Loop { counter: counter@, cond: cond@, body: Box::new(body@), max }),
            served(*old(dispatcher), externs),
            old(ctx).state(),
            old(dispatcher).state(),
            unit_outcome(r),
            final(ctx).state(),
            final(dispatcher).state(),
        ),
    decreases body, 3nat,
{
    let ghost s0 = ctx.state();
    let ghost w0 = dispatcher.state();
    let ghost env = served(*dispatcher, externs);
    let ghost t = Tree::Loop { counter: counter@, cond: cond@, body: Box::new(body@), max };
    let path = match path_of(counter) {
        Ok(p) => p.to_string(),
        Err(e) => return Err(e),
    };
    let first = ctx.write(path.as_str(), counted(0));
    assert(S::takes(s0, path@, count(0), unit_outcome(first), ctx.state()));
    let ghost sa = ctx.state();
    proof {
        assert forall|q: Request<D::State>| #[trigger]
            asks_loop::<S, D::State>(path@, cond@, body@, max, 0, env, sa, w0, q) && first
                is Ok implies admits(env, q) by {
            assert(asks::<S, D::State>(t, env, s0, w0, q));
        }
    }
    if let Err(e) = first {
        return Err(e);
    }
    eval_rounds(path.as_str(), cond, body, max, ctx, dispatcher, externs)
}

/// Runs a node, and what catches its failure.
fn eval_try<S: CtxStorage, D: Dispatcher, X: Externs>(
    Ghost(whole): Ghost<Node>,
    body: &Node,
    catch: &Node,
    err_at: &Option<Expr>,
    ctx: &mut S,
    dispatcher: &mut D,
    externs: &X,
) -> (r: Result<(), EvalError>)
    requires
        decreases_to!(whole => *body),
        decreases_to!(whole => *catch),
        allowed::<S, D::State>(
            (Tree::Try { body: Box::new(body@), catch: Box::new(catch@), err_at: noted(*err_at) }),
            served(*old(dispatcher), externs),
            old(ctx).state(),
            old(dispatcher).state(),
        ),
    ensures
        final(dispatcher).rules() == old(dispatcher).rules(),
        runs::<S, D::State>(
            (Tree::Try { body: Box::new(body@), catch: Box::new(catch@), err_at: noted(*err_at) }),
            served(*old(dispatcher), externs),
            old(ctx).state(),
            old(dispatcher).state(),
            unit_outcome(r),
            final(ctx).state(),
            final(dispatcher).state(),
        ),
    decreases whole, 0nat,
{
    let ghost s0 = ctx.state();
    let ghost w0 = dispatcher.state();
    let ghost env = served(*dispatcher, externs);
    let ghost t = Tree::Try {
        body: Box::new(body@),
        catch: Box::new(catch@),
        err_at: noted(*err_at),
    };
    let snap = ctx.snapshot();
    assert(S::shows(s0, snap@));
    proof {
        assert forall|q: Request<D::State>| #[trigger]
            asks::<S, D::State>(body@, env, s0, w0, q) implies admits(env, q) by {
            assert(asks::<S, D::State>(t, env, s0, w0, q));
        }
    }
    let done = eval_with_storage_externs(body, ctx, dispatcher, externs);
    let ghost sa = ctx.state();
    let ghost wa = dispatcher.state();
    let ghost at = noted(*err_at);
    proof {
        assert(through(unit_outcome(done), (sa, wa)));
        if let Err(f) = unit_outcome(done) {
            assert forall|q: Request<D::State>| #[trigger]
                asks_catch::<S, D::State>(
                    catch@,
                    at,
                    f,
                    snap@,
                    env,
                    sa,
                    wa,
                    q,
                ) implies admits(env, q) by {
                assert(through(unit_outcome(done), (sa, wa)) && S::shows(s0, snap@));
                assert(asks::<S, D::State>(t, env, s0, w0, q));
            }
        }
    }
    match done {
        Ok(_) => Ok(()),
        Err(e) => eval_catch(catch, err_at, e, snap, ctx, dispatcher, externs),
    }
}

/// Writes the value of an expression.
fn eval_let<S: CtxStorage, D: Dispatcher, X: Externs>(
    at: &Path,
    value: &Expr,
    ctx: &mut S,
    dispatcher: &mut D,
    externs: &X,
) -> (r: Result<(), EvalError>)
    requires
        allowed::<S, D::State>(
            (Tree::Let { at: at@, value: value@ }),
            served(*old(dispatcher), externs),
            old(ctx).state(),
            old(dispatcher).state(),
        ),
    ensures
        final(dispatcher).rules() == old(dispatcher).rules(),
        runs::<S, D::State>(
            (Tree::Let { at: at@, value: value@ }),
            served(*old(dispatcher), externs),
            old(ctx).state(),
            old(dispatcher).state(),
            unit_outcome(r),
            final(ctx).state(),
            final(dispatcher).state(),
        ),
{
    let ghost s0 = ctx.state();
    let ghost w0 = dispatcher.state();
    let ghost env = served(*dispatcher, externs);
    let ghost t = Tree::Let { at: at@, value: value@ };
    let snap = ctx.snapshot();
    assert(S::shows(s0, snap@));
    let v = match eval_expr_with_externs(value, &snap, externs) {
        Ok(v) => v,
        Err(e) => return Err(e),
    };
    ctx.write(at.to_string().as_str(), v)
}

/// Writes a result where an expression says.
pub(crate) fn deliver<S: CtxStorage>(out: &Expr, v: Result<Value, EvalError>, ctx: &mut S) -> (r: Result<
    (),
    EvalError,
>)
    ensures
        delivers::<S>(
            out@,
            value_outcome(v),
            old(ctx).state(),
            unit_outcome(r),
            final(ctx).state(),
        ),
{
    let value = match v {
        Ok(v) => v,
        Err(e) => return Err(e),
    };
    let path = match path_of(out) {
        Ok(p) => p,
        Err(e) => return Err(e),
    };
    ctx.write(path.to_string().as_str(), value)
}

/// The path that a try notes the failure of its body at.
pub open spec fn noted(err_at: Option<Expr>) -> Option<Term> {
    match err_at {
        Some(at) => Some(at@),
        None => None,
    }
}

/// Undoes what the body of a try wrote, notes its failure and runs what catches it.
fn eval_catch<S: CtxStorage, D: Dispatcher, X: Externs>(
    catch: &Node,
    err_at: &Option<Expr>,
    e: EvalError,
    snap: Value,
    ctx: &mut S,
    dispatcher: &mut D,
    externs: &X,
) -> (r: Result<(), EvalError>)
    requires
        forall|q: Request<D::State>| #[trigger]
            asks_catch::<S, D::State>(
                catch@,
                noted(*err_at),
                e@,
                snap@,
                served(*old(dispatcher), externs),
                old(ctx).state(),
                old(dispatcher).state(),
                q,
            ) ==> admits(served(*old(dispatcher), externs), q),
    ensures
        final(dispatcher).rules() == old(dispatcher).rules(),
        runs_catch::<S, D::State>(
            catch@,
            noted(*err_at),
            e@,
            snap@,
            served(*old(dispatcher), externs),
            old(ctx).state(),
            old(dispatcher).state(),
            unit_outcome(r),
            final(ctx).state(),
            final(dispatcher).state(),
        ),
    decreases catch, 2nat,
{
    let ghost s0 = ctx.state();
    let ghost w0 = dispatcher.state();
    let ghost env = served(*dispatcher, externs);
    let ghost before = snap@;
    ctx.replace(snap);
    let ghost sa = ctx.state();
    assert(S::becomes(s0, before, sa));
    if let Some(at) = err_at {
        let path = match path_of(at) {
            Ok(p) => p,
            Err(g) => return Err(g),
        };
        let noted = ctx.write(path.to_string().as_str(), Value::String(e.to_string()));
        assert(S::takes(
            sa,
            shown(path@),
            Json::Str(fault_text(e@)),
            unit_outcome(noted),
            ctx.state(),
        ));
        if let Err(g) = noted {
            return Err(g);
        }
    }
    proof {
        let s = ctx.state();
        assert forall|q: Request<D::State>| #[trigger]
            asks::<S, D::State>(catch@, env, s, w0, q) implies admits(env, q) by {
            assert(asks_catch::<S, D::State>(catch@, noted(*err_at), e@, before, env, s0, w0, q));
        }
    }
    eval_with_storage_externs(catch, ctx, dispatcher, externs)
}

/// Runs flows one after the other, up to the first that fails.
fn eval_children<S: CtxStorage, D: Dispatcher, X: Externs>(
    Ghost(whole): Ghost<Node>,
    children: &Vec<Node>,
    ctx: &mut S,
    dispatcher: &mut D,
    externs: &X,
) -> (r: Result<(), EvalError>)
    requires
        forall|q: Request<D::State>| #[trigger]
            asks_all::<S, D::State>(
                trees(children@),
                served(*old(dispatcher), externs),
                old(ctx).state(),
                old(dispatcher).state(),
                q,
            ) ==> admits(served(*old(dispatcher), externs), q),
        decreases_to!(whole => *children),
    ensures
        final(dispatcher).rules() == old(dispatcher).rules(),
        runs_all::<S, D::State>(
            trees(children@),
            served(*old(dispatcher), externs),
            old(ctx).state(),
            old(dispatcher).state(),
            unit_outcome(r),
            final(ctx).state(),
            final(dispatcher).state(),
        ),
    decreases whole, 0nat,
{
    let ghost env = served(*dispatcher, externs);
    let ghost s0 = ctx.state();
    let ghost w0 = dispatcher.state();
    proof {
        lemma_trees(children@);
        assert(trees(children@).skip(0) =~= trees(children@));
    }
    let mut i: usize = 0;
    while i < children.len()
        invariant
            forall|q: Request<D::State>| #[trigger]
                asks_all::<S, D::State>(
                    trees(children@).skip(i as int),
                    env,
                    ctx.state(),
                    dispatcher.state(),
                    q,
                ) ==> admits(env, q),
            decreases_to!(whole => *children),
            i <= children@.len() == trees(children@).len(),
            env == served(*old(dispatcher), externs),
            dispatcher.rules() == env.rules,
            s0 == old(ctx).state(),
            w0 == old(dispatcher).state(),
            forall|r: Result<(), Fault>, s1: S::State, w1: D::State| #[trigger]
                runs_all::<S, D::State>(
                    trees(children@).skip(i as int),
                    env,
                    ctx.state(),
                    dispatcher.state(),
                    r,
                    s1,
                    w1,
                ) ==> runs_all::<S, D::State>(trees(children@), env, s0, w0, r, s1, w1),
        decreases children@.len() - i,
    {
        let ghost rest = trees(children@).skip(i as int);
        proof {
            lemma_trees(children@);
            assert(decreases_to!(*children => children@));
            assert(decreases_to!(children@ => children@[i as int]));
            assert(rest.drop_first() =~= trees(children@).skip(i + 1));
            assert(rest[0] == children@[i as int]@);
        }
        let ghost before = ctx.state();
        let ghost wb = dispatcher.state();
        proof {
            assert forall|q: Request<D::State>| #[trigger]
                asks::<S, D::State>(
                    children@[i as int]@,
                    env,
                    before,
                    wb,
                    q,
                ) implies admits(env, q) by {
                assert(asks_all::<S, D::State>(rest, env, before, wb, q));
            }
        }
        let done = eval_with_storage_externs(&children[i], ctx, dispatcher, externs);
        let ghost after = ctx.state();
        let ghost wa = dispatcher.state();
        assert(through(unit_outcome(done), (after, wa)));
        match done {
            Ok(_) => {
                proof {
                    assert forall|q: Request<D::State>| #[trigger]
                        asks_all::<S, D::State>(
                            trees(children@).skip(i + 1),
                            env,
                            after,
                            wa,
                            q,
                        ) implies admits(env, q) by {
                        assert(through(unit_outcome(done), (after, wa)));
                        assert(asks_all::<S, D::State>(rest, env, before, wb, q));
                    }
                    assert forall|r: Result<(), Fault>, s1: S::State, w1: D::State| #[trigger]
                        runs_all::<S, D::State>(
                            trees(children@).skip(i + 1),
                            env,
                            after,
                            wa,
                            r,
                            s1,
                            w1,
                        ) implies runs_all::<S, D::State>(
                        trees(children@),
                        env,
                        s0,
                        w0,
                        r,
                        s1,
                        w1,
                    ) by {
                        assert(runs_all::<S, D::State>(rest, env, before, wb, r, s1, w1));
                    }
                }
            },
            Err(e) => {
                proof {
                    assert(runs_all::<S, D::State>(rest, env, before, wb, Err(e@), after, wa));
                }
                return Err(e);
            },
        }
        i = i + 1;
    }
    proof {
        assert(runs_all::<S, D::State>(
            trees(children@).skip(i as int),
            env,
            ctx.state(),
            dispatcher.state(),
            Ok(()),
            ctx.state(),
            dispatcher.state(),
        ));
    }
    Ok(())
}

/// Runs the rounds of a loop.
fn eval_rounds<S: CtxStorage, D: Dispatcher, X: Externs>(
    counter: &str,
    cond: &Expr,
    body: &Node,
    max: u32,
    ctx: &mut S,
    dispatcher: &mut D,
    externs: &X,
) -> (r: Result<(), EvalError>)
    requires
        forall|q: Request<D::State>| #[trigger]
            asks_loop::<S, D::State>(
                counter@,
                cond@,
                body@,
                max,
                0,
                served(*old(dispatcher), externs),
                old(ctx).state(),
                old(dispatcher).state(),
                q,
            ) ==> admits(served(*old(dispatcher), externs), q),
    ensures
        final(dispatcher).rules() == old(dispatcher).rules(),
        runs_loop::<S, D::State>(
            counter@,
            cond@,
            body@,
            max,
            0,
            served(*old(dispatcher), externs),
            old(ctx).state(),
            old(dispatcher).state(),
            unit_outcome(r),
            final(ctx).state(),
            final(dispatcher).state(),
        ),
    decreases body, 2nat,
{
    let ghost env = served(*dispatcher, externs);
    let ghost s0 = ctx.state();
    let ghost w0 = dispatcher.state();
    let ghost goes = |
        n: nat,
        s: S::State,
        w: D::State,
        r: Result<(), Fault>,
        s1: S::State,
        w1: D::State,
    |
        runs_loop::<S, D::State>(counter@, cond@, body@, max, n, env, s, w, r, s1, w1);
    let mut n: u32 = 0;
    while n < max
        invariant
            forall|q: Request<D::State>| #[trigger]
                asks_loop::<S, D::State>(
                    counter@,
                    cond@,
                    body@,
                    max,
                    n as nat,
                    env,
                    ctx.state(),
                    dispatcher.state(),
                    q,
                ) ==> admits(env, q),
            n <= max,
            env == served(*old(dispatcher), externs),
            dispatcher.rules() == env.rules,
            s0 == old(ctx).state(),
            w0 == old(dispatcher).state(),
            goes == (|
                n: nat,
                s: S::State,
                w: D::State,
                r: Result<(), Fault>,
                s1: S::State,
                w1: D::State,
            |
                runs_loop::<S, D::State>(counter@, cond@, body@, max, n, env, s, w, r, s1, w1)),
            forall|r: Result<(), Fault>, s1: S::State, w1: D::State| #[trigger]
                goes(n as nat, ctx.state(), dispatcher.state(), r, s1, w1) ==> goes(
                    0,
                    s0,
                    w0,
                    r,
                    s1,
                    w1,
                ),
        decreases max - n,
    {
        let ghost before = ctx.state();
        let ghost wb = dispatcher.state();
        let snap = ctx.snapshot();
        assert(S::shows(before, snap@));
        let more = match eval_expr_with_externs(cond, &snap, externs) {
            Ok(v) => is_truthy(&v),
            Err(e) => {
                assert(goes(n as nat, before, wb, Err(e@), before, wb));
                return Err(e);
            },
        };
        if !more {
            assert(goes(n as nat, before, wb, Ok(()), before, wb));
            return Ok(());
        }
        proof {
            assert forall|q: Request<D::State>| #[trigger]
                asks::<S, D::State>(body@, env, before, wb, q) implies admits(env, q) by {
                assert(asks_loop::<S, D::State>(
                    counter@,
                    cond@,
                    body@,
                    max,
                    n as nat,
                    env,
                    before,
                    wb,
                    q,
                ));
            }
        }
        let done = eval_with_storage_externs(body, ctx, dispatcher, externs);
        let ghost mid = ctx.state();
        let ghost wa = dispatcher.state();
        assert(through(unit_outcome(done), (mid, wa)));
        if let Err(e) = done {
            assert(goes(n as nat, before, wb, Err(e@), mid, wa));
            return Err(e);
        }
        let next = ctx.write(counter, counted(n + 1));
        let ghost after = ctx.state();
        assert(S::takes(mid, counter@, count(n as nat + 1), unit_outcome(next), after));
        if let Err(e) = next {
            assert(goes(n as nat, before, wb, Err(e@), after, wa));
            return Err(e);
        }
        proof {
            assert forall|q: Request<D::State>| #[trigger]
                asks_loop::<S, D::State>(
                    counter@,
                    cond@,
                    body@,
                    max,
                    (n + 1) as nat,
                    env,
                    after,
                    wa,
                    q,
                ) implies admits(env, q) by {
                assert(through(unit_outcome(done), (mid, wa)));
                assert(asks_loop::<S, D::State>(
                    counter@,
                    cond@,
                    body@,
                    max,
                    n as nat,
                    env,
                    before,
                    wb,
                    q,
                ));
            }
            assert forall|r: Result<(), Fault>, s1: S::State, w1: D::State| #[trigger]
                goes((n + 1) as nat, after, wa, r, s1, w1) implies goes(0, s0, w0, r, s1, w1) by {
                assert(goes(n as nat, before, wb, r, s1, w1));
            }
        }
        n = n + 1;
    }
    assert(goes(
        n as nat,
        ctx.state(),
        dispatcher.state(),
        Ok(()),
        ctx.state(),
        dispatcher.state(),
    ));
    Ok(())
}

/// What a fanout without items fails with, where one branch has to give the result.
pub(crate) fn no_items(op: &str) -> (r: EvalError)
    ensures
        r@ == empty_fault(op@),
{
    EvalError::TypeError { op: op.to_owned(), msg: "requires at least one item".to_owned() }
}

/// The record of how a branch did.
pub fn settled(outcome: Result<Value, EvalError>) -> (r: Value)
    ensures
        r@ == record(value_outcome(outcome)),
{
    let mut o = Object::new();
    match outcome {
        Ok(v) => {
            o.insert("status".to_owned(), Value::String("fulfilled".to_owned()));
            o.insert("value".to_owned(), v);
        },
        Err(e) => {
            o.insert("status".to_owned(), Value::String("rejected".to_owned()));
            o.insert("reason".to_owned(), Value::String(e.to_string()));
        },
    }
    Value::Object(o)
}

/// The records of how branches did.
pub fn join_settled(outcomes: Vec<Result<Value, EvalError>>) -> (r: Value)
    ensures
        r@ == Json::Arr(records(value_outcomes(outcomes@))),
{
    let mut rest = outcomes;
    let mut values: Vec<Value> = Vec::new();
    let ghost all = value_outcomes(outcomes@);
    proof {
        assert(views(values@) =~= records(all).take(0));
    }
    let n = rest.len();
    let mut i: usize = 0;
    while i < n
        invariant
            i <= n == all.len(),
            rest@.len() == n - i,
            value_outcomes(rest@) == all.skip(i as int),
            views(values@) == records(all).take(i as int),
        decreases n - i,
    {
        let ghost before = rest@;
        let first = rest.remove(0);
        let ghost x = value_outcome(first);
        proof {
            assert(value_outcomes(before)[0] == x);
            assert(value_outcomes(rest@) =~= value_outcomes(before).skip(1));
            assert(all.skip(i as int).skip(1) =~= all.skip(i + 1));
        }
        let rec = settled(first);
        proof {
            lemma_views_push(values@, rec);
            assert(records(all).take(i + 1) =~= records(all).take(i as int).push(rec@));
        }
        values.push(rec);
        i = i + 1;
    }
    proof {
        assert(records(all).take(i as int) =~= records(all));
    }
    Value::Array(values)
}

/// Whether the item of a branch can be written does not depend on the item.
pub proof fn lemma_bind_alike(bind: Term, snap: Json, a: Json, b: Json)
    ensures
        match written(bind, snap, a) {
            Ok(_) => written(bind, snap, b) is Ok,
            Err(f) => written(bind, snap, b) == Err::<Json, Fault>(f),
        },
{
}

/// The records of branches whose items cannot be written where they are to find them.
pub(crate) fn join_unbound(bind: &Expr, snap: &Value, items: &Vec<Value>) -> (r: Value)
    requires
        items@.len() > 0,
        written(bind@, snap@, items@[0]@) is Err,
    ensures
        r@ == Json::Arr(records(unbound(bind@, snap@, views(items@)))),
{
    let ghost xs = views(items@);
    let ghost all = records(unbound(bind@, snap@, xs));
    let mut values: Vec<Value> = Vec::new();
    proof {
        lemma_views(items@);
        assert(views(values@) =~= all.take(0));
    }
    let mut i: usize = 0;
    while i < items.len()
        invariant
            xs == views(items@),
            i <= items@.len() == xs.len(),
            xs.len() > 0,
            written(bind@, snap@, xs[0]) is Err,
            all == records(unbound(bind@, snap@, xs)),
            views(values@) == all.take(i as int),
        decreases items@.len() - i,
    {
        proof {
            lemma_views(items@);
            lemma_bind_alike(bind@, snap@, xs[0], xs[i as int]);
        }
        let rec = settled(write_path(bind, snap.clone(), items[i].clone()));
        proof {
            lemma_views_push(values@, rec);
            assert(unbound(bind@, snap@, xs)[i as int] == written(bind@, snap@, xs[i as int]));
            assert(all.take(i + 1) =~= all.take(i as int).push(rec@));
        }
        values.push(rec);
        i = i + 1;
    }
    proof {
        assert(all.take(i as int) =~= all);
    }
    Value::Array(values)
}

/// Runs the branches of a fanout in order.
fn fanout_eval_sync<D: Dispatcher, X: Externs>(
    bind: &Expr,
    body: &Node,
    join: JoinMode,
    base_snap: &Value,
    items_arr: Vec<Value>,
    dispatcher: &mut D,
    externs: &X,
) -> (r: Result<Value, EvalError>)
    requires
        forall|q: Request<D::State>| #[trigger]
            asks_join::<D::State>(
                join,
                bind@,
                body@,
                served(*old(dispatcher), externs),
                base_snap@,
                views(items_arr@),
                old(dispatcher).state(),
                q,
            ) ==> admits(served(*old(dispatcher), externs), q),
    ensures
        final(dispatcher).rules() == old(dispatcher).rules(),
        runs_join::<D::State>(
            join,
            bind@,
            body@,
            served(*old(dispatcher), externs),
            base_snap@,
            views(items_arr@),
            old(dispatcher).state(),
            value_outcome(r),
            final(dispatcher).state(),
        ),
    decreases body, 2nat,
{
    let ghost env = served(*dispatcher, externs);
    let ghost w0 = dispatcher.state();
    let ghost items = views(items_arr@);
    let ghost ctxs = starts(bind@, base_snap@, items);
    let n = items_arr.len();
    proof {
        lemma_views(items_arr@);
    }
    if n == 0 {
        return match join {
            JoinMode::All | JoinMode::AllSettled => {
                let none: Vec<Value> = Vec::new();
                assert(views(none@) =~= Seq::<Json>::empty());
                Ok(Value::Array(none))
            },
            JoinMode::Any => Err(no_items("fanout.any")),
            JoinMode::Race => Err(no_items("fanout.race")),
        };
    }
    if let Err(e) = write_path(bind, base_snap.clone(), items_arr[0].clone()) {
        if join == JoinMode::AllSettled {
            return Ok(join_unbound(bind, base_snap, &items_arr));
        }
        return Err(e);
    }
    let mut values: Vec<Value> = Vec::new();
    let ghost mut done: Seq<Result<Json, Fault>> = Seq::empty();
    proof {
        assert(views(values@) =~= successes(done));
        assert(views(values@) =~= records(done));
        assert forall|q: Request<D::State>| #[trigger]
            asks_follow::<D::State>(join, body@, env, ctxs, done, w0, q) implies admits(env, q) by {
            assert(asks_join::<D::State>(join, bind@, body@, env, base_snap@, items, w0, q));
        }
    }
    let mut i: usize = 0;
    while i < n
        invariant
            forall|q: Request<D::State>| #[trigger]
                asks_follow::<D::State>(join, body@, env, ctxs, done, dispatcher.state(), q)
                    ==> admits(env, q),
            w0 == old(dispatcher).state(),
            env == served(*old(dispatcher), externs),
            dispatcher.rules() == env.rules,
            items == views(items_arr@),
            ctxs == starts(bind@, base_snap@, items),
            i <= n == items.len() == items_arr@.len(),
            n > 0,
            done.len() == i,
            i < n ==> decision(join, n as nat, done) is None,
            written(bind@, base_snap@, items[0]) is Ok,
            forall|j: Result<Json, Fault>, w1: D::State| #[trigger]
                runs_follow::<D::State>(join, body@, env, ctxs, done, dispatcher.state(), j, w1)
                    ==> runs_follow::<D::State>(join, body@, env, ctxs, Seq::empty(), w0, j, w1),
            join == JoinMode::All ==> views(values@) == successes(done),
            join == JoinMode::All && i > 0 ==> done.last() is Ok,
            join == JoinMode::AllSettled ==> views(values@) == records(done),
            join == JoinMode::Any || join == JoinMode::Race ==> i < n,
        decreases n - i,
    {
        proof {
            lemma_views(items_arr@);
            lemma_bind_alike(bind@, base_snap@, items[i as int], items[0]);
        }
        let branch_ctx = match write_path(bind, base_snap.clone(), items_arr[i].clone()) {
            Ok(c) => c,
            Err(e) => return Err(e),
        };
        let mut storage = MemoryCtx::new(branch_ctx);
        let ghost wb = dispatcher.state();
        proof {
            assert forall|q: Request<D::State>| #[trigger]
                asks::<MemoryCtx, D::State>(body@, env, storage@, wb, q) implies admits(env, q) by {
                assert(asks_follow::<D::State>(join, body@, env, ctxs, done, wb, q));
            }
        }
        let ended = eval_with_storage_externs(body, &mut storage, dispatcher, externs);
        let outcome = match ended {
            Ok(_) => Ok(storage.snapshot()),
            Err(e) => Err(e),
        };
        let ghost x = value_outcome(outcome);
        let ghost before = done;
        let ghost wa = dispatcher.state();
        proof {
            done = done.push(x);
            assert(through(unit_outcome(ended), storage@));
            assert(runs_to::<D::State>(body@, env, ctxs[i as int], wb, x, wa));
            assert(branch_end(x, wa));
            assert forall|q: Request<D::State>| #[trigger]
                asks_follow::<D::State>(
                    join,
                    body@,
                    env,
                    ctxs,
                    done,
                    wa,
                    q,
                ) implies admits(env, q) by {
                assert(branch_end(x, wa));
                assert(asks_follow::<D::State>(join, body@, env, ctxs, before, wb, q));
            }
            assert forall|j: Result<Json, Fault>, w1: D::State| #[trigger]
                runs_follow::<D::State>(
                    join,
                    body@,
                    env,
                    ctxs,
                    done,
                    wa,
                    j,
                    w1,
                ) implies runs_follow::<D::State>(
                join,
                body@,
                env,
                ctxs,
                Seq::empty(),
                w0,
                j,
                w1,
            ) by {
                assert(runs_follow::<D::State>(join, body@, env, ctxs, before, wb, j, w1));
            }
        }
        match join {
            JoinMode::All => match outcome {
                Ok(c) => {
                    proof {
                        lemma_views_push(values@, c);
                        assert(successes(done) =~= successes(before).push(c@));
                    }
                    values.push(c);
                },
                Err(e) => {
                    assert(runs_follow::<D::State>(join, body@, env, ctxs, done, wa, x, wa));
                    return Err(e);
                },
            },
            JoinMode::Any => match outcome {
                Ok(c) => {
                    assert(runs_follow::<D::State>(join, body@, env, ctxs, done, wa, x, wa));
                    return Ok(c);
                },
                Err(e) => {
                    if i + 1 == n {
                        assert(runs_follow::<D::State>(join, body@, env, ctxs, done, wa, x, wa));
                        return Err(e);
                    }
                },
            },
            JoinMode::Race => {
                assert(runs_follow::<D::State>(join, body@, env, ctxs, done, wa, x, wa));
                return outcome;
            },
            JoinMode::AllSettled => {
                let rec = settled(outcome);
                proof {
                    lemma_views_push(values@, rec);
                    assert(records(done) =~= records(before).push(rec@));
                }
                values.push(rec);
            },
        }
        i = i + 1;
    }
    proof {
        assert(runs_follow::<D::State>(
            join,
            body@,
            env,
            ctxs,
            done,
            dispatcher.state(),
            Ok(Json::Arr(views(values@))),
            dispatcher.state(),
        ));
    }
    Ok(Value::Array(values))
}

/// Runs a flow on a storage, without external functions.
pub fn eval_with_storage<S: CtxStorage, D: Dispatcher>(
    node: &Node,
    ctx: &mut S,
    dispatcher: &mut D,
) -> (r: Result<(), EvalError>)
    requires
        allowed::<S, D::State>(
            node@,
            served(*old(dispatcher), &NoExterns),
            old(ctx).state(),
            old(dispatcher).state(),
        ),
    ensures
        final(dispatcher).rules() == old(dispatcher).rules(),
        runs::<S, D::State>(
            node@,
            served(*old(dispatcher), &NoExterns),
            old(ctx).state(),
            old(dispatcher).state(),
            unit_outcome(r),
            final(ctx).state(),
            final(dispatcher).state(),
        ),
{
    eval_with_storage_externs(node, ctx, dispatcher, &NoExterns)
}

/// Runs a flow on a context and returns the context that it leaves.
pub fn eval_externs<D: Dispatcher, X: Externs>(
    node: &Node,
    ctx: Value,
    dispatcher: &mut D,
    externs: &X,
) -> (r: Result<Value, EvalError>)
    requires
        allowed::<MemoryCtx, D::State>(
            node@,
            served(*old(dispatcher), externs),
            ctx@,
            old(dispatcher).state(),
        ),
    ensures
        final(dispatcher).rules() == old(dispatcher).rules(),
        runs_to::<D::State>(
            node@,
            served(*old(dispatcher), externs),
            ctx@,
            old(dispatcher).state(),
            value_outcome(r),
            final(dispatcher).state(),
        ),
{
    let mut storage = MemoryCtx::new(ctx);
    let ended = eval_with_storage_externs(node, &mut storage, dispatcher, externs);
    assert(through(unit_outcome(ended), storage@));
    match ended {
        Ok(_) => Ok(storage.snapshot()),
        Err(e) => Err(e),
    }
}

/// Runs a flow on a context without external functions and returns the context that it leaves.
pub fn eval<D: Dispatcher>(node: &Node, ctx: Value, dispatcher: &mut D) -> (r: Result<
    Value,
    EvalError,
>)
    requires
        allowed::<MemoryCtx, D::State>(
            node@,
            served(*old(dispatcher), &NoExterns),
            ctx@,
            old(dispatcher).state(),
        ),
    ensures
        final(dispatcher).rules() == old(dispatcher).rules(),
        runs_to::<D::State>(
            node@,
            served(*old(dispatcher), &NoExterns),
            ctx@,
            old(dispatcher).state(),
            value_outcome(r),
            final(dispatcher).state(),
        ),
{
    eval_externs(node, ctx, dispatcher, &NoExterns)
}

} // verus!
