//! What holds of runs.

use crate::error::{fault_text, Fault};
use crate::expr::{truthy, value_of, Term};
use crate::node::{target, written, JoinMode, Tree};
use crate::path::{clash, parse_path, possible, put, read_at, read_keys, shown, PathView};
use crate::path_laws::{law_path_round_trip, law_write_then_read};
use crate::semantics::{
    count, decision, delivers_later, may, may_all, may_catch, may_end, may_follow, may_join,
    may_loop, private, records, results, starts, step_result, through, undisturbed, Host,
};
use crate::storage::{write_text, CtxStorage, MemoryCtx};
use crate::value::Json;
use vstd::prelude::*;

verus! {

/// Running flows one after the other is running the first ones and then, if they succeed, the
/// others.
pub proof fn law_sequences_join<S: CtxStorage>(
    a: Seq<Tree>,
    b: Seq<Tree>,
    h: Host<S::State>,
    s0: S::State,
    r: Result<(), Fault>,
    s1: S::State,
)
    ensures
        may_all::<S>(a + b, h, s0, r, s1) <==> exists|ra: Result<(), Fault>, sa: S::State| #[trigger]
            through(ra, sa) && may_all::<S>(a, h, s0, ra, sa) && match ra {
                Ok(_) => may_all::<S>(b, h, sa, r, s1),
                Err(_) => r == ra && s1 == sa,
            },
    decreases a.len(),
{
    if a.len() == 0 {
        assert(a + b =~= b);
        assert(through(Ok::<(), Fault>(()), s0));
        assert(may_all::<S>(a, h, s0, Ok(()), s0));
    } else {
        let all = a + b;
        let rest = a.drop_first();
        assert(all[0] == a[0]);
        assert(all.drop_first() =~= rest + b);
        if may_all::<S>(all, h, s0, r, s1) {
            let (rx, sx) = choose|rx: Result<(), Fault>, sx: S::State| #[trigger]
                through(rx, sx) && may::<S>(all[0], h, s0, rx, sx) && match rx {
                    Ok(_) => may_all::<S>(all.drop_first(), h, sx, r, s1),
                    Err(f) => r == rx && s1 == sx,
                };
            assert(through(rx, sx));
            if rx is Ok {
                law_sequences_join::<S>(rest, b, h, sx, r, s1);
                let (ra, sa) = choose|ra: Result<(), Fault>, sa: S::State| #[trigger]
                    through(ra, sa) && may_all::<S>(rest, h, sx, ra, sa) && match ra {
                        Ok(_) => may_all::<S>(b, h, sa, r, s1),
                        Err(_) => r == ra && s1 == sa,
                    };
                assert(through(ra, sa) && may_all::<S>(a, h, s0, ra, sa));
            } else {
                assert(may_all::<S>(a, h, s0, rx, sx));
            }
        }
        if exists|ra: Result<(), Fault>, sa: S::State| #[trigger]
            through(ra, sa) && may_all::<S>(a, h, s0, ra, sa) && match ra {
                Ok(_) => may_all::<S>(b, h, sa, r, s1),
                Err(_) => r == ra && s1 == sa,
            } {
            let (ra, sa) = choose|ra: Result<(), Fault>, sa: S::State| #[trigger]
                through(ra, sa) && may_all::<S>(a, h, s0, ra, sa) && match ra {
                    Ok(_) => may_all::<S>(b, h, sa, r, s1),
                    Err(_) => r == ra && s1 == sa,
                };
            let (rx, sx) = choose|rx: Result<(), Fault>, sx: S::State| #[trigger]
                through(rx, sx) && may::<S>(a[0], h, s0, rx, sx) && match rx {
                    Ok(_) => may_all::<S>(rest, h, sx, ra, sa),
                    Err(f) => ra == rx && sa == sx,
                };
            assert(through(rx, sx));
            if rx is Ok {
                assert(through(ra, sa));
                law_sequences_join::<S>(rest, b, h, sx, r, s1);
            }
        }
    }
}

/// If the body of a try fails, what catches the failure starts from the context as it was
/// before the body, whatever the body wrote.
pub proof fn law_try_rolls_back(
    body: Tree,
    catch: Tree,
    h: Host<Json>,
    c0: Json,
    r: Result<(), Fault>,
    c1: Json,
)
    requires
        may::<MemoryCtx>(
            (Tree::Try { body: Box::new(body), catch: Box::new(catch), err_at: None }),
            h,
            c0,
            r,
            c1,
        ),
    ensures
        ({
            ||| r is Ok && may::<MemoryCtx>(body, h, c0, Ok(()), c1)
            ||| (exists|f: Fault, c: Json| #[trigger]
                through(Err(f), c) && may::<MemoryCtx>(body, h, c0, Err(f), c))
                && may::<MemoryCtx>(catch, h, c0, r, c1)
        }),
{
    let (snap, ra, sa) = choose|snap: Json, ra: Result<(), Fault>, sa: Json|
        #[trigger] MemoryCtx::shows(c0, snap) && #[trigger] through(ra, sa) && may::<MemoryCtx>(
            body,
            h,
            c0,
            ra,
            sa,
        ) && match ra {
            Ok(_) => r == ra && c1 == sa,
            Err(f) => may_catch::<MemoryCtx>(catch, None, f, snap, h, sa, r, c1),
        };
    match ra {
        Ok(u) => {
            assert(u == ());
        },
        Err(f) => {
            assert(through(Err::<(), Fault>(f), sa));
            assert(may_catch::<MemoryCtx>(catch, None, f, snap, h, sa, r, c1));
            let sb = choose|sb: Json| #[trigger]
                MemoryCtx::becomes(sa, snap, sb) && may::<MemoryCtx>(catch, h, sb, r, c1);
            assert(sb == c0);
        },
    }
}

/// The message of the failure is where the try says, before anything catches it.
pub proof fn law_try_notes_the_failure(
    catch: Tree,
    p: PathView,
    f: Fault,
    snap: Json,
    h: Host<Json>,
    s: Json,
    c1: Json,
)
    requires
        possible(p),
        may_catch::<MemoryCtx>(catch, Some(Term::Path(p)), f, snap, h, s, Ok(()), c1),
    ensures
        exists|c: Json| #[trigger]
            through(Ok::<(), Fault>(()), c) && read_keys(c, p.keys) == Some(
                Json::Str(fault_text(f)),
            ) && c == put(snap, p.keys, Json::Str(fault_text(f))) && may::<MemoryCtx>(
                catch,
                h,
                c,
                Ok(()),
                c1,
            ),
{
    law_path_round_trip(p);
    let sa = choose|sa: Json| #[trigger]
        MemoryCtx::becomes(s, snap, sa) && exists|rb: Result<(), Fault>, sb: Json| #[trigger]
            MemoryCtx::takes(sa, shown(p), Json::Str(fault_text(f)), rb, sb) && match rb {
                Err(g) => Ok::<(), Fault>(()) == rb && c1 == sb,
                Ok(_) => may::<MemoryCtx>(catch, h, sb, Ok(()), c1),
            };
    let (rb, sb) = choose|rb: Result<(), Fault>, sb: Json| #[trigger]
        MemoryCtx::takes(sa, shown(p), Json::Str(fault_text(f)), rb, sb) && match rb {
            Err(g) => Ok::<(), Fault>(()) == rb && c1 == sb,
            Ok(_) => may::<MemoryCtx>(catch, h, sb, Ok(()), c1),
        };
    law_write_then_read(snap, p.keys, Json::Str(fault_text(f)));
    assert(through(Ok::<(), Fault>(()), sb));
}

/// The context that what catches a failure starts from: the one before the body, with the message
/// of the failure where the try says.
pub open spec fn caught_ctx(err_at: Option<PathView>, c0: Json, f: Fault) -> Json {
    match err_at {
        None => c0,
        Some(p) => put(c0, p.keys, Json::Str(fault_text(f))),
    }
}

/// A try is its body where the body succeeds. Where the body fails, it is what catches the
/// failure, run on the context as it was before the body, with the message of the failure noted;
/// the failure of the body is not the failure of the try.
pub proof fn law_try_is_its_body_or_its_catch(
    body: Tree,
    catch: Tree,
    err_at: Option<PathView>,
    h: Host<Json>,
    c0: Json,
    r: Result<(), Fault>,
    c1: Json,
)
    requires
        err_at matches Some(p) ==> possible(p) && clash(c0, p.keys) is None,
    ensures
        may::<MemoryCtx>(
            (Tree::Try {
                body: Box::new(body),
                catch: Box::new(catch),
                err_at: match err_at {
                    Some(p) => Some(Term::Path(p)),
                    None => None,
                },
            }),
            h,
            c0,
            r,
            c1,
        ) <==> (r is Ok && may::<MemoryCtx>(body, h, c0, r, c1)) || exists|f: Fault, c: Json| #[trigger]
            through(Err(f), c) && may::<MemoryCtx>(body, h, c0, Err(f), c) && may::<MemoryCtx>(
                catch,
                h,
                caught_ctx(err_at, c0, f),
                r,
                c1,
            ),
{
    let at = match err_at {
        Some(p) => Some(Term::Path(p)),
        None => None,
    };
    let t = Tree::Try { body: Box::new(body), catch: Box::new(catch), err_at: at };
    if let Some(p) = err_at {
        law_path_round_trip(p);
    }
    if may::<MemoryCtx>(t, h, c0, r, c1) {
        let (snap, ra, sa) = choose|snap: Json, ra: Result<(), Fault>, sa: Json|
            #[trigger] MemoryCtx::shows(c0, snap) && #[trigger] through(ra, sa) && may::<MemoryCtx>(
                body,
                h,
                c0,
                ra,
                sa,
            ) && match ra {
                Ok(_) => r == ra && c1 == sa,
                Err(f) => may_catch::<MemoryCtx>(catch, at, f, snap, h, sa, r, c1),
            };
        if let Err(f) = ra {
            assert(through(Err::<(), Fault>(f), sa));
            lemma_caught(catch, err_at, f, h, c0, sa, r, c1);
        }
    }
    if r is Ok && may::<MemoryCtx>(body, h, c0, r, c1) {
        assert(MemoryCtx::shows(c0, c0) && through(r, c1));
    }
    if exists|f: Fault, c: Json| #[trigger]
        through(Err(f), c) && may::<MemoryCtx>(body, h, c0, Err(f), c) && may::<MemoryCtx>(
            catch,
            h,
            caught_ctx(err_at, c0, f),
            r,
            c1,
        ) {
        let (f, c) = choose|f: Fault, c: Json| #[trigger]
            through(Err(f), c) && may::<MemoryCtx>(body, h, c0, Err(f), c) && may::<MemoryCtx>(
                catch,
                h,
                caught_ctx(err_at, c0, f),
                r,
                c1,
            );
        let ra = Err::<(), Fault>(f);
        assert(MemoryCtx::shows(c0, c0) && through(ra, c));
        lemma_caught(catch, err_at, f, h, c0, c, r, c1);
    }
}

/// What follows the failure of the body of a try, on a context in memory.
proof fn lemma_caught(
    catch: Tree,
    err_at: Option<PathView>,
    f: Fault,
    h: Host<Json>,
    c0: Json,
    s: Json,
    r: Result<(), Fault>,
    c1: Json,
)
    requires
        err_at matches Some(p) ==> parse_path(shown(p)) == Ok::<PathView, Seq<char>>(p) && clash(
            c0,
            p.keys,
        ) is None,
    ensures
        may_catch::<MemoryCtx>(
            catch,
            match err_at {
                Some(p) => Some(Term::Path(p)),
                None => None,
            },
            f,
            c0,
            h,
            s,
            r,
            c1,
        ) <==> may::<MemoryCtx>(catch, h, caught_ctx(err_at, c0, f), r, c1),
{
    let ok = Ok::<(), Fault>(());
    assert(MemoryCtx::becomes(s, c0, c0));
    if let Some(p) = err_at {
        let note = Json::Str(fault_text(f));
        let c = put(c0, p.keys, note);
        assert(MemoryCtx::takes(c0, shown(p), note, ok, c));
    }
}

/// A step, a fanout or a let that fails leaves the context as it was, if no one else writes to it.
/// In particular nothing of what the branches of a fanout wrote gets out of them.
pub proof fn law_failure_changes_nothing(t: Tree, h: Host<Json>, c0: Json, f: Fault, c1: Json)
    requires
        t is Step || t is Fanout || t is Let,
        undisturbed(h),
        may::<MemoryCtx>(t, h, c0, Err(f), c1),
    ensures
        c1 == c0,
{
}

/// The path that a step, a fanout or a let writes to.
pub open spec fn out_path(t: Tree) -> Result<PathView, Fault> {
    match t {
        Tree::Step { ref_, input, out } => target(out),
        Tree::Fanout { items, bind, body, join, out } => target(out),
        Tree::Let { at, value } => Ok(at),
        _ => target(Term::Lit(Json::Null)),
    }
}

/// A step, a fanout or a let that succeeds has written one value at its path, and has changed
/// nothing else, if no one else writes to the context.
pub proof fn law_success_writes_one_value(t: Tree, h: Host<Json>, c0: Json, c1: Json)
    requires
        t is Step || t is Fanout || t is Let,
        undisturbed(h),
        may::<MemoryCtx>(t, h, c0, Ok(()), c1),
    ensures
        out_path(t) is Ok,
        exists|v: Json| #[trigger]
            write_text(shown(out_path(t)->Ok_0), c0, v) == Ok::<Json, Fault>(c1),
{
    let p = out_path(t)->Ok_0;
    match t {
        Tree::Step { ref_, input, out } => {
            let v = value_of(input, c0, h.registry)->Ok_0;
            let reply = choose|reply: Result<Json, Fault>| #[trigger]
                (h.replies)(ref_, v, reply) && delivers_later::<MemoryCtx>(
                    h,
                    out,
                    step_result(ref_, reply),
                    c0,
                    Ok(()),
                    c1,
                );
            assert(write_text(shown(p), c0, reply->Ok_0) == Ok::<Json, Fault>(c1));
        },
        Tree::Fanout { items, bind, body, join, out } => {
            let xs = value_of(items, c0, h.registry)->Ok_0->Arr_0;
            let joined = choose|joined: Result<Json, Fault>| #[trigger]
                delivers_later::<MemoryCtx>(h, out, joined, c0, Ok(()), c1) && may_join(
                    join,
                    bind,
                    *body,
                    private(h),
                    c0,
                    xs,
                    joined,
                );
            assert(write_text(shown(p), c0, joined->Ok_0) == Ok::<Json, Fault>(c1));
        },
        Tree::Let { at, value } => {
            let v = value_of(value, c0, h.registry)->Ok_0;
            assert(write_text(shown(p), c0, v) == Ok::<Json, Fault>(c1));
        },
        _ => {},
    }
}

/// What a let has written is what its path reads.
pub proof fn law_let_is_read_back(at: PathView, value: Term, h: Host<Json>, c0: Json, c1: Json)
    requires
        possible(at),
        may::<MemoryCtx>((Tree::Let { at, value }), h, c0, Ok(()), c1),
    ensures
        value_of(value, c0, h.registry) is Ok,
        read_at(at, c1) == value_of(value, c0, h.registry),
{
    law_path_round_trip(at);
    let v = value_of(value, c0, h.registry)->Ok_0;
    law_write_then_read(c0, at.keys, v);
}

/// After a loop has ended without failing, its counter tells how many rounds there were, and
/// that is no more than there could be.
pub proof fn law_loop_counts_its_rounds(
    p: PathView,
    cond: Term,
    body: Tree,
    max: u32,
    h: Host<Json>,
    c0: Json,
    c1: Json,
)
    requires
        possible(p),
        may::<MemoryCtx>(
            (Tree::Loop { counter: Term::Path(p), cond, body: Box::new(body), max }),
            h,
            c0,
            Ok(()),
            c1,
        ),
    ensures
        exists|n: nat| n <= max && read_at(p, c1) == Ok::<Json, Fault>(#[trigger] count(n)),
{
    law_path_round_trip(p);
    let (ra, sa) = choose|ra: Result<(), Fault>, sa: Json| #[trigger]
        MemoryCtx::takes(c0, shown(p), count(0), ra, sa) && match ra {
            Err(f) => Ok::<(), Fault>(()) == ra && c1 == sa,
            Ok(_) => may_loop::<MemoryCtx>(shown(p), cond, body, max, 0, h, sa, Ok(()), c1),
        };
    law_write_then_read(c0, p.keys, count(0));
    lemma_rounds_counted(p, cond, body, max, 0, h, sa, c1);
}

proof fn lemma_rounds_counted(
    p: PathView,
    cond: Term,
    body: Tree,
    max: u32,
    n: nat,
    h: Host<Json>,
    s: Json,
    c1: Json,
)
    requires
        parse_path(shown(p)) == Ok::<PathView, Seq<char>>(p),
        n <= max,
        read_at(p, s) == Ok::<Json, Fault>(count(n)),
        may_loop::<MemoryCtx>(shown(p), cond, body, max, n, h, s, Ok(()), c1),
    ensures
        exists|m: nat| m <= max && read_at(p, c1) == Ok::<Json, Fault>(#[trigger] count(m)),
    decreases max - n,
{
    let ok = Ok::<(), Fault>(());
    if n < max {
        let v = value_of(cond, s, h.registry)->Ok_0;
        if truthy(v) {
            let (ra, sa) = choose|ra: Result<(), Fault>, sa: Json| #[trigger]
                through(ra, sa) && may::<MemoryCtx>(body, h, s, ra, sa) && match ra {
                    Err(f) => ok == ra && c1 == sa,
                    Ok(_) => exists|rb: Result<(), Fault>, sb: Json| #[trigger]
                        MemoryCtx::takes(sa, shown(p), count(n + 1), rb, sb) && match rb {
                            Err(f) => ok == rb && c1 == sb,
                            Ok(_) => may_loop::<MemoryCtx>(
                                shown(p),
                                cond,
                                body,
                                max,
                                n + 1,
                                h,
                                sb,
                                ok,
                                c1,
                            ),
                        },
                };
            let (rb, sb) = choose|rb: Result<(), Fault>, sb: Json| #[trigger]
                MemoryCtx::takes(sa, shown(p), count(n + 1), rb, sb) && match rb {
                    Err(f) => ok == rb && c1 == sb,
                    Ok(_) => may_loop::<MemoryCtx>(
                        shown(p),
                        cond,
                        body,
                        max,
                        n + 1,
                        h,
                        sb,
                        ok,
                        c1,
                    ),
                };
            law_write_then_read(sa, p.keys, count(n + 1));
            lemma_rounds_counted(p, cond, body, max, n + 1, h, sb, c1);
        } else {
            assert(read_at(p, c1) == Ok::<Json, Fault>(count(n)));
        }
    } else {
        assert(read_at(p, c1) == Ok::<Json, Fault>(count(n)));
    }
}

/// Without items, a fanout that needs one branch to give the result fails, and one that
/// collects the results of all branches gives an empty array.
pub proof fn law_fanout_without_items(
    join: JoinMode,
    bind: Term,
    body: Tree,
    h: Host<Json>,
    snap: Json,
    joined: Result<Json, Fault>,
)
    requires
        may_join(join, bind, body, h, snap, Seq::empty(), joined),
    ensures
        match join {
            JoinMode::All | JoinMode::AllSettled => joined == Ok::<Json, Fault>(
                Json::Arr(Seq::empty()),
            ),
            JoinMode::Any => joined matches Err(Fault::TypeError { op, msg }) && op
                == "fanout.any"@,
            JoinMode::Race => joined matches Err(Fault::TypeError { op, msg }) && op
                == "fanout.race"@,
        },
{
}

/// A fanout that lets all branches settle does not fail: it gives one record for each item, also
/// where the items cannot be written where the branches are to find them.
pub proof fn law_settling_never_fails(
    bind: Term,
    body: Tree,
    h: Host<Json>,
    snap: Json,
    items: Seq<Json>,
    joined: Result<Json, Fault>,
)
    requires
        may_join(JoinMode::AllSettled, bind, body, h, snap, items, joined),
    ensures
        joined matches Ok(Json::Arr(rs)) && rs.len() == items.len(),
{
    if items.len() > 0 && written(bind, snap, items[0]) is Ok {
        let ctxs = starts(bind, snap, items);
        if h.concurrent {
            let rs = choose|rs: Seq<Result<Json, Fault>>| #[trigger]
                results(rs) && rs.len() == ctxs.len() && joined == Ok::<Json, Fault>(
                    Json::Arr(records(rs)),
                );
            assert(records(rs).len() == items.len());
        } else {
            lemma_settling_in_order(body, h, ctxs, Seq::empty(), joined);
        }
    }
}

proof fn lemma_settling_in_order(
    body: Tree,
    h: Host<Json>,
    ctxs: Seq<Json>,
    done: Seq<Result<Json, Fault>>,
    joined: Result<Json, Fault>,
)
    requires
        done.len() <= ctxs.len(),
        may_follow(JoinMode::AllSettled, body, h, ctxs, done, joined),
    ensures
        joined matches Ok(Json::Arr(rs)) && rs.len() == ctxs.len(),
    decreases ctxs.len() - done.len(),
{
    if done.len() < ctxs.len() {
        let x = choose|x: Result<Json, Fault>| #[trigger]
            results(done.push(x)) && may_end(body, h, ctxs[done.len() as int], x) && may_follow(
                JoinMode::AllSettled,
                body,
                h,
                ctxs,
                done.push(x),
                joined,
            );
        lemma_settling_in_order(body, h, ctxs, done.push(x), joined);
    }
}

/// A fanout that needs all branches to succeed gives one context for each item, or fails.
pub proof fn law_all_gives_a_context_per_item(
    bind: Term,
    body: Tree,
    h: Host<Json>,
    snap: Json,
    items: Seq<Json>,
    v: Json,
)
    requires
        may_join(JoinMode::All, bind, body, h, snap, items, Ok(v)),
    ensures
        v matches Json::Arr(cs) && cs.len() == items.len(),
{
    if items.len() > 0 {
        let ctxs = starts(bind, snap, items);
        if !h.concurrent {
            lemma_all_in_order(body, h, ctxs, Seq::empty(), v);
        }
    }
}

proof fn lemma_all_in_order(
    body: Tree,
    h: Host<Json>,
    ctxs: Seq<Json>,
    done: Seq<Result<Json, Fault>>,
    v: Json,
)
    requires
        done.len() <= ctxs.len(),
        may_follow(JoinMode::All, body, h, ctxs, done, Ok(v)),
    ensures
        v matches Json::Arr(cs) && cs.len() == ctxs.len(),
    decreases ctxs.len() - done.len(),
{
    if decision(JoinMode::All, ctxs.len(), done) is None {
        let x = choose|x: Result<Json, Fault>| #[trigger]
            results(done.push(x)) && may_end(body, h, ctxs[done.len() as int], x) && may_follow(
                JoinMode::All,
                body,
                h,
                ctxs,
                done.push(x),
                Ok(v),
            );
        lemma_all_in_order(body, h, ctxs, done.push(x), v);
    }
}

} // verus!
