//! What holds of fanouts.

use crate::error::{fault_text, value_outcomes, EvalError, Fault};
use crate::expr::{value_of, Term};
use crate::loop_laws::law_nothing_does_nothing;
use crate::node::{written, JoinMode, Node, Tree};
use crate::node_laws::{is_written, lemma_is_written};
use crate::path::{clash, possible, put, read_keys, PathView};
use crate::path_laws::{apart, law_write_leaves_the_rest, law_write_then_read};
use crate::render::json_debug;
use crate::semantics::{
    decision, delivers, delivers_later, may, may_end, may_follow, may_join, may_settle,
    private, record, records, results, starts, successes, through, unbound, undisturbed, Host,
};
use crate::storage::{CtxStorage, MemoryCtx};
use crate::value::{Json, Value};
use vstd::prelude::*;

verus! {

/// Whether a context is another one with a value at the place that keys lead to: the keys lead to
/// the value, and what lies apart is as it was.
pub open spec fn has_bound(c: Json, snap: Json, keys: Seq<Seq<char>>, item: Json) -> bool {
    &&& read_keys(c, keys) == Some(item)
    &&& forall|other: Seq<Seq<char>>| #[trigger]
        apart(keys, other) ==> read_keys(c, other) == read_keys(snap, other)
    &&& c == put(snap, keys, item)
}

/// Every branch starts from the context of the fanout with its own item where it is to find it:
/// the first branch with the first item, the last with the last.
pub proof fn law_branch_starts_with_its_item(p: PathView, snap: Json, items: Seq<Json>)
    requires
        clash(snap, p.keys) is None,
    ensures
        starts(Term::Path(p), snap, items).len() == items.len(),
        forall|i: int|
            #![trigger items[i]]
            #![trigger starts(Term::Path(p), snap, items)[i]]
            0 <= i < items.len() ==> has_bound(
                starts(Term::Path(p), snap, items)[i],
                snap,
                p.keys,
                items[i],
            ),
{
    let cs = starts(Term::Path(p), snap, items);
    assert forall|i: int| 0 <= i < items.len() implies has_bound(cs[i], snap, p.keys, items[i]) by {
        lemma_bound(p, snap, items[i]);
        assert(cs[i] == put(snap, p.keys, items[i]));
    }
}

pub(crate) proof fn lemma_bound(p: PathView, snap: Json, item: Json)
    requires
        clash(snap, p.keys) is None,
    ensures
        has_bound(put(snap, p.keys, item), snap, p.keys, item),
        written(Term::Path(p), snap, item) == Ok::<Json, Fault>(put(snap, p.keys, item)),
{
    let c = put(snap, p.keys, item);
    law_write_then_read(snap, p.keys, item);
    assert forall|other: Seq<Seq<char>>| #[trigger] apart(p.keys, other) implies read_keys(
        c,
        other,
    ) == read_keys(snap, other) by {
        law_write_leaves_the_rest(snap, p.keys, item, other);
    }
}

/// Whether a branch for an item may end with a result: it runs the body from the context with its
/// item, and gives the context that the body leaves, or its failure.
pub open spec fn branch_gives(
    p: PathView,
    body: Tree,
    h: Host<Json>,
    snap: Json,
    item: Json,
    r: Result<Json, Fault>,
) -> bool {
    exists|c: Json, d: Json| #[trigger]
        through(Ok::<(), Fault>(()), (c, d)) && has_bound(c, snap, p.keys, item) && match r {
            Ok(x) => d == x && may::<MemoryCtx>(body, h, c, Ok(()), d),
            Err(f) => may::<MemoryCtx>(body, h, c, Err(f), d),
        }
}

/// The results of branches that run in order, up to those that decide.
proof fn lemma_followed(
    join: JoinMode,
    body: Tree,
    h: Host<Json>,
    ctxs: Seq<Json>,
    done: Seq<Result<Json, Fault>>,
    joined: Result<Json, Fault>,
) -> (rs: Seq<Result<Json, Fault>>)
    requires
        done.len() <= ctxs.len(),
        may_follow(join, body, h, ctxs, done, joined),
        forall|i: int|
            #![trigger done[i]]
            0 <= i < done.len() ==> may_end(body, h, ctxs[i], done[i]),
        join == JoinMode::All ==> forall|i: int|
            0 <= i < done.len() - 1 ==> (#[trigger] done[i]) is Ok,
        join == JoinMode::Any ==> forall|i: int|
            0 <= i < done.len() - 1 ==> (#[trigger] done[i]) is Err,
        join == JoinMode::Race ==> done.len() <= 1,
    ensures
        rs.len() <= ctxs.len(),
        decision(join, ctxs.len(), rs) == Some(joined),
        forall|i: int| #![trigger rs[i]] 0 <= i < rs.len() ==> may_end(body, h, ctxs[i], rs[i]),
        join == JoinMode::All ==> forall|i: int|
            0 <= i < rs.len() - 1 ==> (#[trigger] rs[i]) is Ok,
        join == JoinMode::Any ==> forall|i: int|
            0 <= i < rs.len() - 1 ==> (#[trigger] rs[i]) is Err,
        join == JoinMode::Race ==> rs.len() <= 1,
    decreases ctxs.len() - done.len(),
{
    if decision(join, ctxs.len(), done) is Some {
        done
    } else {
        let n = done.len() as int;
        let x = choose|x: Result<Json, Fault>| #[trigger]
            results(done.push(x)) && may_end(body, h, ctxs[n], x) && may_follow(
                join,
                body,
                h,
                ctxs,
                done.push(x),
                joined,
            );
        let more = done.push(x);
        assert forall|i: int| #![trigger more[i]] 0 <= i < more.len() implies may_end(
            body,
            h,
            ctxs[i],
            more[i],
        ) by {
            if i < n {
                assert(more[i] == done[i]);
            }
        }
        if n > 0 {
            assert(done.last() == done[n - 1]);
        }
        assert forall|i: int| join == JoinMode::All && 0 <= i < more.len() - 1 implies (
        #[trigger] more[i]) is Ok by {
            assert(more[i] == done[i]);
        }
        assert forall|i: int| join == JoinMode::Any && 0 <= i < more.len() - 1 implies (
        #[trigger] more[i]) is Err by {
            assert(more[i] == done[i]);
        }
        lemma_followed(join, body, h, ctxs, more, joined)
    }
}

proof fn lemma_branch(
    p: PathView,
    body: Tree,
    h: Host<Json>,
    snap: Json,
    items: Seq<Json>,
    i: int,
    r: Result<Json, Fault>,
)
    requires
        clash(snap, p.keys) is None,
        0 <= i < items.len(),
        may_end(body, h, starts(Term::Path(p), snap, items)[i], r),
    ensures
        branch_gives(p, body, h, snap, items[i], r),
{
    law_branch_starts_with_its_item(p, snap, items);
    let c = starts(Term::Path(p), snap, items)[i];
    assert(has_bound(c, snap, p.keys, items[i]));
    match r {
        Ok(x) => {
            assert(through(Ok::<(), Fault>(()), (c, x)));
        },
        Err(f) => {
            let d = choose|d: Json| #[trigger]
                through(Err(f), d) && may::<MemoryCtx>(body, h, c, Err(f), d);
            assert(through(Ok::<(), Fault>(()), (c, d)));
        },
    }
}

/// Whether a branch for an item may succeed.
pub open spec fn may_succeed(
    p: PathView,
    body: Tree,
    h: Host<Json>,
    snap: Json,
    item: Json,
) -> bool {
    exists|c: Json| #[trigger] branch_gives(p, body, h, snap, item, Ok(c))
}

/// Whether a branch for an item may fail.
pub open spec fn may_fail(p: PathView, body: Tree, h: Host<Json>, snap: Json, item: Json) -> bool {
    exists|f: Fault| #[trigger] branch_gives(p, body, h, snap, item, Err(f))
}

/// The branches of a fanout that has items which can be written.
proof fn lemma_joined(
    join: JoinMode,
    p: PathView,
    body: Tree,
    h: Host<Json>,
    snap: Json,
    items: Seq<Json>,
    joined: Result<Json, Fault>,
)
    requires
        items.len() > 0,
        clash(snap, p.keys) is None,
        may_join(join, Term::Path(p), body, h, snap, items, joined),
    ensures
        h.concurrent ==> may_settle(join, body, h, starts(Term::Path(p), snap, items), joined),
        !h.concurrent ==> may_follow(
            join,
            body,
            h,
            starts(Term::Path(p), snap, items),
            Seq::empty(),
            joined,
        ),
        starts(Term::Path(p), snap, items).len() == items.len(),
{
    lemma_bound(p, snap, items[0]);
}

/// A fanout that needs all branches gives, in the place of each item, what the branch for that item
/// ends with. It fails as some branch does; if branches run in order, those before it succeed.
pub proof fn law_all_joins_every_branch(
    p: PathView,
    body: Tree,
    h: Host<Json>,
    snap: Json,
    items: Seq<Json>,
    joined: Result<Json, Fault>,
)
    requires
        clash(snap, p.keys) is None,
        may_join(JoinMode::All, Term::Path(p), body, h, snap, items, joined),
    ensures
        match joined {
            Ok(v) => v matches Json::Arr(cs) && cs.len() == items.len() && forall|i: int|
                #![trigger items[i]]
                0 <= i < items.len() ==> branch_gives(p, body, h, snap, items[i], Ok(cs[i])),
            Err(f) => exists|i: int|
                0 <= i < items.len() && branch_gives(
                    p,
                    body,
                    h,
                    snap,
                    #[trigger] items[i],
                    Err(f),
                ) && (!h.concurrent ==> forall|j: int|
                    0 <= j < i ==> may_succeed(p, body, h, snap, #[trigger] items[j])),
        },
{
    let ctxs = starts(Term::Path(p), snap, items);
    if items.len() > 0 {
        lemma_joined(JoinMode::All, p, body, h, snap, items, joined);
        if h.concurrent {
            lemma_all_at_once(p, body, h, snap, items, joined);
        } else {
            let rs = lemma_followed(JoinMode::All, body, h, ctxs, Seq::empty(), joined);
            assert forall|i: int| 0 <= i < rs.len() implies branch_gives(
                p,
                body,
                h,
                snap,
                items[i],
                #[trigger] rs[i],
            ) by {
                lemma_branch(p, body, h, snap, items, i, rs[i]);
            }
            let k = rs.len() - 1;
            assert(rs.last() == rs[k]);
            match joined {
                Ok(v) => {
                    let cs = successes(rs);
                    assert forall|i: int|
                        #![trigger items[i]]
                        0 <= i < items.len() implies branch_gives(
                        p,
                        body,
                        h,
                        snap,
                        items[i],
                        Ok(cs[i]),
                    ) by {
                        assert(rs[i] is Ok);
                        assert(rs[i] == Ok::<Json, Fault>(cs[i]));
                    }
                },
                Err(f) => {
                    assert(rs[k] == Err::<Json, Fault>(f));
                    assert forall|j: int| 0 <= j < k implies may_succeed(
                        p,
                        body,
                        h,
                        snap,
                        #[trigger] items[j],
                    ) by {
                        assert(rs[j] is Ok);
                        assert(branch_gives(p, body, h, snap, items[j], Ok(rs[j]->Ok_0)));
                    }
                    assert(branch_gives(p, body, h, snap, items[k], Err(f)));
                },
            }
        }
    }
}

proof fn lemma_all_at_once(
    p: PathView,
    body: Tree,
    h: Host<Json>,
    snap: Json,
    items: Seq<Json>,
    joined: Result<Json, Fault>,
)
    requires
        clash(snap, p.keys) is None,
        starts(Term::Path(p), snap, items).len() == items.len(),
        may_settle(JoinMode::All, body, h, starts(Term::Path(p), snap, items), joined),
    ensures
        match joined {
            Ok(v) => v matches Json::Arr(cs) && cs.len() == items.len() && forall|i: int|
                #![trigger items[i]]
                0 <= i < items.len() ==> branch_gives(p, body, h, snap, items[i], Ok(cs[i])),
            Err(f) => exists|i: int|
                0 <= i < items.len() && branch_gives(
                    p,
                    body,
                    h,
                    snap,
                    #[trigger] items[i],
                    Err(f),
                ),
        },
{
    let ctxs = starts(Term::Path(p), snap, items);
    match joined {
        Ok(v) => {
            let cs = v->Arr_0;
            assert forall|i: int| #![trigger items[i]] 0 <= i < items.len() implies branch_gives(
                p,
                body,
                h,
                snap,
                items[i],
                Ok(cs[i]),
            ) by {
                assert(may_end(body, h, ctxs[i], Ok(cs[i])));
                lemma_branch(p, body, h, snap, items, i, Ok(cs[i]));
            }
        },
        Err(f) => {
            let i = choose|i: int|
                #![trigger ctxs[i]]
                0 <= i < ctxs.len() && may_end(body, h, ctxs[i], Err(f));
            lemma_branch(p, body, h, snap, items, i, Err(f));
        },
    }
}

/// Whether a value is the record of a result: that it is fulfilled and the context, or that it is
/// rejected and the message, and nothing more.
pub open spec fn tells_of(v: Json, r: Result<Json, Fault>) -> bool {
    v matches Json::Obj(m) && match r {
        Ok(c) => {
            &&& m.dom() =~= set!["status"@, "value"@]
            &&& m["status"@] == Json::Str("fulfilled"@)
            &&& m["value"@] == c
        },
        Err(f) => {
            &&& m.dom() =~= set!["status"@, "reason"@]
            &&& m["status"@] == Json::Str("rejected"@)
            &&& m["reason"@] == Json::Str(fault_text(f))
        },
    }
}

/// The record of a result tells of it.
pub proof fn law_records_tell(r: Result<Json, Fault>)
    ensures
        tells_of(record(r), r),
{
    reveal_strlit("status");
    reveal_strlit("value");
    reveal_strlit("reason");
    assert("status"@.len() != "value"@.len());
    assert("status"@[0] != "reason"@[0]);
}

/// A fanout that lets all branches settle gives, in the place of each item, the record of what the
/// branch for that item ends with.
pub proof fn law_settling_records_every_branch(
    p: PathView,
    body: Tree,
    h: Host<Json>,
    snap: Json,
    items: Seq<Json>,
    joined: Result<Json, Fault>,
) -> (rs: Seq<Result<Json, Fault>>)
    requires
        clash(snap, p.keys) is None,
        may_join(JoinMode::AllSettled, Term::Path(p), body, h, snap, items, joined),
    ensures
        rs.len() == items.len(),
        joined matches Ok(Json::Arr(vs)) && vs.len() == items.len() && forall|i: int|
            #![trigger vs[i]]
            0 <= i < items.len() ==> tells_of(vs[i], rs[i]),
        forall|i: int|
            #![trigger items[i]]
            0 <= i < items.len() ==> branch_gives(p, body, h, snap, items[i], rs[i]),
{
    let ctxs = starts(Term::Path(p), snap, items);
    if items.len() == 0 {
        Seq::empty()
    } else {
        lemma_joined(JoinMode::AllSettled, p, body, h, snap, items, joined);
        let rs = if h.concurrent {
            lemma_settled_results(body, h, ctxs, joined)
        } else {
            lemma_followed(JoinMode::AllSettled, body, h, ctxs, Seq::empty(), joined)
        };
        let vs = records(rs);
        assert forall|i: int| #![trigger vs[i]] 0 <= i < items.len() implies tells_of(
            vs[i],
            rs[i],
        ) by {
            law_records_tell(rs[i]);
        }
        assert forall|i: int| #![trigger items[i]] 0 <= i < items.len() implies branch_gives(
            p,
            body,
            h,
            snap,
            items[i],
            rs[i],
        ) by {
            assert(may_end(body, h, ctxs[i], rs[i]));
            lemma_branch(p, body, h, snap, items, i, rs[i]);
        }
        rs
    }
}

/// The results of branches that run at the same time and settle.
proof fn lemma_settled_results(
    body: Tree,
    h: Host<Json>,
    ctxs: Seq<Json>,
    joined: Result<Json, Fault>,
) -> (rs: Seq<Result<Json, Fault>>)
    requires
        may_settle(JoinMode::AllSettled, body, h, ctxs, joined),
    ensures
        rs.len() == ctxs.len(),
        joined == Ok::<Json, Fault>(Json::Arr(records(rs))),
        forall|i: int|
            #![trigger ctxs[i]]
            #![trigger rs[i]]
            0 <= i < ctxs.len() ==> may_end(body, h, ctxs[i], rs[i]),
{
    let rs = choose|rs: Seq<Result<Json, Fault>>| #[trigger]
        results(rs) && rs.len() == ctxs.len() && joined == Ok::<Json, Fault>(
            Json::Arr(records(rs)),
        ) && forall|i: int|
            #![trigger ctxs[i]]
            0 <= i < ctxs.len() ==> may_end(body, h, ctxs[i], rs[i]);
    assert forall|i: int|
        #![trigger ctxs[i]]
        #![trigger rs[i]]
        0 <= i < ctxs.len() implies may_end(body, h, ctxs[i], rs[i]) by {
        let c = ctxs[i];
    }
    rs
}

/// Whether a branch may end with a result that is a failure.
spec fn fails_with(body: Tree, h: Host<Json>, c: Json, r: Result<Json, Fault>) -> bool {
    r is Err && may_end(body, h, c, r)
}

/// The results of branches that run at the same time and all fail.
proof fn lemma_failed_results(body: Tree, h: Host<Json>, ctxs: Seq<Json>, g: Fault) -> (r: (
    Seq<Result<Json, Fault>>,
    int,
))
    requires
        may_settle(JoinMode::Any, body, h, ctxs, Err(g)),
    ensures
        r.0.len() == ctxs.len(),
        0 <= r.1 < ctxs.len(),
        r.0[r.1] == Err::<Json, Fault>(g),
        forall|i: int|
            #![trigger ctxs[i]]
            #![trigger r.0[i]]
            0 <= i < ctxs.len() ==> r.0[i] is Err && may_end(body, h, ctxs[i], r.0[i]),
{
    let (rs, k) = choose|rs: Seq<Result<Json, Fault>>, j: int| #[trigger]
        results(rs) && rs.len() == ctxs.len() && 0 <= j < rs.len() && #[trigger] rs[j] == Err::<
            Json,
            Fault,
        >(g) && forall|i: int|
            #![trigger ctxs[i]]
            0 <= i < ctxs.len() ==> fails_with(body, h, ctxs[i], rs[i]);
    assert forall|i: int|
        #![trigger ctxs[i]]
        #![trigger rs[i]]
        0 <= i < ctxs.len() implies rs[i] is Err && may_end(body, h, ctxs[i], rs[i]) by {
        assert(fails_with(body, h, ctxs[i], rs[i]));
    }
    (rs, k)
}

/// A fanout that needs one branch gives what a branch for some item ends with; if branches run in
/// order, those before it fail. It fails only where all branches do, as one of them does; if
/// branches run in order, as the last one does.
pub proof fn law_any_joins_the_first_success(
    p: PathView,
    body: Tree,
    h: Host<Json>,
    snap: Json,
    items: Seq<Json>,
    joined: Result<Json, Fault>,
)
    requires
        items.len() > 0,
        clash(snap, p.keys) is None,
        may_join(JoinMode::Any, Term::Path(p), body, h, snap, items, joined),
    ensures
        match joined {
            Ok(c) => exists|i: int|
                0 <= i < items.len() && branch_gives(
                    p,
                    body,
                    h,
                    snap,
                    #[trigger] items[i],
                    Ok(c),
                ) && (!h.concurrent ==> forall|j: int|
                    0 <= j < i ==> may_fail(p, body, h, snap, #[trigger] items[j])),
            Err(g) => (forall|j: int|
                0 <= j < items.len() ==> may_fail(p, body, h, snap, #[trigger] items[j]))
                && exists|i: int|
                0 <= i < items.len() && branch_gives(
                    p,
                    body,
                    h,
                    snap,
                    #[trigger] items[i],
                    Err(g),
                ) && (!h.concurrent ==> i == items.len() - 1),
        },
{
    let ctxs = starts(Term::Path(p), snap, items);
    lemma_joined(JoinMode::Any, p, body, h, snap, items, joined);
    if h.concurrent {
        lemma_any_at_once(p, body, h, snap, items, joined);
    } else {
        let rs = lemma_followed(JoinMode::Any, body, h, ctxs, Seq::empty(), joined);
        let k = rs.len() - 1;
        assert(rs.last() == rs[k]);
        assert(rs[k] == joined);
        assert forall|i: int| 0 <= i < rs.len() implies branch_gives(
            p,
            body,
            h,
            snap,
            items[i],
            #[trigger] rs[i],
        ) by {
            lemma_branch(p, body, h, snap, items, i, rs[i]);
        }
        assert forall|j: int| 0 <= j < k implies may_fail(
            p,
            body,
            h,
            snap,
            #[trigger] items[j],
        ) by {
            assert(rs[j] is Err);
            assert(branch_gives(p, body, h, snap, items[j], Err(rs[j]->Err_0)));
        }
        assert(branch_gives(p, body, h, snap, items[k], joined));
        if let Err(g) = joined {
            assert(k == items.len() - 1);
            assert(branch_gives(p, body, h, snap, items[k], Err(g)));
            assert(may_fail(p, body, h, snap, items[k]));
        }
    }
}

proof fn lemma_any_at_once(
    p: PathView,
    body: Tree,
    h: Host<Json>,
    snap: Json,
    items: Seq<Json>,
    joined: Result<Json, Fault>,
)
    requires
        clash(snap, p.keys) is None,
        starts(Term::Path(p), snap, items).len() == items.len(),
        may_settle(JoinMode::Any, body, h, starts(Term::Path(p), snap, items), joined),
    ensures
        match joined {
            Ok(c) => exists|i: int|
                0 <= i < items.len() && branch_gives(
                    p,
                    body,
                    h,
                    snap,
                    #[trigger] items[i],
                    Ok(c),
                ),
            Err(g) => (forall|j: int|
                0 <= j < items.len() ==> may_fail(p, body, h, snap, #[trigger] items[j]))
                && exists|i: int|
                0 <= i < items.len() && branch_gives(
                    p,
                    body,
                    h,
                    snap,
                    #[trigger] items[i],
                    Err(g),
                ),
        },
{
    let ctxs = starts(Term::Path(p), snap, items);
    match joined {
        Ok(c) => {
            let i = choose|i: int|
                #![trigger ctxs[i]]
                0 <= i < ctxs.len() && may_end(body, h, ctxs[i], Ok(c));
            assert(0 <= i < ctxs.len() && may_end(body, h, ctxs[i], Ok(c)));
            lemma_branch(p, body, h, snap, items, i, Ok(c));
            assert(branch_gives(p, body, h, snap, items[i], Ok(c)));
        },
        Err(g) => {
            let (rs, k) = lemma_failed_results(body, h, ctxs, g);
            assert forall|j: int| 0 <= j < items.len() implies may_fail(
                p,
                body,
                h,
                snap,
                #[trigger] items[j],
            ) by {
                assert(may_end(body, h, ctxs[j], rs[j]));
                lemma_branch(p, body, h, snap, items, j, rs[j]);
                assert(branch_gives(p, body, h, snap, items[j], Err(rs[j]->Err_0)));
            }
            assert(may_end(body, h, ctxs[k], rs[k]));
            lemma_branch(p, body, h, snap, items, k, rs[k]);
        },
    }
}

/// A race ends as a branch for some item does; if branches run in order, as the one for the first
/// item does.
pub proof fn law_race_ends_as_a_branch(
    p: PathView,
    body: Tree,
    h: Host<Json>,
    snap: Json,
    items: Seq<Json>,
    joined: Result<Json, Fault>,
)
    requires
        items.len() > 0,
        clash(snap, p.keys) is None,
        may_join(JoinMode::Race, Term::Path(p), body, h, snap, items, joined),
    ensures
        exists|i: int|
            0 <= i < items.len() && branch_gives(p, body, h, snap, #[trigger] items[i], joined) && (
            !h.concurrent ==> i == 0),
{
    let ctxs = starts(Term::Path(p), snap, items);
    lemma_joined(JoinMode::Race, p, body, h, snap, items, joined);
    if h.concurrent {
        let i = choose|i: int|
            #![trigger ctxs[i]]
            0 <= i < ctxs.len() && may_end(body, h, ctxs[i], joined);
        lemma_branch(p, body, h, snap, items, i, joined);
    } else {
        let rs = lemma_followed(JoinMode::Race, body, h, ctxs, Seq::empty(), joined);
        assert(rs.last() == rs[0]);
        assert(rs[0] == joined);
        assert(may_end(body, h, ctxs[0], rs[0]));
        lemma_branch(p, body, h, snap, items, 0, rs[0]);
    }
}

/// Whether a fault is that of items that cannot be written where an expression says.
pub open spec fn unbound_fault(bind: Term, f: Fault) -> bool {
    match bind {
        Term::Path(_) => f matches Fault::TypeError { op, msg } && op == "path.write"@,
        _ => f is InvalidPath,
    }
}

/// Whether a value is the record of such a fault.
pub open spec fn tells_of_unbound(v: Json, bind: Term) -> bool {
    exists|f: Fault| #[trigger] unbound_fault(bind, f) && tells_of(v, Err(f))
}

/// Where the items cannot be written where the branches are to find them, no branch runs: each
/// settles with that failure, and the other ways to join fail with it.
pub proof fn law_unbound_items_fail(
    join: JoinMode,
    bind: Term,
    body: Tree,
    h: Host<Json>,
    snap: Json,
    items: Seq<Json>,
    joined: Result<Json, Fault>,
)
    requires
        items.len() > 0,
        match bind {
            Term::Path(p) => clash(snap, p.keys) is Some,
            _ => true,
        },
        may_join(join, bind, body, h, snap, items, joined),
    ensures
        join == JoinMode::AllSettled ==> (joined matches Ok(Json::Arr(vs)) && vs.len()
            == items.len() && forall|i: int|
            #![trigger vs[i]]
            0 <= i < items.len() ==> tells_of_unbound(vs[i], bind)),
        join != JoinMode::AllSettled ==> (joined matches Err(f) && unbound_fault(bind, f)),
{
    assert(written(bind, snap, items[0]) is Err);
    if join == JoinMode::AllSettled {
        let us = unbound(bind, snap, items);
        let vs = records(us);
        assert(joined == Ok::<Json, Fault>(Json::Arr(vs)));
        assert forall|i: int| #![trigger vs[i]] 0 <= i < items.len() implies tells_of_unbound(
            vs[i],
            bind,
        ) by {
            let f = written(bind, snap, items[i])->Err_0;
            assert(us[i] == Err::<Json, Fault>(f));
            assert(vs[i] == record(us[i]));
            law_records_tell(us[i]);
            assert(unbound_fault(bind, f));
        }
    }
}

/// Whether a joined result may lead a fanout from one context to an end: it is written where the
/// fanout says, or the fanout fails.
pub open spec fn is_joined(
    out: Term,
    joined: Result<Json, Fault>,
    c0: Json,
    r: Result<(), Fault>,
    c1: Json,
) -> bool {
    match joined {
        Ok(v) => match out {
            Term::Path(q) => is_written(q, v, c0, r, c1),
            _ => (r matches Err(f) && f is InvalidPath) && c1 == c0,
        },
        Err(f) => r == Err::<(), Fault>(f) && c1 == c0,
    }
}

/// A fanout whose items are an array writes what its branches join to, once, and passes on their
/// failure; what is no array fails, and so does what has no value. If no one else writes to the
/// context, a failure leaves it as it was.
pub proof fn law_fanout_writes_what_its_branches_join_to(
    node: Node,
    h: Host<Json>,
    c0: Json,
    r: Result<(), Fault>,
    c1: Json,
)
    requires
        node is Fanout,
        node->Fanout_out@ matches Term::Path(q) ==> possible(q),
        undisturbed(h),
        may::<MemoryCtx>(node@, h, c0, r, c1),
    ensures
        match value_of(node->Fanout_items@, c0, h.registry) {
            Err(f) => r == Err::<(), Fault>(f) && c1 == c0,
            Ok(Json::Arr(items)) => exists|joined: Result<Json, Fault>| #[trigger]
                may_join(
                    node->Fanout_join,
                    node->Fanout_bind@,
                    node->Fanout_body@,
                    private(h),
                    c0,
                    items,
                    joined,
                ) && is_joined(node->Fanout_out@, joined, c0, r, c1),
            Ok(v) => r == Err::<(), Fault>(
                Fault::TypeError {
                    op: "fanout.items"@,
                    msg: "expected array, got "@ + json_debug(v),
                },
            ) && c1 == c0,
        },
{
    let out = node->Fanout_out@;
    if let Ok(Json::Arr(items)) = value_of(node->Fanout_items@, c0, h.registry) {
        let joined = choose|joined: Result<Json, Fault>| #[trigger]
            delivers_later::<MemoryCtx>(h, out, joined, c0, r, c1) && may_join(
                node->Fanout_join,
                node->Fanout_bind@,
                node->Fanout_body@,
                private(h),
                c0,
                items,
                joined,
            );
        let sm = choose|sm: Json| #[trigger]
            (h.meanwhile)(c0, sm) && delivers::<MemoryCtx>(out, joined, sm, r, c1);
        assert(sm == c0);
        if let Ok(v) = joined {
            if let Term::Path(q) = out {
                lemma_is_written(q, v, c0, r, c1);
            }
        }
        assert(may_join(
            node->Fanout_join,
            node->Fanout_bind@,
            node->Fanout_body@,
            private(h),
            c0,
            items,
            joined,
        ));
    }
}

/// The branches of a fanout have the replies and the functions of their run and run as it says, but
/// contexts of their own: no one else writes to them.
pub proof fn law_branches_have_contexts_of_their_own<T>(h: Host<T>, a: Json, b: Json)
    ensures
        private(h).replies == h.replies,
        private(h).registry == h.registry,
        private(h).concurrent == h.concurrent,
        (private(h).meanwhile)(a, b) <==> a == b,
{
}

/// Joining settled results gives their records, each in its place.
pub proof fn law_settled_results_keep_their_places(s: Seq<Result<Value, EvalError>>)
    ensures
        records(value_outcomes(s)).len() == s.len(),
        forall|i: int|
            #![trigger s[i]]
            0 <= i < s.len() ==> tells_of(
                records(value_outcomes(s))[i],
                match s[i] {
                    Ok(v) => Ok(v@),
                    Err(e) => Err(e@),
                },
            ),
{
    let rs = value_outcomes(s);
    assert forall|i: int| #![trigger s[i]] 0 <= i < s.len() implies tells_of(
        records(rs)[i],
        match s[i] {
            Ok(v) => Ok(v@),
            Err(e) => Err(e@),
        },
    ) by {
        law_records_tell(rs[i]);
    }
}

/// A fanout whose branches do nothing succeeds, and gives for each item the context with that item
/// where the branch finds it.
pub proof fn law_idle_branches_give_back_their_items(
    p: PathView,
    body: Node,
    h: Host<Json>,
    snap: Json,
    items: Seq<Json>,
    joined: Result<Json, Fault>,
)
    requires
        clash(snap, p.keys) is None,
        body is Sequence,
        body->Sequence_children@.len() == 0,
        may_join(JoinMode::All, Term::Path(p), body@, h, snap, items, joined),
    ensures
        joined matches Ok(Json::Arr(cs)) && cs.len() == items.len() && forall|i: int|
            #![trigger cs[i]]
            #![trigger items[i]]
            0 <= i < items.len() ==> read_keys(cs[i], p.keys) == Some(items[i]) && cs[i] == put(
                snap,
                p.keys,
                items[i],
            ),
{
    law_all_joins_every_branch(p, body@, h, snap, items, joined);
    match joined {
        Ok(v) => {
            let cs = v->Arr_0;
            assert forall|i: int|
                #![trigger cs[i]]
                #![trigger items[i]]
                0 <= i < items.len() implies read_keys(cs[i], p.keys) == Some(items[i]) && cs[i]
                == put(snap, p.keys, items[i]) by {
                assert(branch_gives(p, body@, h, snap, items[i], Ok(cs[i])));
                let (c, d) = choose|c: Json, d: Json| #[trigger]
                    through(Ok::<(), Fault>(()), (c, d)) && has_bound(c, snap, p.keys, items[i])
                        && d == cs[i] && may::<MemoryCtx>(body@, h, c, Ok(()), d);
                law_nothing_does_nothing(body, h, c, Ok(()), cs[i]);
            }
        },
        Err(f) => {
            let i = choose|i: int|
                0 <= i < items.len() && branch_gives(
                    p,
                    body@,
                    h,
                    snap,
                    #[trigger] items[i],
                    Err(f),
                );
            let (c, d) = choose|c: Json, d: Json| #[trigger]
                through(Ok::<(), Fault>(()), (c, d)) && has_bound(c, snap, p.keys, items[i])
                    && may::<MemoryCtx>(body@, h, c, Err(f), d);
            law_nothing_does_nothing(body, h, c, Err(f), d);
        },
    }
}

} // verus!
