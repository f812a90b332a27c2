//! What holds of each kind of node, from the node to the context that it leaves.

use crate::error::{fault_text, Fault};
use crate::expr::{value_of, Term};
use crate::fanout_laws::{has_bound, lemma_bound};
use crate::node::{lemma_trees, target, trees, Node, Tree};
use crate::path::{clash, possible, shown, PathView};
use crate::path_laws::law_path_round_trip;
use crate::runs::{runs, runs_to, Env};
use crate::semantics::{
    delivers, delivers_later, may, may_all, may_catch, may_end, step_result, through, undisturbed,
    Host,
};
use crate::storage::{CtxStorage, MemoryCtx};
use crate::value::Json;
use vstd::prelude::*;

verus! {

/// A branch is the node on the side that its condition says. What is no boolean takes neither side
/// and fails with the value.
pub proof fn law_branch_is_one_side(
    node: Node,
    h: Host<Json>,
    c0: Json,
    r: Result<(), Fault>,
    c1: Json,
)
    requires
        node is Branch,
    ensures
        may::<MemoryCtx>(node@, h, c0, r, c1) <==> match value_of(
            node->Branch_cond@,
            c0,
            h.registry,
        ) {
            Ok(Json::Bool(true)) => may::<MemoryCtx>(node->then_@, h, c0, r, c1),
            Ok(Json::Bool(false)) => may::<MemoryCtx>(node->else_@, h, c0, r, c1),
            Ok(v) => r == Err::<(), Fault>(Fault::NonBoolCond(v)) && c1 == c0,
            Err(f) => r == Err::<(), Fault>(f) && c1 == c0,
        },
{
    assert(MemoryCtx::shows(c0, c0));
}

/// What becomes of a context that a value is written to at a path: it has the value there, and is
/// else as it was. If something is in the way, the write fails and leaves the context as it was.
pub open spec fn is_written(
    p: PathView,
    v: Json,
    c0: Json,
    r: Result<(), Fault>,
    c1: Json,
) -> bool {
    if clash(c0, p.keys) is None {
        r is Ok && has_bound(c1, c0, p.keys, v)
    } else {
        (r matches Err(Fault::TypeError { op, msg }) && op == "path.write"@) && c1 == c0
    }
}

pub(crate) proof fn lemma_is_written(p: PathView, v: Json, c0: Json, r: Result<(), Fault>, c1: Json)
    requires
        possible(p),
        MemoryCtx::takes(c0, shown(p), v, r, c1),
    ensures
        is_written(p, v, c0, r, c1),
{
    law_path_round_trip(p);
    if clash(c0, p.keys) is None {
        lemma_bound(p, c0, v);
    }
}

/// A let writes the value of its expression at its path, and fails as the expression does.
pub proof fn law_let_writes_its_value(
    node: Node,
    h: Host<Json>,
    c0: Json,
    r: Result<(), Fault>,
    c1: Json,
)
    requires
        node is Let,
        possible(node->Let_at@),
        may::<MemoryCtx>(node@, h, c0, r, c1),
    ensures
        match value_of(node->Let_value@, c0, h.registry) {
            Ok(v) => is_written(node->Let_at@, v, c0, r, c1),
            Err(f) => r == Err::<(), Fault>(f) && c1 == c0,
        },
{
    if let Ok(v) = value_of(node->Let_value@, c0, h.registry) {
        lemma_is_written(node->Let_at@, v, c0, r, c1);
    }
}

/// A step hands the value of its input to the dispatcher under its reference, and writes what the
/// dispatcher replies. The failure of the dispatcher is reported with the reference and the
/// message; a failure changes nothing. This is so if no one else writes to the context.
pub proof fn law_step_writes_its_reply(
    node: Node,
    h: Host<Json>,
    c0: Json,
    r: Result<(), Fault>,
    c1: Json,
)
    requires
        node is Step,
        undisturbed(h),
        node->Step_out@ matches Term::Path(p) ==> possible(p),
        may::<MemoryCtx>(node@, h, c0, r, c1),
    ensures
        match value_of(node->Step_in_@, c0, h.registry) {
            Err(f) => r == Err::<(), Fault>(f) && c1 == c0,
            Ok(v) => exists|reply: Result<Json, Fault>| #[trigger]
                (h.replies)(node->Step_ref_@, v, reply) && match reply {
                    Ok(o) => match node->Step_out@ {
                        Term::Path(p) => is_written(p, o, c0, r, c1),
                        _ => (r matches Err(f) && f is InvalidPath) && c1 == c0,
                    },
                    Err(f) => r == Err::<(), Fault>(
                        Fault::DispatcherError { ref_: node->Step_ref_@, msg: fault_text(f) },
                    ) && c1 == c0,
                },
        },
{
    let (ref_, out) = (node->Step_ref_@, node->Step_out@);
    if let Ok(v) = value_of(node->Step_in_@, c0, h.registry) {
        let reply = choose|reply: Result<Json, Fault>| #[trigger]
            (h.replies)(ref_, v, reply) && delivers_later::<MemoryCtx>(
                h,
                out,
                step_result(ref_, reply),
                c0,
                r,
                c1,
            );
        let sm = choose|sm: Json| #[trigger]
            (h.meanwhile)(c0, sm) && delivers::<MemoryCtx>(
                out,
                step_result(ref_, reply),
                sm,
                r,
                c1,
            );
        assert(sm == c0);
        assert((h.replies)(ref_, v, reply));
        if let Ok(o) = reply {
            if let Term::Path(p) = out {
                lemma_is_written(p, o, c0, r, c1);
            }
        }
    }
}

/// Whether contexts are those before and after the first children of a sequence, each of which has
/// succeeded.
pub open spec fn one_by_one(
    children: Seq<Tree>,
    h: Host<Json>,
    cs: Seq<Json>,
) -> bool {
    &&& 0 < cs.len() <= children.len() + 1
    &&& forall|i: int, j: int|
        0 <= i && j == i + 1 && j < cs.len() ==> may::<MemoryCtx>(
            children[i],
            h,
            #[trigger] cs[i],
            Ok(()),
            #[trigger] cs[j],
        )
}

proof fn lemma_one_by_one(
    children: Seq<Tree>,
    h: Host<Json>,
    c0: Json,
    r: Result<(), Fault>,
    c1: Json,
) -> (cs: Seq<Json>)
    requires
        may_all::<MemoryCtx>(children, h, c0, r, c1),
    ensures
        one_by_one(children, h, cs),
        cs[0] == c0,
        match r {
            Ok(_) => cs.len() == children.len() + 1 && c1 == cs.last(),
            Err(f) => cs.len() <= children.len() && may::<MemoryCtx>(
                children[cs.len() - 1],
                h,
                cs.last(),
                Err(f),
                c1,
            ),
        },
    decreases children.len(),
{
    let here = seq![c0];
    if children.len() == 0 {
        here
    } else {
        let rest = children.drop_first();
        let (ra, sa) = choose|ra: Result<(), Fault>, sa: Json| #[trigger]
            through(ra, sa) && may::<MemoryCtx>(children[0], h, c0, ra, sa) && match ra {
                Ok(_) => may_all::<MemoryCtx>(rest, h, sa, r, c1),
                Err(f) => r == ra && c1 == sa,
            };
        match ra {
            Err(f) => here,
            Ok(u) => {
                assert(u == ());
                let more = lemma_one_by_one(rest, h, sa, r, c1);
                let cs = here + more;
                assert(cs[1] == sa);
                assert forall|i: int, j: int|
                    0 <= i && j == i + 1 && j < cs.len() implies may::<MemoryCtx>(
                    children[i],
                    h,
                    #[trigger] cs[i],
                    Ok(()),
                    #[trigger] cs[j],
                ) by {
                    if i > 0 {
                        assert(cs[i] == more[i - 1] && cs[j] == more[j - 1]);
                        assert(rest[i - 1] == children[i]);
                    }
                }
                assert(cs.last() == more.last());
                if let Err(f) = r {
                    assert(rest[more.len() - 1] == children[cs.len() - 1]);
                }
                cs
            },
        }
    }
}

/// A sequence runs its children one by one, each once and from the context that the one before it
/// left, up to the first that fails: its failure is that of the sequence.
pub proof fn law_sequence_runs_one_by_one(
    node: Node,
    h: Host<Json>,
    c0: Json,
    r: Result<(), Fault>,
    c1: Json,
) -> (cs: Seq<Json>)
    requires
        node is Sequence,
        may::<MemoryCtx>(node@, h, c0, r, c1),
    ensures
        0 < cs.len() <= node->Sequence_children@.len() + 1,
        cs[0] == c0,
        forall|i: int, j: int|
            0 <= i && j == i + 1 && j < cs.len() ==> may::<MemoryCtx>(
                node->Sequence_children@[i]@,
                h,
                #[trigger] cs[i],
                Ok(()),
                #[trigger] cs[j],
            ),
        match r {
            Ok(_) => cs.len() == node->Sequence_children@.len() + 1 && c1 == cs.last(),
            Err(f) => cs.len() <= node->Sequence_children@.len() && may::<MemoryCtx>(
                node->Sequence_children@[cs.len() - 1]@,
                h,
                cs.last(),
                Err(f),
                c1,
            ),
        },
{
    let children = node->Sequence_children@;
    lemma_trees(children);
    assert(node@ == Tree::Sequence(trees(children)));
    let cs = lemma_one_by_one(trees(children), h, c0, r, c1);
    assert forall|i: int, j: int| 0 <= i && j == i + 1 && j < cs.len() implies may::<MemoryCtx>(
        children[i]@,
        h,
        #[trigger] cs[i],
        Ok(()),
        #[trigger] cs[j],
    ) by {
        assert(trees(children)[i] == children[i]@);
    }
    if r is Err {
        assert(trees(children)[cs.len() - 1] == children[cs.len() - 1]@);
    }
    cs
}

/// Whether what follows the failure `f` of the body of a try may end with `r` and `c1`: what
/// catches it runs on the context as it was before the body, with the message where the try says.
pub open spec fn caught_ends(
    node: Node,
    h: Host<Json>,
    c0: Json,
    f: Fault,
    r: Result<(), Fault>,
    c1: Json,
) -> bool {
    match node->err_at {
        None => may::<MemoryCtx>(node->catch@, h, c0, r, c1),
        Some(at) => match at@ {
            Term::Path(p) => if clash(c0, p.keys) is None {
                exists|c: Json| #[trigger]
                    through(Ok::<(), Fault>(()), c) && has_bound(
                        c,
                        c0,
                        p.keys,
                        Json::Str(fault_text(f)),
                    ) && may::<MemoryCtx>(node->catch@, h, c, r, c1)
            } else {
                (r matches Err(Fault::TypeError { op, msg }) && op == "path.write"@) && c1 == c0
            },
            _ => (r matches Err(g) && g is InvalidPath) && c1 == c0,
        },
    }
}

/// A try whose body succeeds is its body. If the body fails, whatever it wrote is undone, the
/// message of the failure is noted where the try says, and what catches the failure decides how the
/// try ends.
pub proof fn law_try_catches_failures(
    node: Node,
    h: Host<Json>,
    c0: Json,
    r: Result<(), Fault>,
    c1: Json,
)
    requires
        node is Try,
        node->err_at matches Some(at) ==> (at@ matches Term::Path(p) ==> possible(p)),
        may::<MemoryCtx>(node@, h, c0, r, c1),
    ensures
        (r is Ok && may::<MemoryCtx>(node->Try_body@, h, c0, Ok(()), c1)) || exists|
            f: Fault,
            d: Json,
        | #[trigger]
            through(Err(f), d) && may::<MemoryCtx>(node->Try_body@, h, c0, Err(f), d)
                && caught_ends(node, h, c0, f, r, c1),
{
    let (body, catch) = (node->Try_body@, node->catch@);
    let at: Option<Term> = match node->err_at {
        Some(at) => Some(at@),
        None => None,
    };
    let (snap, ra, sa) = choose|snap: Json, ra: Result<(), Fault>, sa: Json|
        #[trigger] MemoryCtx::shows(c0, snap) && #[trigger] through(ra, sa) && may::<MemoryCtx>(
            body,
            h,
            c0,
            ra,
            sa,
        ) && match ra {
            Ok(_) => r == ra && c1 == sa,
            Err(f) => may_catch::<MemoryCtx>(catch, at, f, snap, h, sa, r, c1),
        };
    match ra {
        Ok(u) => {
            assert(u == ());
        },
        Err(f) => {
            assert(through(Err::<(), Fault>(f), sa));
            assert(may_catch::<MemoryCtx>(catch, at, f, c0, h, sa, r, c1));
            lemma_caught_ends(node, h, c0, f, sa, r, c1);
        },
    }
}

proof fn lemma_caught_ends(
    node: Node,
    h: Host<Json>,
    c0: Json,
    f: Fault,
    s: Json,
    r: Result<(), Fault>,
    c1: Json,
)
    requires
        node is Try,
        node->err_at matches Some(at) ==> (at@ matches Term::Path(p) ==> possible(p)),
        may_catch::<MemoryCtx>(
            node->catch@,
            match node->err_at {
                Some(at) => Some(at@),
                None => None,
            },
            f,
            c0,
            h,
            s,
            r,
            c1,
        ),
    ensures
        caught_ends(node, h, c0, f, r, c1),
{
    let catch = node->catch@;
    let note = Json::Str(fault_text(f));
    if let Some(at) = node->err_at {
        if let Term::Path(p) = at@ {
            law_path_round_trip(p);
            let (rb, sb) = choose|rb: Result<(), Fault>, sb: Json| #[trigger]
                MemoryCtx::takes(c0, shown(p), note, rb, sb) && match rb {
                    Err(g) => r == rb && c1 == sb,
                    Ok(_) => may::<MemoryCtx>(catch, h, sb, r, c1),
                };
            lemma_is_written(p, note, c0, rb, sb);
            assert(through(Ok::<(), Fault>(()), sb));
        }
    }
}

/// A run that is asked for the context that it leaves gives just that, or its failure.
pub proof fn law_runs_give_the_context_they_leave<W>(
    t: Tree,
    h: Host<Json>,
    env: Env<W>,
    ctx: Json,
    w0: W,
    c: Json,
    f: Fault,
    w1: W,
)
    ensures
        may_end(t, h, ctx, Ok(c)) <==> may::<MemoryCtx>(t, h, ctx, Ok(()), c),
        may_end(t, h, ctx, Err(f)) <==> exists|d: Json| #[trigger]
            through(Err(f), d) && may::<MemoryCtx>(t, h, ctx, Err(f), d),
        runs_to::<W>(t, env, ctx, w0, Ok(c), w1) <==> runs::<MemoryCtx, W>(
            t,
            env,
            ctx,
            w0,
            Ok(()),
            c,
            w1,
        ),
        runs_to::<W>(t, env, ctx, w0, Err(f), w1) <==> exists|d: Json| #[trigger]
            through(Err(f), d) && runs::<MemoryCtx, W>(t, env, ctx, w0, Err(f), d, w1),
{
}

/// A path to write to is a path, and nothing else.
pub proof fn law_only_paths_are_written_to(t: Term)
    ensures
        t matches Term::Path(p) ==> target(t) == Ok::<PathView, Fault>(p),
        !(t is Path) ==> (target(t) matches Err(f) && f is InvalidPath),
{
}

} // verus!
