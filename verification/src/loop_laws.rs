//! What holds of loops.

use crate::arith_laws::{gives_int, law_small_integers_compare_as_integers};
use crate::error::Fault;
use crate::expr::{truthy, value_of, Expr, Term};
use crate::node::{trees, Node, Tree};
use crate::operator_laws::{counts_as_false, counts_as_true, gives};
use crate::path::{clash, possible, put, read_keys, shown, PathView};
use crate::path_laws::{law_last_write_counts, law_path_round_trip, law_write_then_read};
use crate::semantics::{count, may, may_all, may_loop, through, Host};
use crate::storage::{CtxStorage, MemoryCtx};
use crate::value::{Json, Number};
use vstd::prelude::*;

verus! {

/// An integer as a value.
pub open spec fn integer(n: int) -> Json {
    Json::Num(Number::PosInt(n as u64))
}

/// Whether a path leads to an integer.
pub open spec fn tells(ctx: Json, keys: Seq<Seq<char>>, n: int) -> bool {
    read_keys(ctx, keys) matches Some(Json::Num(Number::PosInt(i))) && i as int == n
}

/// Whether a round may lead from one context to the next: its condition counts as true, its body
/// succeeds, and then the counter is set.
pub open spec fn round(
    keys: Seq<Seq<char>>,
    cond: Term,
    body: Tree,
    h: Host<Json>,
    a: Json,
    b: Json,
    n: int,
) -> bool {
    counts_as_true(value_of(cond, a, h.registry)) && exists|d: Json| #[trigger]
        through(Ok::<(), Fault>(()), d) && may::<MemoryCtx>(body, h, a, Ok(()), d) && clash(
            d,
            keys,
        ) is None && b == put(d, keys, integer(n))
}

/// Whether contexts are those before the first round of a loop and after each finished round, from
/// the one with `n` finished rounds on.
pub open spec fn rounds(
    keys: Seq<Seq<char>>,
    cond: Term,
    body: Tree,
    h: Host<Json>,
    cs: Seq<Json>,
    n: int,
) -> bool {
    &&& cs.len() > 0
    &&& forall|i: int| 0 <= i < cs.len() ==> tells(#[trigger] cs[i], keys, n + i)
    &&& forall|i: int, j: int|
        0 <= i && j == i + 1 && j < cs.len() ==> round(
            keys,
            cond,
            body,
            h,
            #[trigger] cs[i],
            #[trigger] cs[j],
            n + j,
        )
}

/// Whether a loop may end with `r` and the context `c1` after `k` finished rounds that have led to
/// the context `c`.
pub open spec fn loop_stops(
    keys: Seq<Seq<char>>,
    cond: Term,
    body: Tree,
    max: u32,
    h: Host<Json>,
    c: Json,
    k: int,
    r: Result<(), Fault>,
    c1: Json,
) -> bool {
    match r {
        Ok(_) => c1 == c && (k == max || counts_as_false(value_of(cond, c, h.registry))),
        Err(f) => k < max && ({
            ||| value_of(cond, c, h.registry) == Err::<Json, Fault>(f) && c1 == c
            ||| counts_as_true(value_of(cond, c, h.registry)) && may::<MemoryCtx>(
                body,
                h,
                c,
                Err(f),
                c1,
            )
            ||| counts_as_true(value_of(cond, c, h.registry)) && may::<MemoryCtx>(
                body,
                h,
                c,
                Ok(()),
                c1,
            ) && clash(c1, keys) is Some && (f matches Fault::TypeError { op, msg } && op
                == "path.write"@)
        }),
    }
}

proof fn lemma_rounds(
    p: PathView,
    cond: Term,
    body: Tree,
    max: u32,
    n: nat,
    h: Host<Json>,
    s: Json,
    r: Result<(), Fault>,
    c1: Json,
) -> (cs: Seq<Json>)
    requires
        possible(p),
        n <= max,
        tells(s, p.keys, n as int),
        may_loop::<MemoryCtx>(shown(p), cond, body, max, n, h, s, r, c1),
    ensures
        rounds(p.keys, cond, body, h, cs, n as int),
        cs[0] == s,
        n + cs.len() - 1 <= max,
        loop_stops(p.keys, cond, body, max, h, cs.last(), n + cs.len() - 1, r, c1),
    decreases max - n,
{
    let keys = p.keys;
    let here = seq![s];
    assert(here.last() == s);
    if n >= max {
        here
    } else {
        assert(MemoryCtx::shows(s, s));
        match value_of(cond, s, h.registry) {
            Err(f) => here,
            Ok(v) => if !truthy(v) {
                here
            } else {
                law_path_round_trip(p);
                let (ra, sa) = choose|ra: Result<(), Fault>, sa: Json| #[trigger]
                    through(ra, sa) && may::<MemoryCtx>(body, h, s, ra, sa) && match ra {
                        Err(f) => r == ra && c1 == sa,
                        Ok(_) => exists|rb: Result<(), Fault>, sb: Json| #[trigger]
                            MemoryCtx::takes(sa, shown(p), count(n + 1), rb, sb) && match rb {
                                Err(f) => r == rb && c1 == sb,
                                Ok(_) => may_loop::<MemoryCtx>(
                                    shown(p),
                                    cond,
                                    body,
                                    max,
                                    n + 1,
                                    h,
                                    sb,
                                    r,
                                    c1,
                                ),
                            },
                    };
                match ra {
                    Err(f) => here,
                    Ok(u) => {
                        assert(u == ());
                        let (rb, sb) = choose|rb: Result<(), Fault>, sb: Json| #[trigger]
                            MemoryCtx::takes(sa, shown(p), count(n + 1), rb, sb) && match rb {
                                Err(f) => r == rb && c1 == sb,
                                Ok(_) => may_loop::<MemoryCtx>(
                                    shown(p),
                                    cond,
                                    body,
                                    max,
                                    n + 1,
                                    h,
                                    sb,
                                    r,
                                    c1,
                                ),
                            };
                        if rb is Ok {
                            law_write_then_read(sa, keys, count(n + 1));
                            assert(count(n + 1) == integer((n + 1) as int));
                            let rest = lemma_rounds(p, cond, body, max, n + 1, h, sb, r, c1);
                            let cs = here + rest;
                            assert(through(Ok::<(), Fault>(()), sa));
                            assert(round(keys, cond, body, h, s, sb, (n + 1) as int));
                            assert forall|i: int| 0 <= i < cs.len() implies tells(
                                #[trigger] cs[i],
                                keys,
                                n + i,
                            ) by {
                                if i > 0 {
                                    assert(cs[i] == rest[i - 1]);
                                }
                            }
                            assert forall|i: int, j: int|
                                0 <= i && j == i + 1 && j < cs.len() implies round(
                                keys,
                                cond,
                                body,
                                h,
                                #[trigger] cs[i],
                                #[trigger] cs[j],
                                n + j,
                            ) by {
                                if i > 0 {
                                    assert(cs[i] == rest[i - 1] && cs[j] == rest[j - 1]);
                                    assert(round(
                                        keys,
                                        cond,
                                        body,
                                        h,
                                        rest[i - 1],
                                        rest[j - 1],
                                        n + 1 + (j - 1),
                                    ));
                                }
                            }
                            assert(cs.last() == rest.last());
                            cs
                        } else {
                            here
                        }
                    },
                }
            },
        }
    }
}

/// What a loop does: it sets its counter to zero; as long as its condition counts as true and there
/// have been fewer rounds than there may be, it runs its body once and sets its counter to the
/// number of finished rounds, the very integer. So before round `k` the counter reads `k`, and at
/// the end it reads how many rounds there were.
pub proof fn law_loop_goes_round(
    node: Node,
    p: PathView,
    h: Host<Json>,
    c0: Json,
    r: Result<(), Fault>,
    c1: Json,
) -> (cs: Seq<Json>)
    requires
        node is Loop,
        node->Loop_counter@ == Term::Path(p),
        possible(p),
        clash(c0, p.keys) is None,
        may::<MemoryCtx>(node@, h, c0, r, c1),
    ensures
        rounds(p.keys, node->Loop_cond@, node->Loop_body@, h, cs, 0),
        cs[0] == put(c0, p.keys, integer(0)),
        cs.len() - 1 <= node->Loop_max,
        loop_stops(
            p.keys,
            node->Loop_cond@,
            node->Loop_body@,
            node->Loop_max,
            h,
            cs.last(),
            cs.len() - 1,
            r,
            c1,
        ),
{
    let (cond, body, max) = (node->Loop_cond@, node->Loop_body@, node->Loop_max);
    law_path_round_trip(p);
    let (ra, sa) = choose|ra: Result<(), Fault>, sa: Json| #[trigger]
        MemoryCtx::takes(c0, shown(p), count(0), ra, sa) && match ra {
            Err(f) => r == ra && c1 == sa,
            Ok(_) => may_loop::<MemoryCtx>(shown(p), cond, body, max, 0, h, sa, r, c1),
        };
    law_write_then_read(c0, p.keys, count(0));
    lemma_rounds(p, cond, body, max, 0, h, sa, r, c1)
}

/// A loop whose counter cannot be set fails before its first round.
pub proof fn law_loop_needs_its_counter(
    node: Node,
    h: Host<Json>,
    c0: Json,
    r: Result<(), Fault>,
    c1: Json,
)
    requires
        node is Loop,
        match node->Loop_counter@ {
            Term::Path(p) => possible(p) && clash(c0, p.keys) is Some,
            _ => true,
        },
        may::<MemoryCtx>(node@, h, c0, r, c1),
    ensures
        r matches Err(f) && match node->Loop_counter@ {
            Term::Path(_) => f matches Fault::TypeError { op, msg } && op == "path.write"@,
            _ => f is InvalidPath,
        },
        c1 == c0,
{
    if let Term::Path(p) = node->Loop_counter@ {
        law_path_round_trip(p);
    }
}

/// A loop whose condition always counts as true ends, if it does not fail, after as many rounds as
/// there may be, and its counter says so.
pub proof fn law_loop_runs_to_its_cap(
    node: Node,
    p: PathView,
    v: Json,
    h: Host<Json>,
    c0: Json,
    c1: Json,
)
    requires
        node is Loop,
        node->Loop_counter@ == Term::Path(p),
        node->Loop_cond@ == Term::Lit(v),
        v != Json::Null,
        v != Json::Bool(false),
        possible(p),
        clash(c0, p.keys) is None,
        may::<MemoryCtx>(node@, h, c0, Ok(()), c1),
    ensures
        tells(c1, p.keys, node->Loop_max as int),
{
    let cs = law_loop_goes_round(node, p, h, c0, Ok(()), c1);
    assert(tells(cs[cs.len() - 1], p.keys, cs.len() - 1));
}

/// A flow of nothing does nothing.
pub proof fn law_nothing_does_nothing(
    node: Node,
    h: Host<Json>,
    c0: Json,
    r: Result<(), Fault>,
    c1: Json,
)
    requires
        node is Sequence,
        node->Sequence_children@.len() == 0,
        may::<MemoryCtx>(node@, h, c0, r, c1),
    ensures
        r is Ok,
        c1 == c0,
{
    assert(node@ == Tree::Sequence(trees(node->Sequence_children@)));
    assert(may_all::<MemoryCtx>(trees(node->Sequence_children@), h, c0, r, c1));
}

/// Rounds that do nothing change the counter alone.
proof fn lemma_idle_rounds(
    keys: Seq<Seq<char>>,
    cond: Term,
    body: Node,
    h: Host<Json>,
    c0: Json,
    cs: Seq<Json>,
    k: int,
)
    requires
        body is Sequence,
        body->Sequence_children@.len() == 0,
        rounds(keys, cond, body@, h, cs, 0),
        cs[0] == put(c0, keys, integer(0)),
        0 <= k < cs.len(),
    ensures
        cs[k] == put(c0, keys, integer(k)),
    decreases k,
{
    if k > 0 {
        lemma_idle_rounds(keys, cond, body, h, c0, cs, k - 1);
        assert(round(keys, cond, body@, h, cs[k - 1], cs[k], 0 + k));
        let d = choose|d: Json| #[trigger]
            through(Ok::<(), Fault>(()), d) && may::<MemoryCtx>(body@, h, cs[k - 1], Ok(()), d)
                && clash(d, keys) is None && cs[k] == put(d, keys, integer(k));
        law_nothing_does_nothing(body, h, cs[k - 1], Ok(()), d);
        law_last_write_counts(c0, keys, integer(k - 1), integer(k));
    }
}

/// A loop that does nothing for as long as it may succeeds, and leaves the context as it was but
/// for its counter, which is the number of rounds that there may be.
pub proof fn law_idle_loop_counts_to_its_cap(
    node: Node,
    p: PathView,
    v: Json,
    h: Host<Json>,
    c0: Json,
    r: Result<(), Fault>,
    c1: Json,
)
    requires
        node is Loop,
        node->Loop_counter@ == Term::Path(p),
        node->Loop_cond@ == Term::Lit(v),
        v != Json::Null,
        v != Json::Bool(false),
        *node->Loop_body is Sequence,
        (*node->Loop_body)->Sequence_children@.len() == 0,
        possible(p),
        clash(c0, p.keys) is None,
        may::<MemoryCtx>(node@, h, c0, r, c1),
    ensures
        r is Ok,
        tells(c1, p.keys, node->Loop_max as int),
        c1 == put(c0, p.keys, integer(node->Loop_max as int)),
{
    let cs = law_loop_goes_round(node, p, h, c0, r, c1);
    let k = cs.len() - 1;
    let body = *node->Loop_body;
    lemma_idle_rounds(p.keys, node->Loop_cond@, body, h, c0, cs, k);
    assert(tells(cs[k], p.keys, k));
    if let Err(f) = r {
        if may::<MemoryCtx>(body@, h, cs[k], Err(f), c1) {
            law_nothing_does_nothing(body, h, cs[k], Err(f), c1);
        }
        if may::<MemoryCtx>(body@, h, cs[k], Ok(()), c1) {
            law_nothing_does_nothing(body, h, cs[k], Ok(()), c1);
            law_last_write_counts(c0, p.keys, integer(k), Json::Null);
        }
    }
}

/// A loop whose condition is that its counter is below a bound, and whose body does nothing, counts
/// up to the bound, or to the number of rounds that there may be if that is smaller.
pub proof fn law_loop_counts_to_a_bound(
    node: Node,
    at: Expr,
    bound: Expr,
    p: PathView,
    m: u32,
    h: Host<Json>,
    c0: Json,
    r: Result<(), Fault>,
    c1: Json,
)
    requires
        node is Loop,
        node->Loop_counter@ == Term::Path(p),
        node->Loop_cond == (Expr::Lt { lhs: Box::new(at), rhs: Box::new(bound) }),
        at@ == Term::Path(p),
        bound@ == Term::Lit(Json::Num(Number::PosInt(m as u64))),
        *node->Loop_body is Sequence,
        (*node->Loop_body)->Sequence_children@.len() == 0,
        possible(p),
        clash(c0, p.keys) is None,
        may::<MemoryCtx>(node@, h, c0, r, c1),
    ensures
        r is Ok,
        tells(
            c1,
            p.keys,
            if m < node->Loop_max {
                m as int
            } else {
                node->Loop_max as int
            },
        ),
{
    let cs = law_loop_goes_round(node, p, h, c0, r, c1);
    let k = cs.len() - 1;
    let body = *node->Loop_body;
    let cond = node->Loop_cond;
    assert forall|i: int| 0 <= i < cs.len() implies value_of(
        cond@,
        #[trigger] cs[i],
        h.registry,
    ) == Ok::<Json, Fault>(Json::Bool(i < m)) by {
        assert(tells(cs[i], p.keys, 0 + i));
        assert(gives_int(at, cs[i], h.registry, i));
        assert(gives_int(bound, cs[i], h.registry, m as int));
        law_small_integers_compare_as_integers(at, bound, i, m as int, cs[i], h.registry);
        assert(gives(cond, cs[i], h.registry, Ok(Json::Bool(i < m))));
    }
    assert(tells(cs[k], p.keys, k));
    assert(value_of(cond@, cs[k], h.registry) == Ok::<Json, Fault>(Json::Bool(k < m)));
    if k > 0 {
        assert(round(p.keys, cond@, body@, h, cs[k - 1], cs[k], 0 + k));
        assert(value_of(cond@, cs[k - 1], h.registry) == Ok::<Json, Fault>(Json::Bool(k - 1 < m)));
    }
    if let Err(f) = r {
        lemma_idle_rounds(p.keys, cond@, body, h, c0, cs, k);
        if may::<MemoryCtx>(body@, h, cs[k], Err(f), c1) {
            law_nothing_does_nothing(body, h, cs[k], Err(f), c1);
        }
        if may::<MemoryCtx>(body@, h, cs[k], Ok(()), c1) {
            law_nothing_does_nothing(body, h, cs[k], Ok(()), c1);
            law_last_write_counts(c0, p.keys, integer(k), Json::Null);
        }
    }
}

} // verus!
