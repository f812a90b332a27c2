//! What holds of the operators of expressions, from the expression to its value.

use crate::error::Fault;
use crate::expr::{
    compared, decided, lemma_same_objects, lemma_terms, same, terms, value_of, values_of,
    Expr, Order, Term,
};
use crate::externs::Registry;
use crate::float::units;
use crate::path::{read_keys, shown, Path};
use crate::text_laws::{law_first_difference_decides, law_rank_is_lexicographic, precedes};
use crate::value::{number_bits, Json, Number};
use vstd::prelude::*;

verus! {

/// What an expression evaluates to in a context.
pub open spec fn gives(e: Expr, ctx: Json, reg: Registry, r: Result<Json, Fault>) -> bool {
    value_of(e@, ctx, reg) == r
}

/// A literal is its value, and a path is what it leads to.
pub proof fn law_literals_and_paths(e: Expr, ctx: Json, reg: Registry)
    ensures
        e matches Expr::Lit { value } ==> gives(e, ctx, reg, Ok(value@)),
        e matches Expr::Path { at } ==> (read_keys(ctx, at@.keys) matches Some(v) ==> gives(
            e,
            ctx,
            reg,
            Ok(v),
        )),
        e matches Expr::Path { at } ==> (read_keys(ctx, at@.keys) is None ==> gives(
            e,
            ctx,
            reg,
            Err(Fault::PathNotFound(shown(at@))),
        )),
{
}

/// `Not` turns `null` and `false` into `true`, and everything else into `false`.
pub proof fn law_not_by_kind(arg: Expr, v: Json, ctx: Json, reg: Registry)
    requires
        gives(arg, ctx, reg, Ok(v)),
    ensures
        gives(
            Expr::Not { arg: Box::new(arg) },
            ctx,
            reg,
            Ok(
                Json::Bool(
                    match v {
                        Json::Null => true,
                        Json::Bool(b) => !b,
                        Json::Num(_) => false,
                        Json::Str(_) => false,
                        Json::Arr(_) => false,
                        Json::Obj(_) => false,
                    },
                ),
            ),
        ),
{
}

/// Whether an operand counts as true where `And` or `Or` looks at it: neither `null` nor `false`.
pub open spec fn counts_as_true(r: Result<Json, Fault>) -> bool {
    r matches Ok(v) && v != Json::Null && v != Json::Bool(false)
}

/// Whether an operand counts as false: `null` or `false`.
pub open spec fn counts_as_false(r: Result<Json, Fault>) -> bool {
    r == Ok::<Json, Fault>(Json::Null) || r == Ok::<Json, Fault>(Json::Bool(false))
}

/// Whether an operand is one that lets evaluation go on to the next.
pub open spec fn goes_on(decides: bool, r: Result<Json, Fault>) -> bool {
    if decides {
        counts_as_false(r)
    } else {
        counts_as_true(r)
    }
}

/// If no operand decides, however many there are, the result is the opposite of what decides.
pub proof fn law_none_decides(args: Seq<Term>, decides: bool, ctx: Json, reg: Registry)
    requires
        forall|i: int|
            0 <= i < args.len() ==> goes_on(decides, value_of(#[trigger] args[i], ctx, reg)),
    ensures
        decided(args, decides, ctx, reg) == Ok::<Json, Fault>(Json::Bool(!decides)),
    decreases args.len(),
{
    if args.len() > 0 {
        let rest = args.drop_first();
        assert(goes_on(decides, value_of(args[0], ctx, reg)));
        assert forall|i: int| 0 <= i < rest.len() implies goes_on(
            decides,
            value_of(#[trigger] rest[i], ctx, reg),
        ) by {
            assert(rest[i] == args[i + 1]);
        }
        law_none_decides(rest, decides, ctx, reg);
    }
}

/// The first operand that does not let evaluation go on is the result: what decides if it has a
/// value, its failure if it has none.
pub proof fn law_first_that_stops_decides(
    args: Seq<Term>,
    n: int,
    decides: bool,
    ctx: Json,
    reg: Registry,
)
    requires
        0 <= n < args.len(),
        forall|i: int| 0 <= i < n ==> goes_on(decides, value_of(#[trigger] args[i], ctx, reg)),
        !goes_on(decides, value_of(args[n], ctx, reg)),
    ensures
        decided(args, decides, ctx, reg) == match value_of(args[n], ctx, reg) {
            Ok(_) => Ok::<Json, Fault>(Json::Bool(decides)),
            Err(f) => Err(f),
        },
    decreases n,
{
    if n > 0 {
        let rest = args.drop_first();
        assert(goes_on(decides, value_of(args[0], ctx, reg)));
        assert forall|i: int| 0 <= i < n - 1 implies goes_on(
            decides,
            value_of(#[trigger] rest[i], ctx, reg),
        ) by {
            assert(rest[i] == args[i + 1]);
        }
        assert(rest[n - 1] == args[n]);
        law_first_that_stops_decides(rest, n - 1, decides, ctx, reg);
    }
}

/// `And` of operands that all count as true is true, and `Or` of operands that all count as false
/// is false, for any number of operands.
pub proof fn law_and_or_of_any_number(args: Vec<Expr>, ctx: Json, reg: Registry)
    ensures
        (forall|i: int|
            0 <= i < args@.len() ==> counts_as_true(value_of(#[trigger] args@[i]@, ctx, reg)))
            ==> gives(Expr::And { args }, ctx, reg, Ok(Json::Bool(true))),
        (forall|i: int|
            0 <= i < args@.len() ==> counts_as_false(value_of(#[trigger] args@[i]@, ctx, reg)))
            ==> gives(Expr::Or { args }, ctx, reg, Ok(Json::Bool(false))),
{
    lemma_terms(args@);
    let ts = terms(args@);
    if forall|i: int|
        0 <= i < args@.len() ==> counts_as_true(value_of(#[trigger] args@[i]@, ctx, reg)) {
        assert forall|i: int| 0 <= i < ts.len() implies goes_on(
            false,
            value_of(#[trigger] ts[i], ctx, reg),
        ) by {
            assert(ts[i] == args@[i]@);
        }
        law_none_decides(ts, false, ctx, reg);
        assert((Expr::And { args })@ == Term::And(ts));
    }
    if forall|i: int|
        0 <= i < args@.len() ==> counts_as_false(value_of(#[trigger] args@[i]@, ctx, reg)) {
        assert forall|i: int| 0 <= i < ts.len() implies goes_on(
            true,
            value_of(#[trigger] ts[i], ctx, reg),
        ) by {
            assert(ts[i] == args@[i]@);
        }
        law_none_decides(ts, true, ctx, reg);
        assert((Expr::Or { args })@ == Term::Or(ts));
    }
}

/// `And` stops at the first operand that does not count as true: false if it counts as false, its
/// failure if it fails.
pub proof fn law_and_stops(args: Vec<Expr>, n: int, ctx: Json, reg: Registry)
    requires
        0 <= n < args@.len(),
        forall|i: int| 0 <= i < n ==> counts_as_true(value_of(#[trigger] args@[i]@, ctx, reg)),
    ensures
        counts_as_false(value_of(args@[n]@, ctx, reg)) ==> gives(
            Expr::And { args },
            ctx,
            reg,
            Ok(Json::Bool(false)),
        ),
        value_of(args@[n]@, ctx, reg) matches Err(f) ==> gives(
            Expr::And { args },
            ctx,
            reg,
            Err(f),
        ),
{
    lemma_terms(args@);
    let ts = terms(args@);
    assert(ts[n] == args@[n]@);
    assert forall|i: int| 0 <= i < n implies goes_on(
        false,
        value_of(#[trigger] ts[i], ctx, reg),
    ) by {
        assert(ts[i] == args@[i]@);
    }
    if !counts_as_true(value_of(ts[n], ctx, reg)) {
        law_first_that_stops_decides(ts, n, false, ctx, reg);
        assert((Expr::And { args })@ == Term::And(ts));
    }
}

/// `Or` stops at the first operand that does not count as false: true if it counts as true, its
/// failure if it fails.
pub proof fn law_or_stops(args: Vec<Expr>, n: int, ctx: Json, reg: Registry)
    requires
        0 <= n < args@.len(),
        forall|i: int| 0 <= i < n ==> counts_as_false(value_of(#[trigger] args@[i]@, ctx, reg)),
    ensures
        counts_as_true(value_of(args@[n]@, ctx, reg)) ==> gives(
            Expr::Or { args },
            ctx,
            reg,
            Ok(Json::Bool(true)),
        ),
        value_of(args@[n]@, ctx, reg) matches Err(f) ==> gives(Expr::Or { args }, ctx, reg, Err(f)),
{
    lemma_terms(args@);
    let ts = terms(args@);
    assert(ts[n] == args@[n]@);
    assert forall|i: int| 0 <= i < n implies goes_on(
        true,
        value_of(#[trigger] ts[i], ctx, reg),
    ) by {
        assert(ts[i] == args@[i]@);
    }
    if !counts_as_false(value_of(ts[n], ctx, reg)) {
        law_first_that_stops_decides(ts, n, true, ctx, reg);
        assert((Expr::Or { args })@ == Term::Or(ts));
    }
}

/// `And` is `Not` of `Or` of the opposites, operand by operand, wherever every operand has a
/// value.
pub proof fn law_and_or_mirror(a: Seq<Term>, b: Seq<Term>, ctx: Json, reg: Registry)
    requires
        a.len() == b.len(),
        forall|i: int|
            #![trigger a[i]]
            0 <= i < a.len() ==> value_of(a[i], ctx, reg) is Ok && value_of(b[i], ctx, reg) is Ok
                && counts_as_true(value_of(a[i], ctx, reg)) == counts_as_false(
                value_of(b[i], ctx, reg),
            ),
    ensures
        value_of(Term::And(a), ctx, reg) == Ok::<Json, Fault>(Json::Bool(true)) <==> value_of(
            Term::Or(b),
            ctx,
            reg,
        ) == Ok::<Json, Fault>(Json::Bool(false)),
        value_of(Term::And(a), ctx, reg) == Ok::<Json, Fault>(Json::Bool(false)) <==> value_of(
            Term::Or(b),
            ctx,
            reg,
        ) == Ok::<Json, Fault>(Json::Bool(true)),
    decreases a.len(),
{
    assert(value_of(Term::And(a), ctx, reg) == decided(a, false, ctx, reg));
    assert(value_of(Term::Or(b), ctx, reg) == decided(b, true, ctx, reg));
    if a.len() > 0 {
        assert(value_of(a[0], ctx, reg) is Ok);
        let (x, y) = (a.drop_first(), b.drop_first());
        assert forall|i: int|
            #![trigger x[i]]
            0 <= i < x.len() implies value_of(x[i], ctx, reg) is Ok && value_of(
            y[i],
            ctx,
            reg,
        ) is Ok && counts_as_true(value_of(x[i], ctx, reg)) == counts_as_false(
            value_of(y[i], ctx, reg),
        ) by {
            assert(x[i] == a[i + 1] && y[i] == b[i + 1]);
        }
        law_and_or_mirror(x, y, ctx, reg);
        assert(value_of(Term::And(x), ctx, reg) == decided(x, false, ctx, reg));
        assert(value_of(Term::Or(y), ctx, reg) == decided(y, true, ctx, reg));
    }
}

/// `Exists` is true of every value but `null`, false of `null` and of a path that leads nowhere,
/// and fails where its operand fails otherwise.
pub proof fn law_exists_by_outcome(arg: Expr, ctx: Json, reg: Registry)
    ensures
        gives(
            Expr::Exists { arg: Box::new(arg) },
            ctx,
            reg,
            match value_of(arg@, ctx, reg) {
                Ok(v) => Ok(Json::Bool(v != Json::Null)),
                Err(f) => if f is PathNotFound {
                    Ok(Json::Bool(false))
                } else {
                    Err(f)
                },
            },
        ),
{
}

/// `Len` is the number of items, characters or members, as an integer; other values have none.
pub proof fn law_length_by_kind(arg: Expr, v: Json, ctx: Json, reg: Registry)
    requires
        gives(arg, ctx, reg, Ok(v)),
    ensures
        ({
            let r = value_of((Expr::Len { arg: Box::new(arg) })@, ctx, reg);
            let whole = |n: nat|
                n <= u64::MAX ==> (r matches Ok(Json::Num(Number::PosInt(k)))
                    && k as nat == n);
            match v {
                Json::Arr(items) => whole(items.len()),
                Json::Str(s) => whole(s.len()),
                Json::Obj(m) => whole(m.dom().len()),
                _ => r matches Err(Fault::TypeError { op, msg }) && op == "expr.len"@,
            }
        }),
{
}

/// An operator that fails to get an operand fails as that operand does, the left one first.
pub proof fn law_failures_pass_through(
    e: Expr,
    lhs: Expr,
    rhs: Expr,
    ctx: Json,
    reg: Registry,
    f: Fault,
)
    requires
        two_sided(e, lhs, rhs),
        gives(lhs, ctx, reg, Err(f)) || (value_of(lhs@, ctx, reg) is Ok && gives(
            rhs,
            ctx,
            reg,
            Err(f),
        )),
    ensures
        gives(e, ctx, reg, Err(f)),
{
}

/// Whether an expression has two operands, and these.
pub open spec fn two_sided(e: Expr, a: Expr, b: Expr) -> bool {
    let (l, r) = (Box::new(a), Box::new(b));
    ||| e == Expr::Eq { lhs: l, rhs: r }
    ||| e == Expr::Ne { lhs: l, rhs: r }
    ||| e == Expr::Lt { lhs: l, rhs: r }
    ||| e == Expr::Lte { lhs: l, rhs: r }
    ||| e == Expr::Gt { lhs: l, rhs: r }
    ||| e == Expr::Gte { lhs: l, rhs: r }
    ||| e == Expr::Add { lhs: l, rhs: r }
    ||| e == Expr::Sub { lhs: l, rhs: r }
    ||| e == Expr::Mul { lhs: l, rhs: r }
    ||| e == Expr::Div { lhs: l, rhs: r }
    ||| e == Expr::Mod { lhs: l, rhs: r }
    ||| e == Expr::In { needle: l, haystack: r }
}

/// Operators with one operand fail as it does, but for `Exists` of a path that leads nowhere.
pub proof fn law_failure_of_the_operand(arg: Expr, ctx: Json, reg: Registry, f: Fault)
    requires
        gives(arg, ctx, reg, Err(f)),
    ensures
        gives(Expr::Not { arg: Box::new(arg) }, ctx, reg, Err(f)),
        gives(Expr::Len { arg: Box::new(arg) }, ctx, reg, Err(f)),
{
}

/// The four order relations on strings are those of lexicographic order.
pub proof fn law_strings_are_ordered(
    lhs: Expr,
    rhs: Expr,
    x: Seq<char>,
    y: Seq<char>,
    ctx: Json,
    reg: Registry,
)
    requires
        gives(lhs, ctx, reg, Ok(Json::Str(x))),
        gives(rhs, ctx, reg, Ok(Json::Str(y))),
    ensures
        ({
            let (l, r) = (Box::new(lhs), Box::new(rhs));
            &&& gives(Expr::Lt { lhs: l, rhs: r }, ctx, reg, Ok(Json::Bool(precedes(x, y))))
            &&& gives(Expr::Gt { lhs: l, rhs: r }, ctx, reg, Ok(Json::Bool(precedes(y, x))))
            &&& gives(Expr::Lte { lhs: l, rhs: r }, ctx, reg, Ok(Json::Bool(!precedes(y, x))))
            &&& gives(Expr::Gte { lhs: l, rhs: r }, ctx, reg, Ok(Json::Bool(!precedes(x, y))))
            &&& gives(Expr::Eq { lhs: l, rhs: r }, ctx, reg, Ok(Json::Bool(x == y)))
            &&& gives(Expr::Ne { lhs: l, rhs: r }, ctx, reg, Ok(Json::Bool(x != y)))
        }),
{
    law_rank_is_lexicographic(x, y);
}

/// The first place where two strings differ decides their order, whatever follows.
pub proof fn law_string_order_by_first_difference(
    lhs: Expr,
    rhs: Expr,
    p: Seq<char>,
    c: char,
    s: Seq<char>,
    d: char,
    t: Seq<char>,
    ctx: Json,
    reg: Registry,
)
    requires
        (c as int) < (d as int),
        gives(lhs, ctx, reg, Ok(Json::Str(p + seq![c] + s))),
        gives(rhs, ctx, reg, Ok(Json::Str(p + seq![d] + t))),
    ensures
        ({
            let (l, r) = (Box::new(lhs), Box::new(rhs));
            &&& gives(Expr::Lt { lhs: l, rhs: r }, ctx, reg, Ok(Json::Bool(true)))
            &&& gives(Expr::Lte { lhs: l, rhs: r }, ctx, reg, Ok(Json::Bool(true)))
            &&& gives(Expr::Gt { lhs: l, rhs: r }, ctx, reg, Ok(Json::Bool(false)))
            &&& gives(Expr::Gte { lhs: l, rhs: r }, ctx, reg, Ok(Json::Bool(false)))
            &&& gives(Expr::Lt { lhs: r, rhs: l }, ctx, reg, Ok(Json::Bool(false)))
            &&& gives(Expr::Lte { lhs: r, rhs: l }, ctx, reg, Ok(Json::Bool(false)))
            &&& gives(Expr::Gt { lhs: r, rhs: l }, ctx, reg, Ok(Json::Bool(true)))
            &&& gives(Expr::Gte { lhs: r, rhs: l }, ctx, reg, Ok(Json::Bool(true)))
        }),
{
    law_first_difference_decides(p, c, s, d, t);
}

/// The order relations on numbers, and their equality, are those of the doubles nearest to them.
pub proof fn law_numbers_are_ordered(
    lhs: Expr,
    rhs: Expr,
    x: Number,
    y: Number,
    ctx: Json,
    reg: Registry,
)
    requires
        gives(lhs, ctx, reg, Ok(Json::Num(x))),
        gives(rhs, ctx, reg, Ok(Json::Num(y))),
    ensures
        ({
            let (l, r) = (Box::new(lhs), Box::new(rhs));
            let (u, v) = (units(number_bits(x)), units(number_bits(y)));
            &&& gives(Expr::Lt { lhs: l, rhs: r }, ctx, reg, Ok(Json::Bool(u < v)))
            &&& gives(Expr::Lte { lhs: l, rhs: r }, ctx, reg, Ok(Json::Bool(u <= v)))
            &&& gives(Expr::Gt { lhs: l, rhs: r }, ctx, reg, Ok(Json::Bool(u > v)))
            &&& gives(Expr::Gte { lhs: l, rhs: r }, ctx, reg, Ok(Json::Bool(u >= v)))
            &&& gives(Expr::Eq { lhs: l, rhs: r }, ctx, reg, Ok(Json::Bool(u == v)))
            &&& gives(Expr::Ne { lhs: l, rhs: r }, ctx, reg, Ok(Json::Bool(u != v)))
        }),
{
}

/// What is neither two numbers nor two strings has no order.
pub proof fn law_other_values_have_no_order(
    lhs: Expr,
    rhs: Expr,
    a: Json,
    b: Json,
    ctx: Json,
    reg: Registry,
)
    requires
        gives(lhs, ctx, reg, Ok(a)),
        gives(rhs, ctx, reg, Ok(b)),
        !(a is Num && b is Num),
        !(a is Str && b is Str),
    ensures
        ({
            let (l, r) = (Box::new(lhs), Box::new(rhs));
            let refused = |e: Expr|
                value_of(e@, ctx, reg) matches Err(Fault::TypeError { op, msg }) && op == "cmp"@;
            &&& refused(Expr::Lt { lhs: l, rhs: r })
            &&& refused(Expr::Lte { lhs: l, rhs: r })
            &&& refused(Expr::Gt { lhs: l, rhs: r })
            &&& refused(Expr::Gte { lhs: l, rhs: r })
        }),
{
    assert(forall|o: Order| #[trigger] compared(a, b, o) is Err);
}

/// Values of different kinds are not equal, whatever they are.
pub proof fn law_kinds_are_not_equal(a: Json, b: Json)
    ensures
        a is Null != b is Null ==> !same(a, b),
        a is Bool != b is Bool ==> !same(a, b),
        a is Num != b is Num ==> !same(a, b),
        a is Str != b is Str ==> !same(a, b),
        a is Arr != b is Arr ==> !same(a, b),
        a is Obj != b is Obj ==> !same(a, b),
        a is Null && b is Null ==> same(a, b),
        a is Bool && b is Bool ==> same(a, b) == (a->Bool_0 == b->Bool_0),
        a is Str && b is Str ==> same(a, b) == (a->Str_0 == b->Str_0),
{
}

/// Two arrays are equal if and only if they have as many items and each equals the other's in its
/// place: one item that does not makes them unequal, wherever it is.
pub proof fn law_arrays_are_equal_by_items(x: Seq<Json>, y: Seq<Json>)
    ensures
        same(Json::Arr(x), Json::Arr(y)) ==> x.len() == y.len(),
        forall|i: int|
            #![trigger x[i]]
            0 <= i < x.len() && same(Json::Arr(x), Json::Arr(y)) ==> same(x[i], y[i]),
        x.len() == y.len() && (forall|i: int|
            #![trigger x[i]]
            0 <= i < x.len() ==> same(x[i], y[i])) ==> same(Json::Arr(x), Json::Arr(y)),
{
}

/// Two objects are equal if and only if they have the same keys and equal values under each.
pub proof fn law_objects_are_equal_by_members(x: Map<Seq<char>, Json>, y: Map<Seq<char>, Json>)
    requires
        x.dom().finite(),
    ensures
        same(Json::Obj(x), Json::Obj(y)) ==> forall|k: Seq<char>| #[trigger]
            x.contains_key(k) <==> y.contains_key(k),
        same(Json::Obj(x), Json::Obj(y)) ==> forall|k: Seq<char>| #[trigger]
            x.contains_key(k) ==> same(x[k], y[k]),
        (forall|k: Seq<char>| #[trigger] x.contains_key(k) <==> y.contains_key(k)) && (forall|
            k: Seq<char>,
        | #[trigger]
            x.contains_key(k) ==> same(x[k], y[k])) ==> same(Json::Obj(x), Json::Obj(y)),
{
    lemma_same_objects(x, y);
    if same(Json::Obj(x), Json::Obj(y)) {
        assert forall|k: Seq<char>| #[trigger] x.contains_key(k) implies same(x[k], y[k]) by {
            assert(x.dom().contains(k));
        }
    }
    if forall|k: Seq<char>| #[trigger] x.contains_key(k) <==> y.contains_key(k) {
        assert(x.dom() =~= y.dom()) by {
            assert forall|k: Seq<char>| x.dom().contains(k) <==> y.dom().contains(k) by {
                assert(x.contains_key(k) <==> y.contains_key(k));
            }
        }
    }
}

/// `Eq` and `Ne` of two expressions are equality of their values and its opposite.
pub proof fn law_equality_operators(
    lhs: Expr,
    rhs: Expr,
    a: Json,
    b: Json,
    ctx: Json,
    reg: Registry,
)
    requires
        gives(lhs, ctx, reg, Ok(a)),
        gives(rhs, ctx, reg, Ok(b)),
    ensures
        ({
            let (l, r) = (Box::new(lhs), Box::new(rhs));
            &&& gives(Expr::Eq { lhs: l, rhs: r }, ctx, reg, Ok(Json::Bool(same(a, b))))
            &&& gives(Expr::Ne { lhs: l, rhs: r }, ctx, reg, Ok(Json::Bool(!same(a, b))))
        }),
{
}

/// `In` is true if some item equals the value, at whatever place, false if none does, and fails
/// where there is no array.
pub proof fn law_in_looks_at_every_item(
    needle: Expr,
    haystack: Expr,
    a: Json,
    b: Json,
    ctx: Json,
    reg: Registry,
)
    requires
        gives(needle, ctx, reg, Ok(a)),
        gives(haystack, ctx, reg, Ok(b)),
    ensures
        ({
            let e = Expr::In { needle: Box::new(needle), haystack: Box::new(haystack) };
            match b {
                Json::Arr(items) => {
                    &&& forall|i: int|
                        0 <= i < items.len() && same(#[trigger] items[i], a) ==> gives(
                            e,
                            ctx,
                            reg,
                            Ok(Json::Bool(true)),
                        )
                    &&& (forall|i: int| 0 <= i < items.len() ==> !same(#[trigger] items[i], a))
                        ==> gives(e, ctx, reg, Ok(Json::Bool(false)))
                },
                _ => value_of(e@, ctx, reg) matches Err(Fault::TypeError { op, msg }) && op
                    == "expr.in"@,
            }
        }),
{
}

/// The arguments of a call are the values of its operands, each in its place.
pub proof fn law_arguments_keep_their_places(
    args: Seq<Term>,
    vals: Seq<Json>,
    ctx: Json,
    reg: Registry,
)
    ensures
        values_of(args, ctx, reg) == Ok::<Seq<Json>, Fault>(vals) <==> vals.len() == args.len()
            && forall|i: int|
            #![trigger args[i]]
            0 <= i < args.len() ==> value_of(args[i], ctx, reg) == Ok::<Json, Fault>(vals[i]),
    decreases args.len(),
{
    if args.len() == 0 {
        if vals.len() == 0 {
            assert(vals =~= Seq::empty());
        }
    } else {
        let rest = args.drop_first();
        if values_of(args, ctx, reg) == Ok::<Seq<Json>, Fault>(vals) {
            let more = values_of(rest, ctx, reg)->Ok_0;
            law_arguments_keep_their_places(rest, more, ctx, reg);
            assert forall|i: int|
                #![trigger args[i]]
                0 <= i < args.len() implies value_of(args[i], ctx, reg) == Ok::<Json, Fault>(
                vals[i],
            ) by {
                if i > 0 {
                    assert(rest[i - 1] == args[i]);
                    assert(vals[i] == more[i - 1]);
                }
            }
        }
        if vals.len() == args.len() && forall|i: int|
            #![trigger args[i]]
            0 <= i < args.len() ==> value_of(args[i], ctx, reg) == Ok::<Json, Fault>(vals[i]) {
            let more = vals.drop_first();
            assert(value_of(args[0], ctx, reg) == Ok::<Json, Fault>(vals[0]));
            assert forall|i: int|
                #![trigger rest[i]]
                0 <= i < rest.len() implies value_of(rest[i], ctx, reg) == Ok::<Json, Fault>(
                more[i],
            ) by {
                assert(args[i + 1] == rest[i]);
            }
            law_arguments_keep_their_places(rest, more, ctx, reg);
            assert(seq![vals[0]] + more =~= vals);
        }
    }
}

/// The first operand of a call that fails is the failure of the call.
pub proof fn law_first_failing_argument(
    args: Seq<Term>,
    n: int,
    f: Fault,
    ctx: Json,
    reg: Registry,
)
    requires
        0 <= n < args.len(),
        forall|i: int| 0 <= i < n ==> value_of(#[trigger] args[i], ctx, reg) is Ok,
        value_of(args[n], ctx, reg) == Err::<Json, Fault>(f),
    ensures
        values_of(args, ctx, reg) == Err::<Seq<Json>, Fault>(f),
    decreases n,
{
    if n > 0 {
        let rest = args.drop_first();
        assert(value_of(args[0], ctx, reg) is Ok);
        assert forall|i: int| 0 <= i < n - 1 implies value_of(
            #[trigger] rest[i],
            ctx,
            reg,
        ) is Ok by {
            assert(rest[i] == args[i + 1]);
        }
        assert(rest[n - 1] == args[n]);
        law_first_failing_argument(rest, n - 1, f, ctx, reg);
    }
}

/// A call gives what the function of that name returns on the values of the operands.
pub proof fn law_call_passes_its_arguments(
    ref_: String,
    args: Vec<Expr>,
    vals: Seq<Json>,
    ctx: Json,
    reg: Registry,
)
    requires
        vals.len() == args@.len(),
        forall|i: int|
            #![trigger args@[i]]
            0 <= i < args@.len() ==> gives(args@[i], ctx, reg, Ok(vals[i])),
    ensures
        gives(Expr::CallExtern { ref_, args }, ctx, reg, reg(ref_@, vals)),
{
    lemma_terms(args@);
    let ts = terms(args@);
    assert forall|i: int|
        #![trigger ts[i]]
        0 <= i < ts.len() implies value_of(ts[i], ctx, reg) == Ok::<Json, Fault>(vals[i]) by {
        assert(ts[i] == args@[i]@);
        assert(gives(args@[i], ctx, reg, Ok(vals[i])));
    }
    law_arguments_keep_their_places(ts, vals, ctx, reg);
    assert((Expr::CallExtern { ref_, args })@ == Term::Call(ref_@, ts));
}

} // verus!
