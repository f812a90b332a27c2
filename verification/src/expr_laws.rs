//! What holds of expressions.

use crate::error::Fault;
use crate::expr::{
    applied, arith_name, combined, compared, computed, decided, same, truthy, value_of,
    values_of, Arith, Binary, Order, Term,
};
use crate::externs::{registry, NoExterns, Registry};
use crate::float::{
    abs, is_finite, lemma_float_bits, lemma_int_finite, lemma_two_pos, lemma_units_sign, mag,
    nearest_magnitude, rounded, spec_of_int, spec_product, spec_sum, two, units, Float,
};
use crate::path::{read_at, read_keys, PathView};
use crate::text::{lemma_rank_chain, lemma_rank_equal, lemma_rank_flip};
use crate::render::number_text;
use crate::value::{exact, number_bits, Json, Number};
use vstd::prelude::*;

verus! {

/// Every value equals itself.
pub proof fn law_equality_is_reflexive(a: Json)
    ensures
        same(a, a),
    decreases a,
{
    match a {
        Json::Arr(x) => {
            assert forall|i: int| 0 <= i < x.len() implies same(#[trigger] x[i], x[i]) by {
                law_equality_is_reflexive(x[i]);
            }
        },
        Json::Obj(x) => {
            assert forall|k: Seq<char>| x.dom().finite() && x.dom().contains(k) implies same(
                #[trigger] x[k],
                x[k],
            ) by {
                law_equality_is_reflexive(x[k]);
            }
        },
        _ => {},
    }
}

/// If one value equals another, the other equals the one.
pub proof fn law_equality_is_symmetric(a: Json, b: Json)
    requires
        same(a, b),
    ensures
        same(b, a),
    decreases a,
{
    match (a, b) {
        (Json::Arr(x), Json::Arr(y)) => {
            assert forall|i: int| 0 <= i < y.len() implies same(#[trigger] y[i], x[i]) by {
                assert(same(x[i], y[i]));
                law_equality_is_symmetric(x[i], y[i]);
            }
        },
        (Json::Obj(x), Json::Obj(y)) => {
            assert forall|k: Seq<char>| y.dom().finite() && y.dom().contains(k) implies same(
                #[trigger] y[k],
                x[k],
            ) by {
                assert(same(x[k], y[k]));
                law_equality_is_symmetric(x[k], y[k]);
            }
        },
        _ => {},
    }
}

/// If two values equal a third, they equal each other.
pub proof fn law_equality_is_transitive(a: Json, b: Json, c: Json)
    requires
        same(a, b),
        same(b, c),
    ensures
        same(a, c),
    decreases a,
{
    match (a, b, c) {
        (Json::Arr(x), Json::Arr(y), Json::Arr(z)) => {
            assert forall|i: int| 0 <= i < x.len() implies same(#[trigger] x[i], z[i]) by {
                assert(same(x[i], y[i]));
                assert(same(y[i], z[i]));
                law_equality_is_transitive(x[i], y[i], z[i]);
            }
        },
        (Json::Obj(x), Json::Obj(y), Json::Obj(z)) => {
            assert forall|k: Seq<char>| x.dom().finite() && x.dom().contains(k) implies same(
                #[trigger] x[k],
                z[k],
            ) by {
                assert(same(x[k], y[k]));
                assert(same(y[k], z[k]));
                law_equality_is_transitive(x[k], y[k], z[k]);
            }
        },
        _ => {},
    }
}

/// An integer equals the double nearest to it: `5` equals `5.0`.
pub proof fn law_integer_equals_its_double(i: u64, j: i64)
    ensures
        same(
            Json::Num(Number::PosInt(i)),
            Json::Num(Number::Float(Float::spec_from_bits(spec_of_int(i as int)))),
        ),
        same(
            Json::Num(Number::NegInt(j)),
            Json::Num(Number::Float(Float::spec_from_bits(spec_of_int(j as int)))),
        ),
{
    lemma_float_bits(spec_of_int(i as int));
    lemma_float_bits(spec_of_int(j as int));
}

/// `Ne` is the opposite of `Eq`: both fail alike, and where they do not, one is true.
pub proof fn law_unequal_is_not_equal(a: Term, b: Term, ctx: Json, reg: Registry)
    ensures
        match (
            value_of(Term::Binary(Binary::Equal, Box::new(a), Box::new(b)), ctx, reg),
            value_of(Term::Binary(Binary::Unequal, Box::new(a), Box::new(b)), ctx, reg),
        ) {
            (Ok(x), Ok(y)) => x is Bool && y is Bool && x->Bool_0 == !y->Bool_0,
            (Err(f), Err(g)) => f == g,
            _ => false,
        },
{
}

/// `In` is true exactly where some item is equal in the sense of `Eq`.
pub proof fn law_member_is_equal_to_an_item(needle: Json, items: Seq<Json>)
    ensures
        combined(Binary::Member, needle, Json::Arr(items)) == Ok::<Json, Fault>(Json::Bool(true))
            <==> exists|i: int|
            0 <= i < items.len() && #[trigger] combined(Binary::Equal, items[i], needle) == Ok::<
                Json,
                Fault,
            >(Json::Bool(true)),
        combined(Binary::Member, needle, Json::Arr(items)) is Ok,
{
    if exists|i: int| 0 <= i < items.len() && #[trigger] same(items[i], needle) {
        let i = choose|i: int| 0 <= i < items.len() && #[trigger] same(items[i], needle);
        assert(combined(Binary::Equal, items[i], needle) == Ok::<Json, Fault>(Json::Bool(true)));
    }
}

/// Whether a comparison is true.
pub open spec fn is_true(r: Result<Json, Fault>) -> bool {
    r == Ok::<Json, Fault>(Json::Bool(true))
}

/// Of two numbers or two strings, exactly one of `<`, `==` and `>` is true; `<=` and `>=` are
/// the opposites of `>` and `<`; and `<` one way is `>` the other way.
pub proof fn law_order_is_total(a: Json, b: Json)
    requires
        (a is Num && b is Num) || (a is Str && b is Str),
    ensures
        ({
            let lt = is_true(compared(a, b, Order::Lt));
            let gt = is_true(compared(a, b, Order::Gt));
            &&& lt ==> !gt && !same(a, b)
            &&& gt ==> !same(a, b)
            &&& lt || gt || same(a, b)
            &&& is_true(compared(a, b, Order::Lte)) == !gt
            &&& is_true(compared(a, b, Order::Gte)) == !lt
            &&& is_true(compared(b, a, Order::Gt)) == lt
        }),
        compared(a, b, Order::Lt) is Ok,
{
    if let (Json::Str(x), Json::Str(y)) = (a, b) {
        lemma_rank_equal(x, y);
        lemma_rank_flip(x, y);
        lemma_rank_flip(y, x);
        lemma_rank_equal(y, x);
    }
}

/// `<` is transitive.
pub proof fn law_order_is_transitive(a: Json, b: Json, c: Json)
    requires
        is_true(compared(a, b, Order::Lt)),
        is_true(compared(b, c, Order::Lt)),
    ensures
        is_true(compared(a, c, Order::Lt)),
{
    if let (Json::Str(x), Json::Str(y), Json::Str(z)) = (a, b, c) {
        lemma_rank_chain(x, y, z);
    }
}

/// What is neither two numbers nor two strings has no order.
pub proof fn law_mixed_types_have_no_order(a: Json, b: Json, o: Order)
    requires
        !(a is Num && b is Num),
        !(a is Str && b is Str),
    ensures
        compared(a, b, o) matches Err(Fault::TypeError { op, msg }) && op == "cmp"@,
{
}

/// Arithmetic gives finite doubles, never integers.
pub proof fn law_arithmetic_gives_doubles(a: Json, b: Json, op: Arith)
    ensures
        computed(a, b, op) matches Ok(v) ==> v matches Json::Num(Number::Float(f)) && is_finite(
            f.spec_bits(),
        ),
{
    if let (Json::Num(x), Json::Num(y)) = (a, b) {
        if let Some(z) = applied(op, number_bits(x), number_bits(y)) {
            lemma_float_bits(z);
        }
    }
}

/// Arithmetic does not round its operands: an integer that a double cannot hold makes it fail.
pub proof fn law_operands_are_not_rounded(a: Json, n: Number, op: Arith)
    requires
        !exact(n),
    ensures
        computed(Json::Num(n), a, op) == Err::<Json, Fault>(
            Fault::ArithError {
                op: arith_name(op),
                msg: "non-f64-representable number: "@ + number_text(n),
            },
        ),
        (a matches Json::Num(m) && exact(m)) ==> computed(a, Json::Num(n), op) == computed(
            Json::Num(n),
            a,
            op,
        ),
{
}

/// Only zero rounds to a zero.
proof fn lemma_zero_is_exact(n: Number)
    requires
        mag(number_bits(n)) == 0,
    ensures
        exact(n),
{
    let i: int = match n {
        Number::PosInt(i) => i as int,
        Number::NegInt(i) => i as int,
        Number::Float(_) => 0,
    };
    let w = two(1074);
    lemma_two_pos(1074);
    let p = abs(i) * w;
    if i != 0 && !(n is Float) {
        assert(p > 0) by (nonlinear_arith)
            requires
                p == abs(i) * w,
                abs(i) >= 1,
                w >= 1,
        ;
        assert(nearest_magnitude(p, 1) > 0);
        lemma_int_finite(abs(i));
        assert(rounded(p, 1) > 0);
        assert(mag(spec_of_int(i)) == rounded(p, 1));
    } else {
        lemma_units_sign(0);
        assert(i * w == 0) by (nonlinear_arith)
            requires
                i == 0,
        ;
    }
}

/// Dividing by zero and modulo zero fail, whatever number the dividend is.
pub proof fn law_nothing_is_divided_by_zero(a: Number, b: Number, op: Arith)
    requires
        op == Arith::Over || op == Arith::Modulo,
        mag(number_bits(b)) == 0,
    ensures
        computed(Json::Num(a), Json::Num(b), op) matches Err(Fault::ArithError { op: o, msg }) && o
            == arith_name(op) && (exact(a) ==> msg
            == "arithmetic failure (e.g. division by zero)"@),
{
    lemma_zero_is_exact(b);
}

/// Addition and multiplication of numbers do not depend on the order of the operands, unless
/// neither can be held by a double: the failure then names the first.
pub proof fn law_sums_and_products_commute(a: Number, b: Number)
    requires
        is_finite(number_bits(a)),
        is_finite(number_bits(b)),
        exact(a) || exact(b) || a == b,
    ensures
        computed(Json::Num(a), Json::Num(b), Arith::Plus) == computed(
            Json::Num(b),
            Json::Num(a),
            Arith::Plus,
        ),
        computed(Json::Num(a), Json::Num(b), Arith::Times) == computed(
            Json::Num(b),
            Json::Num(a),
            Arith::Times,
        ),
{
    let (x, y) = (number_bits(a), number_bits(b));
    assert(spec_sum(x, y) == spec_sum(y, x));
    let (u, v) = (abs(units(x)), abs(units(y)));
    assert(u * v == v * u) by (nonlinear_arith);
    assert(spec_product(x, y) == spec_product(y, x));
}

/// `And` of nothing is true and `Or` of nothing is false.
pub proof fn law_empty_and_or(ctx: Json, reg: Registry)
    ensures
        value_of(Term::And(Seq::empty()), ctx, reg) == Ok::<Json, Fault>(Json::Bool(true)),
        value_of(Term::Or(Seq::empty()), ctx, reg) == Ok::<Json, Fault>(Json::Bool(false)),
{
    let none = Seq::<Term>::empty();
    assert(decided(none, false, ctx, reg) == Ok::<Json, Fault>(Json::Bool(true)));
    assert(decided(none, true, ctx, reg) == Ok::<Json, Fault>(Json::Bool(false)));
    assert(value_of(Term::And(none), ctx, reg) == decided(none, false, ctx, reg));
    assert(value_of(Term::Or(none), ctx, reg) == decided(none, true, ctx, reg));
}

/// Once an operand has decided, those after it are not looked at: not even their failures
/// count.
pub proof fn law_and_or_stop_early(
    head: Seq<Term>,
    x: Term,
    tail: Seq<Term>,
    decides: bool,
    ctx: Json,
    reg: Registry,
)
    requires
        forall|i: int|
            0 <= i < head.len() ==> (value_of(#[trigger] head[i], ctx, reg) matches Ok(v) && truthy(v)
                != decides),
        value_of(x, ctx, reg) matches Ok(v) && truthy(v) == decides,
    ensures
        decided(head + seq![x] + tail, decides, ctx, reg) == Ok::<Json, Fault>(Json::Bool(decides)),
    decreases head.len(),
{
    let all = head + seq![x] + tail;
    if head.len() == 0 {
        assert(all[0] == x);
    } else {
        assert(all[0] == head[0]);
        assert(value_of(head[0], ctx, reg) is Ok);
        let rest = head.drop_first();
        assert(all.drop_first() =~= rest + seq![x] + tail);
        assert forall|i: int| 0 <= i < rest.len() implies (value_of(#[trigger] rest[i], ctx, reg)
            matches Ok(v) && truthy(v) != decides) by {
            assert(rest[i] == head[i + 1]);
        }
        law_and_or_stop_early(rest, x, tail, decides, ctx, reg);
    }
}

/// `And` and `Or` give booleans or fail.
pub proof fn law_and_or_give_booleans(args: Seq<Term>, decides: bool, ctx: Json, reg: Registry)
    ensures
        decided(args, decides, ctx, reg) matches Ok(v) ==> v is Bool,
    decreases args.len(),
{
    if args.len() > 0 {
        law_and_or_give_booleans(args.drop_first(), decides, ctx, reg);
    }
}

/// `Exists` of a path never fails: it tells whether the path leads to something that is not
/// null.
pub proof fn law_exists_of_a_path(p: PathView, ctx: Json, reg: Registry)
    ensures
        value_of(Term::Exists(Box::new(Term::Path(p))), ctx, reg) == Ok::<Json, Fault>(
            Json::Bool(read_keys(ctx, p.keys) matches Some(v) && !(v is Null)),
        ),
{
    let inner = Term::Path(p);
    assert(value_of(inner, ctx, reg) == read_at(p, ctx));
}

/// Without a registry every call whose arguments have values fails, and names what was called.
pub proof fn law_no_externs_always_fail(ref_: Seq<char>, args: Seq<Term>, ctx: Json)
    requires
        values_of(args, ctx, registry(&NoExterns)) is Ok,
    ensures
        value_of(Term::Call(ref_, args), ctx, registry(&NoExterns)) == Err::<Json, Fault>(
            Fault::ExternError { ref_, msg: "no externs registry configured"@ },
        ),
{
}

/// Whether an expression calls no external function.
pub open spec fn self_contained(t: Term) -> bool
    decreases t, 0nat,
{
    match t {
        Term::Path(_) => true,
        Term::Lit(_) => true,
        Term::Binary(_, a, b) => self_contained(*a) && self_contained(*b),
        Term::Not(a) => self_contained(*a),
        Term::And(args) => all_self_contained(args),
        Term::Or(args) => all_self_contained(args),
        Term::Exists(a) => self_contained(*a),
        Term::Len(a) => self_contained(*a),
        Term::Call(_, _) => false,
    }
}

/// The same of each of a sequence of expressions.
pub open spec fn all_self_contained(s: Seq<Term>) -> bool
    decreases s, s.len(),
{
    s.len() == 0 || (self_contained(s[0]) && all_self_contained(s.drop_first()))
}

/// Whether a fault is one that expressions have of their own: something missing, of the wrong
/// type, or not to be computed.
pub open spec fn own_fault(f: Fault) -> bool {
    f is PathNotFound || f is TypeError || f is ArithError
}

/// An expression that calls no external function has no other faults than its own: what stands
/// for the failures of dispatchers and external functions is kept for them. Nor does it depend on
/// which functions there are.
pub proof fn law_expressions_have_their_own_faults(t: Term, ctx: Json, a: Registry, b: Registry)
    requires
        self_contained(t),
    ensures
        value_of(t, ctx, a) matches Err(f) ==> own_fault(f),
        value_of(t, ctx, a) == value_of(t, ctx, b),
    decreases t, 0nat,
{
    match t {
        Term::Path(_) => {},
        Term::Lit(_) => {},
        Term::Binary(op, x, y) => {
            law_expressions_have_their_own_faults(*x, ctx, a, b);
            law_expressions_have_their_own_faults(*y, ctx, a, b);
        },
        Term::Not(x) => law_expressions_have_their_own_faults(*x, ctx, a, b),
        Term::And(args) => lemma_own_faults(args, false, ctx, a, b),
        Term::Or(args) => lemma_own_faults(args, true, ctx, a, b),
        Term::Exists(x) => law_expressions_have_their_own_faults(*x, ctx, a, b),
        Term::Len(x) => law_expressions_have_their_own_faults(*x, ctx, a, b),
        Term::Call(_, _) => {},
    }
}

proof fn lemma_own_faults(args: Seq<Term>, decides: bool, ctx: Json, a: Registry, b: Registry)
    requires
        all_self_contained(args),
    ensures
        decided(args, decides, ctx, a) matches Err(f) ==> own_fault(f),
        decided(args, decides, ctx, a) == decided(args, decides, ctx, b),
    decreases args, args.len(),
{
    if args.len() > 0 {
        law_expressions_have_their_own_faults(args[0], ctx, a, b);
        lemma_own_faults(args.drop_first(), decides, ctx, a, b);
    }
}

} // verus!
