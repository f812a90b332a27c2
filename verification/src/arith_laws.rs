//! What holds of arithmetic, from the expression to its value.

use crate::error::Fault;
use crate::expr::{applied, arith_name, computed, value_of, Arith, Expr};
use crate::expr_laws::law_nothing_is_divided_by_zero;
use crate::externs::Registry;
use crate::float::{
    abs, exponent, is_finite, is_neg, lemma_float_bits, lemma_int_finite, lemma_split,
    lemma_two_74, lemma_two_adds, lemma_two_le, lemma_two_pos, lemma_units_grow, lemma_units_sign,
    mag, magnitude_units, nearest_magnitude, rounded, signed, significand, spec_difference,
    spec_floor, spec_negated, spec_of_int, spec_product, spec_quotient, spec_sum, two, units,
    Float, IMPLICIT, INFINITY,
};
use crate::float_laws::{
    floor_mod, law_small_integers_are_exact, law_small_modulo_is_exact, lemma_divided,
    lemma_product_is_exact, lemma_sum_is_exact,
};
use crate::operator_laws::{gives, law_numbers_are_ordered};
use crate::rounding_laws::{
    is_nearest, law_every_double_is_its_own_nearest, law_nearest_is_exact_where_it_can_be,
    law_overflow, law_rounding_is_nearest,
};
use crate::value::{exact, number_bits, Json, Number};
use vstd::prelude::*;

verus! {

/// Whether an expression gives an integer.
pub open spec fn gives_int(e: Expr, ctx: Json, reg: Registry, n: int) -> bool {
    value_of(e@, ctx, reg) matches Ok(Json::Num(x)) && match x {
        Number::PosInt(i) => i as int == n,
        Number::NegInt(i) => i as int == n,
        Number::Float(_) => false,
    }
}

/// Whether a result is the double whose value is an integer.
pub open spec fn is_whole(r: Result<Json, Fault>, n: int) -> bool {
    r matches Ok(Json::Num(Number::Float(f))) && is_finite(f.spec_bits()) && units(f.spec_bits())
        == n * two(1074)
}

/// Whether an integer is at most two to the power 53 away from zero.
pub open spec fn small(n: int) -> bool {
    -0x20_0000_0000_0000 <= n <= 0x20_0000_0000_0000
}

proof fn lemma_small_int(x: Number, n: int)
    requires
        small(n),
        match x {
            Number::PosInt(i) => i as int == n,
            Number::NegInt(i) => i as int == n,
            Number::Float(_) => false,
        },
    ensures
        exact(x),
        number_bits(x) == spec_of_int(n),
        is_finite(number_bits(x)),
        units(number_bits(x)) == n * two(1074),
        is_neg(number_bits(x)) == (n < 0),
        n != 0 ==> mag(number_bits(x)) != 0,
{
    law_small_integers_are_exact(n);
    lemma_int_finite(abs(n));
    lemma_two_pos(1074);
    if n != 0 && mag(number_bits(x)) == 0 {
        lemma_units_sign(0);
        assert(n * two(1074) != 0) by (nonlinear_arith)
            requires
                n != 0,
                two(1074) >= 1,
        ;
    }
}

/// Turning the sign round gives the opposite number.
pub proof fn law_negation_is_the_opposite(b: u64)
    requires
        is_finite(b),
    ensures
        is_finite(spec_negated(b)),
        units(spec_negated(b)) == -units(b),
        is_neg(spec_negated(b)) == !is_neg(b),
        mag(spec_negated(b)) == mag(b),
{
}

/// Addition, subtraction and multiplication of integers are exact, with their signs, as long as
/// nothing exceeds two to the power 53.
pub proof fn law_integer_arithmetic_is_exact(
    lhs: Expr,
    rhs: Expr,
    a: int,
    b: int,
    ctx: Json,
    reg: Registry,
)
    requires
        small(a),
        small(b),
        gives_int(lhs, ctx, reg, a),
        gives_int(rhs, ctx, reg, b),
    ensures
        ({
            let (l, r) = (Box::new(lhs), Box::new(rhs));
            &&& small(a + b) ==> is_whole(
                value_of((Expr::Add { lhs: l, rhs: r })@, ctx, reg),
                a + b,
            )
            &&& small(a - b) ==> is_whole(
                value_of((Expr::Sub { lhs: l, rhs: r })@, ctx, reg),
                a - b,
            )
            &&& small(a * b) ==> is_whole(
                value_of((Expr::Mul { lhs: l, rhs: r })@, ctx, reg),
                a * b,
            )
        }),
{
    let x = value_of(lhs@, ctx, reg)->Ok_0->Num_0;
    let y = value_of(rhs@, ctx, reg)->Ok_0->Num_0;
    lemma_small_int(x, a);
    lemma_small_int(y, b);
    let (p, q) = (number_bits(x), number_bits(y));
    let w = two(1074);
    if small(a + b) {
        assert(a * w + b * w == (a + b) * w) by (nonlinear_arith);
        lemma_sum_is_exact(p, q, a + b);
        lemma_float_bits(spec_sum(p, q));
    }
    if small(a - b) {
        law_negation_is_the_opposite(q);
        assert(a * w + -(b * w) == (a - b) * w) by (nonlinear_arith);
        lemma_sum_is_exact(p, spec_negated(q), a - b);
        lemma_float_bits(spec_difference(p, q));
    }
    if small(a * b) {
        lemma_product_is_exact(p, q, a, b);
        lemma_float_bits(spec_product(p, q));
    }
}

/// Dividing what is a multiple of the divisor gives the factor.
pub proof fn law_integer_division_is_exact(
    lhs: Expr,
    rhs: Expr,
    k: int,
    b: int,
    ctx: Json,
    reg: Registry,
)
    requires
        b != 0,
        small(k),
        small(b),
        small(k * b),
        gives_int(lhs, ctx, reg, k * b),
        gives_int(rhs, ctx, reg, b),
    ensures
        is_whole(
            value_of((Expr::Div { lhs: Box::new(lhs), rhs: Box::new(rhs) })@, ctx, reg),
            k,
        ),
{
    let a = k * b;
    let x = value_of(lhs@, ctx, reg)->Ok_0->Num_0;
    let y = value_of(rhs@, ctx, reg)->Ok_0->Num_0;
    lemma_small_int(x, a);
    lemma_small_int(y, b);
    let (p, q) = (number_bits(x), number_bits(y));
    lemma_division(p, q, k, b);
    lemma_float_bits(spec_quotient(p, q));
}

/// The same of doubles.
proof fn lemma_division(p: u64, q: u64, k: int, b: int)
    requires
        b != 0,
        small(k),
        is_finite(p),
        is_finite(q),
        units(p) == k * b * two(1074),
        units(q) == b * two(1074),
        is_neg(p) == (k * b < 0),
        is_neg(q) == (b < 0),
        mag(q) != 0,
    ensures
        is_finite(spec_quotient(p, q)),
        units(spec_quotient(p, q)) == k * two(1074),
{
    let w = two(1074);
    lemma_two_pos(1074);
    lemma_quotient_is_nearest(p, q);
    law_small_integers_are_exact(k);
    let t = quotient_target(p, q);
    let d = abs(units(q));
    let c = abs(units(p)) * w;
    lemma_target(k, b, w, units(p), units(q), c as int, t);
    assert((k * w) * d == t);
    assert(c == abs(k) * w * d) by (nonlinear_arith)
        requires
            (k * w) * d == t,
            c == if t < 0 {
                -t
            } else {
                t
            },
            abs(k) == if k < 0 {
                -k
            } else {
                k
            },
            w >= 1,
            d >= 0,
    ;
    lemma_small_below(k, d, c);
    law_nearest_is_exact_where_it_can_be(spec_quotient(p, q), spec_of_int(k), t, d);
}

proof fn lemma_target(k: int, b: int, w: nat, u: int, v: int, c: int, t: int)
    requires
        w >= 1,
        b != 0,
        u == k * b * w,
        v == b * w,
        c == abs(u) * w,
        t == if (k * b < 0) != (b < 0) {
            -c
        } else {
            c
        },
    ensures
        (k * w) * abs(v) == t,
        c >= 0,
{
    let a = k * b;
    assert(a < 0 ==> u < 0) by (nonlinear_arith)
        requires
            u == a * w,
            w >= 1,
    ;
    assert(a >= 0 ==> u >= 0) by (nonlinear_arith)
        requires
            u == a * w,
            w >= 1,
    ;
    assert(b < 0 ==> v < 0) by (nonlinear_arith)
        requires
            v == b * w,
            w >= 1,
    ;
    assert(b > 0 ==> v > 0) by (nonlinear_arith)
        requires
            v == b * w,
            w >= 1,
    ;
    let x = (k * w) * v;
    let y = u * w;
    assert(x == y) by (nonlinear_arith)
        requires
            x == (k * w) * v,
            v == b * w,
            y == u * w,
            u == k * b * w,
    ;
    assert((k * w) * (-v) == -x) by (nonlinear_arith)
        requires
            x == (k * w) * v,
    ;
    assert((-u) * w == -y) by (nonlinear_arith)
        requires
            y == u * w,
    ;
    assert(c >= 0) by (nonlinear_arith)
        requires
            c == abs(u) * w,
    ;
}

/// What is a small integer times the divisor does not overflow.
proof fn lemma_small_below(k: int, d: nat, p: nat)
    requires
        small(k),
        d > 0,
        p == abs(k) * two(1074) * d,
    ensures
        p < d * (4 * IMPLICIT - 1) * two(2044),
{
    let w = two(1074);
    lemma_two_pos(1074);
    lemma_two_adds(970, 1074);
    lemma_two_le(53, 970);
    lemma_two_74();
    let h = two(2044);
    let g = two(970);
    assert(p < d * (4 * IMPLICIT - 1) * h) by (nonlinear_arith)
        requires
            p == abs(k) * w * d,
            abs(k) <= 2 * IMPLICIT,
            h == g * w,
            g >= 1,
            w >= 1,
            d > 0,
    ;
}

/// Modulo of integers is exact and has the sign of the divisor: the dividend is a multiple of the
/// divisor and the result, and the result is nearer to zero than the divisor.
pub proof fn law_integer_modulo_is_exact(
    lhs: Expr,
    rhs: Expr,
    k: int,
    b: int,
    r: int,
    ctx: Json,
    reg: Registry,
)
    requires
        b != 0,
        b > 0 ==> 0 <= r < b,
        b < 0 ==> b < r <= 0,
        abs(k * b + r) + abs(b) <= 0x20_0000_0000_0000,
        gives_int(lhs, ctx, reg, k * b + r),
        gives_int(rhs, ctx, reg, b),
    ensures
        ({
            let v = value_of((Expr::Mod { lhs: Box::new(lhs), rhs: Box::new(rhs) })@, ctx, reg);
            is_whole(v, r)
        }),
{
    let a = k * b + r;
    let x = value_of(lhs@, ctx, reg)->Ok_0->Num_0;
    let y = value_of(rhs@, ctx, reg)->Ok_0->Num_0;
    lemma_small_int(x, a);
    lemma_small_int(y, b);
    law_small_modulo_is_exact(a, b);
    if b > 0 {
        assert(a == b * k + r) by (nonlinear_arith)
            requires
                a == k * b + r,
        ;
        lemma_divided(a, b, k, r);
    } else {
        assert(-a == (-b) * k + (-r)) by (nonlinear_arith)
            requires
                a == k * b + r,
        ;
        lemma_divided(-a, -b, k, -r);
    }
    assert(floor_mod(a, b) == r);
    let z = applied(Arith::Modulo, number_bits(x), number_bits(y))->Some_0;
    lemma_float_bits(z);
}

/// Whether a number is one that arithmetic takes: finite, and held by a double.
pub open spec fn operand(n: Number) -> bool {
    exact(n) && is_finite(number_bits(n))
}

/// Whether a result is the finite double nearest to `t / q` units, or a failure because there is
/// none.
pub open spec fn rounds_to(r: Result<Json, Fault>, t: int, q: nat, name: Seq<char>) -> bool {
    if abs(t) < q * (4 * IMPLICIT - 1) * two(2044) {
        r matches Ok(Json::Num(Number::Float(f))) && is_nearest(f.spec_bits(), t, q)
    } else {
        r == Err::<Json, Fault>(
            Fault::ArithError {
                op: name,
                msg: "result not f64-representable: "@ + if t < 0 {
                    "-inf"@
                } else {
                    "inf"@
                },
            },
        )
    }
}

proof fn lemma_rounds_to(neg: bool, p: nat, q: nat)
    requires
        q > 0,
    ensures
        rounded(p, q) <= INFINITY,
        is_finite(signed(neg, rounded(p, q))) <==> p < q * (4 * IMPLICIT - 1) * two(2044),
        is_neg(signed(neg, rounded(p, q))) == neg,
        is_finite(signed(neg, rounded(p, q))) ==> is_nearest(
            signed(neg, rounded(p, q)),
            if neg {
                -(p as int)
            } else {
                p as int
            },
            q,
        ),
{
    law_overflow(p, q);
    let z = signed(neg, rounded(p, q));
    assert(mag(z) == rounded(p, q));
    if is_finite(z) {
        law_rounding_is_nearest(neg, p, q);
    }
}

/// What becomes of bits that an operation gives.
proof fn lemma_result(x: Number, y: Number, op: Arith, z: u64, t: int, q: nat)
    requires
        operand(x),
        operand(y),
        applied(op, number_bits(x), number_bits(y)) == Some(z),
        is_finite(z) <==> abs(t) < q * (4 * IMPLICIT - 1) * two(2044),
        is_finite(z) ==> is_nearest(z, t, q),
        !is_finite(z) ==> is_neg(z) == (t < 0),
    ensures
        rounds_to(computed(Json::Num(x), Json::Num(y), op), t, q, arith_name(op)),
        computed(Json::Num(x), Json::Num(y), op) matches Ok(Json::Num(Number::Float(f)))
            ==> is_finite(z) && f.spec_bits() == z,
{
    lemma_float_bits(z);
}

/// A sum of doubles is the double nearest to the exact sum.
proof fn lemma_sum_is_nearest(a: u64, b: u64)
    requires
        is_finite(a),
        is_finite(b),
    ensures
        ({
            let t = units(a) + units(b);
            let z = spec_sum(a, b);
            &&& is_finite(z) <==> abs(t) < 1 * (4 * IMPLICIT - 1) * two(2044)
            &&& is_finite(z) ==> is_nearest(z, t, 1)
            &&& t != 0 ==> is_neg(z) == (t < 0)
            &&& t == 0 ==> is_neg(z) == (is_neg(a) && is_neg(b))
        }),
{
    let t = units(a) + units(b);
    let z = spec_sum(a, b);
    lemma_rounds_to(t < 0, abs(t), 1);
    if t == 0 {
        lemma_rounds_to(is_neg(a) && is_neg(b), 0, 1);
        assert(nearest_magnitude(0, 1) == 0) by {
            assert(0nat / 1nat == 0 && 0nat % 1nat == 0);
        }
        assert(z == signed(is_neg(a) && is_neg(b), rounded(0, 1)));
    }
}

/// Only a sum that is exactly zero is a zero: the difference of two doubles that differ is not too
/// small for a double.
proof fn lemma_sum_zero(a: u64, b: u64)
    requires
        is_finite(a),
        is_finite(b),
    ensures
        is_finite(spec_sum(a, b)) && units(spec_sum(a, b)) == 0 ==> units(a) + units(b) == 0,
{
    let t = units(a) + units(b);
    if is_finite(spec_sum(a, b)) && t != 0 {
        let p = abs(t);
        lemma_rounds_to(t < 0, p, 1);
        let z = rounded(p, 1);
        lemma_signed(t < 0, z);
        assert(z > 0) by {
            assert(p >= 1);
            if p < 1 * 2 * IMPLICIT {
                assert(nearest_magnitude(p, 1) == p) by {
                    assert(p / 1 == p && p % 1 == 0);
                }
            } else {
                assert(nearest_magnitude(p, 1) >= IMPLICIT);
            }
        }
        lemma_units_sign(z as nat);
    }
}

/// Whether a result that is a zero has its sign bit set as said.
pub open spec fn zero_sign(r: Result<Json, Fault>, neg: bool) -> bool {
    r matches Ok(Json::Num(Number::Float(f))) ==> (units(f.spec_bits()) == 0 ==> is_neg(
        f.spec_bits(),
    ) == neg)
}

/// The sum of two numbers is the double nearest to the exact sum; a zero has its sign bit set where
/// both have.
pub proof fn law_sum_is_nearest(
    lhs: Expr,
    rhs: Expr,
    x: Number,
    y: Number,
    ctx: Json,
    reg: Registry,
)
    requires
        gives(lhs, ctx, reg, Ok(Json::Num(x))),
        gives(rhs, ctx, reg, Ok(Json::Num(y))),
        operand(x),
        operand(y),
    ensures
        rounds_to(
            value_of((Expr::Add { lhs: Box::new(lhs), rhs: Box::new(rhs) })@, ctx, reg),
            units(number_bits(x)) + units(number_bits(y)),
            1,
            "add"@,
        ),
        zero_sign(
            value_of((Expr::Add { lhs: Box::new(lhs), rhs: Box::new(rhs) })@, ctx, reg),
            is_neg(number_bits(x)) && is_neg(number_bits(y)),
        ),
{
    let (a, b) = (number_bits(x), number_bits(y));
    lemma_sum_is_nearest(a, b);
    lemma_sum_zero(a, b);
    lemma_no_overflow_of_zero(units(a) + units(b), 1);
    lemma_result(x, y, Arith::Plus, spec_sum(a, b), units(a) + units(b), 1);
}

/// Zero does not overflow.
proof fn lemma_no_overflow_of_zero(t: int, q: nat)
    requires
        q > 0,
    ensures
        t == 0 ==> abs(t) < q * (4 * IMPLICIT - 1) * two(2044),
{
    lemma_two_pos(2044);
    assert(q * (4 * IMPLICIT - 1) * two(2044) > 0) by (nonlinear_arith)
        requires
            q > 0,
            two(2044) >= 1,
    ;
}

/// The difference of two numbers is the double nearest to the exact difference; a zero has its sign
/// bit set where the first number has and the second has not.
pub proof fn law_difference_is_nearest(
    lhs: Expr,
    rhs: Expr,
    x: Number,
    y: Number,
    ctx: Json,
    reg: Registry,
)
    requires
        gives(lhs, ctx, reg, Ok(Json::Num(x))),
        gives(rhs, ctx, reg, Ok(Json::Num(y))),
        operand(x),
        operand(y),
    ensures
        rounds_to(
            value_of((Expr::Sub { lhs: Box::new(lhs), rhs: Box::new(rhs) })@, ctx, reg),
            units(number_bits(x)) - units(number_bits(y)),
            1,
            "sub"@,
        ),
        zero_sign(
            value_of((Expr::Sub { lhs: Box::new(lhs), rhs: Box::new(rhs) })@, ctx, reg),
            is_neg(number_bits(x)) && !is_neg(number_bits(y)),
        ),
{
    let (a, b) = (number_bits(x), number_bits(y));
    lemma_difference_is_nearest(a, b);
    lemma_no_overflow_of_zero(units(a) - units(b), 1);
    lemma_result(x, y, Arith::Minus, spec_difference(a, b), units(a) - units(b), 1);
}

/// A difference of doubles is the double nearest to the exact difference.
proof fn lemma_difference_is_nearest(a: u64, b: u64)
    requires
        is_finite(a),
        is_finite(b),
    ensures
        ({
            let t = units(a) - units(b);
            let z = spec_difference(a, b);
            &&& is_finite(z) <==> abs(t) < 1 * (4 * IMPLICIT - 1) * two(2044)
            &&& is_finite(z) ==> is_nearest(z, t, 1)
            &&& t != 0 ==> is_neg(z) == (t < 0)
            &&& is_finite(z) && units(z) == 0 ==> is_neg(z) == (is_neg(a) && !is_neg(b))
        }),
{
    law_negation_is_the_opposite(b);
    lemma_sum_is_nearest(a, spec_negated(b));
    lemma_sum_zero(a, spec_negated(b));
}

/// The exact product of two doubles, in the units of which two to the power 1074 are one unit.
pub open spec fn product_target(a: u64, b: u64) -> int {
    units(a) * units(b)
}

/// The product of two numbers is the double nearest to the exact product, and its sign bit is set
/// where one of theirs is.
pub proof fn law_product_is_nearest(
    lhs: Expr,
    rhs: Expr,
    x: Number,
    y: Number,
    ctx: Json,
    reg: Registry,
)
    requires
        gives(lhs, ctx, reg, Ok(Json::Num(x))),
        gives(rhs, ctx, reg, Ok(Json::Num(y))),
        operand(x),
        operand(y),
    ensures
        ({
            let r = value_of((Expr::Mul { lhs: Box::new(lhs), rhs: Box::new(rhs) })@, ctx, reg);
            &&& rounds_to(r, units(number_bits(x)) * units(number_bits(y)), two(1074), "mul"@)
            &&& r matches Ok(Json::Num(Number::Float(f))) ==> is_neg(f.spec_bits()) == (is_neg(
                number_bits(x),
            ) != is_neg(number_bits(y)))
        }),
{
    let (a, b) = (number_bits(x), number_bits(y));
    let neg = is_neg(a) != is_neg(b);
    let (u, v) = (units(a), units(b));
    let p = abs(u) * abs(v);
    lemma_two_pos(1074);
    lemma_rounds_to(neg, p, two(1074));
    let t = u * v;
    assert(p == abs(t) && (neg ==> t <= 0) && (!neg ==> t >= 0)) by (nonlinear_arith)
        requires
            p == abs(u) * abs(v),
            t == u * v,
            abs(u) == if u < 0 {
                -u
            } else {
                u
            },
            abs(v) == if v < 0 {
                -v
            } else {
                v
            },
            abs(t) == if t < 0 {
                -t
            } else {
                t
            },
            is_neg(a) ==> u <= 0,
            !is_neg(a) ==> u >= 0,
            is_neg(b) ==> v <= 0,
            !is_neg(b) ==> v >= 0,
            neg == (is_neg(a) != is_neg(b)),
    ;
    lemma_float_bits(spec_product(a, b));
}

/// The dividend times two to the power 1074, with the sign of the quotient.
spec fn quotient_target(a: u64, b: u64) -> int {
    let m = (abs(units(a)) * two(1074)) as int;
    if is_neg(a) != is_neg(b) {
        -m
    } else {
        m
    }
}

proof fn lemma_quotient_is_nearest(a: u64, b: u64)
    requires
        is_finite(a),
        is_finite(b),
        mag(b) != 0,
    ensures
        ({
            let t = quotient_target(a, b);
            let q = abs(units(b));
            let z = spec_quotient(a, b);
            &&& q > 0
            &&& is_finite(z) <==> abs(t) < q * (4 * IMPLICIT - 1) * two(2044)
            &&& is_finite(z) ==> is_nearest(z, t, q)
            &&& is_neg(z) == (is_neg(a) != is_neg(b))
        }),
{
    lemma_units_sign(mag(b));
    lemma_rounds_to(is_neg(a) != is_neg(b), abs(units(a)) * two(1074), abs(units(b)));
    assert(abs(units(a)) * two(1074) >= 0) by (nonlinear_arith);
}

/// The quotient of two numbers is the double nearest to the exact quotient, and its sign bit is
/// set where one of theirs is: the dividend is nearer to the divisor times the result than to the
/// divisor times any other double.
pub proof fn law_quotient_is_nearest(
    lhs: Expr,
    rhs: Expr,
    x: Number,
    y: Number,
    ctx: Json,
    reg: Registry,
)
    requires
        gives(lhs, ctx, reg, Ok(Json::Num(x))),
        gives(rhs, ctx, reg, Ok(Json::Num(y))),
        operand(x),
        operand(y),
        units(number_bits(y)) != 0,
    ensures
        ({
            let r = value_of((Expr::Div { lhs: Box::new(lhs), rhs: Box::new(rhs) })@, ctx, reg);
            let (u, v) = (units(number_bits(x)), units(number_bits(y)));
            let t = u * two(1074);
            &&& v > 0 ==> rounds_to(r, t, v as nat, "div"@)
            &&& v < 0 ==> rounds_to(r, -t, (-v) as nat, "div"@)
            &&& r matches Ok(Json::Num(Number::Float(f))) ==> is_neg(f.spec_bits()) == (is_neg(
                number_bits(x),
            ) != is_neg(number_bits(y)))
        }),
{
    let (a, b) = (number_bits(x), number_bits(y));
    lemma_units_sign(0);
    lemma_quotient_is_nearest(a, b);
    let (u, v) = (units(a), units(b));
    let w = two(1074);
    lemma_two_pos(1074);
    let t = u * w;
    assert(is_neg(a) ==> abs(u) * w == -t) by (nonlinear_arith)
        requires
            t == u * w,
            is_neg(a) ==> abs(u) == -u,
    ;
    assert(!is_neg(a) ==> abs(u) * w == t) by (nonlinear_arith)
        requires
            t == u * w,
            !is_neg(a) ==> abs(u) == u,
    ;
    lemma_float_bits(spec_quotient(a, b));
}

/// Subtracting is adding the opposite, and the difference one way is the opposite of the difference
/// the other way.
pub proof fn law_subtraction_turns_round(a: Float, b: Float)
    requires
        is_finite(a.spec_bits()),
        is_finite(b.spec_bits()),
    ensures
        ({
            let (x, y) = (Json::Num(Number::Float(a)), Json::Num(Number::Float(b)));
            let minus = Float::spec_from_bits(spec_negated(b.spec_bits()));
            let z = Json::Num(Number::Float(minus));
            &&& units(minus.spec_bits()) == -units(b.spec_bits())
            &&& match (computed(x, y, Arith::Minus), computed(x, z, Arith::Plus)) {
                (Ok(u), Ok(v)) => u == v,
                (Err(_), Err(_)) => true,
                _ => false,
            }
            &&& match (computed(x, y, Arith::Minus), computed(y, x, Arith::Minus)) {
                (Ok(u), Ok(v)) => units(number_bits(u->Num_0)) == -units(number_bits(v->Num_0)),
                (Err(_), Err(_)) => true,
                _ => false,
            }
        }),
{
    let (p, q) = (a.spec_bits(), b.spec_bits());
    law_negation_is_the_opposite(q);
    lemma_float_bits(spec_negated(q));
    lemma_turned(p, q);
    lemma_float_bits(spec_difference(p, q));
    lemma_float_bits(spec_difference(q, p));
}

/// The difference of doubles one way and the other way.
proof fn lemma_turned(p: u64, q: u64)
    requires
        is_finite(p),
        is_finite(q),
    ensures
        ({
            let (d, e) = (spec_difference(p, q), spec_difference(q, p));
            &&& is_finite(d) == is_finite(e)
            &&& is_finite(d) ==> units(d) == -units(e)
        }),
{
    law_negation_is_the_opposite(q);
    law_negation_is_the_opposite(p);
    lemma_sum_is_nearest(p, spec_negated(q));
    lemma_sum_is_nearest(q, spec_negated(p));
    let (d, e) = (spec_difference(p, q), spec_difference(q, p));
    let t = units(p) - units(q);
    if is_finite(d) {
        lemma_units_sign(0);
        if t != 0 {
            assert(abs(t) == abs(units(q) - units(p)));
            let m = rounded(abs(t), 1);
            law_overflow(abs(t), 1);
            lemma_signed(t < 0, m);
            lemma_signed(-t < 0, m);
        } else {
            lemma_signed(is_neg(p) && is_neg(spec_negated(q)), 0);
            lemma_signed(is_neg(q) && is_neg(spec_negated(p)), 0);
        }
    }
}

proof fn lemma_signed(neg: bool, m: u64)
    requires
        m <= INFINITY,
    ensures
        mag(signed(neg, m)) == m,
        is_neg(signed(neg, m)) == neg,
{
}

/// Dividing by zero and modulo zero fail, whatever is divided.
pub proof fn law_zero_divides_nothing(
    lhs: Expr,
    rhs: Expr,
    x: Number,
    y: Number,
    ctx: Json,
    reg: Registry,
)
    requires
        gives(lhs, ctx, reg, Ok(Json::Num(x))),
        gives(rhs, ctx, reg, Ok(Json::Num(y))),
        units(number_bits(y)) == 0,
    ensures
        ({
            let (l, r) = (Box::new(lhs), Box::new(rhs));
            let fails = |e: Expr, name: Seq<char>|
                value_of(e@, ctx, reg) matches Err(Fault::ArithError { op, msg }) && op == name;
            &&& fails(Expr::Div { lhs: l, rhs: r }, "div"@)
            &&& fails(Expr::Mod { lhs: l, rhs: r }, "mod"@)
        }),
{
    lemma_units_sign(mag(number_bits(y)));
    law_nothing_is_divided_by_zero(x, y, Arith::Over);
    law_nothing_is_divided_by_zero(x, y, Arith::Modulo);
}

/// Arithmetic on what is no number fails, and names the operation; so does arithmetic on an integer
/// that no double holds.
pub proof fn law_arithmetic_needs_numbers(
    lhs: Expr,
    rhs: Expr,
    a: Json,
    b: Json,
    ctx: Json,
    reg: Registry,
)
    requires
        gives(lhs, ctx, reg, Ok(a)),
        gives(rhs, ctx, reg, Ok(b)),
        !(a is Num && b is Num),
    ensures
        ({
            let (l, r) = (Box::new(lhs), Box::new(rhs));
            let fails = |e: Expr, name: Seq<char>|
                match value_of(e@, ctx, reg) {
                    Err(Fault::TypeError { op, msg }) => op == name,
                    Err(Fault::ArithError { op, msg }) => a is Num && !exact(a->Num_0) && op
                        == name,
                    _ => false,
                };
            &&& fails(Expr::Add { lhs: l, rhs: r }, "add"@)
            &&& fails(Expr::Sub { lhs: l, rhs: r }, "sub"@)
            &&& fails(Expr::Mul { lhs: l, rhs: r }, "mul"@)
            &&& fails(Expr::Div { lhs: l, rhs: r }, "div"@)
            &&& fails(Expr::Mod { lhs: l, rhs: r }, "mod"@)
        }),
{
}

/// The double that stands for an integer is the nearest one, and arithmetic takes the integer
/// exactly where there is a double that is equal to it.
pub proof fn law_integers_become_the_nearest_doubles(x: Number, n: int)
    requires
        match x {
            Number::PosInt(i) => i as int == n,
            Number::NegInt(i) => i as int == n,
            Number::Float(_) => false,
        },
    ensures
        is_nearest(number_bits(x), n * two(1074), 1),
        is_neg(number_bits(x)) == (n < 0),
        exact(x) <==> exists|b: u64| #[trigger] is_finite(b) && units(b) == n * two(1074),
{
    let w = two(1074);
    lemma_two_pos(1074);
    let p = abs(n) * w;
    lemma_int_finite(abs(n));
    lemma_rounds_to(n < 0, p, 1);
    assert(n < 0 ==> -(p as int) == n * w) by (nonlinear_arith)
        requires
            p == abs(n) * w,
            n < 0 ==> abs(n) == -n,
    ;
    assert(n >= 0 ==> p == n * w) by (nonlinear_arith)
        requires
            p == abs(n) * w,
            n >= 0 ==> abs(n) == n,
    ;
    let z = number_bits(x);
    assert(z == signed(n < 0, rounded(p, 1)));
    assert(is_finite(z));
    if exists|b: u64| #[trigger] is_finite(b) && units(b) == n * w {
        let b = choose|b: u64| #[trigger] is_finite(b) && units(b) == n * w;
        law_nearest_is_exact_where_it_can_be(z, b, n * w, 1);
    }
    if exact(x) {
        assert(is_finite(z) && units(z) == n * w);
    }
}

/// A double stands for itself.
pub proof fn law_doubles_stand_for_themselves(f: Float)
    ensures
        exact(Number::Float(f)),
        number_bits(Number::Float(f)) == f.spec_bits(),
{
}

/// Small integers are equal and ordered as integers.
pub proof fn law_small_integers_compare_as_integers(
    lhs: Expr,
    rhs: Expr,
    a: int,
    b: int,
    ctx: Json,
    reg: Registry,
)
    requires
        small(a),
        small(b),
        gives_int(lhs, ctx, reg, a),
        gives_int(rhs, ctx, reg, b),
    ensures
        ({
            let (l, r) = (Box::new(lhs), Box::new(rhs));
            &&& gives(Expr::Eq { lhs: l, rhs: r }, ctx, reg, Ok(Json::Bool(a == b)))
            &&& gives(Expr::Ne { lhs: l, rhs: r }, ctx, reg, Ok(Json::Bool(a != b)))
            &&& gives(Expr::Lt { lhs: l, rhs: r }, ctx, reg, Ok(Json::Bool(a < b)))
            &&& gives(Expr::Lte { lhs: l, rhs: r }, ctx, reg, Ok(Json::Bool(a <= b)))
            &&& gives(Expr::Gt { lhs: l, rhs: r }, ctx, reg, Ok(Json::Bool(a > b)))
            &&& gives(Expr::Gte { lhs: l, rhs: r }, ctx, reg, Ok(Json::Bool(a >= b)))
        }),
{
    let x = value_of(lhs@, ctx, reg)->Ok_0->Num_0;
    let y = value_of(rhs@, ctx, reg)->Ok_0->Num_0;
    lemma_small_int(x, a);
    lemma_small_int(y, b);
    let w = two(1074);
    lemma_two_pos(1074);
    assert((a * w < b * w <==> a < b) && (a * w == b * w <==> a == b)) by (nonlinear_arith)
        requires
            w >= 1,
    ;
    law_numbers_are_ordered(lhs, rhs, x, y, ctx, reg);
}

/// A finite double is the largest whole double that is not above another.
pub open spec fn is_floor(f: u64, q: u64) -> bool {
    &&& is_finite(f)
    &&& units(f) % (two(1074) as int) == 0
    &&& units(f) <= units(q) < units(f) + two(1074)
    &&& units(f) == 0 ==> is_neg(f) == is_neg(q)
}

/// Bits are known by the number and the sign bit.
proof fn lemma_same_bits(a: u64, b: u64)
    requires
        is_finite(a),
        is_finite(b),
        units(a) == units(b),
        units(a) == 0 ==> is_neg(a) == is_neg(b),
    ensures
        a == b,
{
    lemma_units_sign(mag(a));
    lemma_units_sign(mag(b));
    if mag(a) < mag(b) {
        lemma_units_grow(mag(a), mag(b));
    } else if mag(b) < mag(a) {
        lemma_units_grow(mag(b), mag(a));
    }
}

/// Every double that is not below two to the power 52 is whole.
proof fn lemma_large_is_whole(q: u64)
    requires
        is_finite(q),
        abs(units(q)) >= 0x20_0000_0000_0000 * two(1074),
    ensures
        units(q) % (two(1074) as int) == 0,
{
    let m = mag(q);
    let w = two(1074);
    lemma_two_pos(1074);
    lemma_split(m);
    let (e, n) = (exponent(m), significand(m));
    if e < 1074 {
        lemma_two_le(e, 1074);
        assert(false) by (nonlinear_arith)
            requires
                n * two(e) >= 0x20_0000_0000_0000 * w,
                two(e) <= w,
                n < 0x20_0000_0000_0000,
                w >= 1,
        ;
    }
    let d = (e - 1074) as nat;
    lemma_two_adds(d, 1074);
    let k = (n * two(d)) as int;
    let u = magnitude_units(m) as int;
    assert(u == k * w) by (nonlinear_arith)
        requires
            u == n * two(e),
            two(e) == two(d) * w,
            k == n * two(d),
    ;
    assert(-u == (-k) * w) by (nonlinear_arith)
        requires
            u == k * w,
    ;
    vstd::arithmetic::div_mod::lemma_mod_multiples_basic(k, w as int);
    vstd::arithmetic::div_mod::lemma_mod_multiples_basic(-k, w as int);
}

/// Rounding down gives the largest whole double that is not above.
pub proof fn law_floor_is_whole_and_not_above(q: u64)
    requires
        is_finite(q),
    ensures
        is_floor(spec_floor(q), q),
{
    let w = two(1074) as int;
    lemma_two_pos(1074);
    let u = units(q);
    let n = u / w;
    vstd::arithmetic::div_mod::lemma_fundamental_div_mod(u, w);
    let left = u % w;
    assert(n * w == w * n) by (nonlinear_arith);
    vstd::arithmetic::div_mod::lemma_mod_multiples_basic(n, w);
    let f = spec_floor(q);
    if n == 0 {
        lemma_units_sign(0);
        assert(mag(f) == 0);
        assert(w * n == 0) by (nonlinear_arith)
            requires
                n == 0,
        ;
    } else {
        assert(f == spec_of_int(n));
        assert(n < 0 ==> n * w < 0) by (nonlinear_arith)
            requires
                w >= 1,
        ;
        assert(n > 0 ==> n * w > 0) by (nonlinear_arith)
            requires
                w >= 1,
        ;
        if small(n) {
            law_small_integers_are_exact(n);
        } else {
            assert(abs(u) >= 0x20_0000_0000_0000 * w) by (nonlinear_arith)
                requires
                    u == w * n + left,
                    0 <= left < w,
                    n > 0x20_0000_0000_0000 || n < -0x20_0000_0000_0000,
                    abs(u) == if u < 0 {
                        -u
                    } else {
                        u
                    },
            ;
            lemma_large_is_whole(q);
            assert(u == n * w);
            let p = abs(n) * two(1074);
            assert(p == abs(u)) by (nonlinear_arith)
                requires
                    p == abs(n) * w,
                    u == n * w,
                    w >= 1,
                    abs(n) == if n < 0 {
                        -n
                    } else {
                        n
                    },
                    abs(u) == if u < 0 {
                        -u
                    } else {
                        u
                    },
            ;
            law_every_double_is_its_own_nearest(q);
            assert(f == q);
        }
    }
}

/// Modulo is what is left of the dividend after the divisor has been taken from it as many whole
/// times as it goes into it.
pub proof fn law_modulo_is_the_rest(
    lhs: Expr,
    rhs: Expr,
    x: Number,
    y: Number,
    q: Float,
    f: Float,
    ctx: Json,
    reg: Registry,
)
    requires
        gives(lhs, ctx, reg, Ok(Json::Num(x))),
        gives(rhs, ctx, reg, Ok(Json::Num(y))),
        operand(x),
        operand(y),
        gives(
            Expr::Div { lhs: Box::new(lhs), rhs: Box::new(rhs) },
            ctx,
            reg,
            Ok(Json::Num(Number::Float(q))),
        ),
        is_floor(f.spec_bits(), q.spec_bits()),
    ensures
        ({
            let r = value_of((Expr::Mod { lhs: Box::new(lhs), rhs: Box::new(rhs) })@, ctx, reg);
            let times = computed(Json::Num(Number::Float(f)), Json::Num(y), Arith::Times);
            match times {
                Err(_) => r matches Err(Fault::ArithError { op, msg }) && op == "mod"@,
                Ok(p) => match computed(Json::Num(x), p, Arith::Minus) {
                    Ok(v) => r == Ok::<Json, Fault>(v),
                    Err(_) => r matches Err(Fault::ArithError { op, msg }) && op == "mod"@,
                },
            }
        }),
{
    let (a, b) = (number_bits(x), number_bits(y));
    let z = spec_quotient(a, b);
    lemma_float_bits(z);
    assert(q.spec_bits() == z);
    lemma_floor_once(f.spec_bits(), z);
    let p = spec_product(f.spec_bits(), b);
    lemma_float_bits(p);
    lemma_product_size(f.spec_bits(), b);
    if !is_finite(p) {
        lemma_infinite_difference(a, p);
    }
}

/// There is one floor.
proof fn lemma_floor_once(f: u64, z: u64)
    requires
        is_finite(z),
        is_floor(f, z),
    ensures
        f == spec_floor(z),
{
    law_floor_is_whole_and_not_above(z);
    let w = two(1074) as int;
    lemma_two_pos(1074);
    let (u, v) = (units(f), units(spec_floor(z)));
    vstd::arithmetic::div_mod::lemma_fundamental_div_mod(u, w);
    vstd::arithmetic::div_mod::lemma_fundamental_div_mod(v, w);
    let (i, j) = (u / w, v / w);
    assert(i == j) by (nonlinear_arith)
        requires
            u == w * i,
            v == w * j,
            u < v + w,
            v < u + w,
            w >= 1,
    ;
    lemma_same_bits(f, spec_floor(z));
}

proof fn lemma_product_size(a: u64, b: u64)
    requires
        is_finite(a),
        is_finite(b),
    ensures
        mag(spec_product(a, b)) <= INFINITY,
{
    lemma_two_pos(1074);
    law_overflow(abs(units(a)) * abs(units(b)), two(1074));
    lemma_signed(is_neg(a) != is_neg(b), rounded(abs(units(a)) * abs(units(b)), two(1074)));
}

proof fn lemma_infinite_difference(a: u64, p: u64)
    requires
        is_finite(a),
        mag(p) == INFINITY,
    ensures
        mag(spec_difference(a, p)) == INFINITY,
{
    lemma_signed(!is_neg(p), INFINITY);
}

/// Where the quotient is too large for a double, modulo fails too.
pub proof fn law_modulo_fails_with_the_quotient(
    lhs: Expr,
    rhs: Expr,
    x: Number,
    y: Number,
    ctx: Json,
    reg: Registry,
)
    requires
        gives(lhs, ctx, reg, Ok(Json::Num(x))),
        gives(rhs, ctx, reg, Ok(Json::Num(y))),
        operand(x),
        operand(y),
        value_of((Expr::Div { lhs: Box::new(lhs), rhs: Box::new(rhs) })@, ctx, reg) is Err,
    ensures
        value_of(
            (Expr::Mod { lhs: Box::new(lhs), rhs: Box::new(rhs) })@,
            ctx,
            reg,
        ) matches Err(Fault::ArithError { op, msg }) && op == "mod"@,
{
    let (a, b) = (number_bits(x), number_bits(y));
    if mag(b) != 0 {
        lemma_infinite_quotient(a, b);
    }
}

proof fn lemma_infinite_quotient(a: u64, b: u64)
    requires
        is_finite(a),
        is_finite(b),
        mag(b) != 0,
        !is_finite(spec_quotient(a, b)),
    ensures
        mag(spec_difference(a, spec_product(spec_floor(spec_quotient(a, b)), b))) == INFINITY,
{
    lemma_quotient_is_nearest(a, b);
    let z = spec_quotient(a, b);
    law_overflow(abs(units(a)) * two(1074), abs(units(b)));
    lemma_signed(is_neg(a) != is_neg(b), rounded(abs(units(a)) * two(1074), abs(units(b))));
    assert(mag(z) == INFINITY);
    lemma_signed(is_neg(z) != is_neg(b), INFINITY);
    lemma_infinite_difference(a, spec_product(spec_floor(z), b));
}

} // verus!
