//! What holds of doubles.

use crate::expr::{applied, Arith};
use crate::float::{
    abs, is_finite, is_neg, lemma_int_finite, lemma_nearest_magnitude_at, lemma_nearest_scale,
    lemma_two_74, lemma_two_adds, lemma_two_le, lemma_two_pos, lemma_units_sign, mag,
    magnitude_units, nearest, nearest_magnitude, rounded, signed, spec_floor, spec_negated,
    spec_of_int, spec_product, spec_quotient, spec_sum, two, units, IMPLICIT, INFINITY, SIGN,
};
use vstd::prelude::*;

verus! {

/// What fits in a significand is not rounded.
proof fn lemma_exact(m: nat, k: nat, q: nat)
    requires
        q > 0,
        m < 2 * IMPLICIT,
        k > 0 ==> m >= IMPLICIT,
    ensures
        nearest_magnitude(m * two(k) * q, q) == k * IMPLICIT + m,
    decreases k,
{
    let p = m * two(k) * q;
    if k == 0 {
        assert(p == m * q) by (nonlinear_arith)
            requires
                p == m * two(k) * q,
                two(k) == 1,
        ;
        assert(m * q < q * 2 * IMPLICIT) by (nonlinear_arith)
            requires
                m < 2 * IMPLICIT,
                q > 0,
        ;
        assert(m * q == q * m + 0) by (nonlinear_arith);
        vstd::arithmetic::div_mod::lemma_fundamental_div_mod_converse(p as int, q as int, m as int, 0);
        assert(k * IMPLICIT == 0) by (nonlinear_arith)
            requires
                k == 0,
        ;
    } else {
        let j = (k - 1) as nat;
        lemma_two_pos(j);
        let w = two(j);
        assert(p == m * w * (2 * q)) by (nonlinear_arith)
            requires
                p == m * (2 * w) * q,
        ;
        assert(p >= q * 2 * IMPLICIT) by (nonlinear_arith)
            requires
                p == m * w * (2 * q),
                m >= IMPLICIT,
                w >= 1,
                q > 0,
        ;
        lemma_exact(m, j, 2 * q);
        assert(k * IMPLICIT == j * IMPLICIT + IMPLICIT) by (nonlinear_arith)
            requires
                k == j + 1,
        ;
    }
}

/// How far a number has to be shifted up to set its implicit bit.
proof fn lemma_normal(n: nat, j: nat) -> (r: nat)
    requires
        n > 0,
        j <= 53,
        n * two(j) < 2 * IMPLICIT,
    ensures
        r <= 53,
        IMPLICIT <= n * two(r) < 2 * IMPLICIT,
    decreases 53 - j,
{
    if n * two(j) >= IMPLICIT {
        j
    } else {
        lemma_two_74();
        let w = two(j);
        if j == 53 {
            assert(n * w >= w) by (nonlinear_arith)
                requires
                    n >= 1,
            ;
            j
        } else {
            assert(n * two(j + 1) == 2 * (n * w)) by (nonlinear_arith)
                requires
                    two(j + 1) == 2 * w,
            ;
            lemma_normal(n, j + 1)
        }
    }
}

/// A magnitude is as many units as its exponent and significand say.
proof fn lemma_units_of(m: nat, k: nat)
    requires
        IMPLICIT <= m < 2 * IMPLICIT,
    ensures
        magnitude_units((k * IMPLICIT + m) as nat) == m * two(k),
{
    let x = k * IMPLICIT + m;
    let rest = (m - IMPLICIT) as int;
    assert(x == IMPLICIT * (k + 1) + rest) by (nonlinear_arith)
        requires
            x == k * IMPLICIT + m,
            rest == m - IMPLICIT,
    ;
    vstd::arithmetic::div_mod::lemma_fundamental_div_mod_converse(
        x as int,
        IMPLICIT as int,
        k as int + 1,
        rest,
    );
    assert(x >= IMPLICIT) by (nonlinear_arith)
        requires
            x == k * IMPLICIT + m,
            m >= IMPLICIT,
    ;
}

/// Integers up to two to the power 53, of either sign, are doubles.
pub proof fn law_small_integers_are_exact(n: int)
    requires
        -0x20_0000_0000_0000 <= n <= 0x20_0000_0000_0000,
    ensures
        is_finite(spec_of_int(n)),
        units(spec_of_int(n)) == n * two(1074),
{
    let a = abs(n);
    let p = a * two(1074);
    lemma_int_finite(a);
    if a == 0 {
        assert(p == 0) by (nonlinear_arith)
            requires
                p == a * two(1074),
                a == 0,
        ;
        assert(0nat / 1nat == 0 && 0nat % 1nat == 0);
        assert(nearest_magnitude(0, 1) == 0);
        assert(magnitude_units(0) == 0) by {
            lemma_units_sign(0);
        }
        assert(n * two(1074) == 0) by (nonlinear_arith)
            requires
                n == 0,
        ;
    } else {
        let (m, k): (nat, nat) = if a == 0x20_0000_0000_0000 {
            (IMPLICIT as nat, 1075)
        } else {
            assert(a * two(0) == a) by (nonlinear_arith)
                requires
                    two(0) == 1,
            ;
            let j = lemma_normal(a, 0);
            (a * two(j), (1074 - j) as nat)
        };
        assert(p == m * two(k)) by {
            if a == 0x20_0000_0000_0000 {
                assert(two(1075) == 2 * two(1074));
                assert(a * two(1074) == m * two(1075)) by (nonlinear_arith)
                    requires
                        two(1075) == 2 * two(1074),
                        a == 2 * m,
                ;
            } else {
                let j = (1074 - k) as nat;
                lemma_two_adds(j, k);
                assert(a * two(1074) == a * two(j) * two(k)) by (nonlinear_arith)
                    requires
                        two(1074) == two(j) * two(k),
                ;
            }
        }
        lemma_exact(m, k, 1);
        assert(m * two(k) * 1 == p);
        lemma_units_of(m, k);
        let x = rounded(p, 1);
        assert(x == k * IMPLICIT + m);
        assert(magnitude_units(x as nat) == p);
        assert(x < INFINITY < SIGN);
        let b = spec_of_int(n);
        assert(mag(b) == x);
        assert(n < 0 ==> -(p as int) == n * two(1074)) by (nonlinear_arith)
            requires
                p == a * two(1074),
                n < 0 ==> a == -n,
        ;
        assert(n > 0 ==> p == n * two(1074)) by (nonlinear_arith)
            requires
                p == a * two(1074),
                n > 0 ==> a == n,
        ;
    }
}

/// A sum that is a small integer is exact.
pub(crate) proof fn lemma_sum_is_exact(x: u64, y: u64, n: int)
    requires
        is_finite(x),
        is_finite(y),
        -0x20_0000_0000_0000 <= n <= 0x20_0000_0000_0000,
        units(x) + units(y) == n * two(1074),
    ensures
        is_finite(spec_sum(x, y)),
        units(spec_sum(x, y)) == n * two(1074),
{
    law_small_integers_are_exact(n);
    let w = two(1074);
    lemma_two_pos(1074);
    let t = n * w;
    assert(n == 0 ==> t == 0) by (nonlinear_arith)
        requires
            t == n * w,
    ;
    assert(n > 0 ==> t > 0) by (nonlinear_arith)
        requires
            t == n * w,
            w >= 1,
    ;
    assert(n < 0 ==> t < 0) by (nonlinear_arith)
        requires
            t == n * w,
            w >= 1,
    ;
    assert(abs(t) == abs(n) * w) by (nonlinear_arith)
        requires
            t == n * w,
            n < 0 ==> t < 0,
            n > 0 ==> t > 0,
            n == 0 ==> t == 0,
            abs(t) == if t < 0 {
                -t
            } else {
                t
            },
            abs(n) == if n < 0 {
                -n
            } else {
                n
            },
    ;
    if n == 0 {
        lemma_units_sign(0);
        let z = signed(is_neg(x) && is_neg(y), 0);
        assert(mag(z) == 0);
    } else {
        assert(spec_sum(x, y) == spec_of_int(n));
    }
}

/// Sums of integers are exact as long as nothing exceeds two to the power 53.
pub proof fn law_small_sums_are_exact(a: int, b: int)
    requires
        -0x20_0000_0000_0000 <= a <= 0x20_0000_0000_0000,
        -0x20_0000_0000_0000 <= b <= 0x20_0000_0000_0000,
        -0x20_0000_0000_0000 <= a + b <= 0x20_0000_0000_0000,
    ensures
        units(spec_sum(spec_of_int(a), spec_of_int(b))) == (a + b) * two(1074),
{
    law_small_integers_are_exact(a);
    law_small_integers_are_exact(b);
    let w = two(1074);
    assert(a * w + b * w == (a + b) * w) by (nonlinear_arith);
    lemma_sum_is_exact(spec_of_int(a), spec_of_int(b), a + b);
}

/// Multiplying both sides of a ratio by the same factor does not change its magnitude.
proof fn lemma_magnitude_scale(p: nat, q: nat, c: nat)
    requires
        q > 0,
        c > 0,
    ensures
        nearest_magnitude(p * c, q * c) == nearest_magnitude(p, q),
    decreases p - q,
{
    assert(q * c > 0) by (nonlinear_arith)
        requires
            q > 0,
            c > 0,
    ;
    assert((p * c < q * c * 2 * IMPLICIT) == (p < q * 2 * IMPLICIT)) by (nonlinear_arith)
        requires
            c > 0,
    ;
    if p < q * 2 * IMPLICIT {
        lemma_nearest_scale(p, q, c);
    } else {
        assert(2 * (q * c) == (2 * q) * c) by (nonlinear_arith);
        lemma_magnitude_scale(p, 2 * q, c);
    }
}

/// Products of integers are exact as long as nothing exceeds two to the power 53. The signs of
/// zeros do not matter.
pub(crate) proof fn lemma_product_is_exact(x: u64, y: u64, a: int, b: int)
    requires
        is_finite(x),
        is_finite(y),
        units(x) == a * two(1074),
        units(y) == b * two(1074),
        is_neg(x) == (a < 0) || a == 0,
        is_neg(y) == (b < 0) || b == 0,
        -0x20_0000_0000_0000 <= a * b <= 0x20_0000_0000_0000,
    ensures
        is_finite(spec_product(x, y)),
        units(spec_product(x, y)) == a * b * two(1074),
{
    let w = two(1074);
    lemma_two_pos(1074);
    let (u, v) = (abs(units(x)), abs(units(y)));
    let n = a * b;
    assert(u * v == abs(n) * w * w) by (nonlinear_arith)
        requires
            n == a * b,
            w >= 1,
            u == if a * w < 0 {
                -(a * w)
            } else {
                a * w
            },
            v == if b * w < 0 {
                -(b * w)
            } else {
                b * w
            },
            abs(n) == if n < 0 {
                -n
            } else {
                n
            },
    ;
    lemma_magnitude_scale(abs(n) * w, 1, w);
    assert(1 * w == w);
    law_small_integers_are_exact(n);
    let m = rounded(abs(n) * w, 1);
    assert(rounded(u * v, w) == m);
    let z = spec_product(x, y);
    let i = spec_of_int(n);
    lemma_int_finite(abs(n));
    assert(m < INFINITY);
    assert(mag(z) == m && mag(i) == m);
    assert(n < 0 <==> (a < 0 && b > 0) || (a > 0 && b < 0)) by (nonlinear_arith)
        requires
            n == a * b,
    ;
    assert(n == 0 <==> a == 0 || b == 0) by (nonlinear_arith)
        requires
            n == a * b,
    ;
    if n == 0 {
        assert(units(i) == 0) by (nonlinear_arith)
            requires
                units(i) == n * w,
                n == 0,
        ;
        assert(magnitude_units(m as nat) == 0);
    } else {
        assert(is_neg(z) == is_neg(i));
    }
}

/// The exponent with which a ratio fits in a significand.
pub(crate) proof fn lemma_exponent(p: nat, q: nat, hi: nat) -> (e: nat)
    requires
        q > 0,
        p < q * two(hi) * 2 * IMPLICIT,
    ensures
        e <= hi,
        p < q * two(e) * 2 * IMPLICIT,
        e > 0 ==> p >= q * two(e) * IMPLICIT,
    decreases hi,
{
    if hi == 0 || p >= q * two(hi) * IMPLICIT {
        hi
    } else {
        let j = (hi - 1) as nat;
        assert(q * two(hi) * IMPLICIT == q * two(j) * 2 * IMPLICIT) by (nonlinear_arith)
            requires
                two(hi) == 2 * two(j),
        ;
        lemma_exponent(p, q, j)
    }
}

/// What rounding to an integer keeps.
pub(crate) proof fn lemma_nearest_bounds(p: nat, q: nat, c: nat)
    requires
        q > 0,
    ensures
        p <= q * c ==> nearest(p, q) <= c,
        p >= q * c ==> nearest(p, q) >= c,
{
    let (f, r) = (p / q, p % q);
    vstd::arithmetic::div_mod::lemma_fundamental_div_mod(p as int, q as int);
    assert(p <= q * c ==> f <= c && (f == c ==> r == 0)) by (nonlinear_arith)
        requires
            p == q * f + r,
            0 <= r < q,
    ;
    assert(p >= q * c ==> f >= c) by (nonlinear_arith)
        requires
            p == q * f + r,
            0 <= r < q,
    ;
}

/// A magnitude is as many units as its exponent and significand say, also where the significand
/// has been rounded up to the next power of two.
pub(crate) proof fn lemma_units_at(e: nat, n: nat)
    requires
        n <= 2 * IMPLICIT,
        e > 0 ==> n >= IMPLICIT,
    ensures
        magnitude_units((e * IMPLICIT + n) as nat) == n * two(e),
{
    if n == 2 * IMPLICIT {
        let i = IMPLICIT as nat;
        lemma_units_of(i, e + 1);
        assert(e * IMPLICIT + n == (e + 1) * IMPLICIT + i) by (nonlinear_arith)
            requires
                n == 2 * IMPLICIT,
                i == IMPLICIT,
        ;
        let w = two(e);
        assert(i * (2 * w) == n * w) by (nonlinear_arith)
            requires
                n == 2 * i,
        ;
        assert(two(e + 1) == 2 * w);
    } else if n >= IMPLICIT {
        lemma_units_of(n, e);
    } else {
        assert(e * IMPLICIT == 0) by (nonlinear_arith)
            requires
                e == 0,
        ;
        assert(n * two(0) == n) by (nonlinear_arith)
            requires
                two(0) == 1,
        ;
    }
}

/// Rounding to a fine enough grid does not leave the gap between two integers.
proof fn lemma_between(a: nat, b: nat, g: nat, k: nat, rem: nat)
    requires
        a == k * b + rem,
        0 < rem < b,
        2 * g > b,
    ensures
        k * g < nearest(a * g, b) < (k + 1) * g,
{
    let p = a * g;
    let (f, r) = ((p / b) as int, (p % b) as int);
    vstd::arithmetic::div_mod::lemma_fundamental_div_mod(p as int, b as int);
    let (lo, hi) = (k * g, (k + 1) * g);
    assert(b * f + r == b * lo + rem * g) by (nonlinear_arith)
        requires
            p == b * f + r,
            p == a * g,
            a == k * b + rem,
            lo == k * g,
    ;
    assert(hi == lo + g) by (nonlinear_arith)
        requires
            hi == (k + 1) * g,
            lo == k * g,
    ;
    assert(f >= lo) by (nonlinear_arith)
        requires
            b * f + r == b * lo + rem * g,
            0 <= r < b,
            rem >= 1,
            g >= 1,
            b >= 1,
    ;
    assert(rem * g >= g) by (nonlinear_arith)
        requires
            rem >= 1,
            g >= 0,
    ;
    assert(f < hi) by (nonlinear_arith)
        requires
            b * f + r == b * lo + rem * g,
            r >= 0,
            hi == lo + g,
            rem < b,
            g >= 1,
            b >= 1,
    ;
    if f == lo {
        assert(r == rem * g);
    }
    if f == hi - 1 {
        assert(2 * r < b) by (nonlinear_arith)
            requires
                b * f + r == b * lo + rem * g,
                f == lo + g - 1,
                rem <= b - 1,
                2 * g > b,
                g >= 1,
        ;
    }
}

/// The quotient of small integers lies between the same integers as the exact one.
proof fn lemma_quotient_gap(a: nat, b: nat)
    requires
        0 < a < 0x20_0000_0000_0000,
        0 < b <= 0x20_0000_0000_0000,
    ensures
        ({
            let m = nearest_magnitude(a * two(1074), b);
            let u = magnitude_units(m);
            &&& m < INFINITY
            &&& a % b == 0 ==> u == (a / b) * two(1074)
            &&& a % b > 0 ==> (a / b) * two(1074) < u < (a / b + 1) * two(1074)
        }),
{
    let w = two(1074);
    lemma_two_pos(1074);
    lemma_two_74();
    let p = a * w;
    assert(p < b * w * 2 * IMPLICIT) by (nonlinear_arith)
        requires
            p == a * w,
            a < 2 * IMPLICIT,
            b >= 1,
            w >= 1,
    ;
    let e = lemma_exponent(p, b, 1074);
    let t = two(e);
    let g = two((1074 - e) as nat);
    lemma_two_pos(e);
    lemma_two_pos((1074 - e) as nat);
    lemma_two_adds((1074 - e) as nat, e);
    assert(w == g * t);
    lemma_nearest_magnitude_at(p, b, e);
    assert(p == (a * g) * t) by (nonlinear_arith)
        requires
            p == a * w,
            w == g * t,
    ;
    lemma_nearest_scale(a * g, b, t);
    let n = nearest(a * g, b);
    assert(nearest_magnitude(p, b) == e * IMPLICIT + n);
    assert(a * g <= b * (2 * IMPLICIT as nat)) by (nonlinear_arith)
        requires
            (a * g) * t < b * t * 2 * IMPLICIT,
            t >= 1,
    ;
    lemma_nearest_bounds(a * g, b, 2 * IMPLICIT as nat);
    if e > 0 {
        assert(a * g >= b * (IMPLICIT as nat)) by (nonlinear_arith)
            requires
                (a * g) * t >= b * t * IMPLICIT,
                t >= 1,
        ;
        lemma_nearest_bounds(a * g, b, IMPLICIT as nat);
    }
    lemma_units_at(e, n);
    assert(e * IMPLICIT <= 1074 * IMPLICIT) by (nonlinear_arith)
        requires
            e <= 1074,
    ;
    let (k, rem) = (a / b, a % b);
    vstd::arithmetic::div_mod::lemma_fundamental_div_mod(a as int, b as int);
    assert(a == k * b + rem) by (nonlinear_arith)
        requires
            a == b * k + rem,
    ;
    if rem == 0 {
        assert(a * g == b * (k * g)) by (nonlinear_arith)
            requires
                a == k * b,
        ;
        lemma_nearest_bounds(a * g, b, k * g);
        assert(n * t == k * w) by (nonlinear_arith)
            requires
                n == k * g,
                w == g * t,
        ;
    } else {
        assert(2 * g > b) by {
            if e > 0 {
                assert(2 * g > b) by (nonlinear_arith)
                    requires
                        a * g >= b * IMPLICIT,
                        a < 2 * IMPLICIT,
                        g >= 1,
                        b >= 1,
                ;
            } else {
                lemma_two_le(53, 1074);
            }
        }
        lemma_between(a, b, g, k, rem);
        assert(k * w < n * t < (k + 1) * w) by (nonlinear_arith)
            requires
                k * g < n < (k + 1) * g,
                w == g * t,
                t >= 1,
        ;
    }
}

/// An integer that is a multiple of a divisor and a rest has that rest and that factor.
pub(crate) proof fn lemma_divided(x: int, d: int, f: int, r: int)
    requires
        0 <= r < d,
        x == d * f + r,
    ensures
        x / d == f,
        x % d == r,
{
    assert(f * d + r == d * f + r) by (nonlinear_arith);
    vstd::arithmetic::div_mod::lemma_fundamental_div_mod_converse(x, d, f, r);
}

/// The quotient of two integers, rounded down, from that of their absolute values.
proof fn lemma_floor_div(a: int, b: int, c: int, d: int, k: int, rem: int, neg: bool, fl: int)
    requires
        b != 0,
        c == abs(a),
        d == abs(b),
        c > 0,
        c == d * k + rem,
        0 <= rem < d,
        neg == ((a < 0) != (b < 0)),
        fl == if !neg {
            k
        } else if rem == 0 {
            -k
        } else {
            -(k + 1)
        },
    ensures
        floor_div(a, b) == fl,
{
    let x = if b > 0 {
        a
    } else {
        -a
    };
    let r = if !neg {
        rem
    } else if rem == 0 {
        0
    } else {
        d - rem
    };
    let dk = d * k;
    assert(d * fl == if !neg {
        dk
    } else if rem == 0 {
        -dk
    } else {
        -dk - d
    }) by (nonlinear_arith)
        requires
            dk == d * k,
            fl == if !neg {
                k
            } else if rem == 0 {
                -k
            } else {
                -(k + 1)
            },
    ;
    assert(x == if neg {
        -c
    } else {
        c
    });
    lemma_divided(x, d, fl, r);
}

/// The floor of the quotient of two small integers is that of the exact quotient.
proof fn lemma_floor_of_quotient(a: int, b: int)
    requires
        b != 0,
        abs(a) + abs(b) <= 0x20_0000_0000_0000,
    ensures
        ({
            let x = spec_floor(spec_quotient(spec_of_int(a), spec_of_int(b)));
            let n = floor_div(a, b);
            &&& is_finite(x)
            &&& units(x) == n * two(1074)
            &&& is_neg(x) == (n < 0) || n == 0
        }),
{
    let w = two(1074);
    lemma_two_pos(1074);
    law_small_integers_are_exact(a);
    law_small_integers_are_exact(b);
    let (x, y) = (spec_of_int(a), spec_of_int(b));
    let (c, d) = (abs(a), abs(b));
    assert(abs(units(x)) == c * w && abs(units(y)) == d * w) by (nonlinear_arith)
        requires
            w >= 1,
            abs(units(x)) == if a * w < 0 {
                -(a * w)
            } else {
                a * w
            },
            abs(units(y)) == if b * w < 0 {
                -(b * w)
            } else {
                b * w
            },
            c == if a < 0 {
                -a
            } else {
                a
            },
            d == if b < 0 {
                -b
            } else {
                b
            },
    ;
    let q = spec_quotient(x, y);
    let neg = is_neg(x) != is_neg(y);
    assert(c * w * w == (c * w) * w && d * w > 0) by (nonlinear_arith)
        requires
            d >= 1,
            w >= 1,
    ;
    lemma_magnitude_scale(c * w, d, w);
    let m = nearest_magnitude(c * w, d);
    lemma_int_finite(c);
    lemma_int_finite(d);
    assert(is_neg(x) == (a < 0));
    assert(is_neg(y) == (b < 0));
    let n = floor_div(a, b);
    if c == 0 {
        assert(c * w == 0) by (nonlinear_arith)
            requires
                c == 0,
        ;
        assert(0nat < d * 2 * IMPLICIT);
        assert(0nat / d == 0 && 0nat % d == 0) by (nonlinear_arith)
            requires
                d > 0,
        ;
        assert(m == 0);
        lemma_units_sign(0);
        assert(mag(q) == 0);
        assert(units(q) == 0);
        assert(0int / (w as int) == 0) by (nonlinear_arith)
            requires
                w >= 1,
        ;
        assert(n == 0) by (nonlinear_arith)
            requires
                a == 0,
                b != 0,
                n == if b > 0 {
                    a / b
                } else {
                    (-a) / (-b)
                },
        ;
        let z = signed(is_neg(q), 0);
        assert(mag(z) == 0);
        assert(n * w == 0) by (nonlinear_arith)
            requires
                n == 0,
        ;
    } else {
        lemma_quotient_gap(c, d);
        let u = magnitude_units(m);
        let (k, rem) = ((c / d) as int, (c % d) as int);
        assert(mag(q) == m && is_neg(q) == neg);
        assert(units(q) == if neg {
            -u
        } else {
            u as int
        });
        vstd::arithmetic::div_mod::lemma_fundamental_div_mod(c as int, d as int);
        let fl = if !neg {
            k
        } else if rem == 0 {
            -k
        } else {
            -(k + 1)
        };
        let left = units(q) - w * fl;
        assert(0 <= left < w) by (nonlinear_arith)
            requires
                left == units(q) - w * fl,
                units(q) == if neg {
                    -u
                } else {
                    u as int
                },
                fl == if !neg {
                    k
                } else if rem == 0 {
                    -k
                } else {
                    -(k + 1)
                },
                rem == 0 ==> u == k * w,
                rem > 0 ==> k * w < u < (k + 1) * w,
                rem >= 0,
                w >= 1,
        ;
        lemma_divided(units(q), w as int, fl, left);
        assert(fl == n) by {
            lemma_floor_div(a, b, c as int, d as int, k, rem, neg, fl);
        }
        assert(k <= c) by (nonlinear_arith)
            requires
                c == d * k + rem,
                d >= 1,
                rem >= 0,
                k >= 0,
        ;
        assert(rem > 0 ==> k + 1 <= c + d);
        assert(-0x20_0000_0000_0000 <= n <= 0x20_0000_0000_0000);
        law_small_integers_are_exact(n);
        if n == 0 {
            lemma_units_sign(0);
            let z = signed(is_neg(q), 0);
            assert(mag(z) == 0);
            assert(n * w == 0) by (nonlinear_arith)
                requires
                    n == 0,
            ;
        } else {
            lemma_int_finite(abs(n));
        }
    }
}

/// The quotient of two integers, rounded down.
pub open spec fn floor_div(a: int, b: int) -> int {
    if b > 0 {
        a / b
    } else {
        (-a) / (-b)
    }
}

/// What is left of one integer modulo another: it has the sign of the divisor.
pub open spec fn floor_mod(a: int, b: int) -> int {
    if b > 0 {
        a % b
    } else {
        -((-a) % (-b))
    }
}

/// Modulo of integers is exact as long as nothing exceeds two to the power 53, and takes the sign
/// of the divisor.
pub proof fn law_small_modulo_is_exact(a: int, b: int)
    requires
        b != 0,
        abs(a) + abs(b) <= 0x20_0000_0000_0000,
    ensures
        applied(Arith::Modulo, spec_of_int(a), spec_of_int(b)) matches Some(z) && units(z)
            == floor_mod(a, b) * two(1074) && is_finite(z),
        b > 0 ==> 0 <= floor_mod(a, b) < b,
        b < 0 ==> b < floor_mod(a, b) <= 0,
{
    let w = two(1074);
    lemma_two_pos(1074);
    law_small_integers_are_exact(a);
    law_small_integers_are_exact(b);
    let (x, y) = (spec_of_int(a), spec_of_int(b));
    lemma_int_finite(abs(a));
    lemma_int_finite(abs(b));
    assert(mag(y) > 0) by {
        if mag(y) == 0 {
            lemma_units_sign(0);
            assert(b * w != 0) by (nonlinear_arith)
                requires
                    b != 0,
                    w >= 1,
            ;
        }
    }
    let q = spec_floor(spec_quotient(x, y));
    lemma_floor_of_quotient(a, b);
    let (n, r) = (floor_div(a, b), floor_mod(a, b));
    if b > 0 {
        vstd::arithmetic::div_mod::lemma_fundamental_div_mod(a, b);
    } else {
        vstd::arithmetic::div_mod::lemma_fundamental_div_mod(-a, -b);
    }
    assert(a == n * b + r && (b > 0 ==> 0 <= r < b) && (b < 0 ==> b < r <= 0))
        by (nonlinear_arith)
        requires
            b != 0,
            b > 0 ==> n == a / b && r == a % b && a == b * (a / b) + a % b && 0 <= a % b < b,
            b < 0 ==> n == (-a) / (-b) && r == -((-a) % (-b)) && -a == (-b) * ((-a) / (-b)) + (-a)
                % (-b) && 0 <= (-a) % (-b) < -b,
    ;
    let nb = n * b;
    assert(is_neg(y) == (b < 0));
    lemma_product_is_exact(q, y, n, b);
    let p = spec_product(q, y);
    let np = spec_negated(p);
    assert(mag(np) == mag(p));
    assert(units(np) == -units(p));
    assert(units(x) + units(np) == r * w) by (nonlinear_arith)
        requires
            units(x) == a * w,
            units(np) == -(nb * w),
            a == nb + r,
    ;
    lemma_sum_is_exact(x, np, r);
}

} // verus!
