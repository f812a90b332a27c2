//! What holds of doubles as numbers: which number each is, and which one is nearest to another
//! number.

use crate::float::{
    abs, exponent, is_finite, is_neg, lemma_nearest_magnitude_at, lemma_split, lemma_two_adds,
    lemma_two_le, lemma_two_pos, lemma_units_grow, lemma_units_sign, mag, magnitude_units, nearest,
    nearest_magnitude, rounded, signed, significand, two, units, IMPLICIT, INFINITY, SIGN,
};
use crate::float_laws::{lemma_exponent, lemma_nearest_bounds, lemma_units_at};
use vstd::prelude::*;

verus! {

/// Up to the power of two after the first normal one, a magnitude is as many units as its bits
/// say. From there on, the magnitudes one power of two further up are twice as many units, so they
/// are twice as far apart.
pub proof fn law_doubles_are_scaled_integers(m: nat)
    requires
        m < INFINITY,
    ensures
        m <= 2 * IMPLICIT ==> magnitude_units(m) == m,
        m >= IMPLICIT && m + IMPLICIT < INFINITY ==> magnitude_units((m + IMPLICIT) as nat) == 2
            * magnitude_units(m),
{
    lemma_split(m);
    if m <= 2 * IMPLICIT {
        let n = m;
        lemma_units_at(0, n);
        assert(0 * IMPLICIT == 0);
        assert(n * two(0) == n) by (nonlinear_arith)
            requires
                two(0) == 1,
        ;
    }
    if m >= IMPLICIT && m + IMPLICIT < INFINITY {
        let k = (m + IMPLICIT) as nat;
        lemma_split(k);
        let (e, n) = (exponent(m), significand(m));
        lemma_units_at(e, n);
        lemma_units_at(e + 1, n);
        assert((e + 1) * IMPLICIT + n == k) by (nonlinear_arith)
            requires
                m == e * IMPLICIT + n,
                k == m + IMPLICIT,
        ;
        let w = two(e);
        assert(two(e + 1) == 2 * w);
        assert(n * (2 * w) == 2 * (n * w)) by (nonlinear_arith);
    }
}

/// A larger magnitude is a larger number, and the sign bit makes it the opposite one.
pub proof fn law_doubles_are_ordered_by_magnitude(a: u64, b: u64)
    requires
        is_finite(a),
        is_finite(b),
        !is_neg(a),
    ensures
        units(a) >= 0,
        units((a + SIGN) as u64) == -units(a),
        !is_neg(b) ==> (units(a) < units(b) <==> a < b),
{
    let n = (a + SIGN) as u64;
    assert(n % SIGN == a);
    if !is_neg(b) {
        if a < b {
            lemma_units_grow(a as nat, b as nat);
        } else if b < a {
            lemma_units_grow(b as nat, a as nat);
        }
    }
}

/// The distance of two numbers.
pub open spec fn gap(a: int, b: int) -> nat {
    if a < b {
        (b - a) as nat
    } else {
        (a - b) as nat
    }
}

/// Whether a finite double is nearest to `t / q` units: no other is nearer, and of two that are
/// equally near it has the even bits.
pub open spec fn is_nearest(b: u64, t: int, q: nat) -> bool {
    is_finite(b) && forall|w: u64| #[trigger]
        is_finite(w) ==> gap(units(b) * q, t) <= gap(units(w) * q, t) && (units(w) != units(b)
            && gap(units(b) * q, t) == gap(units(w) * q, t) ==> mag(b) % 2 == 0)
}

/// The integer nearest to a ratio.
proof fn lemma_nearest_integer(p: nat, s: nat, k: nat)
    requires
        s > 0,
    ensures
        gap((nearest(p, s) * s) as int, p as int) <= gap((k * s) as int, p as int),
        k != nearest(p, s) && gap((nearest(p, s) * s) as int, p as int) == gap(
            (k * s) as int,
            p as int,
        ) ==> nearest(p, s) % 2 == 0,
{
    let (f, r) = ((p / s) as int, (p % s) as int);
    vstd::arithmetic::div_mod::lemma_fundamental_div_mod(p as int, s as int);
    let n = nearest(p, s) as int;
    let ks = (k * s) as int;
    let fs = f * s;
    assert(s * f == fs) by (nonlinear_arith)
        requires
            fs == f * s,
    ;
    assert(p == fs + r);
    assert((f + 1) * s == fs + s) by (nonlinear_arith)
        requires
            fs == f * s,
    ;
    assert(k <= f ==> ks <= fs) by (nonlinear_arith)
        requires
            ks == k * s,
            fs == f * s,
            s > 0,
    ;
    assert(k >= f + 1 ==> ks >= fs + s) by (nonlinear_arith)
        requires
            ks == k * s,
            fs == f * s,
            s > 0,
    ;
    assert(k < f ==> ks <= fs - s) by (nonlinear_arith)
        requires
            ks == k * s,
            fs == f * s,
            s > 0,
    ;
    assert(k > f + 1 ==> ks >= fs + s + s) by (nonlinear_arith)
        requires
            ks == k * s,
            fs == f * s,
            s > 0,
    ;
    assert(f % 2 == 0 || (f + 1) % 2 == 0);
}

/// A number is below its power of two.
proof fn lemma_two_above(n: nat)
    ensures
        two(n) > n,
    decreases n,
{
    if n > 0 {
        lemma_two_above((n - 1) as nat);
    }
}

/// Rounding gives the nearest magnitude.
proof fn lemma_magnitude_is_nearest(p: nat, q: nat, m: nat)
    requires
        q > 0,
        nearest_magnitude(p, q) < INFINITY,
        m < INFINITY,
    ensures
        ({
            let z = nearest_magnitude(p, q);
            let d = gap((magnitude_units(z) * q) as int, p as int);
            let e = gap((magnitude_units(m) * q) as int, p as int);
            &&& d <= e
            &&& m != z && d == e ==> z % 2 == 0
        }),
{
    lemma_two_above(p);
    lemma_two_pos(p);
    assert(p < q * two(p) * 2 * IMPLICIT) by (nonlinear_arith)
        requires
            two(p) > p,
            q >= 1,
    ;
    let e = lemma_exponent(p, q, p);
    let t = two(e);
    lemma_two_pos(e);
    lemma_nearest_magnitude_at(p, q, e);
    let s = q * t;
    assert(s > 0) by (nonlinear_arith)
        requires
            s == q * t,
            q > 0,
            t >= 1,
    ;
    let n = nearest(p, s);
    let z = nearest_magnitude(p, q);
    assert(z == e * IMPLICIT + n);
    assert(p <= s * (2 * IMPLICIT as nat)) by (nonlinear_arith)
        requires
            p < q * t * 2 * IMPLICIT,
            s == q * t,
    ;
    lemma_nearest_bounds(p, s, 2 * IMPLICIT as nat);
    if e > 0 {
        assert(p >= s * (IMPLICIT as nat)) by (nonlinear_arith)
            requires
                p >= q * t * IMPLICIT,
                s == q * t,
        ;
        lemma_nearest_bounds(p, s, IMPLICIT as nat);
    }
    lemma_units_at(e, n);
    let u = magnitude_units(z);
    assert(u * q == n * s) by (nonlinear_arith)
        requires
            u == n * t,
            s == q * t,
    ;
    lemma_split(m);
    let (j, a) = (exponent(m), significand(m));
    let v = magnitude_units(m);
    lemma_two_pos(j);
    if j >= e {
        let d = (j - e) as nat;
        lemma_two_adds(d, e);
        let k = a * two(d);
        assert(v * q == k * s) by (nonlinear_arith)
            requires
                v == a * two(j),
                two(j) == two(d) * t,
                k == a * two(d),
                s == q * t,
        ;
        lemma_nearest_integer(p, s, k);
        assert(e * IMPLICIT % 2 == 0) by (nonlinear_arith)
            requires
                IMPLICIT == 2 * (IMPLICIT / 2),
        ;
        if k == n && m != z {
            assert(u == v) by (nonlinear_arith)
                requires
                    u * q == n * s,
                    v * q == k * s,
                    k == n,
                    q > 0,
            ;
            if m < z {
                lemma_units_grow(m, z);
            } else {
                lemma_units_grow(z, m);
            }
        }
    } else {
        lemma_two_le(j + 1, e);
        let x = two(j);
        assert(two(j + 1) == 2 * x);
        let i = IMPLICIT as nat;
        lemma_nearest_integer(p, s, i);
        assert(v * q < i * s) by (nonlinear_arith)
            requires
                v == a * x,
                a < 2 * i,
                t >= 2 * x,
                x >= 1,
                q > 0,
                s == q * t,
        ;
        assert(i * s <= p) by (nonlinear_arith)
            requires
                p >= q * t * IMPLICIT,
                s == q * t,
                i == IMPLICIT,
        ;
    }
}

/// Rounding gives a finite double exactly below the middle between the largest finite one and the
/// next power of two.
pub proof fn law_overflow(p: nat, q: nat)
    requires
        q > 0,
    ensures
        rounded(p, q) < INFINITY <==> p < q * (4 * IMPLICIT - 1) * two(2044),
        rounded(p, q) <= INFINITY,
{
    let h = two(2044);
    let big = two(2045);
    assert(big == 2 * h);
    lemma_two_pos(2044);
    lemma_two_above(p);
    lemma_two_pos(p);
    assert(p < q * two(p) * 2 * IMPLICIT) by (nonlinear_arith)
        requires
            two(p) > p,
            q >= 1,
    ;
    let e = lemma_exponent(p, q, p);
    let t = two(e);
    lemma_two_pos(e);
    lemma_nearest_magnitude_at(p, q, e);
    let s = q * t;
    assert(s > 0) by (nonlinear_arith)
        requires
            s == q * t,
            q > 0,
            t >= 1,
    ;
    let n = nearest(p, s);
    assert(p <= s * (2 * IMPLICIT as nat)) by (nonlinear_arith)
        requires
            p < q * t * 2 * IMPLICIT,
            s == q * t,
    ;
    lemma_nearest_bounds(p, s, 2 * IMPLICIT as nat);
    if e > 0 {
        assert(p >= s * (IMPLICIT as nat)) by (nonlinear_arith)
            requires
                p >= q * t * IMPLICIT,
                s == q * t,
        ;
        lemma_nearest_bounds(p, s, IMPLICIT as nat);
    }
    if e >= 2046 {
        lemma_two_le(2046, e);
        assert(two(2046) == 2 * big);
        assert(p >= q * (4 * IMPLICIT - 1) * h) by (nonlinear_arith)
            requires
                p >= q * t * IMPLICIT,
                t >= 4 * h,
                q > 0,
                h >= 1,
        ;
        assert(e * IMPLICIT >= 2046 * IMPLICIT) by (nonlinear_arith)
            requires
                e >= 2046,
        ;
    } else if e == 2045 {
        let (f, r) = ((p / s) as int, (p % s) as int);
        vstd::arithmetic::div_mod::lemma_fundamental_div_mod(p as int, s as int);
        let c = (q * h) as int;
        assert(s == 2 * c) by (nonlinear_arith)
            requires
                s == q * t,
                t == 2 * h,
                c == q * h,
        ;
        let mid = q * (4 * IMPLICIT - 1) * h;
        assert(mid == (4 * IMPLICIT - 1) * c) by (nonlinear_arith)
            requires
                mid == q * (4 * IMPLICIT - 1) * h,
                c == q * h,
        ;
        assert(f < 2 * IMPLICIT) by (nonlinear_arith)
            requires
                p == s * f + r,
                r >= 0,
                p < q * t * 2 * IMPLICIT,
                s == q * t,
                s > 0,
        ;
        if f < 2 * IMPLICIT - 1 {
            assert(p < mid) by (nonlinear_arith)
                requires
                    p == s * f + r,
                    r < s,
                    s == 2 * c,
                    f <= 2 * IMPLICIT - 2,
                    mid == (4 * IMPLICIT - 1) * c,
                    c >= 0,
                    s > 0,
            ;
        } else {
            assert(s * f == (4 * IMPLICIT - 2) * c) by (nonlinear_arith)
                requires
                    s == 2 * c,
                    f == 2 * IMPLICIT - 1,
            ;
            assert(mid == (4 * IMPLICIT - 2) * c + c) by (nonlinear_arith)
                requires
                    mid == (4 * IMPLICIT - 1) * c,
            ;
        }
    } else {
        assert(e * IMPLICIT <= 2044 * IMPLICIT) by (nonlinear_arith)
            requires
                e <= 2044,
        ;
        lemma_two_le(e, 2044);
        assert(p < q * (4 * IMPLICIT - 1) * h) by (nonlinear_arith)
            requires
                p < q * t * 2 * IMPLICIT,
                t <= h,
                q > 0,
                h >= 1,
        ;
    }
}

/// A rounded magnitude with a sign is the double nearest to the number with that sign.
pub proof fn law_rounding_is_nearest(neg: bool, p: nat, q: nat)
    requires
        q > 0,
        rounded(p, q) < INFINITY,
    ensures
        is_nearest(
            signed(neg, rounded(p, q)),
            if neg {
                -(p as int)
            } else {
                p as int
            },
            q,
        ),
{
    let z = rounded(p, q);
    let b = signed(neg, z);
    let t = if neg {
        -(p as int)
    } else {
        p as int
    };
    assert(z < INFINITY < SIGN);
    assert(mag(b) == z);
    assert(neg == is_neg(b));
    let u = magnitude_units(z as nat);
    let uq = (u * q) as int;
    assert(units(b) * q == if neg {
        -uq
    } else {
        uq
    }) by (nonlinear_arith)
        requires
            uq == u * q,
            units(b) == if neg {
                -(u as int)
            } else {
                u as int
            },
    ;
    assert forall|w: u64| #[trigger] is_finite(w) implies gap(units(b) * q, t) <= gap(
        units(w) * q,
        t,
    ) && (units(w) != units(b) && gap(units(b) * q, t) == gap(units(w) * q, t) ==> mag(b) % 2
        == 0) by {
        let m = mag(w);
        let v = magnitude_units(m);
        let vq = (v * q) as int;
        assert(units(w) * q == if is_neg(w) {
            -vq
        } else {
            vq
        }) by (nonlinear_arith)
            requires
                vq == v * q,
                units(w) == if is_neg(w) {
                    -(v as int)
                } else {
                    v as int
                },
        ;
        lemma_magnitude_is_nearest(p, q, m);
        lemma_magnitude_is_nearest(p, q, 0);
        lemma_units_sign(0);
        assert(0 * q == 0);
        lemma_units_sign(m);
        assert(v > 0 ==> vq > 0) by (nonlinear_arith)
            requires
                vq == v * q,
                q > 0,
        ;
    }
}

/// The double nearest to a number is that number where there is such a double.
pub proof fn law_nearest_is_exact_where_it_can_be(b: u64, w: u64, t: int, q: nat)
    requires
        q > 0,
        is_nearest(b, t, q),
        is_finite(w),
        units(w) * q == t,
    ensures
        units(b) == units(w),
{
    assert(gap(units(b) * q, t) <= gap(units(w) * q, t));
    assert(units(b) == units(w)) by (nonlinear_arith)
        requires
            units(b) * q == units(w) * q,
            q > 0,
    ;
}

/// A double that is a number is what that number rounds to.
pub proof fn law_every_double_is_its_own_nearest(b: u64)
    requires
        is_finite(b),
        units(b) != 0,
    ensures
        signed(units(b) < 0, rounded(abs(units(b)), 1)) == b,
{
    let m = mag(b);
    let p = magnitude_units(m);
    lemma_split(m);
    let (e, n) = (exponent(m), significand(m));
    let t = two(e);
    lemma_two_pos(e);
    assert(p < 1 * t * 2 * IMPLICIT) by (nonlinear_arith)
        requires
            p == n * t,
            n < 2 * IMPLICIT,
            t >= 1,
    ;
    assert(e > 0 ==> p >= 1 * t * IMPLICIT) by (nonlinear_arith)
        requires
            p == n * t,
            e > 0 ==> n >= IMPLICIT,
            t >= 1,
    ;
    lemma_nearest_magnitude_at(p, 1, e);
    assert(1 * t == t);
    assert(p == t * n) by (nonlinear_arith)
        requires
            p == n * t,
    ;
    lemma_nearest_bounds(p, t, n);
    assert(nearest(p, t) == n);
    lemma_units_sign(m);
}

} // verus!
