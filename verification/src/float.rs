//! Double-precision numbers, held as their bits.
//!
//! Every finite double is a whole multiple of the least positive one, so its exact value is
//! an integer: how many times that unit it is. The contracts state each operation as exact
//! arithmetic on those integers, followed by one rounding to the nearest double (to the even
//! one of two that are equally near).

use crate::text::Rank;
use vstd::prelude::*;

verus! {

/// The bits of positive infinity, one past those of the largest finite magnitude.
pub const INFINITY: u64 = 0x7ff0_0000_0000_0000;

/// The sign bit.
pub const SIGN: u64 = 0x8000_0000_0000_0000;

/// The implicit bit of a normal significand.
pub const IMPLICIT: u64 = 0x10_0000_0000_0000;

/// A finite double-precision number.
#[derive(Clone, Copy, Debug)]
pub struct Float {
    bits: u64,
}

impl Float {
    /// The bits of the number.
    pub closed spec fn spec_bits(self) -> u64 {
        self.bits
    }

    /// The number with the given bits.
    pub closed spec fn spec_from_bits(bits: u64) -> Float {
        Float { bits }
    }

    #[verifier::type_invariant]
    spec fn inv(self) -> bool {
        is_finite(self.bits)
    }

    /// The number with the given bits, unless they are those of an infinity or a NaN.
    pub fn from_bits(bits: u64) -> (r: Option<Float>)
        ensures
            match r {
                Some(f) => is_finite(bits) && f == Float::spec_from_bits(bits) && f.spec_bits()
                    == bits,
                None => !is_finite(bits),
            },
    {
        if bits % SIGN < INFINITY {
            Some(Float { bits })
        } else {
            None
        }
    }

    /// The bits of the number.
    pub fn bits(&self) -> (r: u64)
        ensures
            r == self.spec_bits(),
            is_finite(r),
    {
        proof {
            use_type_invariant(self);
        }
        self.bits
    }
}

/// A number is what its bits make it, and the other way round.
pub broadcast proof fn lemma_float_bits(bits: u64)
    ensures
        (#[trigger] Float::spec_from_bits(bits)).spec_bits() == bits,
{
}

/// Two numbers are equal if they are the same number of units: the two zeros are equal.
impl PartialEq for Float {
    fn eq(&self, other: &Float) -> (r: bool) {
        rank(self.bits(), other.bits()) == Rank::Equal
    }
}

impl vstd::std_specs::cmp::PartialEqSpecImpl for Float {
    open spec fn obeys_eq_spec() -> bool {
        true
    }

    open spec fn eq_spec(&self, other: &Float) -> bool {
        units(self.spec_bits()) == units(other.spec_bits())
    }
}

/// Two to the power `n`.
pub open spec fn two(n: nat) -> nat
    decreases n,
{
    if n == 0 {
        1
    } else {
        2 * two((n - 1) as nat)
    }
}

/// The magnitude: the bits without the sign bit.
pub open spec fn mag(bits: u64) -> nat {
    (bits % SIGN) as nat
}

/// Whether the sign bit is set.
pub open spec fn is_neg(bits: u64) -> bool {
    bits >= SIGN
}

/// Whether the bits are neither an infinity nor a NaN.
pub open spec fn is_finite(bits: u64) -> bool {
    mag(bits) < INFINITY
}

/// Whether the bits are those of an infinity.
pub open spec fn is_infinite(bits: u64) -> bool {
    mag(bits) == INFINITY
}

/// The significand of a finite magnitude.
pub open spec fn significand(m: nat) -> nat {
    if m < IMPLICIT {
        m
    } else {
        m % (IMPLICIT as nat) + IMPLICIT as nat
    }
}

/// The power of two that the significand of a finite magnitude is multiplied by.
pub open spec fn exponent(m: nat) -> nat {
    if m < IMPLICIT {
        0
    } else {
        (m / (IMPLICIT as nat) - 1) as nat
    }
}

/// How many units a finite magnitude is.
pub open spec fn magnitude_units(m: nat) -> nat {
    significand(m) * two(exponent(m))
}

/// How many units a finite number is.
pub open spec fn units(bits: u64) -> int {
    if is_neg(bits) {
        -(magnitude_units(mag(bits)) as int)
    } else {
        magnitude_units(mag(bits)) as int
    }
}

/// The integer nearest to `p / q`; of two that are equally near, the even one.
pub open spec fn nearest(p: nat, q: nat) -> nat {
    let f = p / q;
    let r = p % q;
    if 2 * r < q || (2 * r == q && f % 2 == 0) {
        f
    } else {
        f + 1
    }
}

/// The magnitude nearest to `p / q` units, as if exponents had no upper bound: the
/// significand has at most 53 bits, and each power of two beyond them counts one in the
/// exponent field.
pub open spec fn nearest_magnitude(p: nat, q: nat) -> nat
    decreases p - q,
{
    if q == 0 || p < q * 2 * IMPLICIT {
        nearest(p, q)
    } else {
        IMPLICIT as nat + nearest_magnitude(p, 2 * q)
    }
}

/// The magnitude nearest to `p / q` units: what is too large becomes infinite.
pub open spec fn rounded(p: nat, q: nat) -> u64 {
    if nearest_magnitude(p, q) < INFINITY {
        nearest_magnitude(p, q) as u64
    } else {
        INFINITY
    }
}

/// A magnitude with a sign.
pub open spec fn signed(neg: bool, m: u64) -> u64 {
    if neg {
        (m + SIGN) as u64
    } else {
        m
    }
}

/// The absolute value of an integer.
pub open spec fn abs(n: int) -> nat {
    if n < 0 {
        (-n) as nat
    } else {
        n as nat
    }
}

/// The double nearest to an integer.
pub open spec fn spec_of_int(n: int) -> u64 {
    signed(n < 0, rounded(abs(n) * two(1074), 1))
}

/// The sum of two numbers, of which one may be infinite.
pub open spec fn spec_sum(a: u64, b: u64) -> u64 {
    if is_infinite(a) {
        a
    } else if is_infinite(b) {
        b
    } else if units(a) + units(b) == 0 {
        signed(is_neg(a) && is_neg(b), 0)
    } else {
        signed(units(a) + units(b) < 0, rounded(abs(units(a) + units(b)), 1))
    }
}

/// The number with the other sign.
pub open spec fn spec_negated(a: u64) -> u64 {
    signed(!is_neg(a), mag(a) as u64)
}

/// The difference of two numbers, of which one may be infinite.
pub open spec fn spec_difference(a: u64, b: u64) -> u64 {
    spec_sum(a, spec_negated(b))
}

/// The product of two numbers; one may be infinite if the other is not zero.
pub open spec fn spec_product(a: u64, b: u64) -> u64 {
    let neg = is_neg(a) != is_neg(b);
    if is_infinite(a) || is_infinite(b) {
        signed(neg, INFINITY)
    } else {
        signed(neg, rounded(abs(units(a)) * abs(units(b)), two(1074)))
    }
}

/// The quotient of two finite numbers, of which the second is not zero.
pub open spec fn spec_quotient(a: u64, b: u64) -> u64 {
    signed(is_neg(a) != is_neg(b), rounded(abs(units(a)) * two(1074), abs(units(b))))
}

/// The largest integer that is not above the number.
pub open spec fn spec_floor(a: u64) -> u64 {
    if is_infinite(a) {
        a
    } else {
        let n = units(a) / (two(1074) as int);
        if n == 0 {
            signed(is_neg(a), 0)
        } else {
            spec_of_int(n)
        }
    }
}

/// How two finite numbers compare.
pub open spec fn spec_rank(a: u64, b: u64) -> Rank {
    if units(a) < units(b) {
        Rank::Less
    } else if units(a) == units(b) {
        Rank::Equal
    } else {
        Rank::Greater
    }
}

/// A power of two is not zero.
pub proof fn lemma_two_pos(n: nat)
    ensures
        two(n) >= 1,
    decreases n,
{
    if n > 0 {
        lemma_two_pos((n - 1) as nat);
    }
}

/// Exponents of two add up.
pub proof fn lemma_two_adds(a: nat, b: nat)
    ensures
        two(a + b) == two(a) * two(b),
    decreases b,
{
    if b > 0 {
        lemma_two_adds(a, (b - 1) as nat);
        assert(two(a) * (2 * two((b - 1) as nat)) == 2 * (two(a) * two((b - 1) as nat)))
            by (nonlinear_arith);
    } else {
        assert(two(a) * two(0) == two(a)) by {
            assert(two(0) == 1);
        }
    }
}

/// Multiplying both sides of a ratio by the same factor does not move its nearest integer.
pub proof fn lemma_nearest_scale(p: nat, q: nat, c: nat)
    requires
        q > 0,
        c > 0,
    ensures
        nearest(p * c, q * c) == nearest(p, q),
{
    let f = p / q;
    let r = p % q;
    assert(q * c > 0) by (nonlinear_arith)
        requires
            q > 0,
            c > 0,
    ;
    vstd::arithmetic::div_mod::lemma_fundamental_div_mod(p as int, q as int);
    assert(p * c == f * (q * c) + r * c && r * c < q * c) by (nonlinear_arith)
        requires
            p == q * f + r,
            r < q,
            c > 0,
    ;
    vstd::arithmetic::div_mod::lemma_fundamental_div_mod_converse(
        (p * c) as int,
        (q * c) as int,
        f as int,
        (r * c) as int,
    );
    assert((2 * (r * c) < q * c) == (2 * r < q)) by (nonlinear_arith)
        requires
            c > 0,
    ;
    assert((2 * (r * c) == q * c) == (2 * r == q)) by (nonlinear_arith)
        requires
            c > 0,
    ;
}

/// Once the exponent is known, one rounding gives the magnitude.
pub proof fn lemma_nearest_magnitude_at(p: nat, q: nat, k: nat)
    requires
        q > 0,
        p < q * two(k) * 2 * IMPLICIT,
        k > 0 ==> p >= q * two(k) * IMPLICIT,
    ensures
        nearest_magnitude(p, q) == k * IMPLICIT + nearest(p, q * two(k)),
    decreases k,
{
    if k == 0 {
        assert(two(0) == 1);
        assert(q * 1 == q);
    } else {
        let j = (k - 1) as nat;
        assert(q * two(k) == (2 * q) * two(j)) by (nonlinear_arith)
            requires
                two(k) == 2 * two(j),
        ;
        lemma_two_pos(j);
        assert(q * two(k) * IMPLICIT >= q * 2 * IMPLICIT) by (nonlinear_arith)
            requires
                two(k) == 2 * two(j),
                two(j) >= 1,
        ;
        lemma_nearest_magnitude_at(p, 2 * q, j);
    }
}

/// That `p / q` is `m + guard / 2` times two to the power `k`, and `rest` more: `t` is there
/// so that the powers of two are whole, and `rest` is less than a half of that power.
spec fn scaled(p: nat, q: nat, t: nat, k: int, m: nat, guard: bool, rest: nat) -> bool {
    let w = q * two((k + t) as nat);
    &&& 2 * (p * two(t)) == w * (2 * m + bit(guard)) + rest
    &&& rest < w
}

spec fn bit(b: bool) -> nat {
    if b {
        1
    } else {
        0
    }
}

proof fn lemma_two_128()
    ensures
        two(128) == 0x1_0000_0000_0000_0000_0000_0000_0000_0000,
{
    assert(two(16) == 0x1_0000) by {
        reveal_with_fuel(two, 17);
    }
    lemma_two_adds(16, 16);
    let a = two(16);
    let b = two(32);
    let c = two(64);
    assert(b == 0x1_0000_0000) by (nonlinear_arith)
        requires
            b == a * a,
            a == 0x1_0000,
    ;
    lemma_two_adds(32, 32);
    assert(c == 0x1_0000_0000_0000_0000) by (nonlinear_arith)
        requires
            c == b * b,
            b == 0x1_0000_0000,
    ;
    lemma_two_adds(64, 64);
    assert(c * c == 0x1_0000_0000_0000_0000_0000_0000_0000_0000) by (nonlinear_arith)
        requires
            c == 0x1_0000_0000_0000_0000,
    ;
}

/// Halving `m` keeps what the parts stand for.
proof fn lemma_halve(p: nat, q: nat, t: nat, k: int, m: nat, guard: bool, rest: nat)
    requires
        q > 0,
        k + t >= 0,
        scaled(p, q, t, k, m, guard, rest),
    ensures
        two((k + t) as nat) >= 1,
        scaled(
            p,
            q,
            t,
            k + 1,
            m / 2,
            m % 2 == 1,
            if guard {
                q * two((k + t) as nat) + rest
            } else {
                rest
            },
        ),
{
    let n = (k + t) as nat;
    let w = q * two(n);
    let w2 = q * two((k + 1 + t) as nat);
    lemma_two_pos(n);
    assert(two((k + 1 + t) as nat) == 2 * two(n));
    assert(w2 == 2 * w) by (nonlinear_arith)
        requires
            w == q * two(n),
            w2 == q * (2 * two(n)),
    ;
    let h = m / 2;
    let b = m % 2;
    let g = bit(guard);
    assert(w * (2 * m + g) == w2 * (2 * h + b) + w * g) by (nonlinear_arith)
        requires
            m == 2 * h + b,
            w2 == 2 * w,
    ;
    assert(w * 1 == w && w * 0 == 0) by (nonlinear_arith);
}

/// Doubling an exact `m` keeps what the parts stand for.
proof fn lemma_double(p: nat, q: nat, t: nat, k: int, m: nat)
    requires
        q > 0,
        k + t >= 1,
        scaled(p, q, t, k, m, false, 0),
    ensures
        scaled(p, q, t, k - 1, 2 * m, false, 0),
{
    let n = (k - 1 + t) as nat;
    let w = q * two(n);
    let w2 = q * two((k + t) as nat);
    lemma_two_pos(n);
    assert(two((k + t) as nat) == 2 * two(n));
    assert(w2 == 2 * w && w > 0) by (nonlinear_arith)
        requires
            w == q * two(n),
            w2 == q * (2 * two(n)),
            q > 0,
            two(n) >= 1,
    ;
    assert(w2 * (2 * m) == w * (2 * (2 * m))) by (nonlinear_arith)
        requires
            w2 == 2 * w,
    ;
}

/// When `m` has its final place, `guard` and `rest` say which way to round.
proof fn lemma_round_end(p: nat, q: nat, t: nat, k: nat, m: nat, guard: bool, rest: nat)
    requires
        q > 0,
        scaled(p, q, t, k as int, m, guard, rest),
        m < 2 * IMPLICIT,
        k > 0 ==> m >= IMPLICIT,
    ensures
        nearest_magnitude(p, q) == k * IMPLICIT + m + bit(guard && (rest > 0 || m % 2 == 1)),
{
    let pt = p * two(t);
    let w = q * two(k + t);
    let v = q * two(k);
    lemma_two_pos(k + t);
    lemma_two_pos(k);
    lemma_two_pos(t);
    lemma_two_adds(k, t);
    let tt = two(t);
    assert(w == v * tt && v > 0 && w > 0) by (nonlinear_arith)
        requires
            w == q * two(k + t),
            two(k + t) == two(k) * tt,
            v == q * two(k),
            q > 0,
            two(k) >= 1,
            tt >= 1,
    ;
    let g = bit(guard);
    // the quotient and the remainder of `pt / w`
    assert(w * (2 * m + g) == 2 * (w * m) + w * g) by (nonlinear_arith);
    assert(w * 1 == w && w * 0 == 0) by (nonlinear_arith);
    let r = (pt - w * m) as nat;
    assert(2 * r == w * g + rest);
    assert(r < w);
    assert(m * w == w * m) by (nonlinear_arith);
    vstd::arithmetic::div_mod::lemma_fundamental_div_mod_converse(
        pt as int,
        w as int,
        m as int,
        r as int,
    );
    assert(nearest(pt, w) == m + bit(guard && (rest > 0 || m % 2 == 1)));
    lemma_nearest_scale(p, v, tt);
    assert(nearest(p, v) == nearest(pt, w));
    // where `p / q` stands
    assert(p < v * 2 * IMPLICIT) by (nonlinear_arith)
        requires
            p * tt == w * m + r,
            r < w,
            w == v * tt,
            m + 1 <= 2 * IMPLICIT,
            tt >= 1,
            v > 0,
    ;
    if k > 0 {
        assert(p >= v * IMPLICIT) by (nonlinear_arith)
            requires
                p * tt == w * m + r,
                w == v * tt,
                m >= IMPLICIT,
                tt >= 1,
                v > 0,
        ;
    }
    lemma_nearest_magnitude_at(p, q, k);
}

/// Rounds `m` and the part that `guard` and `sticky` stand for, times two to the power `k`.
fn round_parts(
    m0: u128,
    guard0: bool,
    sticky0: bool,
    k0: i64,
    Ghost(p): Ghost<nat>,
    Ghost(q): Ghost<nat>,
    Ghost(t): Ghost<nat>,
    Ghost(rest0): Ghost<nat>,
) -> (r: u64)
    requires
        q > 0,
        -5000 <= k0 <= 5000,
        k0 + t >= 0,
        scaled(p, q, t, k0 as int, m0 as nat, guard0, rest0),
        rest0 > 0 <==> sticky0,
        guard0 || sticky0 ==> k0 <= 0 || m0 >= IMPLICIT,
    ensures
        r == rounded(p, q),
{
    let mut m: u128 = m0;
    let mut guard: bool = guard0;
    let mut sticky: bool = sticky0;
    let mut k: i64 = k0;
    let ghost mut rest: nat = rest0;
    let ghost mut width: nat = 128;
    proof {
        lemma_two_128();
    }
    while m >= 2 * (IMPLICIT as u128) || k < 0
        invariant
            q > 0,
            width <= 128,
            m < two(width),
            k >= -5000,
            k <= 5000 + 128 - width || k <= 0,
            k + t >= 0,
            scaled(p, q, t, k as int, m as nat, guard, rest),
            rest > 0 <==> sticky,
            guard || sticky ==> k <= 0 || m >= IMPLICIT,
        decreases (if k < 0 { -k as int } else { 0 }), m,
    {
        proof {
            lemma_halve(p, q, t, k as int, m as nat, guard, rest);
            let w = q * two((k + t) as nat);
            rest = if guard { w + rest } else { rest };
            assert(w > 0) by (nonlinear_arith)
                requires
                    w == q * two((k + t) as nat),
                    q > 0,
                    two((k + t) as nat) >= 1,
            ;
            assert(two(0) == 1);
            if width > 0 {
                assert(two(width) == 2 * two((width - 1) as nat));
                width = (width - 1) as nat;
            }
        }
        sticky = sticky || guard;
        guard = m % 2 == 1;
        m = m / 2;
        k = k + 1;
    }
    while k > 0 && m < IMPLICIT as u128
        invariant
            q > 0,
            0 <= k <= 5200,
            m < 2 * (IMPLICIT as u128),
            k + t >= 0,
            scaled(p, q, t, k as int, m as nat, guard, rest),
            rest > 0 <==> sticky,
            guard || sticky ==> k <= 0 || m >= IMPLICIT,
        decreases k,
    {
        proof {
            lemma_double(p, q, t, k as int, m as nat);
        }
        m = m * 2;
        k = k - 1;
    }
    let up = guard && (sticky || m % 2 == 1);
    proof {
        lemma_round_end(p, q, t, k as nat, m as nat, guard, rest);
    }
    if k >= 2047 {
        return INFINITY;
    }
    let magnitude: u64 = (k as u64) * IMPLICIT + (m as u64) + (if up {
        1
    } else {
        0
    });
    if magnitude < INFINITY {
        magnitude
    } else {
        INFINITY
    }
}

/// Powers of two grow.
pub proof fn lemma_two_le(a: nat, b: nat)
    requires
        a <= b,
    ensures
        two(a) <= two(b),
    decreases b - a,
{
    if a < b {
        lemma_two_le(a + 1, b);
        lemma_two_pos(a);
    }
}

/// A magnitude is its exponent in its high bits and its significand in its low ones.
pub(crate) proof fn lemma_split(m: nat)
    requires
        m < INFINITY,
    ensures
        m == exponent(m) * IMPLICIT + significand(m),
        significand(m) < 2 * IMPLICIT,
        exponent(m) <= 2045,
        exponent(m) > 0 ==> significand(m) >= IMPLICIT,
{
}

/// A larger magnitude is more units.
pub(crate) proof fn lemma_units_grow(x: nat, y: nat)
    requires
        x < y < INFINITY,
    ensures
        magnitude_units(x) < magnitude_units(y),
{
    lemma_split(x);
    lemma_split(y);
    let (i, a) = (exponent(x), significand(x));
    let (j, b) = (exponent(y), significand(y));
    lemma_two_pos(i);
    if i == j {
        let w = two(i);
        assert(a * w < b * w) by (nonlinear_arith)
            requires
                a < b,
                w >= 1,
        ;
    } else {
        assert(i < j);
        lemma_two_le(i + 1, j);
        let w = two(i);
        let v = two(j);
        assert(two(i + 1) == 2 * w);
        assert(a * w < b * v) by (nonlinear_arith)
            requires
                a < 2 * IMPLICIT,
                b >= IMPLICIT,
                v >= 2 * w,
                w >= 1,
        ;
    }
}

/// The sign, the significand and the exponent of a finite number.
pub fn split(bits: u64) -> (r: (bool, u64, i64))
    requires
        is_finite(bits),
    ensures
        r.0 == is_neg(bits),
        r.1 == significand(mag(bits)),
        r.2 == exponent(mag(bits)),
        r.1 < 2 * IMPLICIT,
        0 <= r.2 <= 2045,
        r.2 > 0 ==> r.1 >= IMPLICIT,
        abs(units(bits)) == r.1 * two(r.2 as nat),
{
    let m = bits % SIGN;
    if m < IMPLICIT {
        (bits >= SIGN, m, 0)
    } else {
        (bits >= SIGN, m % IMPLICIT + IMPLICIT, (m / IMPLICIT - 1) as i64)
    }
}

/// Rounds the whole number `m` times two to the power `k`.
fn round_exact(m: u128, k: i64) -> (r: u64)
    requires
        0 <= k <= 5000,
    ensures
        r == rounded(m as nat * two(k as nat), 1),
{
    let ghost p = m as nat * two(k as nat);
    proof {
        lemma_two_pos(k as nat);
        assert(two(0) == 1);
        let w = two(k as nat);
        assert(2 * (p * 1) == (1 * w) * (2 * (m as nat) + 0) + 0) by (nonlinear_arith)
            requires
                p == m as nat * w,
        ;
    }
    round_parts(m, false, false, k, Ghost(p), Ghost(1), Ghost(0), Ghost(0))
}

/// `m` times two to the power `d`.
fn shifted(m: u64, d: i64) -> (r: u128)
    requires
        m < 2 * IMPLICIT,
        0 <= d <= 74,
    ensures
        r == m * two(d as nat),
        m >= IMPLICIT ==> r >= IMPLICIT * two(d as nat),
{
    let mut r: u128 = m as u128;
    let mut i: i64 = 0;
    proof {
        assert(two(0) == 1);
        assert(m * two(0) == m) by (nonlinear_arith)
            requires
                two(0) == 1,
        ;
        lemma_two_74();
    }
    while i < d
        invariant
            m < 2 * IMPLICIT,
            0 <= i <= d <= 74,
            r == m * two(i as nat),
            two(74) == 0x400_0000_0000_0000_0000,
        decreases d - i,
    {
        proof {
            lemma_two_le((i + 1) as nat, 74);
            let w = two(i as nat);
            assert(two((i + 1) as nat) == 2 * w);
            assert(m * w * 2 <= 0xffff_ffff_ffff_ffff_ffff_ffff_ffff_ffff) by (nonlinear_arith)
                requires
                    m < 2 * IMPLICIT,
                    2 * w <= 0x400_0000_0000_0000_0000,
            ;
            assert(m * (2 * w) == m * w * 2) by (nonlinear_arith);
        }
        r = r * 2;
        i = i + 1;
    }
    proof {
        let w = two(d as nat);
        if m >= IMPLICIT {
            assert(m * w >= IMPLICIT * w) by (nonlinear_arith)
                requires
                    m >= IMPLICIT,
            ;
        }
    }
    r
}

/// Some powers of two.
pub proof fn lemma_two_74()
    ensures
        two(74) == 0x400_0000_0000_0000_0000,
        two(64) == 0x1_0000_0000_0000_0000,
        two(53) == 2 * IMPLICIT,
        two(22) == 0x40_0000,
        two(21) == 0x20_0000,
{
    assert(two(11) == 0x800 && two(10) == 0x400) by {
        reveal_with_fuel(two, 12);
    }
    let (a, b) = (two(10), two(11));
    lemma_two_adds(11, 10);
    lemma_two_adds(11, 11);
    lemma_two_adds(32, 21);
    lemma_two_adds(21, 11);
    lemma_two_adds(32, 32);
    lemma_two_adds(64, 10);
    assert(two(21) == 0x20_0000) by (nonlinear_arith)
        requires
            two(21) == b * a,
            b == 0x800,
            a == 0x400,
    ;
    assert(two(22) == 0x40_0000) by (nonlinear_arith)
        requires
            two(22) == b * b,
            b == 0x800,
    ;
    let c = two(21);
    let d = two(32);
    assert(d == 0x1_0000_0000) by (nonlinear_arith)
        requires
            d == c * b,
            c == 0x20_0000,
            b == 0x800,
    ;
    assert(two(53) == 2 * IMPLICIT) by (nonlinear_arith)
        requires
            two(53) == d * c,
            c == 0x20_0000,
            d == 0x1_0000_0000,
    ;
    let e = two(64);
    assert(e == 0x1_0000_0000_0000_0000) by (nonlinear_arith)
        requires
            e == d * d,
            d == 0x1_0000_0000,
    ;
    assert(two(74) == 0x400_0000_0000_0000_0000) by (nonlinear_arith)
        requires
            two(74) == e * a,
            e == 0x1_0000_0000_0000_0000,
            a == 0x400,
    ;
}

/// A magnitude with a sign.
fn with_sign(neg: bool, m: u64) -> (r: u64)
    requires
        m <= INFINITY,
    ensures
        r == signed(neg, m),
        mag(r) == m,
        is_neg(r) == neg,
{
    if neg {
        m + SIGN
    } else {
        m
    }
}

/// The double nearest to an integer that is not negative.
pub fn of_u64(n: u64) -> (r: u64)
    ensures
        r == spec_of_int(n as int),
        is_finite(r),
{
    let m = round_exact(n as u128, 1074);
    proof {
        lemma_int_finite(n as nat);
    }
    with_sign(false, m)
}

/// The double nearest to an integer.
pub fn of_i64(n: i64) -> (r: u64)
    ensures
        r == spec_of_int(n as int),
        is_finite(r),
{
    let size: u128 = if n < 0 {
        (-(n as i128)) as u128
    } else {
        n as u128
    };
    let m = round_exact(size, 1074);
    proof {
        lemma_int_finite(size as nat);
    }
    with_sign(n < 0, m)
}

/// No 64-bit integer is so large that it rounds to infinity.
pub proof fn lemma_int_finite(n: nat)
    requires
        n <= 0x1_0000_0000_0000_0000,
    ensures
        rounded(n * two(1074), 1) < INFINITY,
{
    lemma_two_adds(1074, 12);
    assert(two(12) == 0x1000) by {
        reveal_with_fuel(two, 13);
    }
    lemma_two_pos(1074);
    let w = two(1074);
    assert(n * w < 1 * (w * 0x1000) * 2 * IMPLICIT) by (nonlinear_arith)
        requires
            n <= 0x1_0000_0000_0000_0000,
            w >= 1,
    ;
    lemma_nearest_magnitude_bound(n * two(1074), 1, 1086);
}

/// A ratio below two to the power `53 + k` has an exponent field of at most `k + 2`.
proof fn lemma_nearest_magnitude_bound(p: nat, q: nat, k: nat)
    requires
        q > 0,
        p < q * two(k) * 2 * IMPLICIT,
    ensures
        nearest_magnitude(p, q) <= (k + 2) * IMPLICIT,
    decreases k,
{
    assert((k + 2) * IMPLICIT == k * IMPLICIT + 2 * IMPLICIT) by (nonlinear_arith);
    assert(k * IMPLICIT >= 0) by (nonlinear_arith);
    if p < q * 2 * IMPLICIT {
        assert(p / q < 2 * IMPLICIT) by (nonlinear_arith)
            requires
                p < q * 2 * IMPLICIT,
                q > 0,
        ;
    } else {
        if k == 0 {
            assert(q * two(k) * 2 * IMPLICIT == q * 2 * IMPLICIT) by (nonlinear_arith)
                requires
                    two(k) == 1,
            ;
        } else {
            let j = (k - 1) as nat;
            assert(q * two(k) == (2 * q) * two(j)) by (nonlinear_arith)
                requires
                    two(k) == 2 * two(j),
            ;
            lemma_nearest_magnitude_bound(p, 2 * q, j);
            assert((j + 2) * IMPLICIT + IMPLICIT == (k + 2) * IMPLICIT) by (nonlinear_arith)
                requires
                    j + 1 == k,
            ;
        }
    }
}

/// The number with the other sign.
pub fn negated(a: u64) -> (r: u64)
    requires
        mag(a) <= INFINITY,
    ensures
        r == spec_negated(a),
        mag(r) == mag(a),
        is_neg(r) == !is_neg(a),
{
    with_sign(a < SIGN, a % SIGN)
}

/// The sum of two numbers, of which one may be infinite.
pub fn sum(a: u64, b: u64) -> (r: u64)
    requires
        mag(a) <= INFINITY,
        mag(b) <= INFINITY,
        is_finite(a) || is_finite(b),
    ensures
        r == spec_sum(a, b),
        mag(r) <= INFINITY,
{
    if a % SIGN == INFINITY {
        return a;
    }
    if b % SIGN == INFINITY {
        return b;
    }
    let (na, ma, ka) = split(a);
    let (nb, mb, kb) = split(b);
    if ka >= kb {
        sum_parts(a, b, na, ma, ka, nb, mb, kb)
    } else {
        sum_parts(b, a, nb, mb, kb, na, ma, ka)
    }
}

/// The sum of two numbers, of which the first has the larger exponent.
#[verifier::rlimit(60)]
#[verifier::spinoff_prover]
fn sum_parts(a: u64, b: u64, na: bool, ma: u64, ka: i64, nb: bool, mb: u64, kb: i64) -> (r: u64)
    requires
        is_finite(a),
        is_finite(b),
        na == is_neg(a),
        nb == is_neg(b),
        abs(units(a)) == ma * two(ka as nat),
        abs(units(b)) == mb * two(kb as nat),
        ma < 2 * IMPLICIT,
        mb < 2 * IMPLICIT,
        0 <= kb <= ka <= 2045,
        ka > 0 ==> ma >= IMPLICIT,
    ensures
        r == spec_sum(a, b),
        r == spec_sum(b, a),
        mag(r) <= INFINITY,
{
    let d = ka - kb;
    let ghost (ua, ub) = (abs(units(a)), abs(units(b)));
    proof {
        lemma_two_pos(ka as nat);
        lemma_two_pos(kb as nat);
        assert(0 * two(ka as nat) == 0 && 0 * two(kb as nat) == 0);
    }
    if d <= 74 {
        let x = shifted(ma, d);
        let y = mb as u128;
        proof {
            lemma_two_adds(d as nat, kb as nat);
            let (w, v) = (two(d as nat), two(kb as nat));
            assert(ua == x * v) by (nonlinear_arith)
                requires
                    ua == ma * two(ka as nat),
                    two(ka as nat) == w * v,
                    x == ma * w,
            ;
            assert(x <= 0x8000_0000_0000_0000_0000_0000_0000_0000) by {
                lemma_two_74();
                lemma_two_le(d as nat, 74);
                assert(ma * w <= 0x8000_0000_0000_0000_0000_0000_0000_0000) by (nonlinear_arith)
                    requires
                        ma <= 2 * IMPLICIT,
                        w <= 0x400_0000_0000_0000_0000,
                ;
            }
            assert((x + y) * v == x * v + y * v) by (nonlinear_arith);
            assert((x - y) * v == x * v - y * v) by (nonlinear_arith);
            assert((y - x) * v == y * v - x * v) by (nonlinear_arith);
            assert(x < y ==> x * v < y * v) by (nonlinear_arith)
                requires
                    v >= 1,
            ;
            assert(x > y ==> x * v > y * v) by (nonlinear_arith)
                requires
                    v >= 1,
            ;
            assert(x + y > 0 ==> x * v + y * v > 0) by (nonlinear_arith)
                requires
                    v >= 1,
                    x >= 0,
                    y >= 0,
            ;
        }
        if na == nb {
            if x + y == 0 {
                with_sign(na, 0)
            } else {
                with_sign(na, round_exact(x + y, kb))
            }
        } else if x > y {
            with_sign(na, round_exact(x - y, kb))
        } else if x < y {
            with_sign(nb, round_exact(y - x, kb))
        } else {
            0
        }
    } else if mb == 0 {
        proof {
            assert(ua > 0) by (nonlinear_arith)
                requires
                    ua == ma * two(ka as nat),
                    ma >= IMPLICIT,
                    two(ka as nat) >= 1,
            ;
        }
        with_sign(na, round_exact(ma as u128, ka))
    } else {
        let half = shifted(ma, 21);
        let ghost g = two((ka - 22) as nat);
        let ghost w = two((ka - 21) as nat);
        proof {
            lemma_two_74();
            lemma_two_adds(53, kb as nat);
            lemma_two_le((53 + kb) as nat, (ka - 22) as nat);
            lemma_two_adds(22, (ka - 22) as nat);
            assert(w == 2 * g);
            let v = two(kb as nat);
            assert(ub < g && ub > 0) by (nonlinear_arith)
                requires
                    ub == mb * v,
                    0 < mb < 2 * IMPLICIT,
                    2 * IMPLICIT * v <= g,
                    v >= 1,
            ;
            assert(ua == half * w) by (nonlinear_arith)
                requires
                    ua == ma * two(ka as nat),
                    two(ka as nat) == 0x40_0000 * g,
                    half == ma * 0x20_0000,
                    w == 2 * g,
            ;
            assert(ua > ub) by (nonlinear_arith)
                requires
                    ua == half * w,
                    half >= 1,
                    w == 2 * g,
                    ub < g,
            ;
            assert(two(0) == 1);
        }
        if na == nb {
            proof {
                assert(2 * ((ua + ub) * 1) == (1 * w) * (2 * (half as nat) + 0) + 2 * ub)
                    by (nonlinear_arith)
                    requires
                        ua == half * w,
                ;
            }
            let m = round_parts(
                half,
                false,
                true,
                ka - 21,
                Ghost((ua + ub) as nat),
                Ghost(1),
                Ghost(0),
                Ghost((2 * ub) as nat),
            );
            with_sign(na, m)
        } else {
            proof {
                assert(2 * ((ua - ub) * 1) == (1 * w) * (2 * (half - 1) + 1) + 2 * (g - ub))
                    by (nonlinear_arith)
                    requires
                        ua == half * w,
                        w == 2 * g,
                ;
            }
            let m = round_parts(
                half - 1,
                true,
                true,
                ka - 21,
                Ghost((ua - ub) as nat),
                Ghost(1),
                Ghost(0),
                Ghost((2 * (g - ub)) as nat),
            );
            with_sign(na, m)
        }
    }
}

/// The difference of two numbers, of which one may be infinite.
pub fn difference(a: u64, b: u64) -> (r: u64)
    requires
        mag(a) <= INFINITY,
        mag(b) <= INFINITY,
        is_finite(a) || is_finite(b),
    ensures
        r == spec_difference(a, b),
        mag(r) <= INFINITY,
{
    sum(a, negated(b))
}

/// The product of two numbers; one may be infinite if the other is not zero.
pub fn product(a: u64, b: u64) -> (r: u64)
    requires
        mag(a) <= INFINITY,
        mag(b) <= INFINITY,
        is_infinite(a) ==> mag(b) > 0,
        is_infinite(b) ==> mag(a) > 0,
    ensures
        r == spec_product(a, b),
        mag(r) <= INFINITY,
{
    let neg = (a >= SIGN) != (b >= SIGN);
    if a % SIGN == INFINITY || b % SIGN == INFINITY {
        return with_sign(neg, INFINITY);
    }
    let (na, ma, ka) = split(a);
    let (nb, mb, kb) = split(b);
    let ghost (ua, ub) = (abs(units(a)), abs(units(b)));
    proof {
        assert(ma as u128 * mb as u128 <= 0xffff_ffff_ffff_ffff_ffff_ffff_ffff_ffff)
            by (nonlinear_arith)
            requires
                ma < 2 * IMPLICIT,
                mb < 2 * IMPLICIT,
        ;
    }
    let m: u128 = ma as u128 * mb as u128;
    proof {
        lemma_two_adds(ka as nat, kb as nat);
        lemma_two_pos((ka + kb) as nat);
        lemma_two_pos(1074);
        let (x, y, o) = (two(ka as nat), two(kb as nat), two(1074));
        let z = two((ka + kb) as nat);
        assert(2 * ((ua * ub) * o) == (o * z) * (2 * (m as nat) + 0) + 0 && o * z > 0)
            by (nonlinear_arith)
            requires
                ua == ma * x,
                ub == mb * y,
                z == x * y,
                m == ma * mb,
                o >= 1,
                z >= 1,
        ;
    }
    let r = round_parts(
        m,
        false,
        false,
        ka + kb - 1074,
        Ghost((ua * ub) as nat),
        Ghost(two(1074)),
        Ghost(1074),
        Ghost(0),
    );
    with_sign(neg, r)
}

/// The significand shifted up until its implicit bit is set, and how far it was shifted.
fn normalised(m: u64) -> (r: (u64, i64))
    requires
        0 < m < 2 * IMPLICIT,
    ensures
        IMPLICIT <= r.0 < 2 * IMPLICIT,
        0 <= r.1 <= 52,
        r.0 == m * two(r.1 as nat),
{
    let mut x = m;
    let mut i: i64 = 0;
    proof {
        assert(m * two(0) == m) by (nonlinear_arith)
            requires
                two(0) == 1,
        ;
        lemma_two_74();
    }
    while x < IMPLICIT
        invariant
            0 < m,
            0 <= i <= 52,
            x < 2 * IMPLICIT,
            x == m * two(i as nat),
            two(53) == 2 * IMPLICIT,
        decreases 52 - i,
    {
        proof {
            let w = two(i as nat);
            assert(two((i + 1) as nat) == 2 * w);
            assert(m * (2 * w) == 2 * (m * w)) by (nonlinear_arith);
            if i >= 52 {
                assert(two(53) == 2 * two(52));
                assert(m * w >= w) by (nonlinear_arith)
                    requires
                        m >= 1,
                ;
            }
        }
        x = 2 * x;
        i = i + 1;
    }
    (x, i)
}

/// The quotient of two finite numbers, of which the second is not zero.
pub fn quotient(a: u64, b: u64) -> (r: u64)
    requires
        is_finite(a),
        is_finite(b),
        mag(b) > 0,
    ensures
        r == spec_quotient(a, b),
        mag(r) <= INFINITY,
{
    let neg = (a >= SIGN) != (b >= SIGN);
    let (na, ma0, ka0) = split(a);
    let (nb, mb0, kb0) = split(b);
    let ghost (ua, ub) = (abs(units(a)), abs(units(b)));
    proof {
        lemma_two_pos(kb0 as nat);
        lemma_two_pos(ka0 as nat);
        assert(ub > 0) by (nonlinear_arith)
            requires
                ub == mb0 * two(kb0 as nat),
                mb0 > 0,
                two(kb0 as nat) >= 1,
        ;
    }
    if ma0 == 0 {
        proof {
            assert(ua * two(1074) == 0) by (nonlinear_arith)
                requires
                    ua == ma0 * two(ka0 as nat),
                    ma0 == 0,
            ;
            assert(0nat < ub * 2 * IMPLICIT) by (nonlinear_arith)
                requires
                    ub > 0,
            ;
            assert(0nat / ub == 0 && 0nat % ub == 0) by (nonlinear_arith)
                requires
                    ub > 0,
            ;
        }
        return with_sign(neg, 0);
    }
    let (ma, sa) = normalised(ma0);
    let (mb, sb) = normalised(mb0);
    let num: u128 = ma as u128 * 0x1_0000_0000_0000_0000;
    let full: u128 = num / mb as u128;
    let rem: u128 = num % mb as u128;
    let k: i64 = ka0 - sa - kb0 + sb + 1011;
    let ghost t: nat = (kb0 + sa + 64) as nat;
    let ghost x = two((ka0 + kb0 + 1075) as nat);
    let ghost p: nat = (ua * two(1074)) as nat;
    let ghost w = ub * two((k + t) as nat);
    proof {
        assert(num == full * mb + rem && rem < mb) by {
            vstd::arithmetic::div_mod::lemma_fundamental_div_mod(num as int, mb as int);
            assert(mb as int * (num as int / mb as int) == (num as int / mb as int) * mb as int)
                by (nonlinear_arith);
        }
        assert(full >= 2 * IMPLICIT + 2) by (nonlinear_arith)
            requires
                num == full * mb + rem,
                rem < mb,
                mb < 2 * IMPLICIT,
                num >= IMPLICIT * 0x1_0000_0000_0000_0000,
        ;
        assert(k + t == ka0 + sb + 1075);
        lemma_two_74();
        lemma_two_pos((ka0 + kb0 + 1075) as nat);
        lemma_two_adds((ka0 + sb + 1075) as nat, kb0 as nat);
        lemma_two_adds((ka0 + kb0 + 1075) as nat, sb as nat);
        assert(w == mb * x) by (nonlinear_arith)
            requires
                w == ub * two((ka0 + sb + 1075) as nat),
                ub == mb0 * two(kb0 as nat),
                mb == mb0 * two(sb as nat),
                two((ka0 + sb + 1075) as nat) * two(kb0 as nat) == x * two(sb as nat),
        ;
        lemma_two_adds(1074, t);
        lemma_two_adds(ka0 as nat, (1074 + t) as nat);
        lemma_two_adds((ka0 + kb0 + 1075) as nat, (sa + 63) as nat);
        lemma_two_adds(sa as nat, 63);
        assert(two(64) == 2 * two(63));
        let (y, z, v) = (two(ka0 as nat), two(1074), two(t));
        assert(y * (z * v) == x * (two(sa as nat) * two(63)));
        assert(2 * (p * v) == num * x) by (nonlinear_arith)
            requires
                p == ua * z,
                ua == ma0 * y,
                y * (z * v) == x * (two(sa as nat) * two(63)),
                two(63) * 2 == 0x1_0000_0000_0000_0000,
                ma == ma0 * two(sa as nat),
                num == ma * 0x1_0000_0000_0000_0000,
        ;
        assert(num * x == w * full + rem * x) by (nonlinear_arith)
            requires
                num == full * mb + rem,
                w == mb * x,
        ;
        assert(rem * x < w && (rem > 0 <==> rem * x > 0)) by (nonlinear_arith)
            requires
                w == mb * x,
                rem < mb,
                x >= 1,
                rem >= 0,
        ;
        assert(w * full == w * (2 * (full / 2) + bit(full % 2 == 1))) by {
            assert(full == 2 * (full / 2) + bit(full % 2 == 1));
        }
    }
    let m = round_parts(
        full / 2,
        full % 2 == 1,
        rem > 0,
        k,
        Ghost(p),
        Ghost(ub),
        Ghost(t),
        Ghost((rem * x) as nat),
    );
    with_sign(neg, m)
}

/// Two to the power `d`.
fn power(d: i64) -> (r: u64)
    requires
        0 <= d <= 53,
    ensures
        r == two(d as nat),
{
    let mut r: u64 = 1;
    let mut i: i64 = 0;
    proof {
        lemma_two_74();
    }
    while i < d
        invariant
            0 <= i <= d <= 53,
            r == two(i as nat),
            two(53) == 2 * IMPLICIT,
        decreases d - i,
    {
        proof {
            lemma_two_le((i + 1) as nat, 53);
        }
        r = 2 * r;
        i = i + 1;
    }
    r
}

/// The largest integer that is not above the number.
pub fn floor(a: u64) -> (r: u64)
    requires
        mag(a) <= INFINITY,
    ensures
        r == spec_floor(a),
        mag(r) <= INFINITY,
{
    if a % SIGN == INFINITY {
        return a;
    }
    let (neg, m, k) = split(a);
    let ghost n = units(a) / (two(1074) as int);
    let ghost u = abs(units(a));
    proof {
        lemma_two_pos(k as nat);
        lemma_two_pos(1074);
    }
    if k >= 1074 {
        proof {
            let e = (k - 1074) as nat;
            lemma_two_adds(e, 1074);
            lemma_two_pos(e);
            let c = m * two(e);
            let o = two(1074) as int;
            assert(u == c * o && c > 0) by (nonlinear_arith)
                requires
                    u == m * two(k as nat),
                    two(k as nat) == two(e) * o,
                    c == m * two(e),
                    m >= IMPLICIT,
                    two(e) >= 1,
            ;
            let s = if neg {
                -c
            } else {
                c
            };
            assert(units(a) == o * s) by (nonlinear_arith)
                requires
                    u == c * o,
                    s == if neg {
                        -c
                    } else {
                        c
                    },
                    units(a) == if neg {
                        -u
                    } else {
                        u as int
                    },
            ;
            vstd::arithmetic::div_mod::lemma_fundamental_div_mod_converse(units(a), o, s, 0);
            assert(abs(n) * two(1074) == m * two(k as nat));
        }
        return with_sign(neg, round_exact(m as u128, k));
    }
    let d = 1074 - k;
    let div: u64 = if d <= 53 {
        power(d)
    } else {
        power(53)
    };
    proof {
        lemma_two_adds(k as nat, d as nat);
        lemma_two_74();
        if d > 53 {
            lemma_two_le(53, d as nat);
        }
        lemma_two_pos(d as nat);
    }
    let whole = m / div;
    let rem = m % div;
    let up: u64 = if neg && rem > 0 {
        whole + 1
    } else {
        whole
    };
    proof {
        let big = two(d as nat) as int;
        let o = two(1074) as int;
        let v = two(k as nat) as int;
        assert(m == whole * big + rem && 0 <= rem < big) by {
            vstd::arithmetic::div_mod::lemma_fundamental_div_mod(m as int, div as int);
            if d > 53 {
                vstd::arithmetic::div_mod::lemma_fundamental_div_mod_converse(
                    m as int,
                    div as int,
                    0,
                    m as int,
                );
            }
            assert(div * whole == whole * div) by (nonlinear_arith);
        }
        let s: int = if neg {
            -(up as int)
        } else {
            up as int
        };
        let left: int = if !neg {
            rem as int
        } else if rem > 0 {
            big - rem
        } else {
            0
        };
        assert(units(a) == s * o + left * v && 0 <= left * v < o) by (nonlinear_arith)
            requires
                o == v * big,
                v >= 1,
                u == m * v,
                m == whole * big + rem,
                0 <= rem < big,
                up == if neg && rem > 0 {
                    whole + 1
                } else {
                    whole as int
                },
                s == if neg {
                    -(up as int)
                } else {
                    up as int
                },
                left == if !neg {
                    rem as int
                } else if rem > 0 {
                    big - rem
                } else {
                    0
                },
                units(a) == if neg {
                    -u
                } else {
                    u as int
                },
        ;
        assert(s * o == o * s) by (nonlinear_arith);
        vstd::arithmetic::div_mod::lemma_fundamental_div_mod_converse(units(a), o, s, left * v);
        assert(n == s);
    }
    if up == 0 {
        with_sign(neg, 0)
    } else {
        with_sign(neg, round_exact(up as u128, 1074))
    }
}

/// How two finite numbers compare.
pub fn rank(a: u64, b: u64) -> (r: Rank)
    requires
        is_finite(a),
        is_finite(b),
    ensures
        r == spec_rank(a, b),
{
    let x = a % SIGN;
    let y = b % SIGN;
    proof {
        lemma_units_sign(x as nat);
        lemma_units_sign(y as nat);
        if x < y {
            lemma_units_grow(x as nat, y as nat);
        }
        if y < x {
            lemma_units_grow(y as nat, x as nat);
        }
    }
    if x == 0 && y == 0 {
        Rank::Equal
    } else if a >= SIGN {
        if b < SIGN || x > y {
            Rank::Less
        } else if x == y {
            Rank::Equal
        } else {
            Rank::Greater
        }
    } else if b >= SIGN || x > y {
        Rank::Greater
    } else if x == y {
        Rank::Equal
    } else {
        Rank::Less
    }
}

/// Only the magnitude zero is no units.
pub proof fn lemma_units_sign(m: nat)
    ensures
        magnitude_units(m) == 0 <==> m == 0,
{
    lemma_two_pos(exponent(m));
    let (x, w) = (significand(m), two(exponent(m)));
    assert(x > 0 ==> x * w > 0) by (nonlinear_arith)
        requires
            w >= 1,
    ;
    assert(x == 0 ==> x * w == 0) by (nonlinear_arith);
}

/// Whether the magnitude of a number is exactly the given integer.
pub fn is_magnitude(bits: u64, n: u64) -> (r: bool)
    requires
        is_finite(bits),
    ensures
        r == (abs(units(bits)) == n * two(1074)),
{
    let (neg, m, k) = split(bits);
    let ghost o = two(1074);
    let ghost u = abs(units(bits));
    proof {
        lemma_two_pos(1074);
        lemma_two_pos(k as nat);
        lemma_two_74();
    }
    if k >= 1074 {
        let d = k - 1074;
        let ghost w = two(d as nat);
        proof {
            lemma_two_adds(d as nat, 1074);
            assert(u == (m * w) * o) by (nonlinear_arith)
                requires
                    u == m * two(k as nat),
                    two(k as nat) == w * o,
            ;
            assert((u == n * o) == (m * w == n)) by (nonlinear_arith)
                requires
                    u == (m * w) * o,
                    o >= 1,
            ;
        }
        if d > 21 {
            proof {
                lemma_two_le(21, d as nat);
                assert(m * w > n) by (nonlinear_arith)
                    requires
                        m >= IMPLICIT,
                        w >= 0x20_0000,
                        n <= 0xffff_ffff_ffff_ffff,
                ;
            }
            false
        } else {
            shifted(m, d) == n as u128
        }
    } else {
        let d = 1074 - k;
        let ghost w = two(d as nat);
        let ghost v = two(k as nat);
        proof {
            lemma_two_adds(d as nat, k as nat);
            assert(n * o == (n * w) * v) by (nonlinear_arith)
                requires
                    o == w * v,
            ;
            assert((u == n * o) == (m == n * w)) by (nonlinear_arith)
                requires
                    u == m * v,
                    n * o == (n * w) * v,
                    v >= 1,
            ;
            lemma_two_pos(d as nat);
        }
        if n >= 2 * IMPLICIT {
            proof {
                assert(n * w > m) by (nonlinear_arith)
                    requires
                        n >= 2 * IMPLICIT,
                        w >= 1,
                        m < 2 * IMPLICIT,
                ;
            }
            false
        } else if d > 74 {
            proof {
                lemma_two_le(74, d as nat);
                assert(n >= 1 ==> n * w > m) by (nonlinear_arith)
                    requires
                        w >= 0x400_0000_0000_0000_0000,
                        m < 2 * IMPLICIT,
                ;
                assert(n == 0 ==> n * w == 0) by (nonlinear_arith);
            }
            n == 0 && m == 0
        } else {
            shifted(n, d) == m as u128
        }
    }
}

} // verus!
