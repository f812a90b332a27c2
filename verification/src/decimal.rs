//! Natural numbers written in decimal.

use crate::float::two;
use vstd::prelude::*;

verus! {

/// The character for a digit below ten.
pub open spec fn digit(d: nat) -> char {
    (48 + d) as u8 as char
}

/// A natural number in decimal, without leading zeros.
pub open spec fn digits(n: nat) -> Seq<char>
    decreases n,
{
    if n < 10 {
        seq![digit(n)]
    } else {
        digits(n / 10).push(digit(n % 10))
    }
}

/// Five to the power `n`.
pub open spec fn five(n: nat) -> nat
    decreases n,
{
    if n == 0 {
        1
    } else {
        5 * five((n - 1) as nat)
    }
}

/// The number whose decimal digits, the last one first, are given.
spec fn amount(s: Seq<u8>) -> nat
    decreases s.len(),
{
    if s.len() == 0 {
        0
    } else {
        s[0] as nat + 10 * amount(s.drop_first())
    }
}

/// Whether every item is a digit.
spec fn all_digits(s: Seq<u8>) -> bool {
    forall|i: int| 0 <= i < s.len() ==> #[trigger] s[i] < 10
}

/// The characters of digits that are given the last one first.
spec fn reversed(s: Seq<u8>) -> Seq<char>
    decreases s.len(),
{
    if s.len() == 0 {
        Seq::empty()
    } else {
        reversed(s.drop_first()).push(digit(s[0] as nat))
    }
}

/// Without a leading zero, the digits of a number are [`digits`].
proof fn lemma_reversed(s: Seq<u8>)
    requires
        s.len() > 0,
        all_digits(s),
        s.len() > 1 ==> s.last() > 0,
    ensures
        reversed(s) == digits(amount(s)),
        s.last() > 0 ==> amount(s) > 0,
    decreases s.len(),
{
    let t = s.drop_first();
    let d = s[0] as nat;
    if s.len() == 1 {
        assert(t.len() == 0);
        assert(amount(t) == 0);
        assert(reversed(t) =~= Seq::<char>::empty());
        assert(reversed(s) =~= seq![digit(d)]);
    } else {
        assert(t.last() == s.last());
        assert(all_digits(t)) by {
            assert forall|i: int| 0 <= i < t.len() implies #[trigger] t[i] < 10 by {
                assert(s[i + 1] < 10);
            }
        }
        lemma_reversed(t);
        assert(amount(s) >= 10);
        assert(amount(s) / 10 == amount(t) && amount(s) % 10 == d);
    }
}

/// One more digit counts its place.
proof fn lemma_amount_push(s: Seq<u8>, d: u8)
    ensures
        amount(s.push(d)) == amount(s) + d * ten(s.len()),
    decreases s.len(),
{
    if s.len() == 0 {
        assert(s.push(d).drop_first().len() == 0);
        assert(amount(s.push(d).drop_first()) == 0);
        assert(d * ten(0) == d) by (nonlinear_arith)
            requires
                ten(0) == 1,
        ;
    } else {
        assert(s.push(d).drop_first() =~= s.drop_first().push(d));
        lemma_amount_push(s.drop_first(), d);
        let w = ten((s.len() - 1) as nat);
        assert(d * (10 * w) == 10 * (d * w)) by (nonlinear_arith);
    }
}

/// Ten to the power `n`.
spec fn ten(n: nat) -> nat
    decreases n,
{
    if n == 0 {
        1
    } else {
        10 * ten((n - 1) as nat)
    }
}

/// The digits of a number, the last one first.
fn split_digits(n: u64) -> (r: Vec<u8>)
    ensures
        r@.len() > 0,
        all_digits(r@),
        r@.len() > 1 ==> r@.last() > 0,
        amount(r@) == n,
{
    let mut r: Vec<u8> = Vec::new();
    let mut rest: u64 = n;
    proof {
        assert(rest * ten(0) == n) by (nonlinear_arith)
            requires
                ten(0) == 1,
                rest == n,
        ;
    }
    while rest >= 10
        invariant
            all_digits(r@),
            amount(r@) + rest * ten(r@.len()) == n,
            rest > 0 || r@.len() == 0,
        decreases rest,
    {
        let d: u8 = (rest % 10) as u8;
        proof {
            lemma_amount_push(r@, d);
            let w = ten(r@.len());
            let q = rest / 10;
            assert(rest * w == q * (10 * w) + d * w) by (nonlinear_arith)
                requires
                    rest == 10 * q + d,
            ;
        }
        r.push(d);
        rest = rest / 10;
    }
    proof {
        lemma_amount_push(r@, rest as u8);
    }
    r.push(rest as u8);
    r
}

/// Multiplies a number, given by its digits, by a digit that is not zero.
fn scale(s: &Vec<u8>, c: u8) -> (r: Vec<u8>)
    requires
        0 < c < 10,
        s@.len() > 0,
        all_digits(s@),
        s@.len() > 1 ==> s@.last() > 0,
    ensures
        r@.len() > 0,
        all_digits(r@),
        r@.len() > 1 ==> r@.last() > 0,
        amount(r@) == c * amount(s@),
{
    let mut r: Vec<u8> = Vec::new();
    let mut carry: u8 = 0;
    proof {
        assert(s@.take(0).len() == 0);
        assert(amount(s@.take(0)) == 0);
        assert(amount(r@) == 0);
        assert(c * 0 == 0 && 0 * ten(0) == 0) by (nonlinear_arith);
    }
    let mut i: usize = 0;
    while i < s.len()
        invariant
            0 < c < 10,
            i <= s@.len(),
            r@.len() == i,
            all_digits(s@),
            all_digits(r@),
            carry < c,
            amount(r@) + carry * ten(i as nat) == c * amount(s@.take(i as int)),
            i == s@.len() && i > 1 && s@.last() > 0 ==> r@.last() > 0 || carry > 0,
            i == 1 && s@.len() == 1 && s@[0] > 0 ==> r@.last() > 0 || carry > 0,
        decreases s@.len() - i,
    {
        let d = s[i];
        assert(s@[i as int] < 10);
        proof {
            assert(d * c + carry < 10 * c) by (nonlinear_arith)
                requires
                    d < 10,
                    carry < c,
            ;
            assert(d > 0 ==> d * c + carry > 0) by (nonlinear_arith)
                requires
                    c > 0,
                    carry >= 0,
            ;
        }
        let x: u8 = d * c + carry;
        proof {
            assert(s@.take(i + 1) =~= s@.take(i as int).push(d));
            lemma_amount_push(s@.take(i as int), d);
            lemma_amount_push(r@, x % 10);
            let w = ten(i as nat);
            let (p, q) = (x / 10, x % 10);
            assert(ten((i + 1) as nat) == 10 * w);
            let a = amount(s@.take(i as int));
            let b = amount(r@);
            assert(b + q * w + p * (10 * w) == c * (a + d * w)) by (nonlinear_arith)
                requires
                    b + carry * w == c * a,
                    10 * p + q == d * c + carry,
            ;
        }
        r.push(x % 10);
        carry = x / 10;
        i = i + 1;
    }
    proof {
        assert(s@.take(s@.len() as int) =~= s@);
        lemma_amount_push(r@, carry);
        assert(0 * ten(r@.len()) == 0) by (nonlinear_arith);
    }
    if carry > 0 {
        r.push(carry);
    }
    r
}

/// The characters of digits that are given the last one first.
fn written(s: &Vec<u8>) -> (r: String)
    requires
        all_digits(s@),
    ensures
        r@ == reversed(s@),
{
    let mut r = String::new();
    let mut i: usize = s.len();
    proof {
        assert(s@.skip(s@.len() as int).len() == 0);
        assert(r@ =~= reversed(s@.skip(s@.len() as int)));
    }
    while i > 0
        invariant
            i <= s@.len(),
            all_digits(s@),
            r@ == reversed(s@.skip(i as int)),
        decreases i,
    {
        i = i - 1;
        proof {
            assert(s@.skip(i as int).drop_first() =~= s@.skip(i + 1));
            assert(s@[i as int] < 10);
        }
        r.push((48 + s[i]) as char);
    }
    proof {
        assert(s@.skip(0) =~= s@);
    }
    r
}

/// A number in decimal.
pub fn decimal(n: u64) -> (r: String)
    ensures
        r@ == digits(n as nat),
{
    let s = split_digits(n);
    proof {
        lemma_reversed(s@);
    }
    written(&s)
}

/// `n` times two to the power `k`, in decimal.
pub fn decimal_doubled(n: u64, k: u64) -> (r: String)
    ensures
        r@ == digits(n as nat * two(k as nat)),
{
    let mut s = split_digits(n);
    let mut i: u64 = 0;
    proof {
        assert(n as nat * two(0) == n) by (nonlinear_arith)
            requires
                two(0) == 1,
        ;
    }
    while i < k
        invariant
            i <= k,
            s@.len() > 0,
            all_digits(s@),
            s@.len() > 1 ==> s@.last() > 0,
            amount(s@) == n as nat * two(i as nat),
        decreases k - i,
    {
        proof {
            let w = two(i as nat);
            assert(n as nat * (2 * w) == 2 * (n as nat * w)) by (nonlinear_arith);
            assert(two((i + 1) as nat) == 2 * w);
        }
        s = scale(&s, 2);
        i = i + 1;
    }
    proof {
        lemma_reversed(s@);
    }
    written(&s)
}

/// `n` times five to the power `k`, in decimal.
pub fn decimal_quintupled(n: u64, k: u64) -> (r: String)
    ensures
        r@ == digits(n as nat * five(k as nat)),
{
    let mut s = split_digits(n);
    let mut i: u64 = 0;
    proof {
        assert(n as nat * five(0) == n) by (nonlinear_arith)
            requires
                five(0) == 1,
        ;
    }
    while i < k
        invariant
            i <= k,
            s@.len() > 0,
            all_digits(s@),
            s@.len() > 1 ==> s@.last() > 0,
            amount(s@) == n as nat * five(i as nat),
        decreases k - i,
    {
        proof {
            let w = five(i as nat);
            assert(n as nat * (5 * w) == 5 * (n as nat * w)) by (nonlinear_arith);
            assert(five((i + 1) as nat) == 5 * w);
        }
        s = scale(&s, 5);
        i = i + 1;
    }
    proof {
        lemma_reversed(s@);
    }
    written(&s)
}

} // verus!
