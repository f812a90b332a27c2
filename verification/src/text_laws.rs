//! What holds of the order of texts.

use crate::text::{lemma_rank_equal, text_rank, Rank};
use vstd::prelude::*;

verus! {

/// What two texts start with alike does not count: the rest decides.
pub proof fn law_common_start_does_not_count(p: Seq<char>, a: Seq<char>, b: Seq<char>)
    ensures
        text_rank(p + a, p + b) == text_rank(a, b),
    decreases p.len(),
{
    if p.len() == 0 {
        assert(p + a =~= a);
        assert(p + b =~= b);
    } else {
        let q = p.drop_first();
        law_common_start_does_not_count(q, a, b);
        assert((p + a).drop_first() =~= q + a);
        assert((p + b).drop_first() =~= q + b);
        assert((p + a)[0] == p[0] && (p + b)[0] == p[0]);
    }
}

/// The first place where two texts differ decides, whatever follows and however long it is.
pub proof fn law_first_difference_decides(
    p: Seq<char>,
    c: char,
    s: Seq<char>,
    d: char,
    t: Seq<char>,
)
    requires
        (c as int) < (d as int),
    ensures
        text_rank(p + seq![c] + s, p + seq![d] + t) == Rank::Less,
        text_rank(p + seq![d] + t, p + seq![c] + s) == Rank::Greater,
{
    let (a, b) = (seq![c] + s, seq![d] + t);
    law_common_start_does_not_count(p, a, b);
    law_common_start_does_not_count(p, b, a);
    assert(p + a =~= p + seq![c] + s);
    assert(p + b =~= p + seq![d] + t);
    assert(a[0] == c && b[0] == d);
}

/// A text comes before every longer one that starts with it, and is equal to itself.
pub proof fn law_start_comes_before_the_whole(p: Seq<char>, s: Seq<char>)
    requires
        s.len() > 0,
    ensures
        text_rank(p, p + s) == Rank::Less,
        text_rank(p + s, p) == Rank::Greater,
        text_rank(p, p) == Rank::Equal,
{
    let none = Seq::<char>::empty();
    law_common_start_does_not_count(p, none, s);
    law_common_start_does_not_count(p, s, none);
    assert(p + none =~= p);
    lemma_rank_equal(p, p);
}

/// Whether one text comes before another: at the first place where they differ it has the smaller
/// character, or it ends there and the other goes on.
pub open spec fn precedes(a: Seq<char>, b: Seq<char>) -> bool {
    exists|n: int|
        0 <= n <= a.len() && n < b.len() && #[trigger] a.take(n) == b.take(n) && (n == a.len()
            || (a[n] as int) < (b[n] as int))
}

/// A text ranks below another exactly where it comes before it, and above where the other does.
pub proof fn law_rank_is_lexicographic(a: Seq<char>, b: Seq<char>)
    ensures
        text_rank(a, b) == Rank::Less <==> precedes(a, b),
        text_rank(a, b) == Rank::Greater <==> precedes(b, a),
        text_rank(a, b) == Rank::Equal <==> a == b,
{
    lemma_rank_equal(a, b);
    if precedes(a, b) {
        lemma_precedes(a, b);
    }
    if precedes(b, a) {
        lemma_precedes(b, a);
    }
    lemma_differ(a, b);
}

proof fn lemma_precedes(a: Seq<char>, b: Seq<char>)
    requires
        precedes(a, b),
    ensures
        text_rank(a, b) == Rank::Less,
        text_rank(b, a) == Rank::Greater,
{
    let n = choose|n: int|
        0 <= n <= a.len() && n < b.len() && #[trigger] a.take(n) == b.take(n) && (n == a.len()
            || (a[n] as int) < (b[n] as int));
    let p = a.take(n);
    if n == a.len() {
        assert(p =~= a);
        assert(b =~= p + b.skip(n));
        law_start_comes_before_the_whole(p, b.skip(n));
    } else {
        assert(a =~= p + seq![a[n]] + a.skip(n + 1));
        assert(b =~= p + seq![b[n]] + b.skip(n + 1)) by {
            assert(b.take(n) == p);
            assert forall|i: int| 0 <= i < b.len() implies b[i] == (p + seq![b[n]] + b.skip(
                n + 1,
            ))[i] by {
                if i < n {
                    assert(b.take(n)[i] == b[i]);
                }
            }
        }
        law_first_difference_decides(p, a[n], a.skip(n + 1), b[n], b.skip(n + 1));
    }
}

/// Of two texts that are not the same, one comes before the other.
proof fn lemma_differ(a: Seq<char>, b: Seq<char>)
    ensures
        a == b || precedes(a, b) || precedes(b, a),
{
    let n = lemma_common(a, b);
    assert(a.take(n) == b.take(n));
    if n == a.len() && n == b.len() {
        assert(a.take(n) =~= a);
        assert(b.take(n) =~= b);
    } else if n == a.len() {
        assert(precedes(a, b));
    } else if n == b.len() {
        assert(b.take(n) == a.take(n));
        assert(precedes(b, a));
    } else if (a[n] as int) < (b[n] as int) {
        assert(precedes(a, b));
    } else {
        assert(b.take(n) == a.take(n));
        assert(precedes(b, a));
    }
}

/// How far two texts are alike.
proof fn lemma_common(a: Seq<char>, b: Seq<char>) -> (n: int)
    ensures
        0 <= n <= a.len(),
        n <= b.len(),
        a.take(n) == b.take(n),
        n < a.len() && n < b.len() ==> a[n] != b[n],
    decreases a.len(),
{
    if a.len() == 0 || b.len() == 0 || a[0] != b[0] {
        assert(a.take(0) =~= b.take(0));
        0
    } else {
        let m = lemma_common(a.drop_first(), b.drop_first());
        let n = m + 1;
        assert forall|i: int| 0 <= i < n implies a[i] == b[i] by {
            if i > 0 {
                assert(a.drop_first().take(m)[i - 1] == b.drop_first().take(m)[i - 1]);
            }
        }
        assert(a.take(n) =~= b.take(n));
        n
    }
}

} // verus!
