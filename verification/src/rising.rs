//! Sums where adding is not exact.
//!
//! `val` is the number that a value stands for. Adding may round, as floating point
//! does: greater summands still give no smaller a sum, and a sum is off by little.

use vstd::prelude::*;

use crate::dist::{halve, lane, reduce16, sum_of};
use crate::exact::{none_negative, steps_within, total};

verus! {

/// `x` is not negative, and stands for no greater a number than `y`.
pub open spec fn ranked<K>(val: spec_fn(K) -> int, x: K, y: K) -> bool {
    0 <= val(x) && val(x) <= val(y)
}

/// Of values that are not negative, greater ones give no smaller a sum, and no sum is
/// negative.
pub open spec fn adds_rising<K, P: Fn(K, K) -> K>(plus: P, val: spec_fn(K) -> int) -> bool {
    forall|x: K, y: K, u: K, w: K|
        ranked(val, x, u) && ranked(val, y, w) ==> ranked(
            val,
            #[trigger] sum_of(plus, x, y),
            #[trigger] sum_of(plus, u, w),
        )
}

/// How far apart two numbers are.
pub open spec fn apart(a: int, b: int) -> int {
    if a <= b {
        b - a
    } else {
        a - b
    }
}

/// As long as nothing is negative and the sum is not above `bound`, a sum is off by at
/// most `slack`, and is not negative.
pub open spec fn adds_within<K, P: Fn(K, K) -> K>(
    plus: P,
    val: spec_fn(K) -> int,
    slack: int,
    bound: int,
) -> bool {
    forall|x: K, y: K|
        0 <= val(x) && 0 <= val(y) && val(x) + val(y) <= bound ==> 0 <= val(
            #[trigger] sum_of(plus, x, y),
        ) && apart(val(sum_of(plus, x, y)), val(x) + val(y)) <= slack
}

/// On the first `n` places, `b` adds no less than `a` does.
pub open spec fn outgrows<K>(
    a: spec_fn(K, int) -> K,
    b: spec_fn(K, int) -> K,
    val: spec_fn(K) -> int,
    n: nat,
) -> bool {
    forall|s: K, t: K, j: int|
        0 <= j < n && ranked(val, s, t) ==> ranked(val, #[trigger] a(s, j), #[trigger] b(t, j))
}

proof fn lemma_lane_rises<K>(
    a: spec_fn(K, int) -> K,
    b: spec_fn(K, int) -> K,
    val: spec_fn(K) -> int,
    n: nat,
    s: K,
    t: K,
    first: int,
    w: int,
    k: nat,
)
    requires
        outgrows(a, b, val, n),
        ranked(val, s, t),
        0 <= first,
        0 <= w,
        k > 0 ==> first + (k - 1) * w < n,
    ensures
        ranked(val, lane(a, s, first, w, k), lane(b, t, first, w, k)),
    decreases k,
{
    if k > 0 {
        assert(0 <= (k - 1) * w && (k - 2) * w <= (k - 1) * w) by (nonlinear_arith)
            requires
                0 <= w,
                k > 0,
        ;
        lemma_lane_rises(a, b, val, n, s, t, first, w, (k - 1) as nat);
        let x = lane(a, s, first, w, (k - 1) as nat);
        let y = lane(b, t, first, w, (k - 1) as nat);
        let j = first + (k - 1) * w;
        assert(ranked(val, a(x, j), b(y, j)));
    }
}

/// The values of `s` are not negative, and no greater than those of `t`.
spec fn below<K>(val: spec_fn(K) -> int, s: Seq<K>, t: Seq<K>) -> bool {
    &&& s.len() == t.len()
    &&& forall|l: int| 0 <= l < s.len() ==> ranked(val, #[trigger] s[l], t[l])
}

proof fn lemma_halve_rises<K, P: Fn(K, K) -> K>(
    plus: P,
    val: spec_fn(K) -> int,
    s: Seq<K>,
    t: Seq<K>,
)
    requires
        adds_rising(plus, val),
        below(val, s, t),
    ensures
        below(val, halve(plus, s), halve(plus, t)),
{
    let (x, y) = (halve(plus, s), halve(plus, t));
    let h = s.len() / 2;
    assert forall|l: int| 0 <= l < x.len() implies ranked(val, #[trigger] x[l], y[l]) by {
        assert(ranked(val, s[l], t[l]));
        assert(ranked(val, s[l + h], t[l + h]));
        assert(x[l] == sum_of(plus, s[l], s[l + h]));
        assert(y[l] == sum_of(plus, t[l], t[l + h]));
    }
}

/// Where adding rises, what adds no less in each place adds up to no less: in turn, and
/// in 16 lanes over blocks of 16 places with what is left in turn.
pub proof fn law_rising_lanes<K, P: Fn(K, K) -> K>(
    a: spec_fn(K, int) -> K,
    b: spec_fn(K, int) -> K,
    plus: P,
    val: spec_fn(K) -> int,
    zero: K,
    n: nat,
)
    requires
        val(zero) >= 0,
        adds_rising(plus, val),
        outgrows(a, b, val, n),
    ensures
        val(lane(a, zero, 0, 1, n)) <= val(lane(b, zero, 0, 1, n)),
        val(
            lane(
                a,
                reduce16(plus, Seq::new(16, |l: int| lane(a, zero, l, 16, n / 16))),
                ((n / 16) * 16) as int,
                1,
                n % 16,
            ),
        ) <= val(
            lane(
                b,
                reduce16(plus, Seq::new(16, |l: int| lane(b, zero, l, 16, n / 16))),
                ((n / 16) * 16) as int,
                1,
                n % 16,
            ),
        ),
{
    lemma_lane_rises(a, b, val, n, zero, zero, 0, 1, n);
    let s = Seq::new(16, |l: int| lane(a, zero, l, 16, n / 16));
    let t = Seq::new(16, |l: int| lane(b, zero, l, 16, n / 16));
    assert forall|l: int| 0 <= l < 16 implies ranked(val, #[trigger] s[l], t[l]) by {
        lemma_lane_rises(a, b, val, n, zero, zero, l, 16, n / 16);
    }
    let (s8, t8) = (halve(plus, s), halve(plus, t));
    let (s4, t4) = (halve(plus, s8), halve(plus, t8));
    let (s2, t2) = (halve(plus, s4), halve(plus, t4));
    let (s1, t1) = (halve(plus, s2), halve(plus, t2));
    lemma_halve_rises(plus, val, s, t);
    lemma_halve_rises(plus, val, s8, t8);
    lemma_halve_rises(plus, val, s4, t4);
    lemma_halve_rises(plus, val, s2, t2);
    assert(ranked(val, s1[0], t1[0]));
    let lo = ((n / 16) * 16) as int;
    lemma_lane_rises(a, b, val, n, s1[0], t1[0], lo, 1, n % 16);
}

/// Where each step is off by at most `slack` from adding its term, the sum of `n` terms
/// in turn is off by at most `n` times that.
pub proof fn law_lane_within<K>(
    g: spec_fn(K, int) -> K,
    val: spec_fn(K) -> int,
    term: spec_fn(int) -> int,
    slack: int,
    bound: int,
    zero: K,
    n: nat,
)
    requires
        val(zero) == 0,
        slack >= 0,
        none_negative(term, n),
        steps_within(g, val, term, n, slack, bound),
        total(term, n) + n * slack <= bound,
    ensures
        0 <= val(lane(g, zero, 0, 1, n)),
        apart(val(lane(g, zero, 0, 1, n)), total(term, n)) <= n * slack,
    decreases n,
{
    if n > 0 {
        let t = (n - 1) as nat;
        assert(n * slack == t * slack + slack && 0 <= t * slack) by (nonlinear_arith)
            requires
                n == t + 1,
                slack >= 0,
        ;
        assert(term(n - 1) >= 0);
        law_lane_within(g, val, term, slack, bound, zero, t);
        let s = lane(g, zero, 0, 1, t);
        assert(0 + t * 1 == n - 1);
        assert(lane(g, zero, 0, 1, n) == g(s, n - 1));
    } else {
        assert(0 * slack == 0) by (nonlinear_arith);
    }
}

} // verus!
