//! Sums by lanes, where adding is exact or off by little.
//!
//! `val` is the number that a value stands for. As long as nothing is negative and no sum
//! is above a bound, an addition is exact, or is off by at most some slack. Where adding
//! is exact, no order of adding changes the result; where it is not, lanes are off by no
//! more than the slack of as many additions as they make.

use vstd::prelude::*;

use crate::dist::{
    blocks, eight, fold2, fold4, fold_of, halve, lane, place, plain, reduce16, reduce8,
    sixteen, sum_of,
};
use crate::rising::{adds_within, apart};

verus! {

/// The sum of the first `n` terms.
pub open spec fn total(term: spec_fn(int) -> int, n: nat) -> int
    decreases n,
{
    if n == 0 {
        0
    } else {
        total(term, (n - 1) as nat) + term(n - 1)
    }
}

/// A sum in two parts is the sum of theirs, and that of one term is the term.
pub proof fn law_total(term: spec_fn(int) -> int, a: nat, b: nat)
    ensures
        total(term, a + b) == total(term, a) + total(|i: int| term(a + i), b),
        total(term, 1) == term(0),
    decreases b,
{
    assert(total(term, 0) == 0);
    if b > 0 {
        law_total(term, a, (b - 1) as nat);
    }
}

/// None of the first `n` terms is negative.
pub open spec fn none_negative(term: spec_fn(int) -> int, n: nat) -> bool {
    forall|i: int| 0 <= i < n ==> #[trigger] term(i) >= 0
}

/// Each step of `g` on one of the first `n` places adds the term of its place, exactly
/// as long as the sum is not above `bound`.
pub open spec fn steps_exactly<K>(
    g: spec_fn(K, int) -> K,
    val: spec_fn(K) -> int,
    term: spec_fn(int) -> int,
    n: nat,
    bound: int,
) -> bool {
    forall|s: K, i: int|
        0 <= i < n && 0 <= val(s) && val(s) + term(i) <= bound ==> val(#[trigger] g(s, i)) == val(s)
            + term(i)
}

/// `plus` adds two values, exactly as long as none is negative and the sum is not above
/// `bound`.
pub open spec fn adds_exactly<K, P: Fn(K, K) -> K>(
    plus: P,
    val: spec_fn(K) -> int,
    bound: int,
) -> bool {
    forall|x: K, y: K|
        0 <= val(x) && 0 <= val(y) && val(x) + val(y) <= bound ==> val(
            #[trigger] sum_of(plus, x, y),
        ) == val(x) + val(y)
}

/// Each step of `g` on one of the first `n` places adds the term of its place, and is off
/// by at most `slack` as long as the sum is not above `bound`.
pub open spec fn steps_within<K>(
    g: spec_fn(K, int) -> K,
    val: spec_fn(K) -> int,
    term: spec_fn(int) -> int,
    n: nat,
    slack: int,
    bound: int,
) -> bool {
    forall|s: K, i: int|
        0 <= i < n && 0 <= val(s) && val(s) + term(i) <= bound ==> 0 <= val(#[trigger] g(s, i))
            && apart(val(g(s, i)), val(s) + term(i)) <= slack
}

/// The sum of the terms of one lane.
spec fn strided(term: spec_fn(int) -> int, first: int, w: int, t: nat) -> int
    decreases t,
{
    if t == 0 {
        0
    } else {
        strided(term, first, w, (t - 1) as nat) + term(first + (t - 1) * w)
    }
}

/// Of terms that are not negative, neither a lane nor a run adds up to less than
/// nothing.
proof fn lemma_strided(term: spec_fn(int) -> int, n: nat, first: int, w: int, t: nat)
    requires
        none_negative(term, n),
        0 <= first,
        0 <= w,
        t > 0 ==> first + (t - 1) * w < n,
    ensures
        strided(term, first, w, t) >= 0,
    decreases t,
{
    if t > 0 {
        lemma_last_place(w, t);
        lemma_strided(term, n, first, w, (t - 1) as nat);
        assert(term(first + (t - 1) * w) >= 0);
    }
}

proof fn lemma_last_place(w: int, t: nat)
    requires
        0 <= w,
        t > 0,
    ensures
        0 <= (t - 1) * w,
        (t - 2) * w <= (t - 1) * w,
{
    assert(0 <= (t - 1) * w && (t - 2) * w <= (t - 1) * w) by (nonlinear_arith)
        requires
            0 <= w,
            t > 0,
    ;
}

proof fn lemma_total(term: spec_fn(int) -> int, n: nat, a: nat)
    requires
        none_negative(term, n),
        a <= n,
    ensures
        0 <= total(term, a) <= total(term, n),
    decreases n,
{
    if a < n {
        lemma_total(term, (n - 1) as nat, a);
        assert(term(n - 1) >= 0);
    } else if n > 0 {
        lemma_total(term, (n - 1) as nat, (n - 1) as nat);
        assert(term(n - 1) >= 0);
    }
}

/// A lane of width one is a run of terms.
proof fn lemma_run(term: spec_fn(int) -> int, first: nat, t: nat)
    ensures
        strided(term, first as int, 1, t) == total(term, first + t) - total(term, first),
    decreases t,
{
    if t > 0 {
        lemma_run(term, first, (t - 1) as nat);
    }
}

/// The sum of the terms of `c` lanes side by side.
spec fn lanes_total(term: spec_fn(int) -> int, first: int, w: int, t: nat, c: nat) -> int
    decreases c,
{
    if c == 0 {
        0
    } else {
        lanes_total(term, first, w, t, (c - 1) as nat) + strided(term, first + c - 1, w, t)
    }
}

proof fn lemma_lanes_step(term: spec_fn(int) -> int, first: nat, w: nat, t: nat, c: nat)
    requires
        t > 0,
    ensures
        lanes_total(term, first as int, w as int, t, c) == lanes_total(
            term,
            first as int,
            w as int,
            (t - 1) as nat,
            c,
        ) + total(term, (first + (t - 1) * w + c) as nat) - total(
            term,
            (first + (t - 1) * w) as nat,
        ),
    decreases c,
{
    assert(0 <= (t - 1) * w) by (nonlinear_arith)
        requires
            t > 0,
    ;
    if c > 0 {
        lemma_lanes_step(term, first, w, t, (c - 1) as nat);
    }
}

/// `w` lanes of width `w` cover a run of places, each once.
proof fn lemma_lanes(term: spec_fn(int) -> int, first: nat, w: nat, t: nat)
    ensures
        lanes_total(term, first as int, w as int, t, w) == total(term, first + t * w) - total(
            term,
            first,
        ),
    decreases t,
{
    if t == 0 {
        lemma_no_steps(term, first as int, w as int, w);
        assert(0 * w == 0) by (nonlinear_arith);
    } else {
        lemma_lanes(term, first, w, (t - 1) as nat);
        lemma_lanes_step(term, first, w, t, w);
        assert((t - 1) * w + w == t * w) by (nonlinear_arith);
    }
}

proof fn lemma_no_steps(term: spec_fn(int) -> int, first: int, w: int, c: nat)
    ensures
        lanes_total(term, first, w, 0, c) == 0,
    decreases c,
{
    if c > 0 {
        lemma_no_steps(term, first, w, (c - 1) as nat);
    }
}

/// `x` stands for `t`, but for what `k` additions may be off.
spec fn about<K>(val: spec_fn(K) -> int, slack: int, x: K, t: int, k: int) -> bool {
    0 <= val(x) && apart(val(x), t) <= k * slack
}

/// One addition more.
proof fn lemma_more(slack: int, a: int, b: int)
    requires
        slack >= 0,
        0 <= a,
        0 <= b,
    ensures
        (a + b) * slack == a * slack + b * slack,
        (a + b + 1) * slack == a * slack + b * slack + slack,
        0 <= a * slack,
        0 <= b * slack,
{
    assert((a + b) * slack == a * slack + b * slack && (a + b + 1) * slack == a * slack + b
        * slack + slack && 0 <= a * slack && 0 <= b * slack) by (nonlinear_arith)
        requires
            slack >= 0,
            0 <= a,
            0 <= b,
    ;
}

/// Fewer additions are off by no more.
proof fn lemma_fewer(slack: int, a: int, b: int)
    requires
        slack >= 0,
        0 <= a <= b,
    ensures
        0 <= a * slack <= b * slack,
{
    assert(0 <= a * slack <= b * slack) by (nonlinear_arith)
        requires
            slack >= 0,
            0 <= a <= b,
    ;
}

proof fn lemma_sum<K, P: Fn(K, K) -> K>(
    plus: P,
    val: spec_fn(K) -> int,
    slack: int,
    bound: int,
    x: K,
    t: int,
    j: int,
    y: K,
    u: int,
    k: int,
)
    requires
        adds_within(plus, val, slack, bound),
        slack >= 0,
        about(val, slack, x, t, j),
        about(val, slack, y, u, k),
        0 <= j,
        0 <= k,
        t + u + (j + k) * slack <= bound,
    ensures
        about(val, slack, sum_of(plus, x, y), t + u, j + k + 1),
{
    lemma_more(slack, j, k);
}

proof fn lemma_lane<K>(
    g: spec_fn(K, int) -> K,
    val: spec_fn(K) -> int,
    term: spec_fn(int) -> int,
    n: nat,
    slack: int,
    bound: int,
    s: K,
    from: int,
    k: int,
    first: int,
    w: int,
    t: nat,
)
    requires
        steps_within(g, val, term, n, slack, bound),
        none_negative(term, n),
        slack >= 0,
        about(val, slack, s, from, k),
        0 <= k,
        0 <= first,
        0 <= w,
        t > 0 ==> first + (t - 1) * w < n,
        from + strided(term, first, w, t) + (k + t) * slack <= bound,
    ensures
        about(val, slack, lane(g, s, first, w, t), from + strided(term, first, w, t), k + t),
        strided(term, first, w, t) >= 0,
    decreases t,
{
    lemma_strided(term, n, first, w, t);
    if t > 0 {
        lemma_last_place(w, t);
        let j = first + (t - 1) * w;
        assert(term(j) >= 0);
        lemma_more(slack, k + t - 1, 0);
        assert(0 * slack == 0) by (nonlinear_arith);
        lemma_lane(g, val, term, n, slack, bound, s, from, k, first, w, (t - 1) as nat);
        let p = lane(g, s, first, w, (t - 1) as nat);
        assert(lane(g, s, first, w, t) == g(p, j));
    }
}

/// The sum of `c` of some numbers.
spec fn span(t: Seq<int>, lo: int, c: nat) -> int
    decreases c,
{
    if c == 0 {
        0
    } else {
        span(t, lo, (c - 1) as nat) + t[lo + c - 1]
    }
}

/// None of the numbers is negative.
spec fn positive(t: Seq<int>) -> bool {
    forall|l: int| 0 <= l < t.len() ==> #[trigger] t[l] >= 0
}

proof fn lemma_span_split(t: Seq<int>, lo: int, c: nat, d: nat)
    ensures
        span(t, lo, c + d) == span(t, lo, c) + span(t, lo + c, d),
    decreases d,
{
    if d > 0 {
        lemma_span_split(t, lo, c, (d - 1) as nat);
    }
}

proof fn lemma_span(t: Seq<int>, lo: int, c: nat)
    requires
        positive(t),
        0 <= lo,
        lo + c <= t.len(),
    ensures
        span(t, lo, c) >= 0,
        forall|i: int| lo <= i < lo + c ==> #[trigger] t[i] <= span(t, lo, c),
    decreases c,
{
    if c > 0 {
        lemma_span(t, lo, (c - 1) as nat);
        assert(t[lo + c - 1] >= 0);
    }
}

/// Each of `s` stands for its number, but for what `k` additions may be off.
spec fn abouts<K>(val: spec_fn(K) -> int, slack: int, s: Seq<K>, t: Seq<int>, k: int) -> bool {
    &&& s.len() == t.len()
    &&& positive(t)
    &&& forall|l: int| 0 <= l < s.len() ==> about(val, slack, #[trigger] s[l], t[l], k)
}

/// What lanes hold after `t` steps each: what each stands for then.
proof fn lemma_lanes_within<K>(
    g: spec_fn(K, int) -> K,
    val: spec_fn(K) -> int,
    term: spec_fn(int) -> int,
    n: nat,
    slack: int,
    bound: int,
    v: Seq<K>,
    from: Seq<int>,
    k: int,
    s: Seq<K>,
    first: int,
    w: int,
    t: nat,
) -> (r: Seq<int>)
    requires
        steps_within(g, val, term, n, slack, bound),
        none_negative(term, n),
        slack >= 0,
        abouts(val, slack, v, from, k),
        0 <= k,
        0 <= first,
        0 <= w,
        t > 0 ==> first + v.len() - 1 + (t - 1) * w < n,
        s.len() == v.len(),
        forall|l: int| 0 <= l < s.len() ==> #[trigger] s[l] == lane(g, v[l], first + l, w, t),
        span(from, 0, v.len()) + lanes_total(term, first, w, t, v.len()) + (k + t) * slack <= bound,
    ensures
        abouts(val, slack, s, r, k + t),
        span(r, 0, v.len()) == span(from, 0, v.len()) + lanes_total(term, first, w, t, v.len()),
{
    let r = Seq::new(v.len(), |l: int| from[l] + strided(term, first + l, w, t));
    lemma_lanes_span(term, from, r, first, w, t, v.len());
    assert forall|l: int| 0 <= l < r.len() implies #[trigger] r[l] >= 0 by {
        lemma_strided(term, n, first + l, w, t);
        assert(from[l] >= 0);
    }
    lemma_span(r, 0, v.len());
    assert forall|l: int| 0 <= l < s.len() implies about(
        val,
        slack,
        #[trigger] s[l],
        r[l],
        k + t,
    ) by {
        assert(r[l] <= span(r, 0, v.len()));
        assert(about(val, slack, v[l], from[l], k));
        lemma_lane(g, val, term, n, slack, bound, v[l], from[l], k, first + l, w, t);
    }
    r
}

proof fn lemma_lanes_span(
    term: spec_fn(int) -> int,
    from: Seq<int>,
    r: Seq<int>,
    first: int,
    w: int,
    t: nat,
    c: nat,
)
    requires
        c <= r.len(),
        forall|l: int|
            0 <= l < r.len() ==> #[trigger] r[l] == from[l] + strided(term, first + l, w, t),
    ensures
        span(r, 0, c) == span(from, 0, c) + lanes_total(term, first, w, t, c),
    decreases c,
{
    if c > 0 {
        lemma_lanes_span(term, from, r, first, w, t, (c - 1) as nat);
        assert(r[c - 1] == from[c - 1] + strided(term, first + (c - 1), w, t));
    }
}

/// Half as many numbers, in the way of `halve`.
spec fn halves(t: Seq<int>) -> Seq<int> {
    Seq::new(t.len() / 2, |l: int| t[l] + t[l + t.len() / 2])
}

proof fn lemma_halves(t: Seq<int>, h: nat, c: nat)
    requires
        t.len() == 2 * h,
        c <= h,
    ensures
        span(halves(t), 0, c) == span(t, 0, c) + span(t, h as int, c),
    decreases c,
{
    if c > 0 {
        lemma_halves(t, h, (c - 1) as nat);
        assert(halves(t)[c - 1] == t[c - 1] + t[c - 1 + h]);
    }
}

proof fn lemma_halved<K, P: Fn(K, K) -> K>(
    plus: P,
    val: spec_fn(K) -> int,
    slack: int,
    bound: int,
    s: Seq<K>,
    t: Seq<int>,
    k: int,
    h: nat,
)
    requires
        adds_within(plus, val, slack, bound),
        slack >= 0,
        0 <= k,
        s.len() == 2 * h,
        abouts(val, slack, s, t, k),
        span(t, 0, 2 * h) + (2 * k) * slack <= bound,
    ensures
        abouts(val, slack, halve(plus, s), halves(t), 2 * k + 1),
        span(halves(t), 0, h) == span(t, 0, 2 * h),
        halve(plus, s).len() == h,
{
    let (x, u) = (halve(plus, s), halves(t));
    lemma_halves(t, h, h);
    lemma_span_split(t, 0, h, h);
    assert forall|l: int| 0 <= l < u.len() implies #[trigger] u[l] >= 0 by {
        assert(t[l] >= 0 && t[l + h] >= 0);
    }
    lemma_span(u, 0, h);
    assert forall|l: int| 0 <= l < x.len() implies about(
        val,
        slack,
        #[trigger] x[l],
        u[l],
        2 * k + 1,
    ) by {
        assert(about(val, slack, s[l], t[l], k));
        assert(about(val, slack, s[l + h], t[l + h], k));
        assert(u[l] == t[l] + t[l + h]);
        assert(u[l] <= span(u, 0, h));
        assert(k + k == 2 * k);
        lemma_sum(plus, val, slack, bound, s[l], t[l], k, s[l + h], t[l + h], k);
        assert(x[l] == sum_of(plus, s[l], s[l + h]));
    }
}

proof fn lemma_reduce16<K, P: Fn(K, K) -> K>(
    plus: P,
    val: spec_fn(K) -> int,
    slack: int,
    bound: int,
    s: Seq<K>,
    t: Seq<int>,
    k: int,
)
    requires
        adds_within(plus, val, slack, bound),
        slack >= 0,
        0 <= k,
        s.len() == 16,
        abouts(val, slack, s, t, k),
        span(t, 0, 16) + (16 * k + 15) * slack <= bound,
    ensures
        about(val, slack, reduce16(plus, s), span(t, 0, 16), 16 * k + 15),
{
    let s8 = halve(plus, s);
    let s4 = halve(plus, s8);
    let s2 = halve(plus, s4);
    let s1 = halve(plus, s2);
    let t8 = halves(t);
    let t4 = halves(t8);
    let t2 = halves(t4);
    let t1 = halves(t2);
    lemma_fewer(slack, 2 * k, 16 * k + 15);
    lemma_halved(plus, val, slack, bound, s, t, k, 8);
    lemma_fewer(slack, 2 * (2 * k + 1), 16 * k + 15);
    lemma_halved(plus, val, slack, bound, s8, t8, 2 * k + 1, 4);
    assert(2 * (2 * k + 1) + 1 == 4 * k + 3);
    lemma_fewer(slack, 2 * (4 * k + 3), 16 * k + 15);
    lemma_halved(plus, val, slack, bound, s4, t4, 4 * k + 3, 2);
    assert(2 * (4 * k + 3) + 1 == 8 * k + 7);
    lemma_fewer(slack, 2 * (8 * k + 7), 16 * k + 15);
    lemma_halved(plus, val, slack, bound, s2, t2, 8 * k + 7, 1);
    assert(2 * (8 * k + 7) + 1 == 16 * k + 15);
    assert(span(t1, 0, 1) == span(t1, 0, 0) + t1[0]);
    assert(about(val, slack, s1[0], t1[0], 16 * k + 15));
}

proof fn lemma_reduce8<K, P: Fn(K, K) -> K>(
    plus: P,
    val: spec_fn(K) -> int,
    slack: int,
    bound: int,
    s: Seq<K>,
    t: Seq<int>,
    k: int,
)
    requires
        adds_within(plus, val, slack, bound),
        slack >= 0,
        0 <= k,
        s.len() == 8,
        abouts(val, slack, s, t, k),
        span(t, 0, 8) + (8 * k + 7) * slack <= bound,
    ensures
        about(val, slack, reduce8(plus, s), span(t, 0, 8), 8 * k + 7),
{
    let h = halve(plus, s);
    let u = halves(t);
    let j = 2 * k + 1;
    lemma_fewer(slack, 2 * k, 8 * k + 7);
    lemma_halved(plus, val, slack, bound, s, t, k, 4);
    reveal_with_fuel(span, 5);
    assert(span(u, 0, 4) == u[0] + u[1] + u[2] + u[3]);
    assert(u[0] >= 0 && u[1] >= 0 && u[2] >= 0 && u[3] >= 0);
    assert(about(val, slack, h[0], u[0], j) && about(val, slack, h[1], u[1], j));
    assert(about(val, slack, h[2], u[2], j) && about(val, slack, h[3], u[3], j));
    lemma_fewer(slack, j + j, 8 * k + 7);
    lemma_sum(plus, val, slack, bound, h[0], u[0], j, h[1], u[1], j);
    lemma_sum(plus, val, slack, bound, h[2], u[2], j, h[3], u[3], j);
    let (x, y) = (sum_of(plus, h[0], h[1]), sum_of(plus, h[2], h[3]));
    let i = j + j + 1;
    lemma_fewer(slack, i + i, 8 * k + 7);
    lemma_sum(plus, val, slack, bound, x, u[0] + u[1], i, y, u[2] + u[3], i);
    assert(i + i + 1 == 8 * k + 7);
}

/// A quarter as many numbers, in the way of `fold4`.
spec fn quarters(t: Seq<int>) -> Seq<int> {
    Seq::new(8, |l: int| t[l] + t[l + 8] + (t[l + 16] + t[l + 24]))
}

proof fn lemma_quarters(t: Seq<int>, c: nat)
    requires
        t.len() == 32,
        c <= 8,
    ensures
        span(quarters(t), 0, c) == span(t, 0, c) + span(t, 8, c) + span(t, 16, c) + span(t, 24, c),
    decreases c,
{
    if c > 0 {
        lemma_quarters(t, (c - 1) as nat);
        let l = c - 1;
        assert(quarters(t)[l] == t[l] + t[l + 8] + (t[l + 16] + t[l + 24]));
    }
}

proof fn lemma_fold4<K, P: Fn(K, K) -> K>(
    plus: P,
    val: spec_fn(K) -> int,
    slack: int,
    bound: int,
    s: Seq<K>,
    t: Seq<int>,
    k: int,
)
    requires
        adds_within(plus, val, slack, bound),
        slack >= 0,
        0 <= k,
        s.len() == 32,
        abouts(val, slack, s, t, k),
        span(t, 0, 32) + (4 * k + 3) * slack <= bound,
    ensures
        abouts(val, slack, fold4(plus, s), quarters(t), 4 * k + 3),
        span(quarters(t), 0, 8) == span(t, 0, 32),
{
    let (f, u) = (fold4(plus, s), quarters(t));
    lemma_quarters(t, 8);
    lemma_span_split(t, 0, 8, 24);
    lemma_span_split(t, 8, 8, 16);
    lemma_span_split(t, 16, 8, 8);
    assert forall|l: int| 0 <= l < u.len() implies #[trigger] u[l] >= 0 by {
        assert(t[l] >= 0 && t[l + 8] >= 0 && t[l + 16] >= 0 && t[l + 24] >= 0);
    }
    lemma_span(u, 0, 8);
    lemma_fewer(slack, k + k, 4 * k + 3);
    let i = k + k + 1;
    lemma_fewer(slack, i + i, 4 * k + 3);
    assert forall|l: int| 0 <= l < f.len() implies about(
        val,
        slack,
        #[trigger] f[l],
        u[l],
        4 * k + 3,
    ) by {
        assert(u[l] <= span(u, 0, 8));
        assert(t[l] >= 0 && t[l + 8] >= 0 && t[l + 16] >= 0 && t[l + 24] >= 0);
        assert(about(val, slack, s[l], t[l], k) && about(val, slack, s[l + 8], t[l + 8], k));
        assert(about(val, slack, s[l + 16], t[l + 16], k));
        assert(about(val, slack, s[l + 24], t[l + 24], k));
        lemma_sum(plus, val, slack, bound, s[l], t[l], k, s[l + 8], t[l + 8], k);
        lemma_sum(plus, val, slack, bound, s[l + 16], t[l + 16], k, s[l + 24], t[l + 24], k);
        let x = sum_of(plus, s[l], s[l + 8]);
        let y = sum_of(plus, s[l + 16], s[l + 24]);
        lemma_sum(
            plus,
            val,
            slack,
            bound,
            x,
            t[l] + t[l + 8],
            i,
            y,
            t[l + 16] + t[l + 24],
            i,
        );
        assert(f[l] == sum_of(plus, x, y));
        assert(i + i + 1 == 4 * k + 3);
    }
}

/// Lanes that hold nothing yet.
proof fn lemma_nothing<K>(val: spec_fn(K) -> int, slack: int, zero: K, c: nat) -> (r: (
    Seq<K>,
    Seq<int>,
))
    requires
        val(zero) == 0,
        slack >= 0,
    ensures
        r.0 == Seq::new(c, |l: int| zero),
        abouts(val, slack, r.0, r.1, 0),
        r.1.len() == c,
        span(r.1, 0, c) == 0,
{
    let t = Seq::new(c, |l: int| 0int);
    assert(0 * slack == 0) by (nonlinear_arith);
    lemma_zeros(t, c);
    (Seq::new(c, |l: int| zero), t)
}

proof fn lemma_zeros(t: Seq<int>, c: nat)
    requires
        c <= t.len(),
        forall|l: int| 0 <= l < t.len() ==> #[trigger] t[l] == 0,
    ensures
        span(t, 0, c) == 0,
    decreases c,
{
    if c > 0 {
        lemma_zeros(t, (c - 1) as nat);
        assert(t[c - 1] == 0);
    }
}

/// Where additions are off by at most `slack`, 16 lanes over blocks of 16 places, added
/// up, and the places that are left in turn are off by at most that much for each place,
/// and for each of the 15 additions that make one of the lanes.
pub proof fn law_sixteen_lanes_within<K, P: Fn(K, K) -> K>(
    g: spec_fn(K, int) -> K,
    plus: P,
    val: spec_fn(K) -> int,
    term: spec_fn(int) -> int,
    slack: int,
    bound: int,
    zero: K,
    n: nat,
)
    requires
        val(zero) == 0,
        slack >= 0,
        none_negative(term, n),
        total(term, n) + (n + 15) * slack <= bound,
        steps_within(g, val, term, n, slack, bound),
        adds_within(plus, val, slack, bound),
    ensures
        ({
            let x = lane(
                g,
                reduce16(plus, Seq::new(16, |l: int| lane(g, zero, l, 16, n / 16))),
                ((n / 16) * 16) as int,
                1,
                n % 16,
            );
            0 <= val(x) && apart(val(x), total(term, n)) <= (n + 15) * slack
        }),
{
    let s = Seq::new(16, |l: int| lane(g, zero, l, 16, n / 16));
    let t = n / 16;
    let lo = t * 16;
    let (v, none) = lemma_nothing(val, slack, zero, 16);
    lemma_total(term, n, lo);
    lemma_lanes(term, 0, 16, t);
    lemma_fewer(slack, t as int, (n + 15) as int);
    let r = lemma_lanes_within(g, val, term, n, slack, bound, v, none, 0, s, 0, 16, t);
    let k = (16 * t + 15) as int;
    lemma_fewer(slack, k, (n + 15) as int);
    lemma_reduce16(plus, val, slack, bound, s, r, t as int);
    lemma_run(term, lo, n % 16);
    assert(k + n % 16 == n + 15);
    lemma_lane(
        g,
        val,
        term,
        n,
        slack,
        bound,
        reduce16(plus, s),
        total(term, lo),
        k,
        lo as int,
        1,
        n % 16,
    );
}

/// Where adding is exact lanes change nothing: 16 lanes over blocks of 16 places,
/// added up, and the places that are left in turn give the sum of all terms.
pub proof fn law_sixteen_lanes<K, P: Fn(K, K) -> K>(
    g: spec_fn(K, int) -> K,
    plus: P,
    val: spec_fn(K) -> int,
    term: spec_fn(int) -> int,
    bound: int,
    zero: K,
    n: nat,
)
    requires
        val(zero) == 0,
        none_negative(term, n),
        total(term, n) <= bound,
        steps_exactly(g, val, term, n, bound),
        adds_exactly(plus, val, bound),
    ensures
        val(
            lane(
                g,
                reduce16(plus, Seq::new(16, |l: int| lane(g, zero, l, 16, n / 16))),
                ((n / 16) * 16) as int,
                1,
                n % 16,
            ),
        ) == total(term, n),
        val(lane(g, zero, 0, 1, n)) == total(term, n),
{
    lemma_exact_steps(g, val, term, n, bound);
    assert((n + 15) * 0 == 0 && 0 * 0 == 0 && n * 0 == 0) by (nonlinear_arith);
    law_sixteen_lanes_within(g, plus, val, term, 0, bound, zero, n);
    lemma_run(term, 0, n);
    lemma_lane(g, val, term, n, 0, bound, zero, 0, 0, 0, 1, n);
}

proof fn lemma_exact_steps<K>(
    g: spec_fn(K, int) -> K,
    val: spec_fn(K) -> int,
    term: spec_fn(int) -> int,
    n: nat,
    bound: int,
)
    requires
        none_negative(term, n),
        steps_exactly(g, val, term, n, bound),
    ensures
        steps_within(g, val, term, n, 0, bound),
{
    assert forall|s: K, i: int|
        0 <= i < n && 0 <= val(s) && val(s) + term(i) <= bound implies 0 <= val(#[trigger] g(s, i))
        && apart(val(g(s, i)), val(s) + term(i)) <= 0 by {
        assert(term(i) >= 0);
    }
}

/// `f` adds what two elements contribute, exactly as long as nothing is negative and
/// the sum is not above `bound`.
pub open spec fn folds_exactly<T, K, F: Fn(K, T, T) -> K>(
    f: F,
    val: spec_fn(K) -> int,
    part: spec_fn(T, T) -> int,
    bound: int,
) -> bool {
    forall|s: K, x: T, y: T|
        0 <= val(s) && 0 <= part(x, y) && val(s) + part(x, y) <= bound ==> val(
            #[trigger] fold_of(f, s, x, y),
        ) == val(s) + part(x, y)
}

/// The same but for at most `slack`.
pub open spec fn folds_within<T, K, F: Fn(K, T, T) -> K>(
    f: F,
    val: spec_fn(K) -> int,
    part: spec_fn(T, T) -> int,
    slack: int,
    bound: int,
) -> bool {
    forall|s: K, x: T, y: T|
        0 <= val(s) && 0 <= part(x, y) && val(s) + part(x, y) <= bound ==> 0 <= val(
            #[trigger] fold_of(f, s, x, y),
        ) && apart(val(fold_of(f, s, x, y)), val(s) + part(x, y)) <= slack
}

proof fn lemma_place<T, K, F: Fn(K, T, T) -> K>(
    f: F,
    a: Seq<T>,
    b: Seq<T>,
    val: spec_fn(K) -> int,
    part: spec_fn(T, T) -> int,
    slack: int,
    bound: int,
)
    requires
        none_negative(|i: int| part(a[i], b[i]), a.len()),
        folds_within(f, val, part, slack, bound),
    ensures
        steps_within(
            place(f, a, b),
            val,
            |i: int| part(a[i], b[i]),
            a.len(),
            slack,
            bound,
        ),
{
    let g = place(f, a, b);
    let term = |i: int| part(a[i], b[i]);
    assert forall|s: K, i: int|
        0 <= i < a.len() && 0 <= val(s) && val(s) + term(i) <= bound implies 0 <= val(
        #[trigger] g(s, i),
    ) && apart(val(g(s, i)), val(s) + term(i)) <= slack by {
        assert(term(i) >= 0);
        assert(g(s, i) == fold_of(f, s, a[i], b[i]));
    }
}

/// Where each addition is off by at most `slack`, each kernel is off from the sum of what
/// the places contribute by at most that much for each place, and, where it has lanes,
/// for each of the 31 additions that make one of them. So it is from the plain kernel.
pub proof fn law_kernels_within<
    T,
    K,
    F: Fn(K, T, T) -> K,
    S: Fn(K, T, T) -> K,
    P: Fn(K, K) -> K,
>(
    a: Seq<T>,
    b: Seq<T>,
    zero: K,
    fused: F,
    step: S,
    plus: P,
    val: spec_fn(K) -> int,
    part: spec_fn(T, T) -> int,
    slack: int,
    bound: int,
)
    requires
        val(zero) == 0,
        slack >= 0,
        none_negative(|i: int| part(a[i], b[i]), a.len()),
        total(|i: int| part(a[i], b[i]), a.len()) + (a.len() + 31) * slack <= bound,
        folds_within(fused, val, part, slack, bound),
        folds_within(step, val, part, slack, bound),
        adds_within(plus, val, slack, bound),
    ensures
        ({
            let sum = total(|i: int| part(a[i], b[i]), a.len());
            let x = val(plain(a, b, zero, step));
            let y = val(eight(a, b, zero, fused, step, plus));
            let z = val(sixteen(a, b, zero, fused, step, plus));
            &&& apart(x, sum) <= a.len() * slack
            &&& apart(y, sum) <= (a.len() + 31) * slack
            &&& apart(z, sum) <= (a.len() + 31) * slack
            &&& apart(y, x) <= (2 * a.len() + 31) * slack
            &&& apart(z, x) <= (2 * a.len() + 31) * slack
        }),
{
    let n = a.len();
    let term = |i: int| part(a[i], b[i]);
    let g = place(fused, a, b);
    let h = place(step, a, b);
    lemma_place(fused, a, b, val, part, slack, bound);
    lemma_place(step, a, b, val, part, slack, bound);
    assert(0 * slack == 0) by (nonlinear_arith);
    lemma_fewer(slack, n as int, (n + 31) as int);
    lemma_run(term, 0, n);
    lemma_lane(h, val, term, n, slack, bound, zero, 0, 0, 0, 1, n);

    let acc = blocks(a, b, zero, fused);
    let t = n / 32;
    let lo = t * 32;
    let (zeros, none) = lemma_nothing(val, slack, zero, 32);
    lemma_lanes(term, 0, 32, t);
    lemma_total(term, n, lo);
    lemma_fewer(slack, t as int, (n + 31) as int);
    let r = lemma_lanes_within(g, val, term, n, slack, bound, zeros, none, 0, acc, 0, 32, t);
    assert(span(r, 0, 32) == total(term, lo));

    lemma_eight(g, h, plus, val, term, n, slack, bound, acc, r);
    lemma_sixteen(g, h, plus, val, term, n, slack, bound, acc, r);
    assert((2 * n + 31) * slack == n * slack + (n + 31) * slack) by (nonlinear_arith);
}

/// Where what the additions may be off is small against the sum, the kernels with lanes
/// differ from the plain one by at most one part in `parts` of what it computes.
pub proof fn law_kernels_agree_closely<
    T,
    K,
    F: Fn(K, T, T) -> K,
    S: Fn(K, T, T) -> K,
    P: Fn(K, K) -> K,
>(
    a: Seq<T>,
    b: Seq<T>,
    zero: K,
    fused: F,
    step: S,
    plus: P,
    val: spec_fn(K) -> int,
    part: spec_fn(T, T) -> int,
    slack: int,
    bound: int,
    parts: nat,
)
    requires
        val(zero) == 0,
        slack >= 0,
        none_negative(|i: int| part(a[i], b[i]), a.len()),
        total(|i: int| part(a[i], b[i]), a.len()) + (a.len() + 31) * slack <= bound,
        folds_within(fused, val, part, slack, bound),
        folds_within(step, val, part, slack, bound),
        adds_within(plus, val, slack, bound),
        (parts + 1) * ((2 * a.len() + 31) * slack) <= total(
            |i: int| part(a[i], b[i]),
            a.len(),
        ),
    ensures
        ({
            let x = val(plain(a, b, zero, step));
            let y = val(eight(a, b, zero, fused, step, plus));
            let z = val(sixteen(a, b, zero, fused, step, plus));
            parts * apart(y, x) <= x && parts * apart(z, x) <= x
        }),
{
    law_kernels_within(a, b, zero, fused, step, plus, val, part, slack, bound);
    let x = val(plain(a, b, zero, step));
    let y = val(eight(a, b, zero, fused, step, plus));
    let z = val(sixteen(a, b, zero, fused, step, plus));
    let n = a.len();
    let off = (2 * n + 31) * slack;
    let (u, v) = (apart(y, x), apart(z, x));
    lemma_fewer(slack, n as int, (2 * n + 31) as int);
    assert(parts * u <= parts * off && parts * v <= parts * off && (parts + 1) * off == parts * off
        + off) by (nonlinear_arith)
        requires
            0 <= u <= off,
            0 <= v <= off,
            parts >= 0,
    ;
}

/// Where adding is exact the three kernels agree: each computes the sum of what the
/// places contribute.
pub proof fn law_kernels_agree<
    T,
    K,
    F: Fn(K, T, T) -> K,
    S: Fn(K, T, T) -> K,
    P: Fn(K, K) -> K,
>(
    a: Seq<T>,
    b: Seq<T>,
    zero: K,
    fused: F,
    step: S,
    plus: P,
    val: spec_fn(K) -> int,
    part: spec_fn(T, T) -> int,
    bound: int,
)
    requires
        val(zero) == 0,
        none_negative(|i: int| part(a[i], b[i]), a.len()),
        total(|i: int| part(a[i], b[i]), a.len()) <= bound,
        folds_exactly(fused, val, part, bound),
        folds_exactly(step, val, part, bound),
        adds_exactly(plus, val, bound),
    ensures
        ({
            let sum = total(|i: int| part(a[i], b[i]), a.len());
            &&& val(plain(a, b, zero, step)) == sum
            &&& val(eight(a, b, zero, fused, step, plus)) == sum
            &&& val(sixteen(a, b, zero, fused, step, plus)) == sum
        }),
{
    assert((a.len() + 31) * 0 == 0 && a.len() * 0 == 0) by (nonlinear_arith);
    law_kernels_within(a, b, zero, fused, step, plus, val, part, 0, bound);
}

/// What the kernel with 8 lanes makes of the 32 lanes of the blocks.
proof fn lemma_eight<K, P: Fn(K, K) -> K>(
    g: spec_fn(K, int) -> K,
    h: spec_fn(K, int) -> K,
    plus: P,
    val: spec_fn(K) -> int,
    term: spec_fn(int) -> int,
    n: nat,
    slack: int,
    bound: int,
    acc: Seq<K>,
    r: Seq<int>,
)
    requires
        steps_within(g, val, term, n, slack, bound),
        steps_within(h, val, term, n, slack, bound),
        adds_within(plus, val, slack, bound),
        slack >= 0,
        none_negative(term, n),
        total(term, n) + (n + 31) * slack <= bound,
        acc.len() == 32,
        abouts(val, slack, acc, r, (n / 32) as int),
        span(r, 0, 32) == total(term, (n / 32) * 32),
    ensures
        ({
            let v = fold4(plus, acc);
            let e = Seq::new(
                8,
                |l: int| lane(g, v[l], (n / 32) * 32 + l, 8, (n % 32) / 8),
            );
            about(
                val,
                slack,
                lane(h, reduce8(plus, e), ((n / 8) * 8) as int, 1, n % 8),
                total(term, n),
                (n + 31) as int,
            )
        }),
{
    let q = n / 32;
    let lo = q * 32;
    let v = fold4(plus, acc);
    let u = quarters(r);
    let t = (n % 32) / 8;
    let e = Seq::new(8, |l: int| lane(g, v[l], (n / 32) * 32 + l, 8, (n % 32) / 8));
    let all = (n + 31) as int;
    lemma_total(term, n, lo);
    let j = (4 * q + 3) as int;
    lemma_fewer(slack, j, all);
    lemma_fold4(plus, val, slack, bound, acc, r, q as int);
    lemma_lanes(term, lo, 8, t);
    assert(lo + t * 8 == (n / 8) * 8);
    lemma_total(term, n, (n / 8) * 8);
    lemma_fewer(slack, j + t, all);
    let x = lemma_lanes_within(g, val, term, n, slack, bound, v, u, j, e, lo as int, 8, t);
    let k = j + t;
    assert(8 * k + 7 + n % 8 == all);
    lemma_fewer(slack, 8 * k + 7, all);
    lemma_reduce8(plus, val, slack, bound, e, x, k);
    lemma_run(term, (n / 8) * 8, n % 8);
    lemma_lane(
        h,
        val,
        term,
        n,
        slack,
        bound,
        reduce8(plus, e),
        total(term, (n / 8) * 8),
        8 * k + 7,
        ((n / 8) * 8) as int,
        1,
        n % 8,
    );
}

/// What the kernel with 16 lanes makes of them.
proof fn lemma_sixteen<K, P: Fn(K, K) -> K>(
    g: spec_fn(K, int) -> K,
    h: spec_fn(K, int) -> K,
    plus: P,
    val: spec_fn(K) -> int,
    term: spec_fn(int) -> int,
    n: nat,
    slack: int,
    bound: int,
    acc: Seq<K>,
    r: Seq<int>,
)
    requires
        steps_within(g, val, term, n, slack, bound),
        steps_within(h, val, term, n, slack, bound),
        adds_within(plus, val, slack, bound),
        slack >= 0,
        none_negative(term, n),
        total(term, n) + (n + 31) * slack <= bound,
        acc.len() == 32,
        abouts(val, slack, acc, r, (n / 32) as int),
        span(r, 0, 32) == total(term, (n / 32) * 32),
    ensures
        ({
            let v = fold2(plus, acc);
            let e = Seq::new(
                16,
                |l: int| lane(g, v[l], (n / 32) * 32 + l, 16, (n % 32) / 16),
            );
            about(
                val,
                slack,
                lane(h, reduce16(plus, e), ((n / 16) * 16) as int, 1, n % 16),
                total(term, n),
                (n + 31) as int,
            )
        }),
{
    let q = n / 32;
    let lo = q * 32;
    let v = fold2(plus, acc);
    let u = halves(r);
    let t = (n % 32) / 16;
    let e = Seq::new(16, |l: int| lane(g, v[l], (n / 32) * 32 + l, 16, (n % 32) / 16));
    let all = (n + 31) as int;
    lemma_total(term, n, lo);
    let j = (2 * q + 1) as int;
    lemma_fewer(slack, j - 1, all);
    lemma_halved(plus, val, slack, bound, acc, r, q as int, 16);
    assert(v =~= halve(plus, acc));
    lemma_lanes(term, lo, 16, t);
    assert(lo + t * 16 == (n / 16) * 16);
    lemma_total(term, n, (n / 16) * 16);
    lemma_fewer(slack, j + t, all);
    let x = lemma_lanes_within(g, val, term, n, slack, bound, v, u, j, e, lo as int, 16, t);
    let k = j + t;
    assert(16 * k + 15 + n % 16 == all);
    lemma_fewer(slack, 16 * k + 15, all);
    lemma_reduce16(plus, val, slack, bound, e, x, k);
    lemma_run(term, (n / 16) * 16, n % 16);
    lemma_lane(
        h,
        val,
        term,
        n,
        slack,
        bound,
        reduce16(plus, e),
        total(term, (n / 16) * 16),
        16 * k + 15,
        ((n / 16) * 16) as int,
        1,
        n % 16,
    );
}

} // verus!
