//! The kernels that measure two vectors, and the choice among them.
//!
//! A kernel adds up the squared difference of every place. The plain one goes
//! place by place; the wide ones let many lanes add up side by side and add the
//! lanes up in the end. The arithmetic itself is handed in, so that each kernel
//! states exactly which additions it makes and in which order.

use vstd::prelude::*;

verus! {

/// `f` adds any two values, and the same two to the same sum.
pub open spec fn adds<K, P: Fn(K, K) -> K>(f: P) -> bool {
    &&& forall|a: K, b: K| #[trigger] call_requires(f, (a, b))
    &&& forall|a: K, b: K, r1: K, r2: K|
        #[trigger] call_ensures(f, (a, b), r1) && #[trigger] call_ensures(f, (a, b), r2) ==> r1
            == r2
}

/// What `f` makes of `a` and `b`.
pub open spec fn sum_of<K, P: Fn(K, K) -> K>(f: P, a: K, b: K) -> K {
    choose|r: K| call_ensures(f, (a, b), r)
}

/// The sum of two values.
pub fn add_up<K, P: Fn(K, K) -> K>(f: &P, a: K, b: K) -> (r: K)
    requires
        adds(*f),
    ensures
        r == sum_of(*f, a, b),
{
    let r = f(a, b);
    assert(call_ensures(*f, (a, b), sum_of(*f, a, b)));
    r
}

/// `f` adds what two elements contribute to any sum so far, and always alike.
pub open spec fn folds<T, K, F: Fn(K, T, T) -> K>(f: F) -> bool {
    &&& forall|s: K, x: T, y: T| #[trigger] call_requires(f, (s, x, y))
    &&& forall|s: K, x: T, y: T, r1: K, r2: K|
        #[trigger] call_ensures(f, (s, x, y), r1) && #[trigger] call_ensures(f, (s, x, y), r2)
            ==> r1 == r2
}

/// What `f` makes of the sum `s` and the elements `x` and `y`.
pub open spec fn fold_of<T, K, F: Fn(K, T, T) -> K>(f: F, s: K, x: T, y: T) -> K {
    choose|r: K| call_ensures(f, (s, x, y), r)
}

/// The sum `s` with what `x` and `y` contribute.
pub(crate) fn fold<T, K, F: Fn(K, T, T) -> K>(f: &F, s: K, x: T, y: T) -> (r: K)
    requires
        folds(*f),
    ensures
        r == fold_of(*f, s, x, y),
{
    let r = f(s, x, y);
    assert(call_ensures(*f, (s, x, y), fold_of(*f, s, x, y)));
    r
}

/// What `f` returns for two values is their sum, and what `h` returns for a sum and two
/// elements is the sum with what these contribute.
pub proof fn law_sums<T, K, P: Fn(K, K) -> K, F: Fn(K, T, T) -> K>(
    f: P,
    a: K,
    b: K,
    h: F,
    x: T,
    y: T,
    r: K,
)
    requires
        adds(f),
        folds(h),
    ensures
        call_ensures(f, (a, b), r) ==> sum_of(f, a, b) == r,
        call_ensures(h, (a, x, y), r) ==> fold_of(h, a, x, y) == r,
{
    if call_ensures(f, (a, b), r) {
        assert(call_ensures(f, (a, b), choose|r: K| call_ensures(f, (a, b), r)));
    }
    if call_ensures(h, (a, x, y), r) {
        assert(call_ensures(h, (a, x, y), choose|r: K| call_ensures(h, (a, x, y), r)));
    }
}

/// The sum `s` after `t` steps of `g`, on the places `first`, `first + w`,
/// `first + 2 * w` and so on.
pub open spec fn lane<K>(g: spec_fn(K, int) -> K, s: K, first: int, w: int, t: nat) -> K
    decreases t,
{
    if t == 0 {
        s
    } else {
        g(lane(g, s, first, w, (t - 1) as nat), first + (t - 1) * w)
    }
}

/// Steps in two parts are the one part and then the other, and one step is that of the
/// first place.
pub proof fn law_lane<K>(g: spec_fn(K, int) -> K, s: K, first: int, w: int, a: nat, b: nat)
    ensures
        lane(g, s, first, w, a + b) == lane(g, lane(g, s, first, w, a), first + a * w, w, b),
        lane(g, s, first, w, 1) == g(s, first),
    decreases b,
{
    assert(lane(g, s, first, w, 0) == s);
    assert(first + 0 * w == first) by (nonlinear_arith);
    if b > 0 {
        law_lane(g, s, first, w, a, (b - 1) as nat);
        assert(first + (a + b - 1) * w == first + a * w + (b - 1) * w) by (nonlinear_arith);
    }
}

/// How place `i` of two vectors adds to a sum.
pub open spec fn place<T, K, F: Fn(K, T, T) -> K>(f: F, a: Seq<T>, b: Seq<T>) -> spec_fn(
    K,
    int,
) -> K {
    |s: K, i: int| fold_of(f, s, a[i], b[i])
}

/// Half as many values: each is the sum of one of the first half and its
/// counterpart in the second.
pub open spec fn halve<K, P: Fn(K, K) -> K>(plus: P, s: Seq<K>) -> Seq<K> {
    Seq::new(s.len() / 2, |l: int| sum_of(plus, s[l], s[l + s.len() / 2]))
}

/// The sum of 16 lanes, by halves.
pub open spec fn reduce16<K, P: Fn(K, K) -> K>(plus: P, s: Seq<K>) -> K {
    halve(plus, halve(plus, halve(plus, halve(plus, s))))[0]
}

/// The sum of 8 lanes: the halves, then neighbour with neighbour.
pub open spec fn reduce8<K, P: Fn(K, K) -> K>(plus: P, s: Seq<K>) -> K {
    let h = halve(plus, s);
    sum_of(plus, sum_of(plus, h[0], h[1]), sum_of(plus, h[2], h[3]))
}

/// What the plain kernel computes: every place in turn.
pub open spec fn plain<T, K, S: Fn(K, T, T) -> K>(a: Seq<T>, b: Seq<T>, zero: K, step: S) -> K {
    lane(place(step, a, b), zero, 0, 1, a.len())
}

/// The 32 lanes after all whole blocks of 32 places.
pub open spec fn blocks<T, K, F: Fn(K, T, T) -> K>(
    a: Seq<T>,
    b: Seq<T>,
    zero: K,
    fused: F,
) -> Seq<K> {
    Seq::new(32, |j: int| lane(place(fused, a, b), zero, j, 32, a.len() / 32))
}

/// `w` lanes, each after the blocks of `w` places that fit behind the blocks of 32.
pub open spec fn half_blocks<T, K, F: Fn(K, T, T) -> K>(
    a: Seq<T>,
    b: Seq<T>,
    fused: F,
    v: Seq<K>,
    w: nat,
) -> Seq<K> {
    Seq::new(
        w,
        |l: int|
            lane(
                place(fused, a, b),
                v[l],
                (a.len() / 32) * 32 + l,
                w as int,
                (a.len() % 32) / w,
            ),
    )
}

/// The four accumulators of 8 lanes as one.
pub open spec fn fold4<K, P: Fn(K, K) -> K>(plus: P, acc: Seq<K>) -> Seq<K> {
    Seq::new(
        8,
        |l: int|
            sum_of(
                plus,
                sum_of(plus, acc[l], acc[l + 8]),
                sum_of(plus, acc[l + 16], acc[l + 24]),
            ),
    )
}

/// The two accumulators of 16 lanes as one.
pub open spec fn fold2<K, P: Fn(K, K) -> K>(plus: P, acc: Seq<K>) -> Seq<K> {
    Seq::new(16, |l: int| sum_of(plus, acc[l], acc[l + 16]))
}

/// What the kernel with 8 lanes computes: four accumulators over blocks of 32
/// places, one over blocks of 8, and what is left in turn.
pub open spec fn eight<T, K, F: Fn(K, T, T) -> K, S: Fn(K, T, T) -> K, P: Fn(K, K) -> K>(
    a: Seq<T>,
    b: Seq<T>,
    zero: K,
    fused: F,
    step: S,
    plus: P,
) -> K {
    let v = half_blocks(a, b, fused, fold4(plus, blocks(a, b, zero, fused)), 8);
    lane(place(step, a, b), reduce8(plus, v), ((a.len() / 8) * 8) as int, 1, a.len() % 8)
}

/// What the kernel with 16 lanes computes: two accumulators over blocks of 32
/// places, one over blocks of 16, and what is left in turn.
pub open spec fn sixteen<T, K, F: Fn(K, T, T) -> K, S: Fn(K, T, T) -> K, P: Fn(K, K) -> K>(
    a: Seq<T>,
    b: Seq<T>,
    zero: K,
    fused: F,
    step: S,
    plus: P,
) -> K {
    let v = half_blocks(a, b, fused, fold2(plus, blocks(a, b, zero, fused)), 16);
    lane(place(step, a, b), reduce16(plus, v), ((a.len() / 16) * 16) as int, 1, a.len() % 16)
}

/// The places from `i` on, in turn.
fn finish<T: Copy, K: Copy, S: Fn(K, T, T) -> K>(
    a: &[T],
    b: &[T],
    s: K,
    i: usize,
    step: &S,
) -> (r: K)
    requires
        i <= a@.len() <= b@.len(),
        folds(*step),
    ensures
        r == lane(place(*step, a@, b@), s, i as int, 1, (a@.len() - i) as nat),
{
    let ghost g = place(*step, a@, b@);
    let mut r = s;
    let mut k: usize = i;
    while k < a.len()
        invariant
            i <= k <= a@.len() <= b@.len(),
            folds(*step),
            g == place(*step, a@, b@),
            r == lane(g, s, i as int, 1, (k - i) as nat),
        decreases a@.len() - k,
    {
        r = fold(step, r, a[k], b[k]);
        k = k + 1;
    }
    r
}

/// Let the first `w` lanes take one step, on the places from `i` on.
fn advance<T: Copy, K: Copy, F: Fn(K, T, T) -> K>(
    acc: &mut [K; 32],
    a: &[T],
    b: &[T],
    i: usize,
    w: usize,
    fused: &F,
)
    requires
        w <= 32,
        i + w <= a@.len() <= b@.len(),
        folds(*fused),
    ensures
        forall|l: int|
            0 <= l < w ==> #[trigger] final(acc)@[l] == place(*fused, a@, b@)(
                old(acc)@[l],
                i + l,
            ),
{
    let ghost before = acc@;
    let mut l: usize = 0;
    while l < w
        invariant
            l <= w <= 32,
            acc@.len() == 32,
            i + w <= a@.len() <= b@.len(),
            folds(*fused),
            forall|k: int|
                0 <= k < l ==> #[trigger] acc@[k] == place(*fused, a@, b@)(before[k], i + k),
            forall|k: int| l <= k < w ==> #[trigger] acc@[k] == before[k],
        decreases w - l,
    {
        proof {
            assert(a.len() == a@.len());
        }
        let x = fold(fused, acc[l], a[i + l], b[i + l]);
        acc[l] = x;
        l = l + 1;
    }
}

/// The 32 lanes after all whole blocks of 32 places.
fn all_blocks<T: Copy, K: Copy, F: Fn(K, T, T) -> K>(
    a: &[T],
    b: &[T],
    zero: K,
    fused: &F,
) -> (acc: [K; 32])
    requires
        a@.len() <= b@.len(),
        folds(*fused),
    ensures
        acc@ == blocks(a@, b@, zero, *fused),
{
    let ghost g = place(*fused, a@, b@);
    let n = a.len();
    let mut acc: [K; 32] = [
        zero, zero, zero, zero, zero, zero, zero, zero,
        zero, zero, zero, zero, zero, zero, zero, zero,
        zero, zero, zero, zero, zero, zero, zero, zero,
        zero, zero, zero, zero, zero, zero, zero, zero,
    ];
    let mut i: usize = 0;
    let ghost mut t: nat = 0;
    while n - i >= 32
        invariant
            n == a@.len() <= b@.len(),
            folds(*fused),
            g == place(*fused, a@, b@),
            i == t * 32,
            i <= n,
            acc@.len() == 32,
            forall|j: int| 0 <= j < 32 ==> #[trigger] acc@[j] == lane(g, zero, j, 32, t),
        decreases n - i,
    {
        let ghost before = acc@;
        advance(&mut acc, a, b, i, 32, fused);
        i = i + 32;
        proof {
            assert forall|j: int| 0 <= j < 32 implies #[trigger] acc@[j] == lane(
                g,
                zero,
                j,
                32,
                t + 1,
            ) by {
                assert(before[j] == lane(g, zero, j, 32, t));
            }
            t = t + 1;
        }
    }
    assert(acc@ =~= blocks(a@, b@, zero, *fused));
    acc
}

/// Let the first `w` lanes go through the blocks of `w` places from `i` on.
fn all_half_blocks<T: Copy, K: Copy, F: Fn(K, T, T) -> K>(
    acc: &mut [K; 32],
    a: &[T],
    b: &[T],
    w: usize,
    fused: &F,
)
    requires
        w == 8 || w == 16,
        a@.len() <= b@.len(),
        folds(*fused),
    ensures
        final(acc)@.take(w as int) == half_blocks(a@, b@, *fused, old(acc)@.take(w as int), w as nat),
{
    let ghost g = place(*fused, a@, b@);
    let ghost v = acc@.take(w as int);
    let n = a.len();
    let lo: usize = n / 32 * 32;
    let mut i: usize = lo;
    let ghost mut t: nat = 0;
    while n - i >= w
        invariant
            w == 8 || w == 16,
            n == a@.len() <= b@.len(),
            folds(*fused),
            g == place(*fused, a@, b@),
            lo == n / 32 * 32,
            i == lo + t * w,
            i <= n,
            v.len() == w,
            acc@.len() == 32,
            forall|l: int|
                0 <= l < w ==> #[trigger] acc@[l] == lane(g, v[l], lo + l, w as int, t),
        decreases n - i,
    {
        let ghost before = acc@;
        advance(acc, a, b, i, w, fused);
        i = i + w;
        proof {
            assert forall|l: int| 0 <= l < w implies #[trigger] acc@[l] == lane(
                g,
                v[l],
                lo + l,
                w as int,
                t + 1,
            ) by {
                assert(before[l] == lane(g, v[l], lo + l, w as int, t));
                assert(lo + t * w + l == lo + l + t * w);
            }
            t = t + 1;
        }
    }
    assert(t == (n % 32) / w);
    assert(acc@.take(w as int) =~= half_blocks(a@, b@, *fused, v, w as nat));
}

/// The sum of the first 8 lanes.
fn sum8<K: Copy, P: Fn(K, K) -> K>(v: &[K; 32], plus: &P) -> (r: K)
    requires
        adds(*plus),
    ensures
        r == reduce8(*plus, v@.take(8)),
{
    let h0 = add_up(plus, v[0], v[4]);
    let h1 = add_up(plus, v[1], v[5]);
    let h2 = add_up(plus, v[2], v[6]);
    let h3 = add_up(plus, v[3], v[7]);
    add_up(plus, add_up(plus, h0, h1), add_up(plus, h2, h3))
}

/// Add the lanes from `w` to `2 * w - 1` to those below.
fn half<K: Copy, P: Fn(K, K) -> K>(v: &mut [K; 32], w: usize, plus: &P)
    requires
        w <= 16,
        adds(*plus),
    ensures
        final(v)@.take(w as int) == halve(*plus, old(v)@.take(2 * w)),
{
    let ghost before = v@;
    let mut l: usize = 0;
    while l < w
        invariant
            l <= w <= 16,
            v@.len() == 32,
            adds(*plus),
            forall|k: int|
                0 <= k < l ==> #[trigger] v@[k] == sum_of(*plus, before[k], before[k + w]),
            forall|k: int| l <= k < 32 ==> #[trigger] v@[k] == before[k],
        decreases w - l,
    {
        let x = add_up(plus, v[l], v[l + w]);
        v[l] = x;
        l = l + 1;
    }
    assert(v@.take(w as int) =~= halve(*plus, before.take(2 * w)));
}

/// The sum of the first 16 lanes.
pub(crate) fn sum16<K: Copy, P: Fn(K, K) -> K>(v: &mut [K; 32], plus: &P) -> (r: K)
    requires
        adds(*plus),
    ensures
        r == reduce16(*plus, old(v)@.take(16)),
{
    half(v, 8, plus);
    half(v, 4, plus);
    half(v, 2, plus);
    half(v, 1, plus);
    assert(v@[0] == v@.take(1)[0]);
    v[0]
}

/// The squared distance of two vectors, place by place.
pub fn l2sq_scalar<T: Copy, K: Copy, S: Fn(K, T, T) -> K>(
    a: &[T],
    b: &[T],
    zero: K,
    step: &S,
) -> (r: K)
    requires
        a@.len() <= b@.len(),
        folds(*step),
    ensures
        r == plain(a@, b@, zero, *step),
{
    finish(a, b, zero, 0, step)
}

/// The squared distance of two vectors, with 8 lanes.
pub fn l2sq_avx2<
    T: Copy,
    K: Copy,
    F: Fn(K, T, T) -> K,
    S: Fn(K, T, T) -> K,
    P: Fn(K, K) -> K,
>(a: &[T], b: &[T], zero: K, fused: &F, step: &S, plus: &P) -> (r: K)
    requires
        a@.len() <= b@.len(),
        folds(*fused),
        folds(*step),
        adds(*plus),
    ensures
        r == eight(a@, b@, zero, *fused, *step, *plus),
{
    let mut acc = all_blocks(a, b, zero, fused);
    let ghost before = acc@;
    let mut l: usize = 0;
    while l < 8
        invariant
            l <= 8,
            acc@.len() == 32,
            adds(*plus),
            forall|k: int| 0 <= k < l ==> #[trigger] acc@[k] == fold4(*plus, before)[k],
            forall|k: int| l <= k < 32 ==> #[trigger] acc@[k] == before[k],
        decreases 8 - l,
    {
        let lo = add_up(plus, acc[l], acc[l + 8]);
        let hi = add_up(plus, acc[l + 16], acc[l + 24]);
        let x = add_up(plus, lo, hi);
        acc[l] = x;
        l = l + 1;
    }
    assert(acc@.take(8) =~= fold4(*plus, before));
    all_half_blocks(&mut acc, a, b, 8, fused);
    finish(a, b, sum8(&acc, plus), a.len() / 8 * 8, step)
}

/// The squared distance of two vectors, with 16 lanes.
pub fn l2sq_avx512<
    T: Copy,
    K: Copy,
    F: Fn(K, T, T) -> K,
    S: Fn(K, T, T) -> K,
    P: Fn(K, K) -> K,
>(a: &[T], b: &[T], zero: K, fused: &F, step: &S, plus: &P) -> (r: K)
    requires
        a@.len() <= b@.len(),
        folds(*fused),
        folds(*step),
        adds(*plus),
    ensures
        r == sixteen(a@, b@, zero, *fused, *step, *plus),
{
    let mut acc = all_blocks(a, b, zero, fused);
    let ghost before = acc@;
    half(&mut acc, 16, plus);
    assert(before.take(32) =~= before);
    assert(acc@.take(16) =~= fold2(*plus, before));
    all_half_blocks(&mut acc, a, b, 16, fused);
    finish(a, b, sum16(&mut acc, plus), a.len() / 16 * 16, step)
}

/// Which kernel measures two vectors.
#[derive(Clone, Copy, Debug, PartialEq, Eq, Structural)]
pub enum DistF32 {
    Scalar,
    Avx2,
    Avx512,
}

impl DistF32 {
    /// The squared distance of two vectors.
    pub fn dist<
        T: Copy,
        K: Copy,
        F: Fn(K, T, T) -> K,
        S: Fn(K, T, T) -> K,
        P: Fn(K, K) -> K,
    >(self, a: &[T], b: &[T], zero: K, fused: &F, step: &S, plus: &P) -> (r: K)
        requires
            a@.len() <= b@.len(),
            folds(*fused),
            folds(*step),
            adds(*plus),
        ensures
            r == match self {
                DistF32::Scalar => plain(a@, b@, zero, *step),
                DistF32::Avx2 => eight(a@, b@, zero, *fused, *step, *plus),
                DistF32::Avx512 => sixteen(a@, b@, zero, *fused, *step, *plus),
            },
    {
        match self {
            DistF32::Scalar => l2sq_scalar(a, b, zero, step),
            DistF32::Avx2 => l2sq_avx2(a, b, zero, fused, step, plus),
            DistF32::Avx512 => l2sq_avx512(a, b, zero, fused, step, plus),
        }
    }
}

/// The kernel for a machine, by which of three features it has, and the name of
/// that kernel.
pub fn best_l2sq(avx512f: bool, avx2: bool, fma: bool) -> (r: (DistF32, &'static str))
    ensures
        avx512f ==> r.0 == DistF32::Avx512 && r.1@ == "avx512f"@,
        !avx512f && avx2 && fma ==> r.0 == DistF32::Avx2 && r.1@ == "avx2+fma"@,
        !avx512f && !(avx2 && fma) ==> r.0 == DistF32::Scalar && r.1@ == "scalar"@,
{
    if avx512f {
        (DistF32::Avx512, "avx512f")
    } else if avx2 && fma {
        (DistF32::Avx2, "avx2+fma")
    } else {
        (DistF32::Scalar, "scalar")
    }
}

} // verus!
