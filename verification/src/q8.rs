//! Scalar quantization to signed bytes, and the integer distance of two codes.
//!
//! One scale serves the whole corpus, so that codes can be subtracted directly
//! and every comparison is exact integer arithmetic.

use vstd::prelude::*;

use crate::answers::law_top_is_best;
use crate::beam::Oracle;
use crate::index::hits;
use crate::metric::{lemma_row_bounds, row, row_of};
use crate::rising::apart;
use crate::truth::{law_top_is_exact, nearest, top};

verus! {

/// The square of the difference of two code bytes.
pub open spec fn sq(a: i8, b: i8) -> int {
    (a - b) * (a - b)
}

/// The squared distance of `a` from as much of `b` as `a` is long.
pub open spec fn l2sq_i8(a: Seq<i8>, b: Seq<i8>) -> int
    decreases a.len(),
{
    if a.len() == 0 {
        0
    } else {
        l2sq_i8(a.drop_last(), b) + sq(a.last(), b[a.len() - 1])
    }
}

proof fn lemma_sq(a: i8, b: i8)
    ensures
        0 <= sq(a, b) <= 65025,
        sq(a, b) == sq(b, a),
        sq(a, b) == 0 <==> a == b,
        -127 <= a <= 127 && -127 <= b <= 127 ==> sq(a, b) <= 64516,
{
    let d = a - b;
    assert(0 <= d * d <= 65025) by (nonlinear_arith)
        requires
            -255 <= d <= 255,
    ;
    assert((a - b) * (a - b) == (b - a) * (b - a)) by (nonlinear_arith);
    assert(d * d == 0 <==> d == 0) by (nonlinear_arith);
    if -127 <= a <= 127 && -127 <= b <= 127 {
        assert(d * d <= 64516) by (nonlinear_arith)
            requires
                -254 <= d <= 254,
        ;
    }
}

/// A longer prefix is no nearer.
proof fn lemma_prefix(a: Seq<i8>, b: Seq<i8>, i: int)
    requires
        0 <= i <= a.len(),
    ensures
        0 <= l2sq_i8(a.take(i), b) <= l2sq_i8(a, b),
    decreases a.len() - i, a.len(),
{
    if i == a.len() {
        assert(a.take(i) =~= a);
        if i > 0 {
            lemma_prefix(a.drop_last(), b, i - 1);
            assert(a.drop_last().take(i - 1) =~= a.drop_last());
            lemma_sq(a.last(), b[a.len() - 1]);
        }
    } else {
        lemma_prefix(a, b, i + 1);
        assert(a.take(i + 1).drop_last() =~= a.take(i));
        lemma_sq(a[i], b[i]);
        lemma_prefix(a.take(i), b, i);
        assert(a.take(i).take(i) =~= a.take(i));
    }
}

/// One more place adds one more square.
proof fn lemma_next(a: Seq<i8>, b: Seq<i8>, i: int)
    requires
        0 <= i < a.len() <= b.len(),
    ensures
        l2sq_i8(a.take(i + 1), b) == l2sq_i8(a.take(i), b) + sq(a[i], b[i]),
        0 <= l2sq_i8(a.take(i), b),
        0 <= sq(a[i], b[i]) <= 65025,
        l2sq_i8(a.take(i + 1), b) <= l2sq_i8(a, b),
{
    assert(a.take(i + 1).drop_last() =~= a.take(i));
    lemma_prefix(a, b, i);
    lemma_prefix(a, b, i + 1);
    lemma_sq(a[i], b[i]);
}

/// The squared distance of two codes, one place after the other.
pub fn l2sq_i8_scalar(a: &[i8], b: &[i8]) -> (s: i32)
    requires
        a@.len() <= b@.len(),
        l2sq_i8(a@, b@) <= i32::MAX,
    ensures
        s == l2sq_i8(a@, b@),
{
    let mut s: i32 = 0;
    let mut i: usize = 0;
    assert(a@.take(0) =~= Seq::empty());
    while i < a.len()
        invariant
            i <= a@.len() <= b@.len(),
            l2sq_i8(a@, b@) <= i32::MAX,
            s == l2sq_i8(a@.take(i as int), b@),
        decreases a@.len() - i,
    {
        proof {
            lemma_next(a@, b@, i as int);
        }
        let d: i32 = a[i] as i32 - b[i] as i32;
        assert(d * d == sq(a@[i as int], b@[i as int]));
        s = s + d * d;
        i = i + 1;
    }
    assert(a@.take(i as int) =~= a@);
    s
}

/// The sum of the lanes of an accumulator.
pub open spec fn lanes(s: Seq<i32>) -> int
    decreases s.len(),
{
    if s.len() == 0 {
        0
    } else {
        lanes(s.drop_last()) + s.last()
    }
}

/// No lane is negative.
pub open spec fn upright(s: Seq<i32>) -> bool {
    forall|j: int| 0 <= j < s.len() ==> 0 <= #[trigger] s[j]
}

proof fn lemma_lane(s: Seq<i32>, j: int)
    requires
        upright(s),
        0 <= j < s.len(),
    ensures
        0 <= s[j] <= lanes(s),
    decreases s.len(),
{
    let t = s.drop_last();
    lemma_lanes_upright(t);
    assert(0 <= s[s.len() - 1]);
    if j < t.len() {
        lemma_lane(t, j);
    }
}

proof fn lemma_lanes_upright(s: Seq<i32>)
    requires
        upright(s),
    ensures
        0 <= lanes(s),
    decreases s.len(),
{
    if s.len() > 0 {
        lemma_lanes_upright(s.drop_last());
        assert(0 <= s[s.len() - 1]);
    }
}

proof fn lemma_lane_add(s: Seq<i32>, j: int, x: i32)
    requires
        0 <= j < s.len(),
    ensures
        lanes(s.update(j, x)) == lanes(s) - s[j] + x,
    decreases s.len(),
{
    let t = s.drop_last();
    if j == s.len() - 1 {
        assert(s.update(j, x).drop_last() =~= t);
    } else {
        lemma_lane_add(t, j, x);
        assert(s.update(j, x).drop_last() =~= t.update(j, x));
    }
}

proof fn lemma_lanes_zero(s: Seq<i32>)
    requires
        forall|j: int| 0 <= j < s.len() ==> #[trigger] s[j] == 0,
    ensures
        lanes(s) == 0,
    decreases s.len(),
{
    if s.len() > 0 {
        lemma_lanes_zero(s.drop_last());
    }
}

/// Add the squares of the places `i` to `i + 31` to the accumulator: the lane
/// `j` gets those of the places `i + 2 * j` and `i + 2 * j + 1`.
fn accumulate(acc: &mut [i32; 16], a: &[i8], b: &[i8], i: usize, Ghost(other): Ghost<int>)
    requires
        i + 32 <= a@.len() <= b@.len(),
        upright(old(acc)@),
        0 <= other,
        lanes(old(acc)@) + other == l2sq_i8(a@.take(i as int), b@),
        l2sq_i8(a@, b@) <= i32::MAX,
    ensures
        upright(final(acc)@),
        lanes(final(acc)@) + other == l2sq_i8(a@.take(i + 32), b@),
{
    let mut j: usize = 0;
    while j < 16
        invariant
            j <= 16,
            acc@.len() == 16,
            i + 32 <= a@.len() <= b@.len(),
            upright(acc@),
            0 <= other,
            lanes(acc@) + other == l2sq_i8(a@.take(i + 2 * j), b@),
            l2sq_i8(a@, b@) <= i32::MAX,
        decreases 16 - j,
    {
        proof {
            assert(a.len() == a@.len());
        }
        let p: usize = i + 2 * j;
        proof {
            lemma_next(a@, b@, p as int);
            lemma_next(a@, b@, p + 1);
            lemma_lane(acc@, j as int);
        }
        let d0: i32 = a[p] as i32 - b[p] as i32;
        let d1: i32 = a[p + 1] as i32 - b[p + 1] as i32;
        assert(d0 * d0 == sq(a@[p as int], b@[p as int]));
        assert(d1 * d1 == sq(a@[p + 1], b@[p + 1]));
        let x: i32 = acc[j] + (d0 * d0 + d1 * d1);
        proof {
            lemma_lane_add(acc@, j as int, x);
        }
        acc[j] = x;
        j = j + 1;
    }
}

/// The sum of the lanes of both accumulators.
fn reduce(acc0: &[i32; 16], acc1: &[i32; 16]) -> (s: i32)
    requires
        upright(acc0@),
        upright(acc1@),
        lanes(acc0@) + lanes(acc1@) <= i32::MAX,
    ensures
        s == lanes(acc0@) + lanes(acc1@),
{
    let mut s: i32 = 0;
    let mut j: usize = 0;
    assert(acc0@.take(0) =~= Seq::empty());
    assert(acc1@.take(0) =~= Seq::empty());
    while j < 16
        invariant
            j <= 16,
            acc0@.len() == 16,
            acc1@.len() == 16,
            upright(acc0@),
            upright(acc1@),
            lanes(acc0@) + lanes(acc1@) <= i32::MAX,
            s == lanes(acc0@.take(j as int)) + lanes(acc1@.take(j as int)),
        decreases 16 - j,
    {
        proof {
            lemma_lanes_prefix(acc0@, j as int);
            lemma_lanes_prefix(acc1@, j as int);
            lemma_lanes_prefix(acc0@, j + 1);
            lemma_lanes_prefix(acc1@, j + 1);
            assert(acc0@.take(j + 1).drop_last() =~= acc0@.take(j as int));
            assert(acc1@.take(j + 1).drop_last() =~= acc1@.take(j as int));
            assert(0 <= acc0@[j as int] && 0 <= acc1@[j as int]);
        }
        s = s + (acc0[j] + acc1[j]);
        j = j + 1;
    }
    assert(acc0@.take(16) =~= acc0@);
    assert(acc1@.take(16) =~= acc1@);
    s
}

proof fn lemma_lanes_prefix(s: Seq<i32>, i: int)
    requires
        upright(s),
        0 <= i <= s.len(),
    ensures
        0 <= lanes(s.take(i)) <= lanes(s),
    decreases s.len() - i,
{
    assert(upright(s.take(i)));
    lemma_lanes_upright(s.take(i));
    if i == s.len() {
        assert(s.take(i) =~= s);
    } else {
        lemma_lanes_prefix(s, i + 1);
        assert(s.take(i + 1).drop_last() =~= s.take(i));
        assert(0 <= s[i]);
    }
}

/// The squared distance of two codes, in blocks of 32 places that add up in two
/// accumulators of 16 lanes, as a vector unit with a fused multiply-add of pairs
/// does it.
pub fn l2sq_i8_vnni(a: &[i8], b: &[i8]) -> (s: i32)
    requires
        a@.len() <= b@.len(),
        l2sq_i8(a@, b@) <= i32::MAX,
    ensures
        s == l2sq_i8(a@, b@),
{
    let n = a.len();
    let mut acc0: [i32; 16] = [0, 0, 0, 0, 0, 0, 0, 0, 0, 0, 0, 0, 0, 0, 0, 0];
    let mut acc1: [i32; 16] = [0, 0, 0, 0, 0, 0, 0, 0, 0, 0, 0, 0, 0, 0, 0, 0];
    let mut i: usize = 0;
    proof {
        lemma_lanes_zero(acc0@);
        lemma_lanes_zero(acc1@);
        assert(a@.take(0) =~= Seq::empty());
    }
    while n - i >= 64
        invariant
            i <= n == a@.len() <= b@.len(),
            l2sq_i8(a@, b@) <= i32::MAX,
            upright(acc0@),
            upright(acc1@),
            lanes(acc0@) + lanes(acc1@) == l2sq_i8(a@.take(i as int), b@),
        decreases n - i,
    {
        proof {
            lemma_lanes_upright(acc0@);
            lemma_lanes_upright(acc1@);
        }
        accumulate(&mut acc0, a, b, i, Ghost(lanes(acc1@)));
        proof {
            lemma_lanes_upright(acc0@);
        }
        accumulate(&mut acc1, a, b, i + 32, Ghost(lanes(acc0@)));
        i = i + 64;
    }
    while n - i >= 32
        invariant
            i <= n == a@.len() <= b@.len(),
            l2sq_i8(a@, b@) <= i32::MAX,
            upright(acc0@),
            upright(acc1@),
            lanes(acc0@) + lanes(acc1@) == l2sq_i8(a@.take(i as int), b@),
        decreases n - i,
    {
        proof {
            lemma_lanes_upright(acc1@);
        }
        accumulate(&mut acc0, a, b, i, Ghost(lanes(acc1@)));
        i = i + 32;
    }
    proof {
        lemma_prefix(a@, b@, i as int);
    }
    let mut s = reduce(&acc0, &acc1);
    while i < n
        invariant
            i <= n == a@.len() <= b@.len(),
            l2sq_i8(a@, b@) <= i32::MAX,
            s == l2sq_i8(a@.take(i as int), b@),
        decreases n - i,
    {
        proof {
            lemma_next(a@, b@, i as int);
        }
        let d: i32 = a[i] as i32 - b[i] as i32;
        assert(d * d == sq(a@[i as int], b@[i as int]));
        s = s + d * d;
        i = i + 1;
    }
    assert(a@.take(i as int) =~= a@);
    s
}

/// Which of the two kernels computes a code distance.
#[derive(Clone, Copy, Debug, PartialEq, Eq, Structural)]
pub enum DistI8 {
    Scalar,
    Vnni,
}

impl DistI8 {
    /// The squared distance of two codes.
    pub fn dist(self, a: &[i8], b: &[i8]) -> (s: i32)
        requires
            a@.len() <= b@.len(),
            l2sq_i8(a@, b@) <= i32::MAX,
        ensures
            s == l2sq_i8(a@, b@),
    {
        match self {
            DistI8::Scalar => l2sq_i8_scalar(a, b),
            DistI8::Vnni => l2sq_i8_vnni(a, b),
        }
    }
}

/// The kernel for a machine, by which of three features it has, and the name of
/// that kernel.
pub fn best_l2sq_i8(avx512vnni: bool, avx512bw: bool, avx512f: bool) -> (r: (DistI8, &'static str))
    ensures
        avx512vnni && avx512bw && avx512f ==> r.0 == DistI8::Vnni && r.1@ == "avx512vnni"@,
        !(avx512vnni && avx512bw && avx512f) ==> r.0 == DistI8::Scalar && r.1@ == "scalar-i8"@,
{
    if avx512vnni && avx512bw && avx512f {
        (DistI8::Vnni, "avx512vnni")
    } else {
        (DistI8::Scalar, "scalar-i8")
    }
}

/// The integer nearest to `x` that a code byte may hold.
pub open spec fn clamp(x: int) -> i8 {
    if x < -127 {
        -127i8
    } else if x > 127 {
        127i8
    } else {
        x as i8
    }
}

/// `f` gives any element a size, and equal elements equal sizes. A size is a key
/// as distances are: larger elements have larger keys.
pub open spec fn sizes<T, Z: Fn(T) -> u32>(f: Z) -> bool {
    &&& forall|x: T| #[trigger] call_requires(f, (x,))
    &&& forall|x: T, r1: u32, r2: u32|
        #[trigger] call_ensures(f, (x,), r1) && #[trigger] call_ensures(f, (x,), r2) ==> r1 == r2
}

/// The size of an element.
pub open spec fn size_of<T, Z: Fn(T) -> u32>(f: Z, x: T) -> u32 {
    choose|r: u32| call_ensures(f, (x,), r)
}

/// The size of the largest element, zero where there is none.
pub open spec fn peak<T, Z: Fn(T) -> u32>(f: Z, v: Seq<T>) -> u32
    decreases v.len(),
{
    if v.len() == 0 {
        0
    } else {
        let p = peak(f, v.drop_last());
        let x = size_of(f, v.last());
        if p < x {
            x
        } else {
            p
        }
    }
}

/// The peak is reached, and no element is larger.
pub proof fn law_peak<T, Z: Fn(T) -> u32>(f: Z, v: Seq<T>)
    ensures
        forall|i: int| 0 <= i < v.len() ==> size_of(f, #[trigger] v[i]) <= peak(f, v),
        peak(f, v) > 0 ==> exists|i: int| 0 <= i < v.len() && size_of(f, #[trigger] v[i]) == peak(f, v),
    decreases v.len(),
{
    if v.len() > 0 {
        let t = v.drop_last();
        law_peak(f, t);
        assert forall|i: int| 0 <= i < v.len() implies size_of(f, #[trigger] v[i]) <= peak(f, v) by {
            if i < t.len() {
                assert(t[i] == v[i]);
            }
        }
        if peak(f, v) > 0 {
            if peak(f, v) == size_of(f, v.last()) {
                assert(size_of(f, v[v.len() - 1]) == peak(f, v));
            } else {
                let i = choose|i: int| 0 <= i < t.len() && size_of(f, #[trigger] t[i]) == peak(f, t);
                assert(size_of(f, v[i]) == peak(f, v));
            }
        }
    }
}

/// The size of the largest element.
fn find_peak<T: Copy, Z: Fn(T) -> u32>(v: &[T], size: &Z) -> (r: u32)
    requires
        sizes(*size),
    ensures
        r == peak(*size, v@),
        forall|i: int, z: u32|
            0 <= i < v@.len() && #[trigger] call_ensures(*size, (v@[i],), z) ==> z <= r,
        r == 0 || exists|i: int|
            0 <= i < v@.len() && call_ensures(*size, (#[trigger] v@[i],), r),
{
    let mut r: u32 = 0;
    let mut i: usize = 0;
    assert(v@.take(0) =~= Seq::empty());
    while i < v.len()
        invariant
            sizes(*size),
            i <= v@.len(),
            r == peak(*size, v@.take(i as int)),
            forall|j: int, z: u32|
                0 <= j < i && #[trigger] call_ensures(*size, (v@[j],), z) ==> z <= r,
            r == 0 || exists|j: int|
                0 <= j < i && call_ensures(*size, (#[trigger] v@[j],), r),
        decreases v@.len() - i,
    {
        let x = v[i];
        let z = size(x);
        assert(call_ensures(*size, (x,), size_of(*size, x)));
        assert(v@.take(i + 1).drop_last() =~= v@.take(i as int));
        if r < z {
            r = z;
        }
        i = i + 1;
    }
    assert(v@.take(i as int) =~= v@);
    r
}

/// `f` turns any element into code units, by the peak of the corpus, and always
/// alike.
pub open spec fn rounds<T, U: Fn(T, u32) -> i32>(f: U) -> bool {
    &&& forall|x: T, p: u32| #[trigger] call_requires(f, (x, p))
    &&& forall|x: T, p: u32, r1: i32, r2: i32|
        #[trigger] call_ensures(f, (x, p), r1) && #[trigger] call_ensures(f, (x, p), r2) ==> r1
            == r2
}

/// The code units of an element.
pub open spec fn unit_of<T, U: Fn(T, u32) -> i32>(f: U, p: u32, x: T) -> i32 {
    choose|r: i32| call_ensures(f, (x, p), r)
}

/// The code byte of an element.
pub open spec fn code_of<T, U: Fn(T, u32) -> i32>(f: U, p: u32, x: T) -> i8 {
    clamp(unit_of(f, p, x) as int)
}

/// The code of a vector.
pub open spec fn codes_of<T, U: Fn(T, u32) -> i32>(f: U, p: u32, v: Seq<T>) -> Seq<i8> {
    Seq::new(v.len(), |i: int| code_of(f, p, v[i]))
}

/// `c` is the code byte of `x`: its units where these lie within 127 of zero, and the
/// nearest that do otherwise.
pub open spec fn byte_of<T, U: Fn(T, u32) -> i32>(f: U, p: u32, x: T, c: i8) -> bool {
    exists|u: i32| #[trigger]
        call_ensures(f, (x, p), u) && c == if u < -127 {
            -127
        } else if u > 127 {
            127
        } else {
            u as int
        }
}

/// `code` is the code of `v`, byte by byte.
pub open spec fn rounded<T, U: Fn(T, u32) -> i32>(
    f: U,
    p: u32,
    v: Seq<T>,
    code: Seq<i8>,
) -> bool {
    &&& code.len() == v.len()
    &&& forall|i: int| 0 <= i < v.len() ==> byte_of(f, p, v[i], #[trigger] code[i])
}

/// Quantize a vector: scale and round each element with `unit`, and clamp.
fn quantized<T: Copy, U: Fn(T, u32) -> i32>(v: &[T], p: u32, unit: &U) -> (r: Vec<i8>)
    requires
        rounds(*unit),
    ensures
        r@ == codes_of(*unit, p, v@),
        rounded(*unit, p, v@, r@),
{
    let mut r: Vec<i8> = Vec::with_capacity(v.len());
    let mut i: usize = 0;
    while i < v.len()
        invariant
            rounds(*unit),
            i <= v@.len(),
            r@.len() == i,
            forall|j: int| 0 <= j < i ==> #[trigger] r@[j] == code_of(*unit, p, v@[j]),
            forall|j: int| 0 <= j < i ==> byte_of(*unit, p, v@[j], #[trigger] r@[j]),
        decreases v@.len() - i,
    {
        let x = v[i];
        let u = unit(x, p);
        assert(call_ensures(*unit, (x, p), choose|r: i32| call_ensures(*unit, (x, p), r)));
        let c: i8 = if u < -127 {
            -127
        } else if u > 127 {
            127
        } else {
            u as i8
        };
        r.push(c);
        i = i + 1;
    }
    assert(r@ =~= codes_of(*unit, p, v@));
    r
}

/// `f` weighs any code distance by the peak, and always alike.
pub open spec fn weighs<K, W: Fn(i32, u32) -> K>(f: W) -> bool {
    &&& forall|d: i32, p: u32| #[trigger] call_requires(f, (d, p))
    &&& forall|d: i32, p: u32, r1: K, r2: K|
        #[trigger] call_ensures(f, (d, p), r1) && #[trigger] call_ensures(f, (d, p), r2) ==> r1
            == r2
}

/// What `f` makes of a code distance.
pub open spec fn weight_of<K, W: Fn(i32, u32) -> K>(f: W, d: i32, p: u32) -> K {
    choose|r: K| call_ensures(f, (d, p), r)
}

/// A quantized corpus: one code of `dim` bytes per vector, all in units of one
/// peak.
pub struct Q8 {
    pub codes: Vec<i8>,
    pub dim: usize,
    /// The size of the largest element of the corpus.
    pub peak: u32,
}

impl Q8 {
    /// The code of vector `id`.
    pub open spec fn code(&self, id: int) -> Seq<i8> {
        row(self.codes@, self.dim as nat, id)
    }

    /// There is a code for each of the first `n` vectors.
    pub open spec fn covers(&self, n: nat) -> bool {
        n * self.dim <= self.codes@.len()
    }

    /// No distance of a code from `qc` is too large for its type.
    pub open spec fn fits(&self, qc: Seq<i8>, n: nat) -> bool {
        forall|id: int| 0 <= id < n ==> l2sq_i8(qc, #[trigger] self.code(id)) <= i32::MAX
    }

    /// Quantize a corpus. `size` gives the size of an element, and `unit` scales an
    /// element to code units, by the largest size of all, and rounds it.
    pub fn from_f32<T: Copy, Z: Fn(T) -> u32, U: Fn(T, u32) -> i32>(
        data: &[T],
        dim: usize,
        size: &Z,
        unit: &U,
    ) -> (r: Self)
        requires
            sizes(*size),
            rounds(*unit),
        ensures
            r.peak == peak(*size, data@),
            r.codes@ == codes_of(*unit, r.peak, data@),
            r.dim == dim,
            rounded(*unit, r.peak, data@, r.codes@),
            forall|i: int, z: u32|
                0 <= i < data@.len() && #[trigger] call_ensures(*size, (data@[i],), z) ==> z
                    <= r.peak,
            r.peak == 0 || exists|i: int|
                0 <= i < data@.len() && call_ensures(*size, (#[trigger] data@[i],), r.peak),
    {
        let peak = find_peak(data, size);
        Q8 { codes: quantized(data, peak, unit), dim, peak }
    }

    /// Quantize one query, by the peak of the corpus and not its own: that is what
    /// makes the codes comparable.
    pub fn encode<T: Copy, U: Fn(T, u32) -> i32>(&self, v: &[T], unit: &U) -> (r: Vec<i8>)
        requires
            rounds(*unit),
        ensures
            r@ == codes_of(*unit, self.peak, v@),
            rounded(*unit, self.peak, v@, r@),
    {
        quantized(v, self.peak, unit)
    }

    /// A code distance in the units of the corpus.
    pub fn to_f32<K, W: Fn(i32, u32) -> K>(&self, raw: i32, weigh: &W) -> (r: K)
        requires
            weighs(*weigh),
        ensures
            r == weight_of(*weigh, raw, self.peak),
            call_ensures(*weigh, (raw, self.peak), r),
    {
        let p = self.peak;
        let r = weigh(raw, p);
        assert(call_ensures(*weigh, (raw, p), weight_of(*weigh, raw, p)));
        r
    }

    /// The code of vector `id`.
    pub fn at(&self, id: u32) -> (r: &[i8])
        requires
            (id + 1) * self.dim <= self.codes@.len(),
        ensures
            r@ == self.code(id as int),
            r@.len() == self.dim,
    {
        row_of(&self.codes, self.dim, id as usize)
    }

    /// How many bytes the codes take.
    pub fn bytes(&self) -> (r: usize)
        ensures
            r == self.codes@.len(),
    {
        self.codes.len()
    }
}

/// The distance of any code from `qc`.
pub open spec fn code_keys(q8: Q8, qc: Seq<i8>) -> spec_fn(u32) -> u32 {
    |id: u32| l2sq_i8(qc, q8.code(id as int)) as u32
}

/// The distances of the first `n` codes from the code of a query.
pub struct Codes<'a> {
    pub q8: &'a Q8,
    pub kernel: DistI8,
    pub qc: &'a [i8],
    pub n: usize,
}

impl<'a> Oracle for Codes<'a> {
    open spec fn valid(&self) -> bool {
        &&& self.q8.covers(self.n as nat)
        &&& self.qc@.len() <= self.q8.dim
        &&& self.q8.fits(self.qc@, self.n as nat)
    }

    open spec fn reach(&self) -> nat {
        self.n as nat
    }

    open spec fn keys(&self) -> spec_fn(u32) -> u32 {
        code_keys(*self.q8, self.qc@)
    }

    fn key(&self, id: u32) -> (r: u32) {
        proof {
            lemma_row_bounds(
                self.q8.dim as nat,
                self.n as nat,
                id as int,
                self.q8.codes@.len(),
            );
            assert(l2sq_i8(self.qc@, self.q8.code(id as int)) <= i32::MAX);
            lemma_prefix(self.qc@, self.q8.code(id as int), 0);
        }
        self.kernel.dist(self.qc, self.q8.at(id)) as u32
    }
}

/// The `k` vectors whose codes are nearest to `qcode`, over the whole corpus,
/// nearest first and by id where the distances agree.
pub fn brute_topk(q8: &Q8, qcode: &[i8], k: usize, f: DistI8) -> (r: Vec<(u32, i32)>)
    requires
        q8.dim > 0,
        q8.codes@.len() / q8.dim as nat <= u32::MAX,
        qcode@.len() <= q8.dim,
        q8.fits(qcode@, q8.codes@.len() / q8.dim as nat),
    ensures
        ({
            let n = q8.codes@.len() / q8.dim as nat;
            let best = top(code_keys(*q8, qcode@), n, k as nat);
            &&& r@.len() == best.len()
            &&& forall|i: int|
                0 <= i < r@.len() ==> (#[trigger] r@[i]).0 == best[i].id && r@[i].1 == best[i].d
            &&& r@.len() == if n < k {
                n
            } else {
                k as nat
            }
            &&& forall|i: int|
                0 <= i < r@.len() ==> (#[trigger] r@[i]).0 < n && r@[i].1 == l2sq_i8(
                    qcode@,
                    q8.codes@.subrange(r@[i].0 * q8.dim, (r@[i].0 + 1) * q8.dim),
                )
            &&& forall|i: int, j: int|
                0 <= i < j < r@.len() ==> {
                    &&& (#[trigger] r@[i]).0 != (#[trigger] r@[j]).0
                    &&& r@[i].1 < r@[j].1 || r@[i].1 == r@[j].1 && r@[i].0 < r@[j].0
                }
            &&& forall|y: u32, i: int|
                y < n && 0 <= i < r@.len() && (forall|x: int|
                    0 <= x < r@.len() ==> (#[trigger] r@[x]).0 != y) ==> (#[trigger] r@[i]).1
                    <= l2sq_i8(qcode@, #[trigger] q8.code(y as int))
        }),
{
    let n: usize = q8.codes.len() / q8.dim;
    proof {
        let len = q8.codes@.len() as int;
        let dim = q8.dim as int;
        assert(n * dim <= len) by (nonlinear_arith)
            requires
                n == len / dim,
                dim > 0,
                len >= 0,
        ;
    }
    let o = Codes { q8, kernel: f, qc: qcode, n };
    let best = nearest(&o, n, k);
    proof {
        let key = o.keys();
        law_top_is_exact(key, n as nat, k as nat);
        assert forall|x: int| 0 <= x < best@.len() implies (#[trigger] best@[x]).d <= i32::MAX by {
            let id = best@[x].id;
            assert(l2sq_i8(qcode@, q8.code(id as int)) <= i32::MAX);
            lemma_prefix(qcode@, q8.code(id as int), 0);
        }
    }
    let mut r: Vec<(u32, i32)> = Vec::new();
    let mut i: usize = 0;
    while i < best.len()
        invariant
            i <= best@.len(),
            r@.len() == i,
            forall|j: int|
                0 <= j < i ==> (#[trigger] r@[j]).0 == best@[j].id && r@[j].1 == best@[j].d,
            forall|j: int| 0 <= j < best@.len() ==> (#[trigger] best@[j]).d <= i32::MAX,
        decreases best@.len() - i,
    {
        r.push((best[i].id, best[i].d as i32));
        i = i + 1;
    }
    proof {
        let key = o.keys();
        let h = hits(best@);
        law_top_is_best(key, n as nat, k as nat);
        assert forall|y: u32| y < n implies key(y) == l2sq_i8(qcode@, #[trigger] q8.code(y as int)) by {
            assert(l2sq_i8(qcode@, q8.code(y as int)) <= i32::MAX);
            lemma_prefix(qcode@, q8.code(y as int), 0);
        }
        assert forall|x: int| 0 <= x < r@.len() implies (#[trigger] r@[x]).0 == h[x].0 && r@[x].1
            == h[x].1 && r@[x].0 < n && r@[x].1 == l2sq_i8(qcode@, q8.code(r@[x].0 as int)) by {
            assert(h[x] == (best@[x].id, best@[x].d));
        }
        assert forall|y: u32, i: int|
            y < n && 0 <= i < r@.len() && (forall|x: int|
                0 <= x < r@.len() ==> (#[trigger] r@[x]).0 != y) implies (#[trigger] r@[i]).1
            <= l2sq_i8(qcode@, #[trigger] q8.code(y as int)) by {
            if h.contains((y, key(y))) {
                let x = choose|x: int| 0 <= x < h.len() && h[x] == (y, key(y));
                assert(r@[x].0 == y);
            }
            assert(h[i].1 <= key(y));
        }
        assert forall|i: int, j: int| 0 <= i < j < r@.len() implies {
            &&& (#[trigger] r@[i]).0 != (#[trigger] r@[j]).0
            &&& r@[i].1 < r@[j].1 || r@[i].1 == r@[j].1 && r@[i].0 < r@[j].0
        } by {
            assert(h[i].0 != h[j].0);
        }
    }
    r
}

/// A distance is never negative, also where the one code is longer than the other.
pub proof fn law_l2sq_not_negative(a: Seq<i8>, b: Seq<i8>)
    ensures
        0 <= l2sq_i8(a, b),
{
    lemma_prefix(a, b, 0);
}

/// The distance of two codes is the sum of the squares of their differences: of one byte
/// it is that square, and that of a code in two parts is the sum of theirs.
pub proof fn law_l2sq_adds_up(a: Seq<i8>, b: Seq<i8>, c: Seq<i8>, d: Seq<i8>, x: i8, y: i8)
    requires
        a.len() == c.len(),
        b.len() == d.len(),
    ensures
        l2sq_i8(a + b, c + d) == l2sq_i8(a, c) + l2sq_i8(b, d),
        l2sq_i8(seq![x], seq![y]) == (x - y) * (x - y),
    decreases b.len(),
{
    assert(seq![x].drop_last() =~= Seq::empty());
    assert(l2sq_i8(seq![x].drop_last(), seq![y]) == 0);
    if b.len() == 0 {
        assert(a + b =~= a);
        assert(c + d =~= c);
    } else {
        let (p, q) = (b.drop_last(), d.drop_last());
        law_l2sq_adds_up(a, p, c, q, x, y);
        assert((a + b).drop_last() =~= a + p);
        assert((c + d).drop_last() =~= c + q);
        lemma_other_drop(a + p, c + d);
        lemma_other_drop(p, d);
        assert((a + b).last() == b.last());
        assert((c + d)[a.len() + b.len() - 1] == d[b.len() - 1]);
    }
}

/// The distance is the same in both directions.
pub proof fn law_l2sq_symmetric(a: Seq<i8>, b: Seq<i8>)
    requires
        a.len() == b.len(),
    ensures
        l2sq_i8(a, b) == l2sq_i8(b, a),
    decreases a.len(),
{
    if a.len() > 0 {
        law_l2sq_symmetric(a.drop_last(), b.drop_last());
        lemma_other_drop(a.drop_last(), b);
        lemma_other_drop(b.drop_last(), a);
        lemma_sq(a.last(), b.last());
    }
}

/// Only the first `a.len()` places of `b` matter.
proof fn lemma_other_drop(a: Seq<i8>, b: Seq<i8>)
    requires
        a.len() < b.len(),
    ensures
        l2sq_i8(a, b) == l2sq_i8(a, b.drop_last()),
    decreases a.len(),
{
    if a.len() > 0 {
        lemma_other_drop(a.drop_last(), b);
    }
}

/// A distance is never negative, and zero for equal codes alone.
pub proof fn law_l2sq_zero(a: Seq<i8>, b: Seq<i8>)
    requires
        a.len() == b.len(),
    ensures
        0 <= l2sq_i8(a, b),
        l2sq_i8(a, b) == 0 <==> a == b,
    decreases a.len(),
{
    if a.len() > 0 {
        let (t, u) = (a.drop_last(), b.drop_last());
        law_l2sq_zero(t, u);
        lemma_other_drop(t, b);
        lemma_sq(a.last(), b.last());
        if t == u && a.last() == b.last() {
            assert(a =~= t.push(a.last()));
            assert(b =~= u.push(b.last()));
        }
    } else {
        assert(a =~= b);
    }
}

/// A distance grows by at most 255 squared with each place, and by at most 254
/// squared where both codes come from quantization.
pub proof fn law_l2sq_bound(a: Seq<i8>, b: Seq<i8>)
    requires
        a.len() <= b.len(),
    ensures
        0 <= l2sq_i8(a, b) <= 65025 * a.len(),
        (forall|i: int| 0 <= i < a.len() ==> -127 <= #[trigger] a[i]) && (forall|i: int|
            0 <= i < b.len() ==> -127 <= #[trigger] b[i]) ==> l2sq_i8(a, b) <= 64516 * a.len(),
    decreases a.len(),
{
    if a.len() > 0 {
        law_l2sq_bound(a.drop_last(), b);
        lemma_sq(a.last(), b[a.len() - 1]);
        if (forall|i: int| 0 <= i < a.len() ==> -127 <= #[trigger] a[i]) && (forall|i: int|
            0 <= i < b.len() ==> -127 <= #[trigger] b[i]) {
            assert(forall|i: int|
                0 <= i < a.drop_last().len() ==> -127 <= #[trigger] a.drop_last()[i]);
            assert(-127 <= a[a.len() - 1] && -127 <= b[a.len() - 1]);
        }
    }
}

/// Codes of up to 33025 places cannot make a distance overflow.
pub proof fn law_short_codes_fit(q8: Q8, qc: Seq<i8>, n: nat)
    requires
        qc.len() <= q8.dim <= 33025,
        q8.covers(n),
    ensures
        q8.fits(qc, n),
{
    assert forall|id: int| 0 <= id < n implies l2sq_i8(qc, #[trigger] q8.code(id)) <= i32::MAX by {
        lemma_row_bounds(q8.dim as nat, n, id, q8.codes@.len());
        law_l2sq_bound(qc, q8.code(id));
    }
}

/// No byte of `c` lies farther than 127 from zero.
pub open spec fn centred(c: Seq<i8>) -> bool {
    forall|i: int| 0 <= i < c.len() ==> -127 <= #[trigger] c[i]
}

/// Codes that lie within 127 of zero, as all that come from quantization do, cannot make
/// a distance overflow in up to 33286 places.
pub proof fn law_centred_codes_fit(q8: Q8, qc: Seq<i8>, n: nat)
    requires
        qc.len() <= q8.dim <= 33286,
        q8.covers(n),
        centred(q8.codes@),
        centred(qc),
    ensures
        q8.fits(qc, n),
{
    assert forall|id: int| 0 <= id < n implies l2sq_i8(qc, #[trigger] q8.code(id)) <= i32::MAX by {
        lemma_row_bounds(q8.dim as nat, n, id, q8.codes@.len());
        let c = q8.code(id);
        assert forall|i: int| 0 <= i < c.len() implies -127 <= #[trigger] c[i] by {
            assert(c[i] == q8.codes@[id * q8.dim + i]);
        }
        law_l2sq_bound(qc, c);
    }
}

/// The codes of a quantized corpus and of a quantized query fit in up to 33286 places,
/// whatever the vectors are.
pub proof fn law_quantized_codes_fit<T, U: Fn(T, u32) -> i32, V: Fn(T, u32) -> i32>(
    q8: Q8,
    unit: U,
    data: Seq<T>,
    query_unit: V,
    q: Seq<T>,
    n: nat,
)
    requires
        q.len() <= q8.dim <= 33286,
        q8.covers(n),
        q8.codes@ == codes_of(unit, q8.peak, data),
    ensures
        q8.fits(codes_of(query_unit, q8.peak, q), n),
{
    law_codes_centred(unit, q8.peak, data);
    law_codes_centred(query_unit, q8.peak, q);
    law_centred_codes_fit(q8, codes_of(query_unit, q8.peak, q), n);
}

/// Every byte of a quantized vector lies within 127 of zero.
pub proof fn law_codes_centred<T, U: Fn(T, u32) -> i32>(f: U, p: u32, v: Seq<T>)
    ensures
        forall|i: int| 0 <= i < v.len() ==> -127 <= #[trigger] codes_of(f, p, v)[i] <= 127,
{
}

/// Where two ways of rounding differ by at most `gap` on the elements of a vector, so do
/// the bytes of its two codes, and the codes are no further apart than that in every
/// place. Where they do not differ, the codes are the same.
pub proof fn law_roundings_give_near_codes<T, U: Fn(T, u32) -> i32, V: Fn(T, u32) -> i32>(
    f: U,
    h: V,
    p: u32,
    v: Seq<T>,
    gap: nat,
)
    requires
        forall|i: int|
            0 <= i < v.len() ==> apart(
                unit_of(f, p, #[trigger] v[i]) as int,
                unit_of(h, p, v[i]) as int,
            ) <= gap,
    ensures
        forall|i: int|
            0 <= i < v.len() ==> apart(
                #[trigger] codes_of(f, p, v)[i] as int,
                codes_of(h, p, v)[i] as int,
            ) <= gap,
        0 <= l2sq_i8(codes_of(f, p, v), codes_of(h, p, v)) <= v.len() * (gap * gap),
        gap == 0 ==> codes_of(f, p, v) == codes_of(h, p, v),
    decreases v.len(),
{
    let (a, b) = (codes_of(f, p, v), codes_of(h, p, v));
    assert forall|i: int| 0 <= i < v.len() implies apart(#[trigger] a[i] as int, b[i] as int)
        <= gap by {
        assert(apart(unit_of(f, p, v[i]) as int, unit_of(h, p, v[i]) as int) <= gap);
    }
    if v.len() == 0 {
        assert(0 * (gap * gap) == 0) by (nonlinear_arith);
    } else {
        let t = v.drop_last();
        assert forall|i: int| 0 <= i < t.len() implies apart(
            unit_of(f, p, #[trigger] t[i]) as int,
            unit_of(h, p, t[i]) as int,
        ) <= gap by {
            assert(t[i] == v[i]);
        }
        law_roundings_give_near_codes(f, h, p, t, gap);
        assert(a.drop_last() =~= codes_of(f, p, t));
        assert(b.drop_last() =~= codes_of(h, p, t));
        lemma_other_drop(a.drop_last(), b);
        let d = a.last() - b.last();
        assert(apart(a[v.len() - 1] as int, b[v.len() - 1] as int) <= gap);
        assert(0 <= d * d <= gap * gap) by (nonlinear_arith)
            requires
                -gap <= d <= gap,
        ;
        assert(v.len() * (gap * gap) == t.len() * (gap * gap) + gap * gap) by (nonlinear_arith)
            requires
                v.len() == t.len() + 1,
        ;
    }
    assert(gap == 0 ==> a =~= b);
}

/// A row of the corpus that is handed in as a query gets the row's own code where the
/// corpus and queries are rounded alike, and one that is off by at most `gap` in each
/// place where the two ways of rounding differ by at most that.
pub proof fn law_row_as_query_gets_its_code<T, U: Fn(T, u32) -> i32, V: Fn(T, u32) -> i32>(
    q8: Q8,
    unit: U,
    data: Seq<T>,
    query_unit: V,
    id: int,
    gap: nat,
)
    requires
        q8.codes@ == codes_of(unit, q8.peak, data),
        0 <= id,
        (id + 1) * q8.dim <= data.len(),
        forall|i: int|
            0 <= i < data.len() ==> apart(
                unit_of(query_unit, q8.peak, #[trigger] data[i]) as int,
                unit_of(unit, q8.peak, data[i]) as int,
            ) <= gap,
    ensures
        ({
            let c = codes_of(query_unit, q8.peak, row(data, q8.dim as nat, id));
            &&& c.len() == q8.dim
            &&& forall|i: int|
                0 <= i < q8.dim ==> apart(#[trigger] c[i] as int, q8.code(id)[i] as int) <= gap
            &&& 0 <= l2sq_i8(c, q8.code(id)) <= q8.dim * (gap * gap)
            &&& gap == 0 ==> c == q8.code(id)
        }),
{
    let dim = q8.dim as nat;
    let v = row(data, dim, id);
    assert((id + 1) * dim == id * dim + dim && 0 <= id * dim) by (nonlinear_arith)
        requires
            0 <= id,
    ;
    assert forall|i: int| 0 <= i < v.len() implies apart(
        unit_of(query_unit, q8.peak, #[trigger] v[i]) as int,
        unit_of(unit, q8.peak, v[i]) as int,
    ) <= gap by {
        assert(v[i] == data[id * dim + i]);
    }
    law_roundings_give_near_codes(query_unit, unit, q8.peak, v, gap);
    assert(q8.code(id) =~= codes_of(unit, q8.peak, v));
}

} // verus!
