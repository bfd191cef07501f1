//! The pseudo-random stream behind level sampling, codebook seeding and
//! synthetic corpora.

use vstd::arithmetic::div_mod::{
    lemma_add_mod_noop, lemma_fundamental_div_mod_converse, lemma_mod_add_multiples_vanish,
    lemma_mul_mod_noop_left, lemma_mul_mod_noop_right,
};
use vstd::prelude::*;

use crate::dist::{add_up, adds, fold, fold_of, folds, lane, sum_of};
use crate::exact::total;
use crate::metric::{lemma_row_bounds, row};

verus! {

/// An xorshift64* generator.
pub struct R(pub u64);

/// The state that follows `x`.
pub open spec fn scramble(x: u64) -> u64 {
    let a = x ^ (x >> 12);
    let b = a ^ (a << 25);
    b ^ (b >> 27)
}

/// The number that the state `x` stands for.
pub open spec fn output(x: u64) -> u64 {
    x.wrapping_mul(0x2545F491_4F6CDD1D)
}

impl R {
    /// The next number of the stream.
    pub fn next(&mut self) -> (r: u64)
        ensures
            final(self).0 == scramble(old(self).0),
            r == output(final(self).0),
    {
        let mut x: u64 = self.0;
        x = x ^ (x >> 12);
        x = x ^ (x << 25);
        x = x ^ (x >> 27);
        self.0 = x;
        x.wrapping_mul(0x2545F491_4F6CDD1D)
    }

    /// The next number of the stream as a fraction of 2^24: the upper 24 bits.
    pub fn f(&mut self) -> (r: u32)
        ensures
            final(self).0 == scramble(old(self).0),
            r == output(final(self).0) >> 40,
            r < 0x100_0000,
    {
        let z = self.next() >> 40;
        let ghost x = output(self.0);
        assert(x >> 40 < 0x100_0000) by (bit_vector);
        z as u32
    }

    /// The next sample, which `g` makes of the next two fractions.
    pub fn gauss<K, G: Fn(u32, u32) -> K>(&mut self, g: &G) -> (z: K)
        requires
            shapes(*g),
        ensures
            final(self).0 == scramble(scramble(old(self).0)),
            z == shape_of(
                *g,
                (output(scramble(old(self).0)) >> 40) as u32,
                (output(final(self).0) >> 40) as u32,
            ),
            call_ensures(
                *g,
                (
                    (output(scramble(old(self).0)) >> 40) as u32,
                    (output(final(self).0) >> 40) as u32,
                ),
                z,
            ),
    {
        let u = self.f();
        let v = self.f();
        let z = g(u, v);
        assert(call_ensures(*g, (u, v), shape_of(*g, u, v)));
        z
    }
}

/// The state after `d` steps.
pub open spec fn state_after(x: u64, d: nat) -> u64
    decreases d,
{
    if d == 0 {
        x
    } else {
        scramble(state_after(x, (d - 1) as nat))
    }
}

/// The fraction of 2^24 that draw `d` of the stream from state `x` gives.
pub open spec fn draw_at(x: u64, d: nat) -> u32 {
    (output(state_after(x, d + 1)) >> 40) as u32
}

/// `g` makes a sample of any two fractions of 2^24, and always the same of the
/// same two.
pub open spec fn shapes<K, G: Fn(u32, u32) -> K>(g: G) -> bool {
    &&& forall|u: u32, v: u32|
        u < 0x100_0000 && v < 0x100_0000 ==> #[trigger] call_requires(g, (u, v))
    &&& forall|u: u32, v: u32, r1: K, r2: K|
        #[trigger] call_ensures(g, (u, v), r1) && #[trigger] call_ensures(g, (u, v), r2) ==> r1
            == r2
}

/// What `g` makes of `u` and `v`.
pub open spec fn shape_of<K, G: Fn(u32, u32) -> K>(g: G, u: u32, v: u32) -> K {
    choose|r: K| call_ensures(g, (u, v), r)
}

/// Sample `i` of the stream from state `x`: each takes two draws.
pub open spec fn sample_at<K, G: Fn(u32, u32) -> K>(g: G, x: u64, i: nat) -> K {
    shape_of(g, draw_at(x, 2 * i), draw_at(x, 2 * i + 1))
}

/// A stream that is taken up after `a` steps goes on as it would have: what lies `d` steps
/// behind is what lies `a + d` steps behind the start. Sample `i` behind `a` samples is
/// sample `a + i`, and the first sample is made of the first two numbers.
pub proof fn law_stream_goes_on<K, G: Fn(u32, u32) -> K>(g: G, x: u64, a: nat, d: nat, i: nat)
    ensures
        state_after(x, a + d) == state_after(state_after(x, a), d),
        state_after(x, 1) == scramble(x),
        sample_at(g, x, a + i) == sample_at(g, state_after(x, 2 * a), i),
        sample_at(g, x, 0) == shape_of(
            g,
            (output(scramble(x)) >> 40) as u32,
            (output(scramble(scramble(x))) >> 40) as u32,
        ),
{
    lemma_goes_on(x, a, d);
    lemma_goes_on(x, 2 * a, 2 * i + 1);
    lemma_goes_on(x, 2 * a, 2 * i + 2);
    assert(state_after(x, 0) == x);
    assert(state_after(x, 1) == scramble(x));
    assert(state_after(x, 2) == scramble(scramble(x)));
    assert(2 * (a + i) + 1 == 2 * a + (2 * i + 1));
}

proof fn lemma_goes_on(x: u64, a: nat, d: nat)
    ensures
        state_after(x, a + d) == state_after(state_after(x, a), d),
    decreases d,
{
    if d > 0 {
        lemma_goes_on(x, a, (d - 1) as nat);
    }
}

/// `f` maps any value, and always alike.
pub open spec fn maps<K, N: Fn(K) -> K>(f: N) -> bool {
    &&& forall|a: K| #[trigger] call_requires(f, (a,))
    &&& forall|a: K, r1: K, r2: K|
        #[trigger] call_ensures(f, (a,), r1) && #[trigger] call_ensures(f, (a,), r2) ==> r1 == r2
}

/// What `f` makes of `a`.
pub open spec fn map_of<K, N: Fn(K) -> K>(f: N, a: K) -> K {
    choose|r: K| call_ensures(f, (a,), r)
}

fn apply<K, N: Fn(K) -> K>(f: &N, a: K) -> (r: K)
    requires
        maps(*f),
    ensures
        r == map_of(*f, a),
{
    let r = f(a);
    assert(call_ensures(*f, (a,), map_of(*f, a)));
    r
}

/// How term `t` adds to element `j` of the vector whose latent starts at sample
/// `lat`: by the latent's coordinate `t` times entry `(t, j)` of the projection,
/// which the first samples fill.
pub open spec fn projected<K, G: Fn(u32, u32) -> K, F: Fn(K, K, K) -> K>(
    g: G,
    x: u64,
    lat: nat,
    dim: nat,
    j: int,
    muladd: F,
) -> spec_fn(K, int) -> K {
    |s: K, t: int|
        fold_of(
            muladd,
            s,
            sample_at(g, x, (lat + t) as nat),
            sample_at(g, x, (t * dim + j) as nat),
        )
}

/// Element `j` of vector `i` of a corpus of low rank.
pub open spec fn lowrank_at<
    K,
    G: Fn(u32, u32) -> K,
    F: Fn(K, K, K) -> K,
    N: Fn(K) -> K,
>(i: nat, j: int, dim: nat, rank: nat, x: u64, zero: K, g: G, muladd: F, norm: N) -> K {
    map_of(
        norm,
        lane(projected(g, x, rank * dim + i * rank, dim, j, muladd), zero, 0, 1, rank),
    )
}

/// A corpus of low rank.
pub open spec fn lowrank_corpus<
    K,
    G: Fn(u32, u32) -> K,
    F: Fn(K, K, K) -> K,
    N: Fn(K) -> K,
>(n: nat, dim: nat, rank: nat, x: u64, zero: K, g: G, muladd: F, norm: N) -> Seq<K> {
    Seq::new(
        n * dim,
        |p: int|
            lowrank_at(
                (p / dim as int) as nat,
                p % dim as int,
                dim,
                rank,
                x,
                zero,
                g,
                muladd,
                norm,
            ),
    )
}

/// What `g` and `f` return is what samples and maps are made of.
pub proof fn law_shape_and_map<K, G: Fn(u32, u32) -> K, N: Fn(K) -> K>(
    g: G,
    u: u32,
    v: u32,
    z: K,
    f: N,
    a: K,
    b: K,
)
    requires
        shapes(g),
        maps(f),
    ensures
        call_ensures(g, (u, v), z) ==> shape_of(g, u, v) == z,
        call_ensures(f, (a,), b) ==> map_of(f, a) == b,
{
    if call_ensures(g, (u, v), z) {
        assert(call_ensures(g, (u, v), choose|r: K| call_ensures(g, (u, v), r)));
    }
    if call_ensures(f, (a,), b) {
        assert(call_ensures(f, (a,), choose|r: K| call_ensures(f, (a,), r)));
    }
}

/// Place `p` of some rows stands in row `p / dim`, at `p % dim`.
proof fn lemma_at<K>(data: Seq<K>, dim: nat, n: nat, p: int)
    requires
        data.len() == n * dim,
        0 <= p < n * dim,
    ensures
        0 <= p / dim as int,
        p / (dim as int) < n,
        0 <= p % (dim as int) < dim,
        row(data, dim, p / dim as int)[p % dim as int] == data[p],
{
    let d = dim as int;
    assert(d > 0) by (nonlinear_arith)
        requires
            0 <= p < n * dim,
            d == dim,
    ;
    let (i, j) = (p / d, p % d);
    assert(p == i * d + j && 0 <= j < d && 0 <= i < n) by (nonlinear_arith)
        requires
            d > 0,
            0 <= p < n * d,
            i == p / d,
            j == p % d,
    ;
    lemma_row_bounds(dim, n, i, data.len());
}

/// The next samples of a stream that has given `from` of them so far.
fn samples_from<K, G: Fn(u32, u32) -> K>(
    r: &mut R,
    count: usize,
    g: &G,
    Ghost(x): Ghost<u64>,
    Ghost(from): Ghost<nat>,
) -> (out: Vec<K>)
    requires
        shapes(*g),
        old(r).0 == state_after(x, 2 * from),
    ensures
        final(r).0 == state_after(x, 2 * (from + count as nat)),
        out@.len() == count,
        forall|i: int| 0 <= i < count ==> #[trigger] out@[i] == sample_at(*g, x, (from + i) as nat),
{
    let mut out: Vec<K> = Vec::new();
    let mut i: usize = 0;
    while i < count
        invariant
            i <= count,
            shapes(*g),
            r.0 == state_after(x, 2 * (from + i as nat)),
            out@.len() == i,
            forall|k: int| 0 <= k < i ==> #[trigger] out@[k] == sample_at(*g, x, (from + k) as nat),
        decreases count - i,
    {
        let ghost d = 2 * (from + i) as nat;
        assert(r.0 == state_after(x, d));
        let z = r.gauss(g);
        assert(state_after(x, d + 1) == scramble(state_after(x, d)));
        assert(state_after(x, d + 2) == scramble(state_after(x, d + 1)));
        out.push(z);
        i = i + 1;
    }
    out
}

/// A corpus of `n` vectors of `dim` elements that lie in `rank` dimensions: each
/// is a random latent vector, put through one random projection and normed.
pub fn lowrank<K: Copy, G: Fn(u32, u32) -> K, F: Fn(K, K, K) -> K, N: Fn(K) -> K>(
    n: usize,
    dim: usize,
    rank: usize,
    seed: u64,
    zero: K,
    g: &G,
    muladd: &F,
    norm: &N,
) -> (out: Vec<K>)
    requires
        rank * dim <= usize::MAX,
        n * dim <= usize::MAX,
        shapes(*g),
        folds(*muladd),
        maps(*norm),
    ensures
        out@ == lowrank_corpus(
            n as nat,
            dim as nat,
            rank as nat,
            seed | 1,
            zero,
            *g,
            *muladd,
            *norm,
        ),
        out@.len() == n * dim,
{
    let ghost x = seed | 1;
    let mut r = R(seed | 1);
    let proj = samples_from(&mut r, rank * dim, g, Ghost(x), Ghost(0));
    let mut out: Vec<K> = Vec::new();
    let mut i: usize = 0;
    assert(0 * dim == 0) by (nonlinear_arith);
    assert(0 * rank == 0) by (nonlinear_arith);
    while i < n
        invariant
            i <= n,
            shapes(*g),
            folds(*muladd),
            maps(*norm),
            r.0 == state_after(x, 2 * (rank * dim + i * rank) as nat),
            proj@.len() == rank * dim,
            forall|k: int| 0 <= k < rank * dim ==> #[trigger] proj@[k] == sample_at(*g, x, k as nat),
            out@.len() == i * dim,
            forall|v: int, j: int|
                0 <= v < i && 0 <= j < dim ==> #[trigger] row(out@, dim as nat, v)[j] == lowrank_at(
                    v as nat,
                    j,
                    dim as nat,
                    rank as nat,
                    x,
                    zero,
                    *g,
                    *muladd,
                    *norm,
                ),
        decreases n - i,
    {
        let ghost from = (rank * dim + i * rank) as nat;
        let ghost before = out@;
        let lat = samples_from(&mut r, rank, g, Ghost(x), Ghost(from));
        assert((i + 1) * rank == i * rank + rank) by (nonlinear_arith);
        assert((i + 1) * dim == i * dim + dim) by (nonlinear_arith);
        let mut j: usize = 0;
        while j < dim
            invariant
                j <= dim,
                folds(*muladd),
                maps(*norm),
                from == rank * dim + i * rank,
                lat@.len() == rank,
                forall|k: int|
                    0 <= k < rank ==> #[trigger] lat@[k] == sample_at(*g, x, (from + k) as nat),
                proj@.len() == rank * dim,
                forall|k: int|
                    0 <= k < rank * dim ==> #[trigger] proj@[k] == sample_at(*g, x, k as nat),
                before.len() == i * dim,
                out@.len() == before.len() + j,
                forall|k: int| 0 <= k < before.len() ==> #[trigger] out@[k] == before[k],
                forall|k: int|
                    0 <= k < j ==> #[trigger] out@[before.len() + k] == lowrank_at(
                        i as nat,
                        k,
                        dim as nat,
                        rank as nat,
                        x,
                        zero,
                        *g,
                        *muladd,
                        *norm,
                    ),
            decreases dim - j,
        {
            let ghost h = projected(*g, x, from, dim as nat, j as int, *muladd);
            let mut acc = zero;
            let mut t: usize = 0;
            while t < rank
                invariant
                    t <= rank,
                    j < dim,
                    folds(*muladd),
                    h == projected(*g, x, from, dim as nat, j as int, *muladd),
                    lat@.len() == rank,
                    forall|k: int|
                        0 <= k < rank ==> #[trigger] lat@[k] == sample_at(*g, x, (from + k) as nat),
                    proj@.len() == rank * dim,
                    forall|k: int|
                        0 <= k < rank * dim ==> #[trigger] proj@[k] == sample_at(*g, x, k as nat),
                    acc == lane(h, zero, 0, 1, t as nat),
                decreases rank - t,
            {
                assert(0 <= t * dim && t * dim + dim <= rank * dim) by (nonlinear_arith)
                    requires
                        t < rank,
                ;
                assert(proj.len() == proj@.len());
                acc = fold(muladd, acc, lat[t], proj[t * dim + j]);
                t = t + 1;
            }
            out.push(apply(norm, acc));
            j = j + 1;
        }
        assert forall|v: int, j: int| 0 <= v < i + 1 && 0 <= j < dim implies #[trigger] row(
            out@,
            dim as nat,
            v,
        )[j] == lowrank_at(
            v as nat,
            j,
            dim as nat,
            rank as nat,
            x,
            zero,
            *g,
            *muladd,
            *norm,
        ) by {
            lemma_row_bounds(dim as nat, (i + 1) as nat, v, out@.len());
            if v < i {
                lemma_row_bounds(dim as nat, i as nat, v, before.len());
                assert(row(out@, dim as nat, v)[j] == row(before, dim as nat, v)[j]);
            } else {
                assert(row(out@, dim as nat, v)[j] == out@[before.len() + j]);
            }
        }
        i = i + 1;
    }
    proof {
        let c = lowrank_corpus(
            n as nat,
            dim as nat,
            rank as nat,
            x,
            zero,
            *g,
            *muladd,
            *norm,
        );
        assert forall|p: int| 0 <= p < n * dim implies #[trigger] out@[p] == c[p] by {
            lemma_at(out@, dim as nat, n as nat, p);
            let (v, j) = (p / dim as int, p % dim as int);
            assert(row(out@, dim as nat, v)[j] == out@[p]);
        }
        assert(out@ =~= c);
    }
    out
}

/// Element `j` of vector `i` of a clustered corpus: the element of its centre, and
/// a sample around it.
pub open spec fn clustered_at<K, G: Fn(u32, u32) -> K, N: Fn(K) -> K, P: Fn(K, K) -> K>(
    i: nat,
    j: int,
    dim: nat,
    nclust: nat,
    x: u64,
    g: G,
    spread: N,
    plus: P,
) -> K {
    sum_of(
        plus,
        map_of(spread, sample_at(g, x, ((i % nclust) * dim + j) as nat)),
        sample_at(g, x, (nclust * dim + i * dim + j) as nat),
    )
}

/// A clustered corpus.
pub open spec fn clustered_corpus<
    K,
    G: Fn(u32, u32) -> K,
    N: Fn(K) -> K,
    P: Fn(K, K) -> K,
>(n: nat, dim: nat, nclust: nat, x: u64, g: G, spread: N, plus: P) -> Seq<K> {
    Seq::new(
        n * dim,
        |p: int|
            clustered_at(
                (p / dim as int) as nat,
                p % dim as int,
                dim,
                nclust,
                x,
                g,
                spread,
                plus,
            ),
    )
}

/// A corpus of `n` vectors of `dim` elements around `nclust` centres in turn.
pub fn make_data<K: Copy, G: Fn(u32, u32) -> K, N: Fn(K) -> K, P: Fn(K, K) -> K>(
    n: usize,
    dim: usize,
    nclust: usize,
    seed: u64,
    g: &G,
    spread: &N,
    plus: &P,
) -> (out: Vec<K>)
    requires
        n > 0 ==> nclust > 0,
        nclust * dim <= usize::MAX,
        n * dim <= usize::MAX,
        shapes(*g),
        maps(*spread),
        adds(*plus),
    ensures
        out@ == clustered_corpus(
            n as nat,
            dim as nat,
            nclust as nat,
            seed | 1,
            *g,
            *spread,
            *plus,
        ),
        out@.len() == n * dim,
{
    let ghost x = seed | 1;
    let mut r = R(seed | 1);
    let centers = samples_from(&mut r, nclust * dim, g, Ghost(x), Ghost(0));
    let mut out: Vec<K> = Vec::new();
    let mut i: usize = 0;
    assert(0 * dim == 0) by (nonlinear_arith);
    while i < n
        invariant
            i <= n,
            n > 0 ==> nclust > 0,
            shapes(*g),
            maps(*spread),
            adds(*plus),
            r.0 == state_after(x, 2 * (nclust * dim + i * dim) as nat),
            centers@.len() == nclust * dim,
            forall|k: int|
                0 <= k < nclust * dim ==> #[trigger] centers@[k] == sample_at(*g, x, k as nat),
            out@.len() == i * dim,
            forall|v: int, j: int|
                0 <= v < i && 0 <= j < dim ==> #[trigger] row(out@, dim as nat, v)[j]
                    == clustered_at(
                    v as nat,
                    j,
                    dim as nat,
                    nclust as nat,
                    x,
                    *g,
                    *spread,
                    *plus,
                ),
        decreases n - i,
    {
        let ghost from = (nclust * dim + i * dim) as nat;
        let ghost before = out@;
        let c: usize = i % nclust;
        assert(0 <= c * dim && c * dim + dim <= nclust * dim) by (nonlinear_arith)
            requires
                c < nclust,
        ;
        assert(centers.len() == centers@.len());
        let lo: usize = c * dim;
        let around = samples_from(&mut r, dim, g, Ghost(x), Ghost(from));
        assert((i + 1) * dim == i * dim + dim) by (nonlinear_arith);
        let mut j: usize = 0;
        while j < dim
            invariant
                j <= dim,
                maps(*spread),
                adds(*plus),
                c == i % nclust,
                lo == c * dim,
                lo + dim <= centers@.len(),
                from == nclust * dim + i * dim,
                around@.len() == dim,
                forall|k: int|
                    0 <= k < dim ==> #[trigger] around@[k] == sample_at(*g, x, (from + k) as nat),
                centers@.len() == nclust * dim,
                forall|k: int|
                    0 <= k < nclust * dim ==> #[trigger] centers@[k] == sample_at(*g, x, k as nat),
                before.len() == i * dim,
                out@.len() == before.len() + j,
                forall|k: int| 0 <= k < before.len() ==> #[trigger] out@[k] == before[k],
                forall|k: int|
                    0 <= k < j ==> #[trigger] out@[before.len() + k] == clustered_at(
                        i as nat,
                        k,
                        dim as nat,
                        nclust as nat,
                        x,
                        *g,
                        *spread,
                        *plus,
                    ),
            decreases dim - j,
        {
            assert(centers.len() == centers@.len());
            let center = apply(spread, centers[lo + j]);
            out.push(add_up(plus, center, around[j]));
            j = j + 1;
        }
        assert forall|v: int, j: int| 0 <= v < i + 1 && 0 <= j < dim implies #[trigger] row(
            out@,
            dim as nat,
            v,
        )[j] == clustered_at(
            v as nat,
            j,
            dim as nat,
            nclust as nat,
            x,
            *g,
            *spread,
            *plus,
        ) by {
            lemma_row_bounds(dim as nat, (i + 1) as nat, v, out@.len());
            if v < i {
                lemma_row_bounds(dim as nat, i as nat, v, before.len());
                assert(row(out@, dim as nat, v)[j] == row(before, dim as nat, v)[j]);
            } else {
                assert(row(out@, dim as nat, v)[j] == out@[before.len() + j]);
            }
        }
        i = i + 1;
    }
    proof {
        let c = clustered_corpus(
            n as nat,
            dim as nat,
            nclust as nat,
            x,
            *g,
            *spread,
            *plus,
        );
        assert forall|p: int| 0 <= p < n * dim implies #[trigger] out@[p] == c[p] by {
            lemma_at(out@, dim as nat, n as nat, p);
            let (v, j) = (p / dim as int, p % dim as int);
            assert(row(out@, dim as nat, v)[j] == out@[p]);
        }
        assert(out@ =~= c);
    }
    out
}

/// Place `i * dim + j` of some rows stands in row `i`, at `j`.
proof fn lemma_place(i: int, j: int, dim: nat, n: nat)
    requires
        0 <= i < n,
        0 <= j < dim,
    ensures
        0 <= i * dim + j < n * dim,
        (i * dim + j) / (dim as int) == i,
        (i * dim + j) % (dim as int) == j,
{
    let d = dim as int;
    assert(0 <= i * d + j < n * d) by (nonlinear_arith)
        requires
            0 <= i < n,
            0 <= j < d,
    ;
    lemma_fundamental_div_mod_converse(i * d + j, d, i, j);
}

/// A corpus of low rank is a product of two matrices: where multiplying and adding is
/// exact, element `j` of vector `i` is the normed sum, over the coordinates of the latent
/// vector of `i`, of each times its row of one projection that all vectors share.
pub proof fn law_lowrank_is_a_product<
    K,
    G: Fn(u32, u32) -> K,
    F: Fn(K, K, K) -> K,
    N: Fn(K) -> K,
>(
    n: nat,
    dim: nat,
    rank: nat,
    x: u64,
    zero: K,
    g: G,
    muladd: F,
    norm: N,
    val: spec_fn(K) -> int,
    prod: spec_fn(K, K) -> int,
    i: int,
    j: int,
)
    requires
        0 <= i < n,
        0 <= j < dim,
        val(zero) == 0,
        forall|s: K, a: K, b: K| val(#[trigger] fold_of(muladd, s, a, b)) == val(s) + prod(a, b),
    ensures
        ({
            let c = lowrank_corpus(n, dim, rank, x, zero, g, muladd, norm);
            let latent = |t: int| sample_at(g, x, (rank * dim + i * rank + t) as nat);
            let projection = |t: int| sample_at(g, x, (t * dim + j) as nat);
            &&& c.len() == n * dim
            &&& exists|y: K| #[trigger]
                map_of(norm, y) == c[i * dim + j] && val(y) == total(
                    |t: int| prod(latent(t), projection(t)),
                    rank,
                )
        }),
{
    let c = lowrank_corpus(n, dim, rank, x, zero, g, muladd, norm);
    let latent = |t: int| sample_at(g, x, (rank * dim + i * rank + t) as nat);
    let projection = |t: int| sample_at(g, x, (t * dim + j) as nat);
    let term = |t: int| prod(latent(t), projection(t));
    let from = rank * dim + (i as nat) * rank;
    assert((i as nat) * rank == i * rank);
    let h = projected(g, x, from, dim, j, muladd);
    let y = lane(h, zero, 0, 1, rank);
    lemma_place(i, j, dim, n);
    assert forall|s: K, t: int| 0 <= t < rank implies val(#[trigger] h(s, t)) == val(s) + term(t) by {
        assert(h(s, t) == fold_of(muladd, s, latent(t), projection(t)));
    }
    lemma_adds_up(h, zero, val, term, rank);
    assert(map_of(norm, y) == c[i * dim + j]);
}

/// Steps that add one term each add up to the sum of the terms.
pub(crate) proof fn lemma_adds_up<K>(
    h: spec_fn(K, int) -> K,
    zero: K,
    val: spec_fn(K) -> int,
    term: spec_fn(int) -> int,
    n: nat,
)
    requires
        val(zero) == 0,
        forall|s: K, t: int| 0 <= t < n ==> val(#[trigger] h(s, t)) == val(s) + term(t),
    ensures
        val(lane(h, zero, 0, 1, n)) == total(term, n),
    decreases n,
{
    if n > 0 {
        lemma_adds_up(h, zero, val, term, (n - 1) as nat);
        let s = lane(h, zero, 0, 1, (n - 1) as nat);
        assert(0 + (n - 1) * 1 == n - 1);
        assert(val(h(s, n - 1)) == val(s) + term(n - 1));
    }
}

/// The vectors of a clustered corpus lie around the centres in turn: element `j` of vector
/// `i` is that of centre `i % nclust` with a sample of its own added, so that two vectors
/// that are `nclust` apart lie around one centre.
pub proof fn law_clustered_around_centres<
    K,
    G: Fn(u32, u32) -> K,
    N: Fn(K) -> K,
    P: Fn(K, K) -> K,
>(n: nat, dim: nat, nclust: nat, x: u64, g: G, spread: N, plus: P, i: int, j: int)
    requires
        0 <= i < n,
        0 <= j < dim,
        nclust > 0,
    ensures
        ({
            let c = clustered_corpus(n, dim, nclust, x, g, spread, plus);
            let centre = |k: int| map_of(spread, sample_at(g, x, (k * dim + j) as nat));
            let own = |v: int| sample_at(g, x, (nclust * dim + v * dim + j) as nat);
            &&& c.len() == n * dim
            &&& c[i * dim + j] == sum_of(plus, centre(i % nclust as int), own(i))
            &&& i + nclust < n ==> c[(i + nclust) * dim + j] == sum_of(
                plus,
                centre(i % nclust as int),
                own(i + nclust),
            )
        }),
{
    lemma_place(i, j, dim, n);
    assert((i as nat % nclust) as int == i % nclust as int);
    if i + nclust < n {
        lemma_place(i + nclust, j, dim, n);
        lemma_mod_add_multiples_vanish(i, nclust as int);
        assert((nclust + i) % nclust as int == i % nclust as int);
        assert(((i + nclust) as nat % nclust) as int == i % nclust as int);
    }
}

/// Of two corpora of low rank from one seed, the shorter is the first part of the
/// longer.
pub proof fn law_lowrank_prefix<
    K,
    G: Fn(u32, u32) -> K,
    F: Fn(K, K, K) -> K,
    N: Fn(K) -> K,
>(a: nat, b: nat, dim: nat, rank: nat, x: u64, zero: K, g: G, muladd: F, norm: N)
    requires
        a <= b,
    ensures
        a * dim <= b * dim,
        lowrank_corpus(a, dim, rank, x, zero, g, muladd, norm) == lowrank_corpus(
            b,
            dim,
            rank,
            x,
            zero,
            g,
            muladd,
            norm,
        ).take((a * dim) as int),
{
    assert(a * dim <= b * dim) by (nonlinear_arith)
        requires
            a <= b,
    ;
    let s = lowrank_corpus(a, dim, rank, x, zero, g, muladd, norm);
    let t = lowrank_corpus(b, dim, rank, x, zero, g, muladd, norm);
    assert(s =~= t.take((a * dim) as int));
}

/// The same of clustered corpora.
pub proof fn law_clustered_prefix<K, G: Fn(u32, u32) -> K, N: Fn(K) -> K, P: Fn(K, K) -> K>(
    a: nat,
    b: nat,
    dim: nat,
    nclust: nat,
    x: u64,
    g: G,
    spread: N,
    plus: P,
)
    requires
        a <= b,
    ensures
        a * dim <= b * dim,
        clustered_corpus(a, dim, nclust, x, g, spread, plus) == clustered_corpus(
            b,
            dim,
            nclust,
            x,
            g,
            spread,
            plus,
        ).take((a * dim) as int),
{
    assert(a * dim <= b * dim) by (nonlinear_arith)
        requires
            a <= b,
    ;
    let s = clustered_corpus(a, dim, nclust, x, g, spread, plus);
    let t = clustered_corpus(b, dim, nclust, x, g, spread, plus);
    assert(s =~= t.take((a * dim) as int));
}

/// An even seed and the odd one that follows it start the same stream, and that stream
/// never stands still at zero.
pub proof fn law_seed(seed: u64)
    ensures
        (seed | 1) | 1 == seed | 1,
        seed % 2 == 0 ==> seed | 1 == seed + 1,
        seed | 1 != 0,
{
    assert((seed | 1) | 1 == seed | 1) by (bit_vector);
    assert(seed % 2 == 0 ==> seed | 1 == seed + 1) by (bit_vector);
    assert(seed | 1 != 0) by (bit_vector);
}

/// Multiplication by a number that has an inverse tells numbers apart.
pub(crate) proof fn lemma_times(x: u64, y: u64, p: u64, inverse: u64)
    requires
        (p * inverse) % 0x1_0000_0000_0000_0000 == 1,
        x.wrapping_mul(p) == y.wrapping_mul(p),
    ensures
        x == y,
{
    let m = 0x1_0000_0000_0000_0000int;
    assert forall|z: u64| z == ((z.wrapping_mul(p) as int) * inverse) % m by {
        let w = z * p;
        assert(z.wrapping_mul(p) == w % m);
        lemma_mul_mod_noop_left(w, inverse as int, m);
        assert(w * inverse == z * (p * inverse)) by (nonlinear_arith)
            requires
                w == z * p,
        ;
        lemma_mul_mod_noop_right(z as int, p * inverse, m);
        assert(z * 1 == z);
        assert((z as int) % m == z);
    }
    assert(x == ((x.wrapping_mul(p) as int) * inverse) % m);
    assert(y == ((y.wrapping_mul(p) as int) * inverse) % m);
}

/// Different states stand for different numbers, and the number of a sum of states is the
/// sum of theirs.
pub proof fn law_output(x: u64, y: u64)
    ensures
        output(x) == output(y) ==> x == y,
        output(x.wrapping_add(y)) == output(x).wrapping_add(output(y)),
{
    let p = 0x2545F491_4F6CDD1Du64;
    let m = 0x1_0000_0000_0000_0000int;
    assert((0x2545F491_4F6CDD1D * 0x59071d96d81ecd35) % 0x1_0000_0000_0000_0000 == 1) by (nonlinear_arith);
    if output(x) == output(y) {
        lemma_times(x, y, p, 0x59071d96d81ecd35);
    }
    assert(x.wrapping_add(y) == (x + y) % m);
    assert(output(x.wrapping_add(y)) == (x.wrapping_add(y) * p) % m);
    lemma_mul_mod_noop_left(x + y, p as int, m);
    assert((x + y) * p == x * p + y * p) by (nonlinear_arith);
    assert(output(x) == (x * p) % m);
    assert(output(y) == (y * p) % m);
    lemma_add_mod_noop(x * p, y * p, m);
}

/// What follows the bitwise difference of two states is the difference of what follows
/// them.
pub proof fn law_scramble_keeps_differences(x: u64, y: u64)
    ensures
        scramble(x ^ y) == scramble(x) ^ scramble(y),
{
    let z = x ^ y;
    let (a, b, c) = (x ^ (x >> 12), y ^ (y >> 12), z ^ (z >> 12));
    assert(c == a ^ b) by (bit_vector)
        requires
            z == x ^ y,
            a == x ^ (x >> 12),
            b == y ^ (y >> 12),
            c == z ^ (z >> 12),
    ;
    let (d, e, f) = (a ^ (a << 25), b ^ (b << 25), c ^ (c << 25));
    assert(f == d ^ e) by (bit_vector)
        requires
            c == a ^ b,
            d == a ^ (a << 25),
            e == b ^ (b << 25),
            f == c ^ (c << 25),
    ;
    assert(f ^ (f >> 27) == (d ^ (d >> 27)) ^ (e ^ (e >> 27))) by (bit_vector)
        requires
            f == d ^ e,
    ;
}

/// A stream that starts at a state other than zero never comes to zero.
pub proof fn law_never_zero(x: u64)
    requires
        x != 0,
    ensures
        scramble(x) != 0,
{
    assert(({
        let a = x ^ (x >> 12);
        let b = a ^ (a << 25);
        b ^ (b >> 27)
    }) != 0) by (bit_vector)
        requires
            x != 0,
    ;
}

/// From different states the stream goes on to different states.
pub proof fn law_injective(x: u64, y: u64)
    requires
        scramble(x) == scramble(y),
    ensures
        x == y,
{
    let a = x ^ (x >> 12);
    let b = a ^ (a << 25);
    let c = y ^ (y >> 12);
    let d = c ^ (c << 25);
    assert(b == d) by (bit_vector)
        requires
            b ^ (b >> 27) == d ^ (d >> 27),
    ;
    assert(a == c) by (bit_vector)
        requires
            a ^ (a << 25) == c ^ (c << 25),
    ;
    assert(x == y) by (bit_vector)
        requires
            x ^ (x >> 12) == y ^ (y >> 12),
    ;
}

} // verus!
