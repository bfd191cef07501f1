//! Product quantization: each vector is cut into `m` subvectors, and each
//! subvector is stored as the number of the nearest row of a codebook.

use rayon::prelude::{
    IndexedParallelIterator, IntoParallelIterator, ParallelIterator, ParallelSliceMut,
};
use vstd::arithmetic::div_mod::lemma_fundamental_div_mod_converse;
use vstd::prelude::*;

use crate::beam::Oracle;
use crate::dist::{add_up, adds, lane, reduce16, sum16, sum_of};
use crate::exact::{
    adds_exactly, law_sixteen_lanes, law_sixteen_lanes_within, none_negative, steps_within, total,
};
use crate::kmeans::{
    averages, codebook, first_min, kmeans_subspace, law_first_min, nearest_row, row_keys,
};
use crate::learning::{
    gathers, law_training_rows, learns_subspace, lemma_row_behind, nearest_is,
};
use crate::metric::{
    dist_of, holds_rows, lemma_row_bounds, measure, measures, push_all, row, row_of,
};
use crate::rising::{adds_rising, adds_within, apart, law_lane_within, law_rising_lanes, ranked};

verus! {

/// A trained product quantizer and the codes of a corpus.
pub struct Pq<T> {
    /// Subvectors per vector.
    pub m: usize,
    /// Elements per subvector.
    pub dsub: usize,
    /// Rows per codebook.
    pub ksub: usize,
    pub dim: usize,
    /// The codebooks, one after the other.
    pub centroids: Vec<T>,
    /// The codes, `m` bytes per vector.
    pub codes: Vec<u8>,
    pub n: usize,
}

/// The number of the row of codebook `j` that is nearest to subvector `j` of `v`.
pub open spec fn digit<T, D: Fn(&[T], &[T]) -> u32>(pq: Pq<T>, f: D, v: Seq<T>, j: int) -> nat {
    first_min(
        row_keys(f, row(v, pq.dsub as nat, j), pq.centroids@, pq.dsub as nat, j * pq.ksub),
        pq.ksub as nat,
    )
}

/// The code of a vector.
pub open spec fn encoding<T, D: Fn(&[T], &[T]) -> u32>(pq: Pq<T>, f: D, v: Seq<T>) -> Seq<u8> {
    Seq::new(pq.m as nat, |j: int| digit(pq, f, v, j) as u8)
}

/// Training rows for subspace `j`: subvector `j` of every `stride`-th vector.
pub open spec fn sampled<T>(
    data: Seq<T>,
    dim: nat,
    dsub: nat,
    j: int,
    stride: nat,
    t: nat,
) -> Seq<T>
    decreases t,
{
    if t == 0 {
        Seq::empty()
    } else {
        sampled(data, dim, dsub, j, stride, (t - 1) as nat) + row(
            row(data, dim, (t - 1) * stride),
            dsub,
            j,
        )
    }
}

/// How many vectors training looks at.
pub open spec fn train_len(n: nat, max_train: nat) -> nat {
    if n <= max_train {
        n
    } else {
        max_train
    }
}

/// How far apart the vectors lie that training looks at.
pub open spec fn train_stride(n: nat, nt: nat) -> nat {
    if n / nt >= 1 {
        n / nt
    } else {
        1
    }
}

/// The codebook of subspace `j`.
pub open spec fn subspace<T, D: Fn(&[T], &[T]) -> u32, M: Fn(&[T], &[usize]) -> Vec<T>>(
    f: D,
    mean: M,
    data: Seq<T>,
    dim: nat,
    m: nat,
    iters: nat,
    max_train: nat,
    seed: u64,
    j: int,
) -> Seq<T> {
    let n = data.len() / dim;
    let nt = train_len(n, max_train);
    let dsub = dim / m;
    codebook(
        f,
        mean,
        sampled(data, dim, dsub, j, train_stride(n, nt), nt),
        dsub,
        nt,
        256,
        iters,
        seed ^ (j + 1) as u64,
    )
}

/// The codebooks of the first `j` subspaces, one after the other.
pub open spec fn books<T, D: Fn(&[T], &[T]) -> u32, M: Fn(&[T], &[usize]) -> Vec<T>>(
    f: D,
    mean: M,
    data: Seq<T>,
    dim: nat,
    m: nat,
    iters: nat,
    max_train: nat,
    seed: u64,
    j: nat,
) -> Seq<T>
    decreases j,
{
    if j == 0 {
        Seq::empty()
    } else {
        books(f, mean, data, dim, m, iters, max_train, seed, (j - 1) as nat) + subspace(
            f,
            mean,
            data,
            dim,
            m,
            iters,
            max_train,
            seed,
            j - 1,
        )
    }
}

/// What training makes of a corpus.
pub open spec fn trained<T, D: Fn(&[T], &[T]) -> u32, M: Fn(&[T], &[usize]) -> Vec<T>>(
    r: Pq<T>,
    f: D,
    mean: M,
    data: Seq<T>,
    dim: nat,
    m: nat,
    iters: nat,
    max_train: nat,
    seed: u64,
) -> bool {
    &&& r.wf()
    &&& r.m == m
    &&& r.dim == dim
    &&& r.dsub == dim / m
    &&& r.ksub == 256
    &&& r.n == data.len() / dim
    &&& r.centroids@ == books(f, mean, data, dim, m, iters, max_train, seed, m)
    &&& forall|i: int|
        0 <= i < r.n ==> #[trigger] row(r.codes@, m, i) == encoding(r, f, row(data, dim, i))
}

/// What a quantizer that was trained on a corpus has learnt: codebook `j` from subvector
/// `j` of at most `max_train` vectors that lie evenly over the corpus, and for each vector
/// and each subspace the number of the row that is nearest to the subvector.
pub open spec fn learnt<T, D: Fn(&[T], &[T]) -> u32, M: Fn(&[T], &[usize]) -> Vec<T>>(
    r: Pq<T>,
    f: D,
    mean: M,
    data: Seq<T>,
    dim: nat,
    m: nat,
    iters: nat,
    max_train: nat,
    seed: u64,
) -> bool {
    let n = data.len() / dim;
    let dsub = dim / m;
    let nt = if n <= max_train {
        n
    } else {
        max_train
    };
    &&& r.centroids@.len() == (m * 256) * dsub
    &&& r.codes@.len() == n * m
    &&& forall|j: int|
        0 <= j < m ==> learns_subspace(
            f,
            mean,
            data,
            dim,
            dsub,
            j,
            n / nt,
            nt,
            iters,
            seed,
            #[trigger] row(r.centroids@, 256 * dsub, j),
        )
    &&& forall|i: int, j: int|
        0 <= i < n && 0 <= j < m ==> nearest_is(
            f,
            data.subrange(i * dim + j * dsub, i * dim + j * dsub + dsub),
            #[trigger] row(r.centroids@, 256 * dsub, j),
            dsub,
            256,
            (#[trigger] row(r.codes@, m, i))[j] as int,
        )
}

/// Several vectors, one after the other.
pub open spec fn concat<T>(parts: Seq<Vec<T>>) -> Seq<T>
    decreases parts.len(),
{
    if parts.len() == 0 {
        Seq::empty()
    } else {
        concat(parts.drop_last()) + parts.last()@
    }
}

/// Calls `into_par_iter`, `flat_map_iter` and `collect` of rayon on `0..m`: `f` is
/// called once for each number, in any order and on any thread, and the results
/// are put one after the other in the order of the numbers.
#[verifier::external_body]
fn par_concat<T: Send, F: Fn(usize) -> Vec<T> + Sync + Send>(m: usize, f: F) -> (r: Vec<T>)
    requires
        forall|j: usize| j < m ==> #[trigger] call_requires(f, (j,)),
    ensures
        exists|parts: Seq<Vec<T>>|
            #![trigger concat(parts)]
            parts.len() == m && r@ == concat(parts) && forall|j: int|
                0 <= j < m ==> call_ensures(f, (j as usize,), #[trigger] parts[j]),
{
    (0..m).into_par_iter().flat_map_iter(f).collect()
}

/// Calls `par_chunks_mut`, `enumerate` and `for_each` of rayon: the codes are cut
/// into pieces of `pq.m` bytes, and piece `i` is handed to `encode_row` with its
/// number, each exactly once, in any order and on any thread. So every piece ends
/// as `encode_row` leaves it.
#[verifier::external_body]
fn par_encode<T: Sync, D: Fn(&[T], &[T]) -> u32 + Sync>(
    pq: &Pq<T>,
    data: &[T],
    codes: &mut Vec<u8>,
    dist: &D,
    n: usize,
)
    requires
        pq.book_wf(),
        pq.m > 0,
        measures(*dist),
        holds_rows(data@, pq.dim as nat, n as nat),
        old(codes)@.len() == n * pq.m,
    ensures
        final(codes)@.len() == n * pq.m,
        forall|i: int|
            0 <= i < n ==> #[trigger] row(final(codes)@, pq.m as nat, i) == encoding(
                *pq,
                *dist,
                row(data@, pq.dim as nat, i),
            ),
{
    codes.par_chunks_mut(pq.m).enumerate().for_each(|(i, out)| encode_row(pq, data, i, out, dist));
}

/// Write the code of row `i` of `data` to `out`.
fn encode_row<T, D: Fn(&[T], &[T]) -> u32>(
    pq: &Pq<T>,
    data: &[T],
    i: usize,
    out: &mut [u8],
    dist: &D,
)
    requires
        pq.book_wf(),
        measures(*dist),
        (i + 1) * pq.dim <= data@.len(),
        old(out)@.len() == pq.m,
    ensures
        final(out)@ == encoding(*pq, *dist, row(data@, pq.dim as nat, i as int)),
{
    pq.encode_into(row_of(data, pq.dim, i), out, dist);
    assert(out@ =~= encoding(*pq, *dist, row(data@, pq.dim as nat, i as int)));
}

impl<T> Pq<T> {
    /// The codebooks are there, and they have the size that the rest says.
    pub open spec fn book_wf(&self) -> bool {
        &&& self.m * self.dsub == self.dim
        &&& self.ksub <= 256
        &&& self.m * self.ksub <= usize::MAX
        &&& self.centroids@.len() == (self.m * self.ksub) * self.dsub
    }

    /// There is a code for each vector, and every byte of it names a row of its
    /// codebook.
    pub open spec fn wf(&self) -> bool {
        &&& self.book_wf()
        &&& self.codes@.len() == self.n * self.m
        &&& forall|x: int| 0 <= x < self.codes@.len() ==> #[trigger] self.codes@[x] < self.ksub
    }

    proof fn lemma_book(&self, j: int)
        requires
            self.book_wf(),
            0 <= j < self.m,
        ensures
            0 <= j * self.ksub,
            j * self.ksub + self.ksub <= self.m * self.ksub,
            (j * self.ksub + self.ksub) * self.dsub <= self.centroids@.len(),
            (j + 1) * self.dsub <= self.dim,
    {
        let (m, k, d) = (self.m as int, self.ksub as int, self.dsub as int);
        assert(0 <= j * k && j * k + k <= m * k && (j + 1) * d <= m * d) by (nonlinear_arith)
            requires
                0 <= j < m,
                0 <= k,
                0 <= d,
        ;
        assert((j * k + k) * d <= (m * k) * d) by (nonlinear_arith)
            requires
                j * k + k <= m * k,
                0 <= d,
        ;
    }

    /// Write the code of `v` to the first `m` bytes of `out`.
    pub fn encode_into<D: Fn(&[T], &[T]) -> u32>(&self, v: &[T], out: &mut [u8], dist: &D)
        requires
            self.book_wf(),
            measures(*dist),
            self.dim <= v@.len(),
            self.m <= old(out)@.len(),
        ensures
            final(out)@ == encoding(*self, *dist, v@) + old(out)@.skip(self.m as int),
    {
        let ghost prior = out@;
        let mut j: usize = 0;
        while j < self.m
            invariant
                self.book_wf(),
                measures(*dist),
                self.dim <= v@.len(),
                j <= self.m <= prior.len() == out@.len(),
                forall|x: int| 0 <= x < j ==> #[trigger] out@[x] == digit(*self, *dist, v@, x) as u8,
                forall|x: int| j <= x < out@.len() ==> #[trigger] out@[x] == prior[x],
            decreases self.m - j,
        {
            proof {
                self.lemma_book(j as int);
            }
            let sv = row_of(v, self.dsub, j);
            let lo: usize = j * self.ksub;
            let bi = nearest_row(dist, sv, &self.centroids, self.dsub, lo, self.ksub);
            out[j] = bi as u8;
            j = j + 1;
        }
        assert(out@ =~= encoding(*self, *dist, v@) + prior.skip(self.m as int));
    }

    /// The code of vector `id`.
    pub fn code(&self, id: u32) -> (r: &[u8])
        requires
            (id + 1) * self.m <= self.codes@.len(),
        ensures
            r@ == row(self.codes@, self.m as nat, id as int),
            r@.len() == self.m,
    {
        row_of(&self.codes, self.m, id as usize)
    }

    /// How many bytes the codes take.
    pub fn bytes(&self) -> (r: usize)
        ensures
            r == self.codes@.len(),
    {
        self.codes.len()
    }

    /// How many bytes the codebooks take, at four per element.
    pub fn codebook_bytes(&self) -> (r: usize)
        requires
            self.centroids@.len() * 4 <= usize::MAX,
        ensures
            r == self.centroids@.len() * 4,
    {
        self.centroids.len() * 4
    }

    /// How many bytes the table of a query takes, at four per entry.
    pub fn lut_bytes(&self) -> (r: usize)
        requires
            (self.m * self.ksub) * 4 <= usize::MAX,
        ensures
            r == (self.m * self.ksub) * 4,
    {
        self.m * self.ksub * 4
    }
}

impl<T: Copy + Send + Sync> Pq<T> {
    /// The codes of all vectors of `data`, one after the other.
    pub fn encode_many<D: Fn(&[T], &[T]) -> u32 + Sync>(&self, data: &[T], dist: &D) -> (r: Vec<u8>)
        requires
            self.book_wf(),
            self.dim > 0,
            measures(*dist),
        ensures
            r@.len() == (data@.len() / self.dim as nat) * self.m,
            forall|i: int|
                0 <= i < data@.len() / self.dim as nat ==> #[trigger] row(r@, self.m as nat, i)
                    == encoding(*self, *dist, row(data@, self.dim as nat, i)),
    {
        let n: usize = data.len() / self.dim;
        proof {
            let (len, dim, m, d) = (
                data@.len() as int,
                self.dim as int,
                self.m as int,
                self.dsub as int,
            );
            assert(n * dim <= len && m > 0 && m <= dim && 0 <= n * m <= n * dim)
                by (nonlinear_arith)
                requires
                    n == len / dim,
                    dim > 0,
                    len >= 0,
                    m * d == dim,
                    m >= 0,
                    d >= 0,
            ;
        }
        let mut codes: Vec<u8> = vec![0u8;n * self.m];
        par_encode(self, data, &mut codes, dist, n);
        codes
    }

    /// Train a quantizer on at most `max_train` vectors of `data`, and encode all
    /// of them. `mean` averages training rows.
    pub fn train<
        D: Fn(&[T], &[T]) -> u32 + Sync,
        M: Fn(&[T], &[usize]) -> Vec<T> + Sync,
    >(
        data: &[T],
        dim: usize,
        m: usize,
        iters: usize,
        max_train: usize,
        seed: u64,
        dist: &D,
        mean: &M,
    ) -> (r: Self)
        requires
            m > 0,
            dim > 0,
            dim as nat % m as nat == 0,
            dim <= data@.len(),
            max_train > 0,
            measures(*dist),
            averages(*mean, dim as nat / m as nat),
        ensures
            trained(
                r,
                *dist,
                *mean,
                data@,
                dim as nat,
                m as nat,
                iters as nat,
                max_train as nat,
                seed,
            ),
            learnt(
                r,
                *dist,
                *mean,
                data@,
                dim as nat,
                m as nat,
                iters as nat,
                max_train as nat,
                seed,
            ),
    {
        let dsub: usize = dim / m;
        let ksub: usize = 256;
        let n: usize = data.len() / dim;
        proof {
            let (len, d0) = (data@.len() as int, dim as int);
            assert(len / d0 >= 1 && (len / d0) * d0 <= len) by (nonlinear_arith)
                requires
                    d0 > 0,
                    len >= d0,
            ;
            let m0 = m as int;
            assert(m0 * (d0 / m0) == d0 && d0 / m0 > 0) by (nonlinear_arith)
                requires
                    m0 > 0,
                    d0 > 0,
                    d0 % m0 == 0,
            ;
        }
        let nt: usize = if n <= max_train {
            n
        } else {
            max_train
        };
        let mut stride: usize = n / nt;
        if stride < 1 {
            stride = 1;
        }
        proof {
            let (a, b) = (n as int, nt as int);
            assert(b * (a / b) <= a && a / b >= 1) by (nonlinear_arith)
                requires
                    0 < b <= a,
            ;
        }
        let one = |j: usize| -> (book: Vec<T>)
            requires
                j < m,
            ensures
                book@ == subspace(
                    *dist,
                    *mean,
                    data@,
                    dim as nat,
                    m as nat,
                    iters as nat,
                    max_train as nat,
                    seed,
                    j as int,
                ),
                book@.len() == ksub * dsub,
                learns_subspace(
                    *dist,
                    *mean,
                    data@,
                    dim as nat,
                    dsub as nat,
                    j as int,
                    stride as nat,
                    nt as nat,
                    iters as nat,
                    seed,
                    book@,
                ),
            {
                let tr = sample(data, dim, dsub, m, j, stride, nt, n);
                kmeans_subspace(dist, mean, &tr, nt, dsub, ksub, iters, seed ^ (j as u64 + 1))
            };
        let centroids = par_concat(m, one);
        proof {
            let parts = choose|parts: Seq<Vec<T>>|
                #![trigger concat(parts)]
                parts.len() == m && centroids@ == concat(parts) && forall|j: int|
                    0 <= j < m ==> call_ensures(one, (j as usize,), #[trigger] parts[j]);
            assert forall|j: int| 0 <= j < m implies (#[trigger] parts[j])@ == subspace(
                *dist,
                *mean,
                data@,
                dim as nat,
                m as nat,
                iters as nat,
                max_train as nat,
                seed,
                j,
            ) && parts[j]@.len() == ksub * dsub && learns_subspace(
                *dist,
                *mean,
                data@,
                dim as nat,
                dsub as nat,
                j,
                stride as nat,
                nt as nat,
                iters as nat,
                seed,
                parts[j]@,
            ) by {
                assert(call_ensures(one, (j as usize,), parts[j]));
            }
            assert forall|j: int| 0 <= j < m implies (#[trigger] row(
                centroids@,
                (ksub * dsub) as nat,
                j,
            )) == parts[j]@ by {
                lemma_part(parts, (ksub * dsub) as nat, j);
            }
            lemma_books(
                *dist,
                *mean,
                data@,
                dim as nat,
                m as nat,
                iters as nat,
                max_train as nat,
                seed,
                parts,
                (ksub * dsub) as nat,
            );
            assert(m * (ksub * dsub) == (m * ksub) * dsub) by (nonlinear_arith);
            assert(centroids.len() == centroids@.len());
            assert(m * ksub <= (m * ksub) * dsub) by (nonlinear_arith)
                requires
                    dsub >= 1,
                    m * ksub >= 0,
            ;
        }
        let mut pq = Pq { m, dsub, ksub, dim, centroids, codes: Vec::new(), n };
        let ghost bare_pq = pq;
        let codes = pq.encode_many(data, dist);
        proof {
            assert forall|x: int| 0 <= x < codes@.len() implies #[trigger] codes@[x] < ksub by {
            }
        }
        pq.codes = codes;
        proof {
            assert forall|i: int| 0 <= i < pq.n implies #[trigger] row(pq.codes@, m as nat, i)
                == encoding(pq, *dist, row(data@, dim as nat, i)) by {
                assert(encoding(pq, *dist, row(data@, dim as nat, i)) =~= encoding(
                    bare_pq,
                    *dist,
                    row(data@, dim as nat, i),
                ));
            }
        }
        proof {
            assert forall|j: int| 0 <= j < m implies learns_subspace(
                *dist,
                *mean,
                data@,
                dim as nat,
                dsub as nat,
                j,
                stride as nat,
                nt as nat,
                iters as nat,
                seed,
                #[trigger] row(pq.centroids@, (ksub * dsub) as nat, j),
            ) by {
                assert(pq.centroids@ == bare_pq.centroids@);
            }
            assert forall|i: int, j: int| 0 <= i < n && 0 <= j < m implies nearest_is(
                *dist,
                data@.subrange(i * dim + j * dsub, i * dim + j * dsub + dsub),
                #[trigger] row(pq.centroids@, (ksub * dsub) as nat, j),
                dsub as nat,
                256,
                (#[trigger] row(pq.codes@, m as nat, i))[j] as int,
            ) by {
                lemma_row_bounds(dim as nat, n as nat, i, data@.len());
                lemma_row_bounds(dsub as nat, m as nat, j, dim as nat);
                let v = row(data@, dim as nat, i);
                assert(row(v, dsub as nat, j) =~= data@.subrange(
                    i * dim + j * dsub,
                    i * dim + j * dsub + dsub,
                ));
                assert(row(pq.codes@, m as nat, i) == encoding(pq, *dist, v));
                lemma_digit_is_nearest(pq, *dist, v, j);
            }
        }
        pq
    }
}

/// The digit of a subvector is the nearest row of its codebook.
proof fn lemma_digit_is_nearest<T, D: Fn(&[T], &[T]) -> u32>(pq: Pq<T>, f: D, v: Seq<T>, j: int)
    requires
        pq.book_wf(),
        pq.ksub == 256,
        0 <= j < pq.m,
    ensures
        digit(pq, f, v, j) < 256,
        nearest_is(
            f,
            row(v, pq.dsub as nat, j),
            row(pq.centroids@, (256 * pq.dsub) as nat, j),
            pq.dsub as nat,
            256,
            digit(pq, f, v, j) as int,
        ),
{
    let d = pq.dsub as nat;
    let u = row(v, d, j);
    let book = row(pq.centroids@, 256 * d, j);
    let key = row_keys(f, u, pq.centroids@, d, j * pq.ksub);
    law_first_min(key, 256);
    let h = first_min(key, 256) as int;
    pq.lemma_book(j);
    assert(0 <= j * (256 * d) && j * (256 * d) == (j * 256) * d && (j + 1) * (256 * d) == (j * 256
        + 256) * d && (j + 1) * (256 * d) == j * (256 * d) + 256 * d) by (nonlinear_arith)
        requires
            0 <= j,
            0 <= d,
    ;
    assert(book.len() == 256 * d);
    assert forall|x: int| 0 <= x < 256 implies key(x) == dist_of(f, u, #[trigger] row(book, d, x)) by {
        lemma_row_bounds(d, 256, x, book.len());
        assert((j * 256 + x) * d == (j * 256) * d + x * d && (j * 256 + x + 1) * d == (j * 256) * d
            + (x + 1) * d) by (nonlinear_arith);
        assert(row(book, d, x) =~= row(pq.centroids@, d, j * 256 + x));
    }
    assert forall|x: int| 0 <= x < 256 implies dist_of(f, u, row(book, d, h)) <= dist_of(
        f,
        u,
        #[trigger] row(book, d, x),
    ) && (x < h ==> dist_of(f, u, row(book, d, h)) != dist_of(f, u, row(book, d, x))) by {
        assert(key(h) == dist_of(f, u, row(book, d, h)));
        assert(key(h) <= key(x));
        if x < h {
            assert(key(h) < key(x));
        }
    }
}

/// Part `j` of several parts of one length.
proof fn lemma_part<T>(parts: Seq<Vec<T>>, len: nat, j: int)
    requires
        0 <= j < parts.len(),
        forall|i: int| 0 <= i < parts.len() ==> (#[trigger] parts[i])@.len() == len,
    ensures
        concat(parts).len() == parts.len() * len,
        row(concat(parts), len, j) == parts[j]@,
    decreases parts.len(),
{
    let t = parts.drop_last();
    let c = t.len();
    assert forall|i: int| 0 <= i < t.len() implies (#[trigger] t[i])@.len() == len by {
        assert(t[i] == parts[i]);
    }
    if c > 0 {
        lemma_part(t, len, if j < c {
            j
        } else {
            0
        });
    } else {
        assert(c * len == 0) by (nonlinear_arith)
            requires
                c == 0,
        ;
    }
    assert(parts.last()@.len() == len) by {
        assert(parts[parts.len() - 1]@.len() == len);
    }
    lemma_row_behind(concat(t), parts.last()@, len, c);
}

/// Gather the training rows of one subspace.
fn sample<T: Copy>(
    data: &[T],
    dim: usize,
    dsub: usize,
    m: usize,
    j: usize,
    stride: usize,
    nt: usize,
    n: usize,
) -> (tr: Vec<T>)
    requires
        m * dsub == dim,
        j < m,
        holds_rows(data@, dim as nat, n as nat),
        nt * stride <= n,
        stride >= 1,
    ensures
        tr@ == sampled(data@, dim as nat, dsub as nat, j as int, stride as nat, nt as nat),
        tr@.len() == nt * dsub,
        gathers(data@, dim as nat, dsub as nat, j as int, stride as nat, nt as nat, tr@),
{
    proof {
        law_training_rows(
            data@,
            dim as nat,
            dsub as nat,
            m as nat,
            j as int,
            stride as nat,
            nt as nat,
            n as nat,
        );
    }
    let mut tr: Vec<T> = Vec::new();
    let mut t: usize = 0;
    while t < nt
        invariant
            m * dsub == dim,
            j < m,
            holds_rows(data@, dim as nat, n as nat),
            nt * stride <= n,
            stride >= 1,
            t <= nt,
            tr@ == sampled(data@, dim as nat, dsub as nat, j as int, stride as nat, t as nat),
            tr@.len() == t * dsub,
        decreases nt - t,
    {
        proof {
            let (a, b, c) = (t as int, nt as int, stride as int);
            assert(0 <= a * c < b * c) by (nonlinear_arith)
                requires
                    0 <= a < b,
                    c >= 1,
            ;
            lemma_row_bounds(dim as nat, n as nat, t * stride, data@.len());
            lemma_row_bounds(dsub as nat, m as nat, j as int, dim as nat);
            assert((t + 1) * dsub == t * dsub + dsub) by (nonlinear_arith);
        }
        let v = row_of(data, dim, t * stride);
        let sv = row_of(v, dsub, j);
        push_all(&mut tr, sv);
        t = t + 1;
    }
    tr
}

proof fn lemma_books<T, D: Fn(&[T], &[T]) -> u32, M: Fn(&[T], &[usize]) -> Vec<T>>(
    f: D,
    mean: M,
    data: Seq<T>,
    dim: nat,
    m: nat,
    iters: nat,
    max_train: nat,
    seed: u64,
    parts: Seq<Vec<T>>,
    len: nat,
)
    requires
        forall|j: int|
            0 <= j < parts.len() ==> (#[trigger] parts[j])@ == subspace(
                f,
                mean,
                data,
                dim,
                m,
                iters,
                max_train,
                seed,
                j,
            ) && parts[j]@.len() == len,
    ensures
        concat(parts) == books(f, mean, data, dim, m, iters, max_train, seed, parts.len()),
        concat(parts).len() == parts.len() * len,
    decreases parts.len(),
{
    if parts.len() > 0 {
        let t = parts.drop_last();
        assert forall|j: int| 0 <= j < t.len() implies (#[trigger] t[j])@ == subspace(
            f,
            mean,
            data,
            dim,
            m,
            iters,
            max_train,
            seed,
            j,
        ) && t[j]@.len() == len by {
            assert(t[j] == parts[j]);
        }
        lemma_books(f, mean, data, dim, m, iters, max_train, seed, t, len);
        let last = parts[parts.len() - 1];
        assert(last@.len() == len);
        assert((t.len() + 1) * len == t.len() * len + len) by (nonlinear_arith);
    } else {
        assert(parts.len() * len == 0) by (nonlinear_arith)
            requires
                parts.len() == 0,
        ;
    }
}

/// The table of a query: entry `j * ksub + c` is the distance of its subvector `j`
/// from row `c` of codebook `j`.
pub open spec fn table<T, K, S: Fn(&[T], &[T]) -> K>(pq: Pq<T>, l2sq: S, q: Seq<T>) -> Seq<K> {
    Seq::new(
        (pq.m * pq.ksub) as nat,
        |x: int|
            dist_of(
                l2sq,
                row(q, pq.dsub as nat, x / pq.ksub as int),
                row(pq.centroids@, pq.dsub as nat, x),
            ),
    )
}

/// `t` is the table of a query: row `j` of it holds the distances of elements
/// `j * dsub` to `(j + 1) * dsub` of the query from each row of codebook `j`.
pub open spec fn tabled<T, K, S: Fn(&[T], &[T]) -> K>(
    pq: Pq<T>,
    l2sq: S,
    q: Seq<T>,
    t: Seq<K>,
) -> bool {
    &&& t.len() == pq.m * pq.ksub
    &&& forall|j: int, c: int|
        0 <= j < pq.m && 0 <= c < pq.ksub ==> t[#[trigger] (j * pq.ksub + c)] == dist_of(
            l2sq,
            q.subrange(j * pq.dsub, (j + 1) * pq.dsub),
            pq.centroids@.subrange(
                (j * pq.ksub + c) * pq.dsub,
                (j * pq.ksub + c + 1) * pq.dsub,
            ),
        )
}

proof fn lemma_tabled<T, K, S: Fn(&[T], &[T]) -> K>(pq: Pq<T>, l2sq: S, q: Seq<T>)
    ensures
        tabled(pq, l2sq, q, table(pq, l2sq, q)),
{
    assert forall|j: int, c: int| 0 <= j < pq.m && 0 <= c < pq.ksub implies table(pq, l2sq, q)[
    #[trigger] (j * pq.ksub + c)] == dist_of(
        l2sq,
        q.subrange(j * pq.dsub, (j + 1) * pq.dsub),
        pq.centroids@.subrange((j * pq.ksub + c) * pq.dsub, (j * pq.ksub + c + 1) * pq.dsub),
    ) by {
        law_table(pq, l2sq, q, j, c);
    }
    assert(pq.m * pq.ksub >= 0) by (nonlinear_arith);
}

impl<T> Pq<T> {
    /// Build the table of a query. `l2sq` measures two subvectors, in whatever the
    /// table is to hold.
    pub fn lut<K, S: Fn(&[T], &[T]) -> K>(&self, q: &[T], l2sq: &S) -> (t: Vec<K>)
        requires
            self.book_wf(),
            measures(*l2sq),
            self.dim <= q@.len(),
        ensures
            t@ == table(*self, *l2sq, q@),
            tabled(*self, *l2sq, q@, t@),
    {
        proof {
            lemma_tabled(*self, *l2sq, q@);
        }
        let ghost want = table(*self, *l2sq, q@);
        let mut t: Vec<K> = Vec::new();
        let mut j: usize = 0;
        while j < self.m
            invariant
                self.book_wf(),
                measures(*l2sq),
                self.dim <= q@.len(),
                want == table(*self, *l2sq, q@),
                j <= self.m,
                t@.len() == j * self.ksub,
                j * self.ksub <= self.m * self.ksub,
                forall|x: int| 0 <= x < t@.len() ==> #[trigger] t@[x] == want[x],
            decreases self.m - j,
        {
            proof {
                self.lemma_book(j as int);
            }
            let sq = row_of(q, self.dsub, j);
            let lo: usize = j * self.ksub;
            let mut c: usize = 0;
            while c < self.ksub
                invariant
                    self.book_wf(),
                    measures(*l2sq),
                    want == table(*self, *l2sq, q@),
                    j < self.m,
                    sq@ == row(q@, self.dsub as nat, j as int),
                    sq@.len() == self.dsub,
                    lo == j * self.ksub,
                    lo + self.ksub <= self.m * self.ksub,
                    c <= self.ksub,
                    t@.len() == lo + c,
                    forall|x: int| 0 <= x < t@.len() ==> #[trigger] t@[x] == want[x],
                decreases self.ksub - c,
            {
                proof {
                    lemma_row_bounds(
                        self.dsub as nat,
                        (self.m * self.ksub) as nat,
                        lo + c,
                        self.centroids@.len(),
                    );
                    let (a, b, k) = (j as int, c as int, self.ksub as int);
                    assert((a * k + b) / k == a) by (nonlinear_arith)
                        requires
                            0 <= a,
                            0 <= b < k,
                    ;
                }
                let x = measure(l2sq, sq, row_of(&self.centroids, self.dsub, lo + c));
                t.push(x);
                c = c + 1;
            }
            proof {
                let (a, k) = (j as int, self.ksub as int);
                assert((a + 1) * k == a * k + k) by (nonlinear_arith);
            }
            j = j + 1;
        }
        assert(t@ =~= want);
        t
    }
}

/// Every byte of `code` names an entry of a table of `len` entries.
pub open spec fn in_table(len: nat, code: Seq<u8>, ksub: nat) -> bool {
    forall|j: int| 0 <= j < code.len() ==> j * ksub + #[trigger] code[j] < len
}

/// How byte `j` of a code adds to a sum: by the entry that it names in row `j` of
/// the table.
pub open spec fn entry<K, P: Fn(K, K) -> K>(
    lut: Seq<K>,
    code: Seq<u8>,
    ksub: nat,
    plus: P,
) -> spec_fn(K, int) -> K {
    |s: K, j: int| sum_of(plus, s, lut[j * ksub + code[j]])
}

/// The sum of the entries that a code names, byte by byte.
pub open spec fn adc<K, P: Fn(K, K) -> K>(
    lut: Seq<K>,
    code: Seq<u8>,
    ksub: nat,
    zero: K,
    plus: P,
) -> K {
    lane(entry(lut, code, ksub, plus), zero, 0, 1, code.len())
}

/// The same sum with 16 lanes: these add up side by side over blocks of 16 bytes,
/// then the lanes are added up, then what is left in turn.
pub open spec fn gathered<K, P: Fn(K, K) -> K>(
    lut: Seq<K>,
    code: Seq<u8>,
    ksub: nat,
    zero: K,
    plus: P,
) -> K {
    let g = entry(lut, code, ksub, plus);
    let m = code.len();
    let acc = Seq::new(16, |l: int| lane(g, zero, l, 16, m / 16));
    lane(g, reduce16(plus, acc), ((m / 16) * 16) as int, 1, m % 16)
}

/// Add the entry that byte `j` names.
fn add_entry<K: Copy, P: Fn(K, K) -> K>(
    s: K,
    lut: &[K],
    code: &[u8],
    ksub: usize,
    j: usize,
    plus: &P,
) -> (r: K)
    requires
        in_table(lut@.len(), code@, ksub as nat),
        adds(*plus),
        j < code@.len(),
    ensures
        r == entry(lut@, code@, ksub as nat, *plus)(s, j as int),
{
    proof {
        assert(j * ksub + code@[j as int] < lut@.len());
        assert(0 <= j * ksub) by (nonlinear_arith);
        assert(lut.len() == lut@.len());
    }
    add_up(plus, s, lut[j * ksub + code[j] as usize])
}

/// Add the entries that the bytes from `i` on name, in turn.
fn add_rest<K: Copy, P: Fn(K, K) -> K>(
    s: K,
    lut: &[K],
    code: &[u8],
    ksub: usize,
    i: usize,
    plus: &P,
) -> (r: K)
    requires
        in_table(lut@.len(), code@, ksub as nat),
        adds(*plus),
        i <= code@.len(),
    ensures
        r == lane(
            entry(lut@, code@, ksub as nat, *plus),
            s,
            i as int,
            1,
            (code@.len() - i) as nat,
        ),
{
    let ghost g = entry(lut@, code@, ksub as nat, *plus);
    let mut r = s;
    let mut j: usize = i;
    while j < code.len()
        invariant
            in_table(lut@.len(), code@, ksub as nat),
            adds(*plus),
            g == entry(lut@, code@, ksub as nat, *plus),
            i <= j <= code@.len(),
            r == lane(g, s, i as int, 1, (j - i) as nat),
        decreases code@.len() - j,
    {
        r = add_entry(r, lut, code, ksub, j, plus);
        j = j + 1;
    }
    r
}

/// The sum of the entries that `code` names in the table `lut`.
pub fn adc_scalar<K: Copy, P: Fn(K, K) -> K>(
    lut: &[K],
    code: &[u8],
    ksub: usize,
    zero: K,
    plus: &P,
) -> (s: K)
    requires
        in_table(lut@.len(), code@, ksub as nat),
        adds(*plus),
    ensures
        s == adc(lut@, code@, ksub as nat, zero, *plus),
{
    add_rest(zero, lut, code, ksub, 0, plus)
}

/// The sum of the entries that `code` names in the table `lut`, with 16 lanes.
pub fn adc_avx512<K: Copy, P: Fn(K, K) -> K>(
    lut: &[K],
    code: &[u8],
    ksub: usize,
    zero: K,
    plus: &P,
) -> (s: K)
    requires
        in_table(lut@.len(), code@, ksub as nat),
        adds(*plus),
    ensures
        s == gathered(lut@, code@, ksub as nat, zero, *plus),
{
    let ghost g = entry(lut@, code@, ksub as nat, *plus);
    let m = code.len();
    let mut acc: [K; 32] = [
        zero, zero, zero, zero, zero, zero, zero, zero,
        zero, zero, zero, zero, zero, zero, zero, zero,
        zero, zero, zero, zero, zero, zero, zero, zero,
        zero, zero, zero, zero, zero, zero, zero, zero,
    ];
    let mut j: usize = 0;
    let ghost mut t: nat = 0;
    while m - j >= 16
        invariant
            in_table(lut@.len(), code@, ksub as nat),
            adds(*plus),
            g == entry(lut@, code@, ksub as nat, *plus),
            m == code@.len(),
            j == t * 16,
            j <= m,
            acc@.len() == 32,
            forall|l: int| 0 <= l < 16 ==> #[trigger] acc@[l] == lane(g, zero, l, 16, t),
        decreases m - j,
    {
        let mut l: usize = 0;
        while l < 16
            invariant
                in_table(lut@.len(), code@, ksub as nat),
                adds(*plus),
                g == entry(lut@, code@, ksub as nat, *plus),
                m == code@.len(),
                j == t * 16,
                j + 16 <= m,
                l <= 16,
                acc@.len() == 32,
                forall|k: int| 0 <= k < l ==> #[trigger] acc@[k] == lane(g, zero, k, 16, t + 1),
                forall|k: int| l <= k < 16 ==> #[trigger] acc@[k] == lane(g, zero, k, 16, t),
            decreases 16 - l,
        {
            let x = add_entry(acc[l], lut, code, ksub, j + l, plus);
            acc[l] = x;
            l = l + 1;
        }
        j = j + 16;
        proof {
            t = t + 1;
        }
    }
    assert(acc@.take(16) =~= Seq::new(16, |l: int| lane(g, zero, l, 16, m as nat / 16)));
    let s = sum16(&mut acc, plus);
    add_rest(s, lut, code, ksub, j, plus)
}

/// Which of the two kernels computes a table distance.
#[derive(Clone, Copy, Debug, PartialEq, Eq, Structural)]
pub enum Adc {
    Scalar,
    Gather,
}

impl Adc {
    /// The sum of the entries that `code` names in the table `lut`.
    pub fn sum<K: Copy, P: Fn(K, K) -> K>(
        self,
        lut: &[K],
        code: &[u8],
        ksub: usize,
        zero: K,
        plus: &P,
    ) -> (s: K)
        requires
            in_table(lut@.len(), code@, ksub as nat),
            adds(*plus),
        ensures
            s == match self {
                Adc::Scalar => adc(lut@, code@, ksub as nat, zero, *plus),
                Adc::Gather => gathered(lut@, code@, ksub as nat, zero, *plus),
            },
    {
        match self {
            Adc::Scalar => adc_scalar(lut, code, ksub, zero, plus),
            Adc::Gather => adc_avx512(lut, code, ksub, zero, plus),
        }
    }
}

/// The kernel for a machine, by whether it has the feature, and the name of that
/// kernel.
pub fn best_adc(avx512f: bool) -> (r: (Adc, &'static str))
    ensures
        avx512f ==> r.0 == Adc::Gather && r.1@ == "avx512-gather"@,
        !avx512f ==> r.0 == Adc::Scalar && r.1@ == "scalar-adc"@,
{
    if avx512f {
        (Adc::Gather, "avx512-gather")
    } else {
        (Adc::Scalar, "scalar-adc")
    }
}

/// `f` scores any code whose bytes name entries of the table, and the score
/// depends on the table, the code and the size of a codebook alone.
pub open spec fn scores<K, A: Fn(&[K], &[u8], usize) -> u32>(f: A) -> bool {
    &&& forall|t: &[K], c: &[u8], k: usize|
        in_table(t@.len(), c@, k as nat) ==> #[trigger] call_requires(f, (t, c, k))
    &&& forall|t: &[K], c: &[u8], k: usize, r1: u32, r2: u32|
        #[trigger] call_ensures(f, (t, c, k), r1) && #[trigger] call_ensures(f, (t, c, k), r2)
            ==> r1 == r2
}

/// `f` can return `r` for a table that holds `t` and a code that holds `c`.
pub open spec fn scored<K, A: Fn(&[K], &[u8], usize) -> u32>(
    f: A,
    t: Seq<K>,
    c: Seq<u8>,
    k: usize,
    r: u32,
) -> bool {
    exists|x: &[K], y: &[u8]| x@ == t && y@ == c && #[trigger] call_ensures(f, (x, y, k), r)
}

/// The score of a code.
pub open spec fn score_of<K, A: Fn(&[K], &[u8], usize) -> u32>(
    f: A,
    t: Seq<K>,
    c: Seq<u8>,
    k: usize,
) -> u32 {
    choose|r: u32| scored(f, t, c, k, r)
}

/// What `f` returns for a table and a code is the score of the code.
pub proof fn law_score_of<K, A: Fn(&[K], &[u8], usize) -> u32>(
    f: A,
    t: &[K],
    c: &[u8],
    k: usize,
    r: u32,
)
    requires
        scores(f),
        call_ensures(f, (t, c, k), r),
    ensures
        score_of(f, t@, c@, k) == r,
{
    assert(scored(f, t@, c@, k, r));
    let s = score_of(f, t@, c@, k);
    assert(scored(f, t@, c@, k, s));
    let (x, y) = choose|x: &[K], y: &[u8]|
        x@ == t@ && y@ == c@ && #[trigger] call_ensures(f, (x, y, k), s);
    assert(x =~= t);
    assert(y =~= c);
}

/// The score of the code of any vector.
pub open spec fn table_keys<T, K, A: Fn(&[K], &[u8], usize) -> u32>(
    pq: Pq<T>,
    f: A,
    lut: Seq<K>,
) -> spec_fn(u32) -> u32 {
    |id: u32| score_of(f, lut, row(pq.codes@, pq.m as nat, id as int), pq.ksub)
}

/// The distances of the first `n` codes from the query of a table.
pub struct Table<'a, T, K, A: Fn(&[K], &[u8], usize) -> u32> {
    pub pq: &'a Pq<T>,
    pub lut: &'a [K],
    pub adc: &'a A,
    pub n: usize,
}

impl<'a, T, K, A: Fn(&[K], &[u8], usize) -> u32> Oracle for Table<'a, T, K, A> {
    open spec fn valid(&self) -> bool {
        &&& self.pq.wf()
        &&& self.n <= self.pq.n
        &&& self.lut@.len() == self.pq.m * self.pq.ksub
        &&& scores(*self.adc)
    }

    open spec fn reach(&self) -> nat {
        self.n as nat
    }

    open spec fn keys(&self) -> spec_fn(u32) -> u32 {
        table_keys(*self.pq, *self.adc, self.lut@)
    }

    fn key(&self, id: u32) -> (r: u32) {
        let f = self.adc;
        let k = self.pq.ksub;
        proof {
            lemma_row_bounds(self.pq.m as nat, self.pq.n as nat, id as int, self.pq.codes@.len());
        }
        let code = self.pq.code(id);
        proof {
            let (m, ks) = (self.pq.m as int, k as int);
            assert forall|j: int| 0 <= j < code@.len() implies j * k + #[trigger] code@[j]
                < self.lut@.len() by {
                let x = id * m + j;
                assert(code@[j] == self.pq.codes@[x]);
                assert(j * ks + ks <= m * ks) by (nonlinear_arith)
                    requires
                        0 <= j < m,
                        ks >= 0,
                ;
            }
            assert(in_table(self.lut@.len(), code@, k as nat));
        }
        let r = f(self.lut, code, k);
        proof {
            assert(scored(*f, self.lut@, code@, k, r));
            let s = score_of(*f, self.lut@, code@, k);
            assert(scored(*f, self.lut@, code@, k, s));
            let (x, y) = choose|x: &[K], y: &[u8]|
                x@ == self.lut@ && y@ == code@ && #[trigger] call_ensures(*f, (x, y, k), s);
            assert(x =~= self.lut);
            assert(y =~= code);
        }
        r
    }
}

/// Each byte of a code names a row of its codebook that is nearest to the
/// subvector.
pub proof fn law_code_names_nearest<T, D: Fn(&[T], &[T]) -> u32>(
    pq: Pq<T>,
    f: D,
    v: Seq<T>,
    j: int,
    c: int,
)
    requires
        pq.ksub <= 256,
        0 <= j < pq.m,
        0 <= c < pq.ksub,
    ensures
        ({
            let key = row_keys(
                f,
                row(v, pq.dsub as nat, j),
                pq.centroids@,
                pq.dsub as nat,
                j * pq.ksub,
            );
            &&& encoding(pq, f, v)[j] < pq.ksub
            &&& key(encoding(pq, f, v)[j] as int) <= key(c)
        }),
        ({
            let d = pq.dsub as nat;
            let b = encoding(pq, f, v)[j] as int;
            let at = |x: int| dist_of(f, row(v, d, j), row(pq.centroids@, d, j * pq.ksub + x));
            at(b) <= at(c) && (c < b ==> at(b) < at(c))
        }),
{
    law_first_min(
        row_keys(f, row(v, pq.dsub as nat, j), pq.centroids@, pq.dsub as nat, j * pq.ksub),
        pq.ksub as nat,
    );
}

/// The table holds the distance of every subvector of the query from every row of
/// its codebook.
pub proof fn law_table<T, K, S: Fn(&[T], &[T]) -> K>(
    pq: Pq<T>,
    l2sq: S,
    q: Seq<T>,
    j: int,
    c: int,
)
    requires
        0 <= j < pq.m,
        0 <= c < pq.ksub,
    ensures
        j * pq.ksub + c < table(pq, l2sq, q).len(),
        table(pq, l2sq, q)[j * pq.ksub + c] == dist_of(
            l2sq,
            row(q, pq.dsub as nat, j),
            row(pq.centroids@, pq.dsub as nat, j * pq.ksub + c),
        ),
{
    let (m, k) = (pq.m as int, pq.ksub as int);
    assert(0 <= j * k + c < m * k && (j * k + c) / k == j) by (nonlinear_arith)
        requires
            0 <= j < m,
            0 <= c < k,
    ;
}

/// Where adding is exact the two kernels agree: each computes the sum of the entries
/// that the code names.
pub proof fn law_adc_kernels_agree<K, P: Fn(K, K) -> K>(
    lut: Seq<K>,
    code: Seq<u8>,
    ksub: nat,
    zero: K,
    plus: P,
    val: spec_fn(K) -> int,
    bound: int,
)
    requires
        val(zero) == 0,
        adds_exactly(plus, val, bound),
        none_negative(|j: int| val(lut[j * ksub + code[j]]), code.len()),
        total(|j: int| val(lut[j * ksub + code[j]]), code.len()) <= bound,
    ensures
        ({
            let sum = total(|j: int| val(lut[j * ksub + code[j]]), code.len());
            &&& val(adc(lut, code, ksub, zero, plus)) == sum
            &&& val(gathered(lut, code, ksub, zero, plus)) == sum
        }),
{
    let g = entry(lut, code, ksub, plus);
    let term = |j: int| val(lut[j * ksub + code[j]]);
    let n = code.len();
    assert forall|s: K, j: int| 0 <= j < n && 0 <= val(s) && val(s) + term(j) <= bound implies val(
        #[trigger] g(s, j),
    ) == val(s) + term(j) by {
        assert(term(j) >= 0);
        assert(g(s, j) == sum_of(plus, s, lut[j * ksub + code[j]]));
    }
    law_sixteen_lanes(g, plus, val, term, bound, zero, n);
}

/// The distance, as the table has it, of subvector `j` of `q` from the row of its
/// codebook that byte `j` of `code` names.
pub open spec fn named<T, K, S: Fn(&[T], &[T]) -> K>(
    pq: Pq<T>,
    l2sq: S,
    q: Seq<T>,
    code: Seq<u8>,
    val: spec_fn(K) -> int,
) -> spec_fn(int) -> int {
    |j: int|
        val(
            dist_of(
                l2sq,
                row(q, pq.dsub as nat, j),
                row(pq.centroids@, pq.dsub as nat, j * pq.ksub + code[j]),
            ),
        )
}

proof fn lemma_same_total(a: spec_fn(int) -> int, b: spec_fn(int) -> int, n: nat)
    requires
        forall|j: int| 0 <= j < n ==> #[trigger] a(j) == b(j),
    ensures
        total(a, n) == total(b, n),
    decreases n,
{
    if n > 0 {
        lemma_same_total(a, b, (n - 1) as nat);
        assert(a(n - 1) == b(n - 1));
    }
}

/// Where adding is exact, what a code adds up to in the table of a query is the sum of
/// the distances of the subvectors of the query from the rows that the code names.
pub proof fn law_adc_adds_distances<T, K, S: Fn(&[T], &[T]) -> K, P: Fn(K, K) -> K>(
    pq: Pq<T>,
    l2sq: S,
    q: Seq<T>,
    code: Seq<u8>,
    zero: K,
    plus: P,
    val: spec_fn(K) -> int,
    bound: int,
)
    requires
        code.len() == pq.m,
        forall|j: int| 0 <= j < pq.m ==> #[trigger] code[j] < pq.ksub,
        val(zero) == 0,
        adds_exactly(plus, val, bound),
        none_negative(named(pq, l2sq, q, code, val), pq.m as nat),
        total(named(pq, l2sq, q, code, val), pq.m as nat) <= bound,
    ensures
        ({
            let lut = table(pq, l2sq, q);
            let sum = total(named(pq, l2sq, q, code, val), pq.m as nat);
            &&& val(adc(lut, code, pq.ksub as nat, zero, plus)) == sum
            &&& val(gathered(lut, code, pq.ksub as nat, zero, plus)) == sum
        }),
{
    let lut = table(pq, l2sq, q);
    let k = pq.ksub as nat;
    let term = |j: int| val(lut[j * k + code[j]]);
    let dists = named(pq, l2sq, q, code, val);
    assert forall|j: int| 0 <= j < pq.m implies #[trigger] term(j) == dists(j) by {
        assert(code[j] < pq.ksub);
        law_table(pq, l2sq, q, j, code[j] as int);
    }
    assert forall|j: int| 0 <= j < pq.m implies #[trigger] term(j) >= 0 by {
        assert(dists(j) >= 0);
    }
    lemma_same_total(term, dists, pq.m as nat);
    law_adc_kernels_agree(lut, code, k, zero, plus, val, bound);
}

/// The vector that a code stands for: the rows that it names, one after the other.
pub open spec fn decoded<T>(pq: Pq<T>, code: Seq<u8>) -> Seq<T> {
    Seq::new(
        (pq.m * pq.dsub) as nat,
        |i: int|
            row(
                pq.centroids@,
                pq.dsub as nat,
                (i / pq.dsub as int) * pq.ksub + code[i / pq.dsub as int],
            )[i % pq.dsub as int],
    )
}

/// The first `d` places of subvector `j` add what they add in the whole vector.
proof fn lemma_block<T>(
    pq: Pq<T>,
    v: Seq<T>,
    code: Seq<u8>,
    part: spec_fn(T, T) -> int,
    j: int,
    d: nat,
)
    requires
        0 <= j < pq.m,
        d <= pq.dsub,
        v.len() == pq.m * pq.dsub,
    ensures
        ({
            let a = row(v, pq.dsub as nat, j);
            let b = row(pq.centroids@, pq.dsub as nat, j * pq.ksub + code[j]);
            0 <= j * pq.dsub && total(
                |i: int| part(v[i], decoded(pq, code)[i]),
                (j * pq.dsub + d) as nat,
            ) == total(|i: int| part(v[i], decoded(pq, code)[i]), (j * pq.dsub) as nat) + total(
                |i: int| part(a[i], b[i]),
                d,
            )
        }),
    decreases d,
{
    lemma_row_bounds(pq.dsub as nat, pq.m as nat, j, v.len());
    if d > 0 {
        lemma_block(pq, v, code, part, j, (d - 1) as nat);
        let i = j * pq.dsub + (d - 1);
        lemma_fundamental_div_mod_converse(i, pq.dsub as int, j, d - 1);
        let a = row(v, pq.dsub as nat, j);
        assert(a[d - 1] == v[i]);
    }
}

/// Where the measure of two subvectors is the sum of what their places contribute, the
/// distances that a code names add up to what the places of the whole vector and of
/// the one that the code stands for contribute.
pub proof fn law_code_measures_what_it_stands_for<T, K, S: Fn(&[T], &[T]) -> K>(
    pq: Pq<T>,
    l2sq: S,
    v: Seq<T>,
    code: Seq<u8>,
    val: spec_fn(K) -> int,
    part: spec_fn(T, T) -> int,
)
    requires
        pq.book_wf(),
        v.len() == pq.m * pq.dsub,
        code.len() == pq.m,
        forall|j: int| 0 <= j < pq.m ==> #[trigger] code[j] < pq.ksub,
        forall|a: Seq<T>, b: Seq<T>|
            a.len() == pq.dsub && b.len() == pq.dsub ==> val(#[trigger] dist_of(l2sq, a, b))
                == total(|i: int| part(a[i], b[i]), pq.dsub as nat),
    ensures
        total(named(pq, l2sq, v, code, val), pq.m as nat) == total(
            |i: int| part(v[i], decoded(pq, code)[i]),
            v.len(),
        ),
{
    lemma_subvectors(pq, l2sq, v, code, val, part, pq.m as nat);
}

proof fn lemma_subvectors<T, K, S: Fn(&[T], &[T]) -> K>(
    pq: Pq<T>,
    l2sq: S,
    v: Seq<T>,
    code: Seq<u8>,
    val: spec_fn(K) -> int,
    part: spec_fn(T, T) -> int,
    n: nat,
)
    requires
        pq.book_wf(),
        v.len() == pq.m * pq.dsub,
        code.len() == pq.m,
        n <= pq.m,
        forall|j: int| 0 <= j < pq.m ==> #[trigger] code[j] < pq.ksub,
        forall|a: Seq<T>, b: Seq<T>|
            a.len() == pq.dsub && b.len() == pq.dsub ==> val(#[trigger] dist_of(l2sq, a, b))
                == total(|i: int| part(a[i], b[i]), pq.dsub as nat),
    ensures
        total(named(pq, l2sq, v, code, val), n) == total(
            |i: int| part(v[i], decoded(pq, code)[i]),
            (n * pq.dsub) as nat,
        ),
    decreases n,
{
    if n == 0 {
        assert(0 * pq.dsub == 0) by (nonlinear_arith);
    } else {
        let j = n - 1;
        lemma_subvectors(pq, l2sq, v, code, val, part, j as nat);
        lemma_block(pq, v, code, part, j, pq.dsub as nat);
        assert(n * pq.dsub == j * pq.dsub + pq.dsub) by (nonlinear_arith)
            requires
                n == j + 1,
        ;
        assert(code[j] < pq.ksub);
        lemma_named_rows(pq, v, code, j);
        let a = row(v, pq.dsub as nat, j);
        let b = row(pq.centroids@, pq.dsub as nat, j * pq.ksub + code[j]);
        assert(val(dist_of(l2sq, a, b)) == total(|i: int| part(a[i], b[i]), pq.dsub as nat));
    }
}

/// The table measures as the codes do: of two rows, the one that is no farther by the
/// measure of the codes is no farther in the table.
pub open spec fn measures_alike<T, K, D: Fn(&[T], &[T]) -> u32, S: Fn(&[T], &[T]) -> K>(
    f: D,
    l2sq: S,
    val: spec_fn(K) -> int,
) -> bool {
    forall|v: Seq<T>, a: Seq<T>, b: Seq<T>|
        #[trigger] dist_of(f, v, a) <= #[trigger] dist_of(f, v, b) ==> val(dist_of(l2sq, v, a))
            <= val(dist_of(l2sq, v, b))
}

proof fn lemma_least_total(a: spec_fn(int) -> int, b: spec_fn(int) -> int, n: nat)
    requires
        forall|j: int| 0 <= j < n ==> #[trigger] a(j) <= b(j),
    ensures
        total(a, n) <= total(b, n),
    decreases n,
{
    if n > 0 {
        lemma_least_total(a, b, (n - 1) as nat);
        assert(a(n - 1) <= b(n - 1));
    }
}

/// No code adds up to less, in the table of a vector, than the vector's own.
pub proof fn law_own_code_is_nearest<
    T,
    K,
    D: Fn(&[T], &[T]) -> u32,
    S: Fn(&[T], &[T]) -> K,
    P: Fn(K, K) -> K,
>(
    pq: Pq<T>,
    f: D,
    l2sq: S,
    v: Seq<T>,
    code: Seq<u8>,
    zero: K,
    plus: P,
    val: spec_fn(K) -> int,
    bound: int,
)
    requires
        0 < pq.ksub <= 256,
        code.len() == pq.m,
        forall|j: int| 0 <= j < pq.m ==> #[trigger] code[j] < pq.ksub,
        measures_alike(f, l2sq, val),
        val(zero) == 0,
        adds_exactly(plus, val, bound),
        none_negative(named(pq, l2sq, v, encoding(pq, f, v), val), pq.m as nat),
        total(named(pq, l2sq, v, code, val), pq.m as nat) <= bound,
    ensures
        val(adc(table(pq, l2sq, v), encoding(pq, f, v), pq.ksub as nat, zero, plus)) <= val(
            adc(table(pq, l2sq, v), code, pq.ksub as nat, zero, plus),
        ),
{
    let own = encoding(pq, f, v);
    let a = named(pq, l2sq, v, own, val);
    let b = named(pq, l2sq, v, code, val);
    assert forall|j: int| 0 <= j < pq.m implies #[trigger] a(j) <= b(j) by {
        assert(code[j] < pq.ksub);
        law_code_names_nearest(pq, f, v, j, code[j] as int);
        let sub = row(v, pq.dsub as nat, j);
        let x = row(pq.centroids@, pq.dsub as nat, j * pq.ksub + own[j]);
        let y = row(pq.centroids@, pq.dsub as nat, j * pq.ksub + code[j]);
        assert(dist_of(f, sub, x) <= dist_of(f, sub, y));
    }
    assert forall|j: int| 0 <= j < pq.m implies #[trigger] own[j] < pq.ksub by {
        law_code_names_nearest(pq, f, v, j, 0);
    }
    assert forall|j: int| 0 <= j < pq.m implies #[trigger] b(j) >= 0 by {
        assert(a(j) >= 0);
        assert(a(j) <= b(j));
    }
    lemma_least_total(a, b, pq.m as nat);
    law_adc_adds_distances(pq, l2sq, v, own, zero, plus, val, bound);
    law_adc_adds_distances(pq, l2sq, v, code, zero, plus, val, bound);
}

/// The same without any exactness: it is enough that adding rises, as floating-point
/// adding of numbers that are not negative does. Both kernels put the vector's own code
/// first.
pub proof fn law_own_code_is_nearest_where_adding_rises<
    T,
    K,
    D: Fn(&[T], &[T]) -> u32,
    S: Fn(&[T], &[T]) -> K,
    P: Fn(K, K) -> K,
>(
    pq: Pq<T>,
    f: D,
    l2sq: S,
    v: Seq<T>,
    code: Seq<u8>,
    zero: K,
    plus: P,
    val: spec_fn(K) -> int,
)
    requires
        0 < pq.ksub <= 256,
        code.len() == pq.m,
        forall|j: int| 0 <= j < pq.m ==> #[trigger] code[j] < pq.ksub,
        measures_alike(f, l2sq, val),
        val(zero) >= 0,
        adds_rising(plus, val),
        none_negative(named(pq, l2sq, v, encoding(pq, f, v), val), pq.m as nat),
    ensures
        ({
            let lut = table(pq, l2sq, v);
            let own = encoding(pq, f, v);
            let k = pq.ksub as nat;
            &&& val(adc(lut, own, k, zero, plus)) <= val(adc(lut, code, k, zero, plus))
            &&& val(gathered(lut, own, k, zero, plus)) <= val(gathered(lut, code, k, zero, plus))
        }),
{
    let lut = table(pq, l2sq, v);
    let own = encoding(pq, f, v);
    let k = pq.ksub as nat;
    let n = pq.m as nat;
    let a = entry(lut, own, k, plus);
    let b = entry(lut, code, k, plus);
    let least = named(pq, l2sq, v, own, val);
    assert forall|s: K, t: K, j: int| 0 <= j < n && ranked(val, s, t) implies ranked(
        val,
        #[trigger] a(s, j),
        #[trigger] b(t, j),
    ) by {
        assert(code[j] < pq.ksub);
        law_code_names_nearest(pq, f, v, j, code[j] as int);
        law_table(pq, l2sq, v, j, own[j] as int);
        law_table(pq, l2sq, v, j, code[j] as int);
        let sub = row(v, pq.dsub as nat, j);
        let x = row(pq.centroids@, pq.dsub as nat, j * pq.ksub + own[j]);
        let y = row(pq.centroids@, pq.dsub as nat, j * pq.ksub + code[j]);
        assert(dist_of(f, sub, x) <= dist_of(f, sub, y));
        assert(least(j) >= 0);
        assert(a(s, j) == sum_of(plus, s, lut[j * k + own[j]]));
        assert(b(t, j) == sum_of(plus, t, lut[j * k + code[j]]));
        assert(ranked(val, lut[j * k + own[j]], lut[j * k + code[j]]));
    }
    law_rising_lanes(a, b, plus, val, zero, n);
}

/// What a byte of a code adds, where each addition is off by at most `slack`.
proof fn lemma_entry_within<T, K, S: Fn(&[T], &[T]) -> K, P: Fn(K, K) -> K>(
    pq: Pq<T>,
    l2sq: S,
    v: Seq<T>,
    code: Seq<u8>,
    plus: P,
    val: spec_fn(K) -> int,
    slack: int,
    bound: int,
)
    requires
        code.len() == pq.m,
        forall|j: int| 0 <= j < pq.m ==> #[trigger] code[j] < pq.ksub,
        none_negative(named(pq, l2sq, v, code, val), pq.m as nat),
        adds_within(plus, val, slack, bound),
    ensures
        steps_within(
            entry(table(pq, l2sq, v), code, pq.ksub as nat, plus),
            val,
            named(pq, l2sq, v, code, val),
            pq.m as nat,
            slack,
            bound,
        ),
{
    let lut = table(pq, l2sq, v);
    let k = pq.ksub as nat;
    let g = entry(lut, code, k, plus);
    let term = named(pq, l2sq, v, code, val);
    assert forall|s: K, j: int|
        0 <= j < pq.m && 0 <= val(s) && val(s) + term(j) <= bound implies 0 <= val(
        #[trigger] g(s, j),
    ) && apart(val(g(s, j)), val(s) + term(j)) <= slack by {
        assert(code[j] < pq.ksub);
        law_table(pq, l2sq, v, j, code[j] as int);
        assert(g(s, j) == sum_of(plus, s, lut[j * k + code[j]]));
        assert(term(j) >= 0);
    }
}

/// Where each addition is off by at most `slack` and each distance of two subvectors by
/// at most `blur`, what a code adds up to in the table of a vector is off by at most
/// that much for each byte from the distance of the vector from the one that the code
/// stands for.
pub proof fn law_adc_measures_within_rounding<
    T,
    K,
    S: Fn(&[T], &[T]) -> K,
    P: Fn(K, K) -> K,
>(
    pq: Pq<T>,
    l2sq: S,
    v: Seq<T>,
    code: Seq<u8>,
    zero: K,
    plus: P,
    val: spec_fn(K) -> int,
    part: spec_fn(T, T) -> int,
    slack: int,
    blur: int,
    bound: int,
)
    requires
        pq.book_wf(),
        v.len() == pq.m * pq.dsub,
        code.len() == pq.m,
        forall|j: int| 0 <= j < pq.m ==> #[trigger] code[j] < pq.ksub,
        val(zero) == 0,
        adds_within(plus, val, slack, bound),
        forall|a: Seq<T>, b: Seq<T>|
            a.len() == pq.dsub && b.len() == pq.dsub ==> 0 <= val(#[trigger] dist_of(l2sq, a, b))
                && apart(
                val(dist_of(l2sq, a, b)),
                total(|i: int| part(a[i], b[i]), pq.dsub as nat),
            ) <= blur,
        slack >= 0,
        total(|i: int| part(v[i], decoded(pq, code)[i]), v.len()) + pq.m * (slack + blur) <= bound,
    ensures
        apart(
            val(adc(table(pq, l2sq, v), code, pq.ksub as nat, zero, plus)),
            total(|i: int| part(v[i], decoded(pq, code)[i]), v.len()),
        ) <= pq.m * (slack + blur),
{
    let lut = table(pq, l2sq, v);
    let n = pq.m as nat;
    let g = entry(lut, code, pq.ksub as nat, plus);
    let term = named(pq, l2sq, v, code, val);
    lemma_blurred(pq, l2sq, v, code, val, part, blur, n);
    lemma_entry_within(pq, l2sq, v, code, plus, val, slack, bound);
    assert(pq.m * (slack + blur) == pq.m * slack + pq.m * blur) by (nonlinear_arith);
    law_lane_within(g, val, term, slack, bound, zero, n);
}

/// The same of the sum with 16 lanes, which are 15 additions more.
pub proof fn law_gathered_measures_within_rounding<
    T,
    K,
    S: Fn(&[T], &[T]) -> K,
    P: Fn(K, K) -> K,
>(
    pq: Pq<T>,
    l2sq: S,
    v: Seq<T>,
    code: Seq<u8>,
    zero: K,
    plus: P,
    val: spec_fn(K) -> int,
    part: spec_fn(T, T) -> int,
    slack: int,
    blur: int,
    bound: int,
)
    requires
        pq.book_wf(),
        v.len() == pq.m * pq.dsub,
        code.len() == pq.m,
        forall|j: int| 0 <= j < pq.m ==> #[trigger] code[j] < pq.ksub,
        val(zero) == 0,
        adds_within(plus, val, slack, bound),
        forall|a: Seq<T>, b: Seq<T>|
            a.len() == pq.dsub && b.len() == pq.dsub ==> 0 <= val(#[trigger] dist_of(l2sq, a, b))
                && apart(
                val(dist_of(l2sq, a, b)),
                total(|i: int| part(a[i], b[i]), pq.dsub as nat),
            ) <= blur,
        slack >= 0,
        total(|i: int| part(v[i], decoded(pq, code)[i]), v.len()) + (pq.m + 15) * slack
            + pq.m * blur <= bound,
    ensures
        apart(
            val(gathered(table(pq, l2sq, v), code, pq.ksub as nat, zero, plus)),
            total(|i: int| part(v[i], decoded(pq, code)[i]), v.len()),
        ) <= (pq.m + 15) * slack + pq.m * blur,
{
    let lut = table(pq, l2sq, v);
    let n = pq.m as nat;
    let g = entry(lut, code, pq.ksub as nat, plus);
    let term = named(pq, l2sq, v, code, val);
    lemma_blurred(pq, l2sq, v, code, val, part, blur, n);
    lemma_entry_within(pq, l2sq, v, code, plus, val, slack, bound);
    law_sixteen_lanes_within(g, plus, val, term, slack, bound, zero, n);
}

proof fn lemma_blurred<T, K, S: Fn(&[T], &[T]) -> K>(
    pq: Pq<T>,
    l2sq: S,
    v: Seq<T>,
    code: Seq<u8>,
    val: spec_fn(K) -> int,
    part: spec_fn(T, T) -> int,
    blur: int,
    n: nat,
)
    requires
        pq.book_wf(),
        v.len() == pq.m * pq.dsub,
        code.len() == pq.m,
        n <= pq.m,
        forall|j: int| 0 <= j < pq.m ==> #[trigger] code[j] < pq.ksub,
        forall|a: Seq<T>, b: Seq<T>|
            a.len() == pq.dsub && b.len() == pq.dsub ==> 0 <= val(#[trigger] dist_of(l2sq, a, b))
                && apart(
                val(dist_of(l2sq, a, b)),
                total(|i: int| part(a[i], b[i]), pq.dsub as nat),
            ) <= blur,
    ensures
        none_negative(named(pq, l2sq, v, code, val), n),
        apart(
            total(named(pq, l2sq, v, code, val), n),
            total(|i: int| part(v[i], decoded(pq, code)[i]), (n * pq.dsub) as nat),
        ) <= n * blur,
    decreases n,
{
    if n == 0 {
        assert(0 * pq.dsub == 0) by (nonlinear_arith);
        assert(0 * blur == 0) by (nonlinear_arith);
    } else {
        let j = n - 1;
        lemma_blurred(pq, l2sq, v, code, val, part, blur, j as nat);
        lemma_block(pq, v, code, part, j, pq.dsub as nat);
        assert(n * pq.dsub == j * pq.dsub + pq.dsub && n * blur == j * blur + blur)
            by (nonlinear_arith)
            requires
                n == j + 1,
        ;
        lemma_named_rows(pq, v, code, j);
        let a = row(v, pq.dsub as nat, j);
        let b = row(pq.centroids@, pq.dsub as nat, j * pq.ksub + code[j]);
        let term = named(pq, l2sq, v, code, val);
        assert(term(j) == val(dist_of(l2sq, a, b)));
        assert forall|i: int| 0 <= i < n implies #[trigger] term(i) >= 0 by {}
    }
}

/// The rows that a code and a vector are compared by have the size of a subvector.
proof fn lemma_named_rows<T>(pq: Pq<T>, v: Seq<T>, code: Seq<u8>, j: int)
    requires
        pq.book_wf(),
        v.len() == pq.m * pq.dsub,
        0 <= j < pq.m,
        code[j] < pq.ksub,
    ensures
        row(v, pq.dsub as nat, j).len() == pq.dsub,
        row(pq.centroids@, pq.dsub as nat, j * pq.ksub + code[j]).len() == pq.dsub,
{
    lemma_row_bounds(pq.dsub as nat, pq.m as nat, j, v.len());
    let c = code[j] as int;
    let rows = (pq.m * pq.ksub) as nat;
    let x = j * pq.ksub + c;
    assert(0 <= x < rows) by (nonlinear_arith)
        requires
            0 <= j < pq.m,
            0 <= c < pq.ksub,
            x == j * pq.ksub + c,
            rows == pq.m * pq.ksub,
    ;
    lemma_row_bounds(pq.dsub as nat, rows, x, pq.centroids@.len());
}

} // verus!
