//! What training learns, told of the vectors that it learns from.

use vstd::prelude::*;

use crate::kmeans::{first_min, home, law_first_min, mean_of, members, refined, row_keys};
use crate::metric::{dist_of, holds_rows, lemma_row_bounds, row};
use crate::pq::{sampled, subspace, train_len, train_stride};
use crate::seeding::{
    follows_stream, law_picks_are_distinct, law_picks_follow_stream, lemma_rows_at, pick, picks,
    rows_at,
};
use crate::synth::{output, scramble, state_after};

verus! {

/// Row `c` is the one of the first `ksub` rows of `book` that is nearest to `v`, and the
/// first such.
pub open spec fn nearest_is<T, D: Fn(&[T], &[T]) -> u32>(
    f: D,
    v: Seq<T>,
    book: Seq<T>,
    dsub: nat,
    ksub: nat,
    c: int,
) -> bool {
    &&& 0 <= c < ksub
    &&& forall|x: int|
        0 <= x < ksub ==> dist_of(f, v, row(book, dsub, c)) <= dist_of(
            f,
            v,
            #[trigger] row(book, dsub, x),
        ) && (x < c ==> dist_of(f, v, row(book, dsub, c)) != dist_of(f, v, row(book, dsub, x)))
}

/// `train` holds the elements `j * dsub` to `(j + 1) * dsub` of the vectors `0`, `stride`,
/// `2 * stride` and so on, `nt` of them.
pub open spec fn gathers<T>(
    data: Seq<T>,
    dim: nat,
    dsub: nat,
    j: int,
    stride: nat,
    nt: nat,
    train: Seq<T>,
) -> bool {
    &&& train.len() == nt * dsub
    &&& forall|t: int|
        0 <= t < nt ==> #[trigger] row(train, dsub, t) == data.subrange(
            (t * stride) * dim + j * dsub,
            (t * stride) * dim + j * dsub + dsub,
        )
}

/// `ms` are, in order, the training rows to which row `c` of `book` is the nearest.
pub open spec fn cluster_is<T, D: Fn(&[T], &[T]) -> u32>(
    f: D,
    train: Seq<T>,
    dsub: nat,
    nt: nat,
    book: Seq<T>,
    ksub: nat,
    c: int,
    ms: Seq<usize>,
) -> bool {
    &&& forall|a: int, b: int| 0 <= a < b < ms.len() ==> #[trigger] ms[a] < #[trigger] ms[b]
    &&& forall|a: int| 0 <= a < ms.len() ==> #[trigger] ms[a] < nt
    &&& forall|t: int|
        0 <= t < nt ==> (ms.contains(t as usize) <==> nearest_is(
            f,
            #[trigger] row(train, dsub, t),
            book,
            dsub,
            ksub,
            c,
        ))
}

/// `next` is what row `c` of `book` becomes: the mean of the training rows to which it is
/// the nearest, and some training row where there are none.
pub open spec fn row_moves<T, D: Fn(&[T], &[T]) -> u32, M: Fn(&[T], &[usize]) -> Vec<T>>(
    f: D,
    mean: M,
    train: Seq<T>,
    dsub: nat,
    nt: nat,
    book: Seq<T>,
    ksub: nat,
    c: int,
    next: Seq<T>,
) -> bool {
    exists|ms: Seq<usize>| #[trigger]
        cluster_is(f, train, dsub, nt, book, ksub, c, ms) && if ms.len() == 0 {
            exists|t: int| 0 <= t < nt && next == #[trigger] row(train, dsub, t)
        } else {
            next == mean_of(mean, train, ms)
        }
}

/// One round of training makes `next` of `book`.
pub open spec fn moves<T, D: Fn(&[T], &[T]) -> u32, M: Fn(&[T], &[usize]) -> Vec<T>>(
    f: D,
    mean: M,
    train: Seq<T>,
    dsub: nat,
    nt: nat,
    ksub: nat,
    book: Seq<T>,
    next: Seq<T>,
) -> bool {
    &&& next.len() == ksub * dsub
    &&& forall|c: int|
        0 <= c < ksub ==> row_moves(
            f,
            mean,
            train,
            dsub,
            nt,
            book,
            ksub,
            c,
            #[trigger] row(next, dsub, c),
        )
}

/// Training starts with `book`: its rows are training rows that the stream from state `s`
/// picks, and no two of them are the same one where there are enough.
pub open spec fn starts<T>(
    train: Seq<T>,
    dsub: nat,
    nt: nat,
    ksub: nat,
    s: u64,
    book: Seq<T>,
) -> bool {
    &&& book.len() == ksub * dsub
    &&& exists|from: Seq<int>| #[trigger]
        picked(train, dsub, nt, ksub, book, from) && follows_stream(from, nt, ksub, s)
}

/// The rows of `book` are the training rows `from`.
pub open spec fn picked<T>(
    train: Seq<T>,
    dsub: nat,
    nt: nat,
    ksub: nat,
    book: Seq<T>,
    from: Seq<int>,
) -> bool {
    &&& from.len() == ksub
    &&& ksub <= nt ==> from.no_duplicates()
    &&& forall|c: int| 0 <= c < ksub ==> 0 <= #[trigger] from[c] < nt
    &&& forall|c: int|
        0 <= c < ksub ==> #[trigger] row(book, dsub, c) == row(train, dsub, from[c])
}

/// `rounds` are the codebooks that training goes through, from the one that it starts with.
pub open spec fn goes_through<T, D: Fn(&[T], &[T]) -> u32, M: Fn(&[T], &[usize]) -> Vec<T>>(
    f: D,
    mean: M,
    train: Seq<T>,
    dsub: nat,
    nt: nat,
    ksub: nat,
    s: u64,
    rounds: Seq<Seq<T>>,
) -> bool {
    &&& rounds.len() > 0
    &&& starts(train, dsub, nt, ksub, s, rounds[0])
    &&& forall|i: int|
        0 <= i < rounds.len() - 1 ==> moves(
            f,
            mean,
            train,
            dsub,
            nt,
            ksub,
            #[trigger] rounds[i],
            rounds[i + 1],
        )
}

/// `book` is learnt from the training rows in `iters` rounds, by the stream of `seed`.
pub open spec fn learns<T, D: Fn(&[T], &[T]) -> u32, M: Fn(&[T], &[usize]) -> Vec<T>>(
    f: D,
    mean: M,
    train: Seq<T>,
    dsub: nat,
    nt: nat,
    ksub: nat,
    iters: nat,
    seed: u64,
    book: Seq<T>,
) -> bool {
    exists|rounds: Seq<Seq<T>>| #[trigger]
        goes_through(f, mean, train, dsub, nt, ksub, seed | 1, rounds) && rounds.len() == iters + 1
            && rounds.last() == book
}

/// `book` is learnt from subvector `j` of `nt` vectors of the corpus.
pub open spec fn learns_subspace<
    T,
    D: Fn(&[T], &[T]) -> u32,
    M: Fn(&[T], &[usize]) -> Vec<T>,
>(
    f: D,
    mean: M,
    data: Seq<T>,
    dim: nat,
    dsub: nat,
    j: int,
    stride: nat,
    nt: nat,
    iters: nat,
    seed: u64,
    book: Seq<T>,
) -> bool {
    exists|train: Seq<T>| #[trigger]
        gathers(data, dim, dsub, j, stride, nt, train) && learns(
            f,
            mean,
            train,
            dsub,
            nt,
            256,
            iters,
            seed ^ (j + 1) as u64,
            book,
        )
}

/// Training looks at subvector `j` of every `stride`-th vector, and at nothing else.
pub proof fn law_training_rows<T>(
    data: Seq<T>,
    dim: nat,
    dsub: nat,
    m: nat,
    j: int,
    stride: nat,
    nt: nat,
    n: nat,
)
    requires
        m * dsub == dim,
        0 <= j < m,
        n * dim <= data.len(),
        nt * stride <= n,
        stride >= 1,
    ensures
        gathers(data, dim, dsub, j, stride, nt, sampled(data, dim, dsub, j, stride, nt)),
    decreases nt,
{
    let r = sampled(data, dim, dsub, j, stride, nt);
    if nt == 0 {
        assert(nt * dsub == 0) by (nonlinear_arith)
            requires
                nt == 0,
        ;
    } else {
        let k = (nt - 1) as nat;
        let p = sampled(data, dim, dsub, j, stride, k);
        let i = k * stride;
        assert(0 <= i < n && k * stride <= n) by (nonlinear_arith)
            requires
                i == k * stride,
                nt * stride <= n,
                nt == k + 1,
                stride >= 1,
        ;
        law_training_rows(data, dim, dsub, m, j, stride, k, n);
        lemma_row_bounds(dim, n, i as int, data.len());
        lemma_row_bounds(dsub, m, j, dim);
        let last = row(row(data, dim, i as int), dsub, j);
        assert(last =~= data.subrange(i * dim + j * dsub, i * dim + j * dsub + dsub));
        assert(nt * dsub == k * dsub + dsub) by (nonlinear_arith)
            requires
                nt == k + 1,
        ;
        assert forall|t: int| 0 <= t < nt implies #[trigger] row(r, dsub, t) == data.subrange(
            (t * stride) * dim + j * dsub,
            (t * stride) * dim + j * dsub + dsub,
        ) by {
            if t < k {
                lemma_row_bounds(dsub, k, t, p.len());
                assert(row(r, dsub, t) =~= row(p, dsub, t));
            } else {
                assert((t + 1) * dsub == t * dsub + dsub) by (nonlinear_arith);
                assert(row(r, dsub, t) =~= last);
            }
        }
    }
}

/// A codebook that was not trained holds, in each row, subvector `j` of some vector of the
/// corpus.
pub proof fn law_untrained_rows_are_subvectors<
    T,
    D: Fn(&[T], &[T]) -> u32,
    M: Fn(&[T], &[usize]) -> Vec<T>,
>(f: D, mean: M, data: Seq<T>, dim: nat, m: nat, max_train: nat, seed: u64, j: int, c: int)
    requires
        m > 0,
        dim > 0,
        dim % m == 0,
        dim <= data.len(),
        max_train > 0,
        0 <= j < m,
        0 <= c < 256,
    ensures
        ({
            let dsub = dim / m;
            let book = subspace(f, mean, data, dim, m, 0, max_train, seed, j);
            &&& book.len() == 256 * dsub
            &&& exists|i: int|
                0 <= i < data.len() / dim && row(book, dsub, c) == #[trigger] data.subrange(
                    i * dim + j * dsub,
                    i * dim + j * dsub + dsub,
                )
        }),
{
    let n = data.len() / dim;
    let nt = train_len(n, max_train);
    let stride = train_stride(n, nt);
    let dsub = dim / m;
    lemma_training_size(data.len(), dim, m, max_train);
    let train = sampled(data, dim, dsub, j, stride, nt);
    law_training_rows(data, dim, dsub, m, j, stride, nt, n);
    let s = (seed ^ (j + 1) as u64) | 1;
    let from = picks(nt, 256, 256, s).0;
    law_picks_are_distinct(nt, 256, 256, s);
    lemma_rows_at(train, dsub, nt, from, c);
    let t = from[c];
    assert(0 <= t * stride < n) by (nonlinear_arith)
        requires
            0 <= t < nt,
            nt * stride <= n,
            stride >= 1,
    ;
    let i = t * stride;
    assert(row(train, dsub, t) == data.subrange(
        i * dim + j * dsub,
        i * dim + j * dsub + dsub,
    ));
}

/// How many vectors training looks at, and that they all are of the corpus.
pub(crate) proof fn lemma_training_size(len: nat, dim: nat, m: nat, max_train: nat)
    requires
        m > 0,
        dim > 0,
        dim % m == 0,
        dim <= len,
        max_train > 0,
    ensures
        ({
            let n = len / dim;
            let nt = train_len(n, max_train);
            let stride = train_stride(n, nt);
            &&& n >= 1
            &&& n * dim <= len
            &&& m * (dim / m) == dim
            &&& dim / m > 0
            &&& 0 < nt <= n
            &&& nt <= max_train
            &&& stride >= 1
            &&& stride == n / nt
            &&& nt * stride <= n
        }),
{
    assert(len / dim >= 1 && (len / dim) * dim <= len) by (nonlinear_arith)
        requires
            dim > 0,
            len >= dim,
    ;
    assert(m * (dim / m) == dim && dim / m > 0) by (nonlinear_arith)
        requires
            m > 0,
            dim > 0,
            dim % m == 0,
    ;
    let n = len / dim;
    let nt = train_len(n, max_train);
    assert(n / nt >= 1 && nt * (n / nt) <= n) by (nonlinear_arith)
        requires
            0 < nt <= n,
    ;
}

/// The codebook of a subspace depends on the subvectors of that subspace alone.
pub proof fn law_subspace_sees_its_subvectors<
    T,
    D: Fn(&[T], &[T]) -> u32,
    M: Fn(&[T], &[usize]) -> Vec<T>,
>(
    f: D,
    mean: M,
    a: Seq<T>,
    b: Seq<T>,
    dim: nat,
    m: nat,
    iters: nat,
    max_train: nat,
    seed: u64,
    j: int,
)
    requires
        m > 0,
        dim > 0,
        dim % m == 0,
        dim <= a.len(),
        a.len() == b.len(),
        max_train > 0,
        0 <= j < m,
        forall|i: int|
            0 <= i < a.len() / dim ==> #[trigger] a.subrange(
                i * dim + j * (dim / m),
                i * dim + j * (dim / m) + dim / m,
            ) == b.subrange(
                i * dim + j * (dim / m),
                i * dim + j * (dim / m) + dim / m,
            ),
    ensures
        subspace(f, mean, a, dim, m, iters, max_train, seed, j) == subspace(
            f,
            mean,
            b,
            dim,
            m,
            iters,
            max_train,
            seed,
            j,
        ),
{
    let n = a.len() / dim;
    let nt = train_len(n, max_train);
    let stride = train_stride(n, nt);
    let dsub = dim / m;
    lemma_training_size(a.len(), dim, m, max_train);
    law_training_rows(a, dim, dsub, m, j, stride, nt, n);
    law_training_rows(b, dim, dsub, m, j, stride, nt, n);
    let x = sampled(a, dim, dsub, j, stride, nt);
    let y = sampled(b, dim, dsub, j, stride, nt);
    assert forall|t: int| 0 <= t < nt implies #[trigger] row(x, dsub, t) == row(y, dsub, t) by {
        assert(0 <= t * stride < n) by (nonlinear_arith)
            requires
                0 <= t < nt,
                nt * stride <= n,
                stride >= 1,
        ;
        let i = t * stride;
        assert(a.subrange(i * dim + j * dsub, i * dim + j * dsub + dsub) == b.subrange(
            i * dim + j * dsub,
            i * dim + j * dsub + dsub,
        ));
        assert(row(y, dsub, t) == b.subrange(i * dim + j * dsub, i * dim + j * dsub + dsub));
    }
    lemma_same_rows(x, y, dsub, nt);
}

/// Training starts with the rows that are picked.
pub(crate) proof fn lemma_starts<T>(train: Seq<T>, dsub: nat, nt: nat, ksub: nat, s: u64)
    requires
        nt > 0,
        ksub > 0,
        holds_rows(train, dsub, nt),
    ensures
        starts(train, dsub, nt, ksub, s, rows_at(train, dsub, picks(nt, ksub, ksub, s).0)),
{
    let from = picks(nt, ksub, ksub, s).0;
    let book = rows_at(train, dsub, from);
    law_picks_are_distinct(nt, ksub, ksub, s);
    assert forall|c: int| 0 <= c < ksub implies #[trigger] row(book, dsub, c) == row(
        train,
        dsub,
        from[c],
    ) by {
        lemma_rows_at(train, dsub, nt, from, c);
    }
    lemma_rows_at(train, dsub, nt, from, 0);
    law_picks_follow_stream(nt, ksub, ksub, s);
    assert(picked(train, dsub, nt, ksub, book, from));
}

/// A round more.
pub(crate) proof fn lemma_one_more_round<
    T,
    D: Fn(&[T], &[T]) -> u32,
    M: Fn(&[T], &[usize]) -> Vec<T>,
>(
    f: D,
    mean: M,
    train: Seq<T>,
    dsub: nat,
    nt: nat,
    ksub: nat,
    s: u64,
    rounds: Seq<Seq<T>>,
    next: Seq<T>,
)
    requires
        goes_through(f, mean, train, dsub, nt, ksub, s, rounds),
        moves(f, mean, train, dsub, nt, ksub, rounds.last(), next),
    ensures
        goes_through(f, mean, train, dsub, nt, ksub, s, rounds.push(next)),
{
    let r = rounds.push(next);
    assert forall|i: int| 0 <= i < r.len() - 1 implies moves(
        f,
        mean,
        train,
        dsub,
        nt,
        ksub,
        #[trigger] r[i],
        r[i + 1],
    ) by {
        assert(r[i] == rounds[i]);
        if i < rounds.len() - 1 {
            assert(r[i + 1] == rounds[i + 1]);
        }
    }
}

/// The rows of a buffer that one row is put behind.
pub(crate) proof fn lemma_row_behind<T>(p: Seq<T>, part: Seq<T>, dsub: nat, c: nat)
    requires
        p.len() == c * dsub,
        part.len() == dsub,
    ensures
        (p + part).len() == (c + 1) * dsub,
        row(p + part, dsub, c as int) == part,
        forall|x: int|
            0 <= x < c ==> #[trigger] row(p + part, dsub, x) == row(p, dsub, x),
{
    assert((c + 1) * dsub == c * dsub + dsub) by (nonlinear_arith);
    assert(row(p + part, dsub, c as int) =~= part);
    assert forall|x: int| 0 <= x < c implies #[trigger] row(p + part, dsub, x) == row(
        p,
        dsub,
        x,
    ) by {
        lemma_row_bounds(dsub, c, x, p.len());
        assert(row(p + part, dsub, x) =~= row(p, dsub, x));
    }
}

/// Buffers with the same rows are the same.
proof fn lemma_same_rows<T>(x: Seq<T>, y: Seq<T>, dsub: nat, nt: nat)
    requires
        dsub > 0,
        x.len() == nt * dsub,
        y.len() == nt * dsub,
        forall|t: int| 0 <= t < nt ==> #[trigger] row(x, dsub, t) == row(y, dsub, t),
    ensures
        x == y,
{
    assert forall|k: int| 0 <= k < x.len() implies x[k] == y[k] by {
        let d = dsub as int;
        let t = k / d;
        let i = k % d;
        assert(0 <= t < nt && 0 <= i < d && k == t * d + i) by (nonlinear_arith)
            requires
                d > 0,
                0 <= k < nt * d,
                t == k / d,
                i == k % d,
        ;
        lemma_row_bounds(dsub, nt, t, x.len());
        assert(row(x, dsub, t)[i] == x[k]);
        assert(row(y, dsub, t)[i] == y[k]);
    }
    assert(x =~= y);
}

/// The members of a cluster are the rows that its centre is nearest to.
pub proof fn law_members<T, D: Fn(&[T], &[T]) -> u32>(
    f: D,
    train: Seq<T>,
    dsub: nat,
    cent: Seq<T>,
    ksub: nat,
    nt: nat,
    c: nat,
)
    requires
        nt <= usize::MAX,
        c < ksub,
    ensures
        cluster_is(
            f,
            train,
            dsub,
            nt,
            cent,
            ksub,
            c as int,
            members(f, train, dsub, cent, ksub, nt, c),
        ),
    decreases nt,
{
    if nt > 0 {
        let k = (nt - 1) as nat;
        let p = members(f, train, dsub, cent, ksub, k, c);
        let r = members(f, train, dsub, cent, ksub, nt, c);
        law_members(f, train, dsub, cent, ksub, k, c);
        assert forall|t: int| 0 <= t < nt implies (r.contains(t as usize) <==> nearest_is(
            f,
            #[trigger] row(train, dsub, t),
            cent,
            dsub,
            ksub,
            c as int,
        )) by {
            lemma_home(f, train, dsub, cent, ksub, t, c);
            if t < k {
                if p.contains(t as usize) {
                    let a = choose|a: int| 0 <= a < p.len() && p[a] == t as usize;
                    assert(r[a] == t as usize);
                }
                if r.contains(t as usize) {
                    let a = choose|a: int| 0 <= a < r.len() && r[a] == t as usize;
                    assert(p[a] == t as usize);
                }
            } else {
                if home(f, train, dsub, cent, ksub, k as int) == c {
                    assert(r[r.len() - 1] == t as usize);
                } else if r.contains(t as usize) {
                    let a = choose|a: int| 0 <= a < r.len() && r[a] == t as usize;
                    assert(p[a] < k);
                }
            }
        }
        assert forall|a: int| 0 <= a < r.len() implies #[trigger] r[a] < nt by {
            if a < p.len() {
                assert(p[a] < k);
            }
        }
        assert forall|a: int, b: int| 0 <= a < b < r.len() implies #[trigger] r[a]
            < #[trigger] r[b] by {
            assert(p[a] < k);
            if b < p.len() {
                assert(p[a] < p[b]);
            }
        }
    }
}

/// The rows before row `c` of a codebook that are nearest to no training row.
pub open spec fn unwanted<T, D: Fn(&[T], &[T]) -> u32>(
    f: D,
    train: Seq<T>,
    dsub: nat,
    nt: nat,
    book: Seq<T>,
    ksub: nat,
    c: int,
) -> Set<int> {
    Set::new(
        |x: int|
            0 <= x < c && forall|t: int|
                0 <= t < nt ==> !nearest_is(f, #[trigger] row(train, dsub, t), book, dsub, ksub, x),
    )
}

/// In a round of training a row that is nearest to no training row gives way to one that
/// the next number of the stream draws, and nothing else draws.
pub proof fn law_unwanted_rows_are_drawn<
    T,
    D: Fn(&[T], &[T]) -> u32,
    M: Fn(&[T], &[usize]) -> Vec<T>,
>(
    f: D,
    mean: M,
    train: Seq<T>,
    dsub: nat,
    nt: nat,
    book: Seq<T>,
    ksub: nat,
    c: nat,
    s: u64,
)
    requires
        0 < nt <= usize::MAX,
        c <= ksub,
        holds_rows(train, dsub, nt),
        forall|ms: Seq<usize>|
            ms.len() > 0 ==> (#[trigger] mean_of(mean, train, ms)).len() == dsub,
    ensures
        ({
            let r = refined(f, mean, train, dsub, nt, book, ksub, c, s);
            let all = |x: int| unwanted(f, train, dsub, nt, book, ksub, x);
            &&& r.0.len() == c * dsub
            &&& all(c as int).finite()
            &&& r.1 == state_after(s, all(c as int).len())
            &&& forall|x: int|
                0 <= x < c && all(c as int).contains(x) ==> #[trigger] row(r.0, dsub, x) == row(
                    train,
                    dsub,
                    (output(state_after(s, all(x).len() + 1)) as usize) as int % nt as int,
                )
        }),
    decreases c,
{
    let r = refined(f, mean, train, dsub, nt, book, ksub, c, s);
    let all = |x: int| unwanted(f, train, dsub, nt, book, ksub, x);
    if c == 0 {
        assert(all(0) =~= Set::empty());
        assert(0 * dsub == 0) by (nonlinear_arith);
    } else {
        let k = (c - 1) as nat;
        let p = refined(f, mean, train, dsub, nt, book, ksub, k, s);
        let ms = members(f, train, dsub, book, ksub, nt, k);
        law_unwanted_rows_are_drawn(f, mean, train, dsub, nt, book, ksub, k, s);
        law_members(f, train, dsub, book, ksub, nt, k);
        let part = if ms.len() == 0 {
            row(train, dsub, pick(scramble(p.1), nt) as int)
        } else {
            mean_of(mean, train, ms)
        };
        if ms.len() == 0 {
            lemma_row_bounds(dsub, nt, pick(scramble(p.1), nt) as int, train.len());
            assert forall|t: int| 0 <= t < nt implies !nearest_is(
                f,
                #[trigger] row(train, dsub, t),
                book,
                dsub,
                ksub,
                k as int,
            ) by {
                assert(!ms.contains(t as usize));
            }
            assert(all(c as int) =~= all(k as int).insert(k as int));
            assert(state_after(s, all(k as int).len() + 1) == scramble(p.1));
        } else {
            let t = ms[0] as int;
            assert(ms.contains(t as usize));
            assert(nearest_is(f, row(train, dsub, t), book, dsub, ksub, k as int));
            assert(all(c as int) =~= all(k as int));
        }
        assert(r.0 == p.0 + part);
        lemma_row_behind(p.0, part, dsub, k);
        assert forall|x: int| 0 <= x < c && all(c as int).contains(x) implies #[trigger] row(
            r.0,
            dsub,
            x,
        ) == row(
            train,
            dsub,
            (output(state_after(s, all(x).len() + 1)) as usize) as int % nt as int,
        ) by {
            if x < k {
                assert(all(k as int).contains(x));
                assert(row(r.0, dsub, x) == row(p.0, dsub, x));
            }
        }
    }
}

proof fn lemma_home<T, D: Fn(&[T], &[T]) -> u32>(
    f: D,
    train: Seq<T>,
    dsub: nat,
    cent: Seq<T>,
    ksub: nat,
    t: int,
    c: nat,
)
    requires
        c < ksub,
    ensures
        home(f, train, dsub, cent, ksub, t) == c <==> nearest_is(
            f,
            row(train, dsub, t),
            cent,
            dsub,
            ksub,
            c as int,
        ),
{
    let v = row(train, dsub, t);
    let key = row_keys(f, v, cent, dsub, 0);
    law_first_min(key, ksub);
    let h = first_min(key, ksub) as int;
    assert forall|x: int| 0 <= x < ksub implies key(x) == dist_of(f, v, #[trigger] row(cent, dsub, x)) by {
    }
    if h == c {
        assert forall|x: int| 0 <= x < ksub implies dist_of(f, v, row(cent, dsub, h)) <= dist_of(
            f,
            v,
            #[trigger] row(cent, dsub, x),
        ) && (x < h ==> dist_of(f, v, row(cent, dsub, h)) != dist_of(f, v, row(cent, dsub, x))) by {
            assert(key(h) <= key(x));
            if x < h {
                assert(key(h) < key(x));
            }
        }
    }
    if nearest_is(f, v, cent, dsub, ksub, c as int) && h != c {
        let x = row(cent, dsub, h);
        assert(key(h) <= key(c as int));
        assert(key(c as int) <= key(h));
        if c < h {
            assert(key(h) < key(c as int));
        }
    }
}

} // verus!
