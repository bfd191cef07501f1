//! Lloyd's algorithm inside one subspace.
//!
//! The measure of two subvectors and the mean of several are parameters; what
//! happens to the clusters between the two is decided here.

use vstd::prelude::*;

use crate::cand::FAR;
use crate::dist::{add_up, adds, lane, sum_of};
use crate::exact::total;
use crate::learning::{
    cluster_is, goes_through, law_members, learns, lemma_one_more_round, lemma_row_behind,
    lemma_starts, row_moves,
};
use crate::metric::{
    dist_of, holds_rows, lemma_row_bounds, measure, measures, push_all, row, row_of,
};
use crate::seeding::{pick, picks, push_row, random_row, rows_at, seed_rows};
use crate::synth::{lemma_adds_up, scramble, R};

verus! {

/// The index of the smallest of the first `k` keys, the first one where several
/// are equal.
pub open spec fn first_min(key: spec_fn(int) -> u32, k: nat) -> nat
    decreases k,
{
    if k <= 1 {
        0
    } else {
        let p = first_min(key, (k - 1) as nat);
        if key(k - 1) < key(p as int) {
            (k - 1) as nat
        } else {
            p
        }
    }
}

/// `first_min` is the index of a smallest key, and every key before it is
/// greater.
pub proof fn law_first_min(key: spec_fn(int) -> u32, k: nat)
    requires
        k > 0,
    ensures
        first_min(key, k) < k,
        forall|c: int| 0 <= c < k ==> key(first_min(key, k) as int) <= #[trigger] key(c),
        forall|c: int| 0 <= c < first_min(key, k) ==> key(first_min(key, k) as int) < #[trigger] key(c),
    decreases k,
{
    if k > 1 {
        law_first_min(key, (k - 1) as nat);
    }
}

/// The distances of `v` from the rows of a codebook, from row `lo` on.
pub open spec fn row_keys<T, D: Fn(&[T], &[T]) -> u32>(
    f: D,
    v: Seq<T>,
    cent: Seq<T>,
    dsub: nat,
    lo: int,
) -> spec_fn(int) -> u32 {
    |c: int| dist_of(f, v, row(cent, dsub, lo + c))
}

/// The row, among the `k` rows from `lo` on, that is nearest to `v`.
pub fn nearest_row<T, D: Fn(&[T], &[T]) -> u32>(
    f: &D,
    v: &[T],
    cent: &[T],
    dsub: usize,
    lo: usize,
    k: usize,
) -> (r: usize)
    requires
        measures(*f),
        v@.len() == dsub,
        lo + k <= usize::MAX,
        (lo + k) * dsub <= cent@.len(),
    ensures
        r == first_min(row_keys(*f, v@, cent@, dsub as nat, lo as int), k as nat),
        k > 0 ==> r < k,
        forall|c: int|
            0 <= c < k ==> {
                let d = dist_of(*f, v@, row(cent@, dsub as nat, lo + r));
                let other = dist_of(*f, v@, #[trigger] row(cent@, dsub as nat, lo + c));
                d <= other && (c < r ==> d < other)
            },
{
    let ghost key = row_keys(*f, v@, cent@, dsub as nat, lo as int);
    let mut best: u32 = FAR;
    let mut bi: usize = 0;
    let mut c: usize = 0;
    while c < k
        invariant
            measures(*f),
            v@.len() == dsub,
            lo + k <= usize::MAX,
            (lo + k) * dsub <= cent@.len(),
            key == row_keys(*f, v@, cent@, dsub as nat, lo as int),
            c <= k,
            c == 0 ==> best == FAR && bi == 0,
            c > 0 ==> bi < c && bi == first_min(key, c as nat) && best == key(bi as int),
        decreases k - c,
    {
        proof {
            lemma_row_bounds(dsub as nat, (lo + k) as nat, lo + c, cent@.len());
        }
        let d = measure(f, v, row_of(cent, dsub, lo + c));
        if d < best {
            best = d;
            bi = c;
        }
        c = c + 1;
    }
    proof {
        if k > 0 {
            law_first_min(key, k as nat);
            assert forall|c: int| 0 <= c < k implies {
                let d = dist_of(*f, v@, row(cent@, dsub as nat, lo + bi));
                let other = dist_of(*f, v@, #[trigger] row(cent@, dsub as nat, lo + c));
                d <= other && (c < bi ==> d < other)
            } by {
                assert(key(bi as int) <= key(c));
                if c < bi {
                    assert(key(bi as int) < key(c));
                }
            }
        }
    }
    bi
}

/// `f` averages any rows of a training buffer: it returns `dsub` elements that
/// depend on the buffer and on which rows these are, and on nothing else.
pub open spec fn averages<T, M: Fn(&[T], &[usize]) -> Vec<T>>(f: M, dsub: nat) -> bool {
    &&& forall|a: &[T], ms: &[usize]|
        ms@.len() > 0 && (forall|k: int|
            0 <= k < ms@.len() ==> (#[trigger] ms@[k] + 1) * dsub <= a@.len())
            ==> #[trigger] call_requires(f, (a, ms))
    &&& forall|a: &[T], ms: &[usize], r: Vec<T>|
        #[trigger] call_ensures(f, (a, ms), r) ==> r@.len() == dsub
    &&& forall|a: &[T], ms: &[usize], r1: Vec<T>, r2: Vec<T>|
        #[trigger] call_ensures(f, (a, ms), r1) && #[trigger] call_ensures(f, (a, ms), r2) ==> r1@
            == r2@
}

/// `f` can return `r` for the rows `ms` of a buffer that holds `a`.
pub open spec fn averaged<T, M: Fn(&[T], &[usize]) -> Vec<T>>(
    f: M,
    a: Seq<T>,
    ms: Seq<usize>,
    r: Vec<T>,
) -> bool {
    exists|x: &[T], y: &[usize]| x@ == a && y@ == ms && #[trigger] call_ensures(f, (x, y), r)
}

/// The mean of the rows `ms` of `a`.
pub open spec fn mean_of<T, M: Fn(&[T], &[usize]) -> Vec<T>>(
    f: M,
    a: Seq<T>,
    ms: Seq<usize>,
) -> Seq<T> {
    (choose|r: Vec<T>| averaged(f, a, ms, r))@
}

/// What `f` returns for some rows of a buffer is their mean.
pub proof fn law_mean_of<T, M: Fn(&[T], &[usize]) -> Vec<T>>(
    f: M,
    dsub: nat,
    a: &[T],
    ms: &[usize],
    r: Vec<T>,
)
    requires
        averages(f, dsub),
        call_ensures(f, (a, ms), r),
    ensures
        mean_of(f, a@, ms@) == r@,
{
    assert(averaged(f, a@, ms@, r));
    let s = choose|s: Vec<T>| averaged(f, a@, ms@, s);
    assert(averaged(f, a@, ms@, s));
    let (x, y) = choose|x: &[T], y: &[usize]|
        x@ == a@ && y@ == ms@ && #[trigger] call_ensures(f, (x, y), s);
    assert(x =~= a);
    assert(y =~= ms);
}

/// Average the rows `ms` of `a`.
fn average<T, M: Fn(&[T], &[usize]) -> Vec<T>>(
    f: &M,
    a: &[T],
    ms: &[usize],
    Ghost(dsub): Ghost<nat>,
) -> (r: Vec<T>)
    requires
        averages(*f, dsub),
        ms@.len() > 0,
        forall|k: int| 0 <= k < ms@.len() ==> (#[trigger] ms@[k] + 1) * dsub <= a@.len(),
    ensures
        r@ == mean_of(*f, a@, ms@),
        r@.len() == dsub,
{
    let r = f(a, ms);
    proof {
        assert(averaged(*f, a@, ms@, r));
        let s = choose|s: Vec<T>| averaged(*f, a@, ms@, s);
        assert(averaged(*f, a@, ms@, s));
        let (x, y) = choose|x: &[T], y: &[usize]|
            x@ == a@ && y@ == ms@ && #[trigger] call_ensures(*f, (x, y), s);
        assert(x =~= a);
        assert(y =~= ms);
    }
    r
}

/// The cluster that training row `i` belongs to.
pub open spec fn home<T, D: Fn(&[T], &[T]) -> u32>(
    f: D,
    train: Seq<T>,
    dsub: nat,
    cent: Seq<T>,
    ksub: nat,
    i: int,
) -> nat {
    first_min(row_keys(f, row(train, dsub, i), cent, dsub, 0), ksub)
}

/// The rows among the first `k` that belong to cluster `c`.
pub open spec fn members<T, D: Fn(&[T], &[T]) -> u32>(
    f: D,
    train: Seq<T>,
    dsub: nat,
    cent: Seq<T>,
    ksub: nat,
    k: nat,
    c: nat,
) -> Seq<usize>
    decreases k,
{
    if k == 0 {
        Seq::empty()
    } else {
        let p = members(f, train, dsub, cent, ksub, (k - 1) as nat, c);
        if home(f, train, dsub, cent, ksub, k - 1) == c {
            p.push((k - 1) as usize)
        } else {
            p
        }
    }
}

/// The first `c` rows of the next codebook, and the state of the stream after
/// them: the mean of each cluster, and for an empty cluster a random training
/// row.
pub open spec fn refined<T, D: Fn(&[T], &[T]) -> u32, M: Fn(&[T], &[usize]) -> Vec<T>>(
    f: D,
    mean: M,
    train: Seq<T>,
    dsub: nat,
    nt: nat,
    cent: Seq<T>,
    ksub: nat,
    c: nat,
    s: u64,
) -> (Seq<T>, u64)
    decreases c,
{
    if c == 0 {
        (Seq::empty(), s)
    } else {
        let p = refined(f, mean, train, dsub, nt, cent, ksub, (c - 1) as nat, s);
        let ms = members(f, train, dsub, cent, ksub, nt, (c - 1) as nat);
        if ms.len() == 0 {
            let t = scramble(p.1);
            (p.0 + row(train, dsub, pick(t, nt) as int), t)
        } else {
            (p.0 + mean_of(mean, train, ms), p.1)
        }
    }
}

/// The codebook after `iters` more rounds.
pub open spec fn lloyd<T, D: Fn(&[T], &[T]) -> u32, M: Fn(&[T], &[usize]) -> Vec<T>>(
    f: D,
    mean: M,
    train: Seq<T>,
    dsub: nat,
    nt: nat,
    cent: Seq<T>,
    ksub: nat,
    s: u64,
    iters: nat,
) -> Seq<T>
    decreases iters,
{
    if iters == 0 {
        cent
    } else {
        let p = refined(f, mean, train, dsub, nt, cent, ksub, ksub, s);
        lloyd(f, mean, train, dsub, nt, p.0, ksub, p.1, (iters - 1) as nat)
    }
}

/// The codebook that training ends with.
pub open spec fn codebook<T, D: Fn(&[T], &[T]) -> u32, M: Fn(&[T], &[usize]) -> Vec<T>>(
    f: D,
    mean: M,
    train: Seq<T>,
    dsub: nat,
    nt: nat,
    ksub: nat,
    iters: nat,
    seed: u64,
) -> Seq<T> {
    let p = picks(nt, ksub, ksub, seed | 1);
    lloyd(f, mean, train, dsub, nt, rows_at(train, dsub, p.0), ksub, p.1, iters)
}

proof fn lemma_members<T, D: Fn(&[T], &[T]) -> u32>(
    f: D,
    train: Seq<T>,
    dsub: nat,
    cent: Seq<T>,
    ksub: nat,
    k: nat,
    c: nat,
)
    requires
        k <= usize::MAX,
    ensures
        forall|i: int|
            0 <= i < members(f, train, dsub, cent, ksub, k, c).len() ==> #[trigger] members(
                f,
                train,
                dsub,
                cent,
                ksub,
                k,
                c,
            )[i] < k,
    decreases k,
{
    if k > 0 {
        lemma_members(f, train, dsub, cent, ksub, (k - 1) as nat, c);
        let p = members(f, train, dsub, cent, ksub, (k - 1) as nat, c);
        let r = members(f, train, dsub, cent, ksub, k, c);
        assert forall|i: int| 0 <= i < r.len() implies #[trigger] r[i] < k by {
            if i < p.len() {
                assert(p[i] < k - 1);
                assert(r[i] == p[i]);
            }
        }
    }
}

/// Sort the training rows into clusters.
fn clusters<T, D: Fn(&[T], &[T]) -> u32>(
    f: &D,
    train: &[T],
    nt: usize,
    dsub: usize,
    cent: &[T],
    ksub: usize,
) -> (r: Vec<Vec<usize>>)
    requires
        measures(*f),
        ksub > 0,
        holds_rows(train@, dsub as nat, nt as nat),
        ksub * dsub <= cent@.len(),
    ensures
        r@.len() == ksub,
        forall|c: int|
            0 <= c < ksub ==> #[trigger] r@[c]@ == members(
                *f,
                train@,
                dsub as nat,
                cent@,
                ksub as nat,
                nt as nat,
                c as nat,
            ),
{
    let mut lists: Vec<Vec<usize>> = Vec::new();
    let mut c: usize = 0;
    while c < ksub
        invariant
            c <= ksub,
            lists@.len() == c,
            forall|x: int| 0 <= x < c ==> #[trigger] lists@[x]@ == Seq::<usize>::empty(),
        decreases ksub - c,
    {
        lists.push(Vec::new());
        c = c + 1;
    }
    let mut i: usize = 0;
    while i < nt
        invariant
            measures(*f),
            ksub > 0,
            holds_rows(train@, dsub as nat, nt as nat),
            ksub * dsub <= cent@.len(),
            i <= nt,
            lists@.len() == ksub,
            forall|x: int|
                0 <= x < ksub ==> #[trigger] lists@[x]@ == members(
                    *f,
                    train@,
                    dsub as nat,
                    cent@,
                    ksub as nat,
                    i as nat,
                    x as nat,
                ),
        decreases nt - i,
    {
        proof {
            lemma_row_bounds(dsub as nat, nt as nat, i as int, train@.len());
        }
        let v = row_of(train, dsub, i);
        let h = nearest_row(f, v, cent, dsub, 0, ksub);
        let ghost prior = lists@;
        lists[h].push(i);
        assert forall|x: int| 0 <= x < ksub implies #[trigger] lists@[x]@ == members(
            *f,
            train@,
            dsub as nat,
            cent@,
            ksub as nat,
            (i + 1) as nat,
            x as nat,
        ) by {
            assert(prior[x]@ == members(
                *f,
                train@,
                dsub as nat,
                cent@,
                ksub as nat,
                i as nat,
                x as nat,
            ));
            if x != h {
                assert(lists@[x] == prior[x]);
            }
        }
        i = i + 1;
    }
    lists
}

/// Train the codebook of one subspace on `nt` rows of `dsub` elements each.
pub fn kmeans_subspace<
    T: Copy,
    D: Fn(&[T], &[T]) -> u32,
    M: Fn(&[T], &[usize]) -> Vec<T>,
>(
    f: &D,
    mean: &M,
    train: &[T],
    nt: usize,
    dsub: usize,
    ksub: usize,
    iters: usize,
    seed: u64,
) -> (cent: Vec<T>)
    requires
        measures(*f),
        averages(*mean, dsub as nat),
        nt > 0,
        ksub > 0,
        holds_rows(train@, dsub as nat, nt as nat),
    ensures
        cent@ == codebook(
            *f,
            *mean,
            train@,
            dsub as nat,
            nt as nat,
            ksub as nat,
            iters as nat,
            seed,
        ),
        cent@.len() == ksub * dsub,
        learns(
            *f,
            *mean,
            train@,
            dsub as nat,
            nt as nat,
            ksub as nat,
            iters as nat,
            seed,
            cent@,
        ),
{
    let ghost d = dsub as nat;
    let ghost n = nt as nat;
    let ghost k = ksub as nat;
    let mut r = R(seed | 1);
    let mut cent = seed_rows(&mut r, train, nt, dsub, ksub);
    let ghost goal = codebook(*f, *mean, train@, d, n, k, iters as nat, seed);
    let mut left: usize = iters;
    let ghost mut rounds = seq![cent@];
    proof {
        lemma_starts(train@, d, n, k, seed | 1);
    }
    while left > 0
        invariant
            left <= iters,
            goes_through(*f, *mean, train@, d, n, k, seed | 1, rounds),
            rounds.len() == iters - left + 1,
            rounds.last() == cent@,
            measures(*f),
            averages(*mean, d),
            nt > 0,
            ksub > 0,
            d == dsub,
            n == nt,
            k == ksub,
            holds_rows(train@, d, n),
            cent@.len() == ksub * dsub,
            lloyd(*f, *mean, train@, d, n, cent@, k, r.0, left as nat) == goal,
        decreases left,
    {
        let lists = clusters(f, train, nt, dsub, &cent, ksub);
        let ghost s0 = r.0;
        let mut next: Vec<T> = Vec::new();
        let mut c: usize = 0;
        while c < ksub
            invariant
                c <= ksub,
                measures(*f),
                averages(*mean, d),
                nt > 0,
                d == dsub,
                n == nt,
                k == ksub,
                holds_rows(train@, d, n),
                lists@.len() == ksub,
                forall|x: int|
                    0 <= x < ksub ==> #[trigger] lists@[x]@ == members(
                        *f,
                        train@,
                        d,
                        cent@,
                        k,
                        n,
                        x as nat,
                    ),
                (next@, r.0) == refined(*f, *mean, train@, d, n, cent@, k, c as nat, s0),
                next@.len() == c * dsub,
                forall|x: int|
                    0 <= x < c ==> row_moves(
                        *f,
                        *mean,
                        train@,
                        d,
                        n,
                        cent@,
                        k,
                        x,
                        #[trigger] row(next@, d, x),
                    ),
            decreases ksub - c,
        {
            let ghost made = next@;
            proof {
                law_members(*f, train@, d, cent@, k, n, c as nat);
            }
            proof {
                assert((c + 1) * dsub == c * dsub + dsub) by (nonlinear_arith);
                assert(lists@[c as int]@ == members(*f, train@, d, cent@, k, n, c as nat));
            }
            if lists[c].len() == 0 {
                let i = random_row(&mut r, nt);
                proof {
                    lemma_row_bounds(d, n, i as int, train@.len());
                }
                push_row(&mut next, train, dsub, i);
                proof {
                    lemma_row_behind(made, row(train@, d, i as int), d, c as nat);
                }
            } else {
                proof {
                    lemma_members(*f, train@, d, cent@, k, n, c as nat);
                    let ms = lists@[c as int]@;
                    assert forall|y: int| 0 <= y < ms.len() implies (#[trigger] ms[y] + 1) * d
                        <= train@.len() by {
                        assert(members(*f, train@, d, cent@, k, n, c as nat)[y] < n);
                        lemma_row_bounds(d, n, ms[y] as int, train@.len());
                    }
                }
                let mu = average(mean, train, &lists[c], Ghost(d));
                push_all(&mut next, &mu);
                proof {
                    lemma_row_behind(made, mu@, d, c as nat);
                }
            }
            proof {
                let ms = members(*f, train@, d, cent@, k, n, c as nat);
                assert(cluster_is(*f, train@, d, n, cent@, k, c as int, ms));
            }
            c = c + 1;
        }
        proof {
            lemma_one_more_round(*f, *mean, train@, d, n, k, seed | 1, rounds, next@);
            rounds = rounds.push(next@);
        }
        cent = next;
        left = left - 1;
    }
    cent
}

/// `f` divides any sum by any number of parts, and always alike.
pub open spec fn shares<T, S: Fn(T, usize) -> T>(f: S) -> bool {
    &&& forall|x: T, c: usize| c > 0 ==> #[trigger] call_requires(f, (x, c))
    &&& forall|x: T, c: usize, r1: T, r2: T|
        #[trigger] call_ensures(f, (x, c), r1) && #[trigger] call_ensures(f, (x, c), r2) ==> r1
            == r2
}

/// What `f` makes of the sum `x` of `c` parts.
pub open spec fn share_of<T, S: Fn(T, usize) -> T>(f: S, x: T, c: usize) -> T {
    choose|r: T| call_ensures(f, (x, c), r)
}

/// What `f` returns for a sum and a number of parts is the share of one part.
pub proof fn law_share_of<T, S: Fn(T, usize) -> T>(f: S, x: T, c: usize, r: T)
    requires
        shares(f),
        call_ensures(f, (x, c), r),
    ensures
        share_of(f, x, c) == r,
{
    assert(call_ensures(f, (x, c), choose|r: T| call_ensures(f, (x, c), r)));
}

/// How row `ms[k]` adds to the sum of column `j`.
pub open spec fn column<T, P: Fn(T, T) -> T>(
    a: Seq<T>,
    ms: Seq<usize>,
    dsub: nat,
    j: int,
    plus: P,
) -> spec_fn(T, int) -> T {
    |s: T, k: int| sum_of(plus, s, row(a, dsub, ms[k] as int)[j])
}

/// The average of the rows `ms` of `a`, column by column.
pub open spec fn average_row<T, P: Fn(T, T) -> T, S: Fn(T, usize) -> T>(
    a: Seq<T>,
    ms: Seq<usize>,
    dsub: nat,
    zero: T,
    plus: P,
    share: S,
) -> Seq<T> {
    Seq::new(
        dsub,
        |j: int|
            share_of(
                share,
                lane(column(a, ms, dsub, j, plus), zero, 0, 1, ms.len()),
                ms.len() as usize,
            ),
    )
}

/// Where adding is exact, element `j` of an average is the share of the sum of elements
/// `j` of all the rows.
pub proof fn law_average_is_of_sums<T, P: Fn(T, T) -> T, S: Fn(T, usize) -> T>(
    a: Seq<T>,
    ms: Seq<usize>,
    dsub: nat,
    zero: T,
    plus: P,
    share: S,
    val: spec_fn(T) -> int,
    j: int,
)
    requires
        0 <= j < dsub,
        forall|k: int| 0 <= k < ms.len() ==> (#[trigger] ms[k] + 1) * dsub <= a.len(),
        val(zero) == 0,
        forall|s: T, v: T| val(#[trigger] sum_of(plus, s, v)) == val(s) + val(v),
    ensures
        ({
            let r = average_row(a, ms, dsub, zero, plus, share);
            &&& r.len() == dsub
            &&& exists|y: T| #[trigger]
                share_of(share, y, ms.len() as usize) == r[j] && val(y) == total(
                    |k: int| val(a[ms[k] * dsub + j]),
                    ms.len(),
                )
        }),
{
    let h = column(a, ms, dsub, j, plus);
    let term = |k: int| val(a[ms[k] * dsub + j]);
    assert forall|s: T, k: int| 0 <= k < ms.len() implies val(#[trigger] h(s, k)) == val(s) + term(
        k,
    ) by {
        let i = ms[k] as int;
        assert((ms[k] + 1) * dsub <= a.len());
        assert(0 <= i * dsub && (i + 1) * dsub == i * dsub + dsub) by (nonlinear_arith)
            requires
                0 <= i,
        ;
        assert(row(a, dsub, i)[j] == a[i * dsub + j]);
    }
    lemma_adds_up(h, zero, val, term, ms.len());
    let y = lane(h, zero, 0, 1, ms.len());
    assert(share_of(share, y, ms.len() as usize) == average_row(
        a,
        ms,
        dsub,
        zero,
        plus,
        share,
    )[j]);
}

/// The average of the rows `ms` of `a`: each column is added up in the order of
/// `ms`, and the sum is divided by how many there are.
pub fn average_rows<T: Copy, P: Fn(T, T) -> T, S: Fn(T, usize) -> T>(
    a: &[T],
    ms: &[usize],
    dsub: usize,
    zero: T,
    plus: &P,
    share: &S,
) -> (r: Vec<T>)
    requires
        ms@.len() > 0,
        forall|k: int| 0 <= k < ms@.len() ==> (#[trigger] ms@[k] + 1) * dsub <= a@.len(),
        adds(*plus),
        shares(*share),
    ensures
        r@ == average_row(a@, ms@, dsub as nat, zero, *plus, *share),
        r@.len() == dsub,
{
    let n = ms.len();
    let mut r: Vec<T> = Vec::new();
    let mut j: usize = 0;
    while j < dsub
        invariant
            j <= dsub,
            n == ms@.len() > 0,
            forall|k: int| 0 <= k < ms@.len() ==> (#[trigger] ms@[k] + 1) * dsub <= a@.len(),
            adds(*plus),
            shares(*share),
            r@.len() == j,
            forall|x: int|
                0 <= x < j ==> #[trigger] r@[x] == average_row(
                    a@,
                    ms@,
                    dsub as nat,
                    zero,
                    *plus,
                    *share,
                )[x],
        decreases dsub - j,
    {
        let ghost g = column(a@, ms@, dsub as nat, j as int, *plus);
        let mut s = zero;
        let mut k: usize = 0;
        while k < n
            invariant
                j < dsub,
                k <= n == ms@.len(),
                forall|x: int| 0 <= x < ms@.len() ==> (#[trigger] ms@[x] + 1) * dsub <= a@.len(),
                adds(*plus),
                g == column(a@, ms@, dsub as nat, j as int, *plus),
                s == lane(g, zero, 0, 1, k as nat),
            decreases n - k,
        {
            assert((ms@[k as int] + 1) * dsub <= a@.len());
            s = add_up(plus, s, row_of(a, dsub, ms[k])[j]);
            k = k + 1;
        }
        let x = share(s, n);
        assert(call_ensures(*share, (s, n), share_of(*share, s, n)));
        r.push(x);
        j = j + 1;
    }
    assert(r@ =~= average_row(a@, ms@, dsub as nat, zero, *plus, *share));
    r
}

} // verus!
