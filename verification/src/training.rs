//! What the rounds of Lloyd's algorithm do for a codebook.

use vstd::prelude::*;

use crate::kmeans::{
    codebook, first_min, home, law_first_min, lloyd, mean_of, members, refined, row_keys,
};
use crate::metric::{dist_of, holds_rows, lemma_row_bounds, row};
use crate::seeding::{law_picks_are_distinct, lemma_rows_at, pick, picks, rows_at};
use crate::synth::scramble;

verus! {

/// `val` gives the numbers behind distance keys: a greater key stands for no smaller
/// number.
pub open spec fn rises(val: spec_fn(u32) -> int) -> bool {
    forall|a: u32, b: u32| a <= b ==> #[trigger] val(a) <= #[trigger] val(b)
}

/// How far the rows `ms` lie from `v`, all together.
pub open spec fn spread<T, D: Fn(&[T], &[T]) -> u32>(
    f: D,
    val: spec_fn(u32) -> int,
    train: Seq<T>,
    dsub: nat,
    ms: Seq<usize>,
    v: Seq<T>,
) -> int
    decreases ms.len(),
{
    if ms.len() == 0 {
        0
    } else {
        spread(f, val, train, dsub, ms.drop_last(), v) + val(
            dist_of(f, row(train, dsub, ms.last() as int), v),
        )
    }
}

/// How far the first `k` rows lie, all together, from the row of `cent` that `at` says
/// for each.
pub open spec fn cost_at<T, D: Fn(&[T], &[T]) -> u32>(
    f: D,
    val: spec_fn(u32) -> int,
    train: Seq<T>,
    dsub: nat,
    cent: Seq<T>,
    at: spec_fn(int) -> nat,
    k: nat,
) -> int
    decreases k,
{
    if k == 0 {
        0
    } else {
        cost_at(f, val, train, dsub, cent, at, (k - 1) as nat) + val(
            dist_of(f, row(train, dsub, k - 1), row(cent, dsub, at(k - 1) as int)),
        )
    }
}

/// How far the training rows lie from their nearest centroids, all together.
pub open spec fn cost<T, D: Fn(&[T], &[T]) -> u32>(
    f: D,
    val: spec_fn(u32) -> int,
    train: Seq<T>,
    dsub: nat,
    nt: nat,
    cent: Seq<T>,
    ksub: nat,
) -> int {
    cost_at(f, val, train, dsub, cent, |i: int| home(f, train, dsub, cent, ksub, i), nt)
}

/// The mean of some rows has the size of a row, and no point has these rows nearer to
/// it, all together, by more than `slack`: by nothing where the mean is exact, and by
/// what rounding it loses where it is not.
pub open spec fn centres<T, D: Fn(&[T], &[T]) -> u32, M: Fn(&[T], &[usize]) -> Vec<T>>(
    f: D,
    mean: M,
    val: spec_fn(u32) -> int,
    slack: int,
    train: Seq<T>,
    dsub: nat,
) -> bool {
    forall|ms: Seq<usize>, v: Seq<T>|
        ms.len() > 0 && v.len() == dsub ==> {
            &&& (#[trigger] mean_of(mean, train, ms)).len() == dsub
            &&& spread(f, val, train, dsub, ms, mean_of(mean, train, ms)) <= (#[trigger] spread(
                f,
                val,
                train,
                dsub,
                ms,
                v,
            )) + slack
        }
}

/// How far the first `k` rows lie, cluster by cluster, from the rows of `to`: the first
/// `c` clusters of `cent`.
spec fn by_cluster<T, D: Fn(&[T], &[T]) -> u32>(
    f: D,
    val: spec_fn(u32) -> int,
    train: Seq<T>,
    dsub: nat,
    cent: Seq<T>,
    ksub: nat,
    to: Seq<T>,
    k: nat,
    c: nat,
) -> int
    decreases c,
{
    if c == 0 {
        0
    } else {
        by_cluster(f, val, train, dsub, cent, ksub, to, k, (c - 1) as nat) + spread(
            f,
            val,
            train,
            dsub,
            members(f, train, dsub, cent, ksub, k, (c - 1) as nat),
            row(to, dsub, c - 1),
        )
    }
}

/// One row more adds to one cluster.
proof fn lemma_one_more<T, D: Fn(&[T], &[T]) -> u32>(
    f: D,
    val: spec_fn(u32) -> int,
    train: Seq<T>,
    dsub: nat,
    cent: Seq<T>,
    ksub: nat,
    to: Seq<T>,
    k: nat,
    c: nat,
)
    requires
        0 < k <= usize::MAX,
    ensures
        ({
            let h = home(f, train, dsub, cent, ksub, k - 1);
            by_cluster(f, val, train, dsub, cent, ksub, to, k, c) == by_cluster(
                f,
                val,
                train,
                dsub,
                cent,
                ksub,
                to,
                (k - 1) as nat,
                c,
            ) + if h < c {
                val(dist_of(f, row(train, dsub, k - 1), row(to, dsub, h as int)))
            } else {
                0
            }
        }),
    decreases c,
{
    if c > 0 {
        lemma_one_more(f, val, train, dsub, cent, ksub, to, k, (c - 1) as nat);
        let x = (c - 1) as nat;
        let p = members(f, train, dsub, cent, ksub, (k - 1) as nat, x);
        let r = members(f, train, dsub, cent, ksub, k, x);
        if home(f, train, dsub, cent, ksub, k - 1) == x {
            assert(r.drop_last() =~= p);
        }
    }
}

/// Row by row or cluster by cluster, the distances add up to the same.
proof fn lemma_by_cluster<T, D: Fn(&[T], &[T]) -> u32>(
    f: D,
    val: spec_fn(u32) -> int,
    train: Seq<T>,
    dsub: nat,
    cent: Seq<T>,
    ksub: nat,
    to: Seq<T>,
    k: nat,
)
    requires
        k <= usize::MAX,
        ksub > 0,
    ensures
        cost_at(f, val, train, dsub, to, |i: int| home(f, train, dsub, cent, ksub, i), k)
            == by_cluster(f, val, train, dsub, cent, ksub, to, k, ksub),
    decreases k,
{
    if k == 0 {
        lemma_no_rows(f, val, train, dsub, cent, ksub, to, ksub);
    } else {
        lemma_by_cluster(f, val, train, dsub, cent, ksub, to, (k - 1) as nat);
        lemma_one_more(f, val, train, dsub, cent, ksub, to, k, ksub);
        law_first_min(row_keys(f, row(train, dsub, k - 1), cent, dsub, 0), ksub);
    }
}

proof fn lemma_no_rows<T, D: Fn(&[T], &[T]) -> u32>(
    f: D,
    val: spec_fn(u32) -> int,
    train: Seq<T>,
    dsub: nat,
    cent: Seq<T>,
    ksub: nat,
    to: Seq<T>,
    c: nat,
)
    ensures
        by_cluster(f, val, train, dsub, cent, ksub, to, 0, c) == 0,
    decreases c,
{
    if c > 0 {
        lemma_no_rows(f, val, train, dsub, cent, ksub, to, (c - 1) as nat);
    }
}

/// What the rows of the next codebook are.
proof fn lemma_refined<T, D: Fn(&[T], &[T]) -> u32, M: Fn(&[T], &[usize]) -> Vec<T>>(
    f: D,
    mean: M,
    val: spec_fn(u32) -> int,
    slack: int,
    train: Seq<T>,
    dsub: nat,
    nt: nat,
    cent: Seq<T>,
    ksub: nat,
    c: nat,
    s: u64,
)
    requires
        nt > 0,
        holds_rows(train, dsub, nt),
        centres(f, mean, val, slack, train, dsub),
    ensures
        ({
            let r = refined(f, mean, train, dsub, nt, cent, ksub, c, s).0;
            &&& r.len() == c * dsub
            &&& forall|x: int|
                0 <= x < c && members(f, train, dsub, cent, ksub, nt, x as nat).len() > 0
                    ==> #[trigger] row(r, dsub, x) == mean_of(
                    mean,
                    train,
                    members(f, train, dsub, cent, ksub, nt, x as nat),
                )
        }),
    decreases c,
{
    let r = refined(f, mean, train, dsub, nt, cent, ksub, c, s).0;
    if c == 0 {
        assert(0 * dsub == 0) by (nonlinear_arith);
    } else {
        lemma_refined(f, mean, val, slack, train, dsub, nt, cent, ksub, (c - 1) as nat, s);
        let p = refined(f, mean, train, dsub, nt, cent, ksub, (c - 1) as nat, s);
        let ms = members(f, train, dsub, cent, ksub, nt, (c - 1) as nat);
        let i = pick(scramble(p.1), nt) as int;
        lemma_row_bounds(dsub, nt, i, train.len());
        if ms.len() > 0 {
            let v = row(train, dsub, i);
            assert(spread(f, val, train, dsub, ms, mean_of(mean, train, ms)) <= spread(
                f,
                val,
                train,
                dsub,
                ms,
                v,
            ) + slack);
        }
        assert(c * dsub == (c - 1) * dsub + dsub) by (nonlinear_arith)
            requires
                c > 0,
        ;
        assert forall|x: int|
            0 <= x < c && members(f, train, dsub, cent, ksub, nt, x as nat).len() > 0 implies
            #[trigger] row(r, dsub, x) == mean_of(mean, train, members(f, train, dsub, cent, ksub, nt, x as nat)) by {
            if x < c - 1 {
                lemma_row_bounds(dsub, (c - 1) as nat, x, p.0.len());
                assert(row(r, dsub, x) =~= row(p.0, dsub, x));
            } else {
                assert(row(r, dsub, x) =~= mean_of(mean, train, ms));
            }
        }
    }
}

/// Means are no farther from their clusters than the centroids were.
proof fn lemma_means<T, D: Fn(&[T], &[T]) -> u32, M: Fn(&[T], &[usize]) -> Vec<T>>(
    f: D,
    mean: M,
    val: spec_fn(u32) -> int,
    slack: int,
    train: Seq<T>,
    dsub: nat,
    nt: nat,
    cent: Seq<T>,
    ksub: nat,
    next: Seq<T>,
    c: nat,
)
    requires
        slack >= 0,
        centres(f, mean, val, slack, train, dsub),
        cent.len() == ksub * dsub,
        c <= ksub,
        forall|x: int|
            0 <= x < ksub && members(f, train, dsub, cent, ksub, nt, x as nat).len() > 0
                ==> #[trigger] row(next, dsub, x) == mean_of(
                mean,
                train,
                members(f, train, dsub, cent, ksub, nt, x as nat),
            ),
    ensures
        by_cluster(f, val, train, dsub, cent, ksub, next, nt, c) <= by_cluster(
            f,
            val,
            train,
            dsub,
            cent,
            ksub,
            cent,
            nt,
            c,
        ) + c * slack,
    decreases c,
{
    if c > 0 {
        lemma_means(f, mean, val, slack, train, dsub, nt, cent, ksub, next, (c - 1) as nat);
        assert(c * slack == (c - 1) * slack + slack) by (nonlinear_arith);
        let ms = members(f, train, dsub, cent, ksub, nt, (c - 1) as nat);
        let v = row(cent, dsub, c - 1);
        lemma_row_bounds(dsub, ksub, c - 1, cent.len());
        if ms.len() > 0 {
            assert(row(next, dsub, c - 1) == mean_of(mean, train, ms));
            assert(spread(f, val, train, dsub, ms, mean_of(mean, train, ms)) <= spread(
                f,
                val,
                train,
                dsub,
                ms,
                v,
            ) + slack);
        }
    }
}

/// No centroid is nearer to a row than that of its own cluster.
proof fn lemma_home_is_nearest<T, D: Fn(&[T], &[T]) -> u32>(
    f: D,
    val: spec_fn(u32) -> int,
    train: Seq<T>,
    dsub: nat,
    cent: Seq<T>,
    ksub: nat,
    at: spec_fn(int) -> nat,
    k: nat,
)
    requires
        rises(val),
        ksub > 0,
        forall|i: int| 0 <= i < k ==> #[trigger] at(i) < ksub,
    ensures
        cost_at(f, val, train, dsub, cent, |i: int| home(f, train, dsub, cent, ksub, i), k)
            <= cost_at(f, val, train, dsub, cent, at, k),
    decreases k,
{
    if k > 0 {
        lemma_home_is_nearest(f, val, train, dsub, cent, ksub, at, (k - 1) as nat);
        let key = row_keys(f, row(train, dsub, k - 1), cent, dsub, 0);
        law_first_min(key, ksub);
        let a = at(k - 1);
        let h = first_min(key, ksub);
        assert(key(h as int) <= key(a as int));
        assert(val(key(h as int)) <= val(key(a as int)));
    }
}

/// A round never takes the training rows farther, all together, from their nearest
/// centroids than by what the means of the clusters lose to rounding. Where a mean is
/// exactly the point that its rows are nearest to, that is nothing.
pub proof fn law_round_lowers_cost<
    T,
    D: Fn(&[T], &[T]) -> u32,
    M: Fn(&[T], &[usize]) -> Vec<T>,
>(
    f: D,
    mean: M,
    val: spec_fn(u32) -> int,
    slack: int,
    train: Seq<T>,
    dsub: nat,
    nt: nat,
    cent: Seq<T>,
    ksub: nat,
    s: u64,
)
    requires
        rises(val),
        slack >= 0,
        centres(f, mean, val, slack, train, dsub),
        0 < nt <= usize::MAX,
        ksub > 0,
        holds_rows(train, dsub, nt),
        cent.len() == ksub * dsub,
    ensures
        ({
            let next = refined(f, mean, train, dsub, nt, cent, ksub, ksub, s).0;
            &&& next.len() == ksub * dsub
            &&& cost(f, val, train, dsub, nt, next, ksub) <= cost(
                f,
                val,
                train,
                dsub,
                nt,
                cent,
                ksub,
            ) + ksub * slack
        }),
{
    let next = refined(f, mean, train, dsub, nt, cent, ksub, ksub, s).0;
    let at = |i: int| home(f, train, dsub, cent, ksub, i);
    lemma_refined(f, mean, val, slack, train, dsub, nt, cent, ksub, ksub, s);
    lemma_means(f, mean, val, slack, train, dsub, nt, cent, ksub, next, ksub);
    lemma_by_cluster(f, val, train, dsub, cent, ksub, cent, nt);
    lemma_by_cluster(f, val, train, dsub, cent, ksub, next, nt);
    assert forall|i: int| 0 <= i < nt implies #[trigger] at(i) < ksub by {
        law_first_min(row_keys(f, row(train, dsub, i), cent, dsub, 0), ksub);
    }
    lemma_home_is_nearest(f, val, train, dsub, next, ksub, at, nt);
}

proof fn lemma_lloyd<T, D: Fn(&[T], &[T]) -> u32, M: Fn(&[T], &[usize]) -> Vec<T>>(
    f: D,
    mean: M,
    val: spec_fn(u32) -> int,
    slack: int,
    train: Seq<T>,
    dsub: nat,
    nt: nat,
    cent: Seq<T>,
    ksub: nat,
    s: u64,
    iters: nat,
)
    requires
        rises(val),
        slack >= 0,
        centres(f, mean, val, slack, train, dsub),
        0 < nt <= usize::MAX,
        ksub > 0,
        holds_rows(train, dsub, nt),
        cent.len() == ksub * dsub,
    ensures
        cost(
            f,
            val,
            train,
            dsub,
            nt,
            lloyd(f, mean, train, dsub, nt, cent, ksub, s, iters + 1),
            ksub,
        ) <= cost(
            f,
            val,
            train,
            dsub,
            nt,
            lloyd(f, mean, train, dsub, nt, cent, ksub, s, iters),
            ksub,
        ) + ksub * slack,
    decreases iters,
{
    law_round_lowers_cost(f, mean, val, slack, train, dsub, nt, cent, ksub, s);
    let p = refined(f, mean, train, dsub, nt, cent, ksub, ksub, s);
    if iters == 0 {
        reveal_with_fuel(lloyd, 2);
    } else {
        lemma_lloyd(f, mean, val, slack, train, dsub, nt, p.0, ksub, p.1, (iters - 1) as nat);
        assert(lloyd(f, mean, train, dsub, nt, cent, ksub, s, iters + 1) == lloyd(
            f,
            mean,
            train,
            dsub,
            nt,
            p.0,
            ksub,
            p.1,
            iters,
        ));
    }
}

/// Training for one round more never makes a codebook that lies farther from the
/// training rows than by what the means lose to rounding.
pub proof fn law_training_helps<
    T,
    D: Fn(&[T], &[T]) -> u32,
    M: Fn(&[T], &[usize]) -> Vec<T>,
>(
    f: D,
    mean: M,
    val: spec_fn(u32) -> int,
    slack: int,
    train: Seq<T>,
    dsub: nat,
    nt: nat,
    ksub: nat,
    iters: nat,
    seed: u64,
)
    requires
        rises(val),
        slack >= 0,
        centres(f, mean, val, slack, train, dsub),
        0 < nt <= usize::MAX,
        ksub > 0,
        holds_rows(train, dsub, nt),
    ensures
        cost(
            f,
            val,
            train,
            dsub,
            nt,
            codebook(f, mean, train, dsub, nt, ksub, iters + 1, seed),
            ksub,
        ) <= cost(
            f,
            val,
            train,
            dsub,
            nt,
            codebook(f, mean, train, dsub, nt, ksub, iters, seed),
            ksub,
        ) + ksub * slack,
{
    let p = picks(nt, ksub, ksub, seed | 1);
    law_picks_are_distinct(nt, ksub, ksub, seed | 1);
    lemma_rows_at(train, dsub, nt, p.0, 0);
    lemma_lloyd(
        f,
        mean,
        val,
        slack,
        train,
        dsub,
        nt,
        rows_at(train, dsub, p.0),
        ksub,
        p.1,
        iters,
    );
}

/// Training starts with training rows; where there are enough of them and no two are
/// alike, no two centroids are.
pub proof fn law_start_is_distinct<
    T,
    D: Fn(&[T], &[T]) -> u32,
    M: Fn(&[T], &[usize]) -> Vec<T>,
>(
    f: D,
    mean: M,
    train: Seq<T>,
    dsub: nat,
    nt: nat,
    ksub: nat,
    seed: u64,
    a: int,
    b: int,
)
    requires
        0 < ksub <= nt,
        holds_rows(train, dsub, nt),
        forall|i: int, j: int|
            0 <= i < j < nt ==> #[trigger] row(train, dsub, i) != #[trigger] row(train, dsub, j),
        0 <= a < b < ksub,
    ensures
        ({
            let cent = codebook(f, mean, train, dsub, nt, ksub, 0, seed);
            row(cent, dsub, a) != row(cent, dsub, b)
        }),
{
    let is = picks(nt, ksub, ksub, seed | 1).0;
    law_picks_are_distinct(nt, ksub, ksub, seed | 1);
    lemma_rows_at(train, dsub, nt, is, a);
    lemma_rows_at(train, dsub, nt, is, b);
    assert(is[a] != is[b]);
    if is[a] < is[b] {
        assert(row(train, dsub, is[a]) != row(train, dsub, is[b]));
    } else {
        assert(row(train, dsub, is[b]) != row(train, dsub, is[a]));
    }
}

/// All rows, in order.
pub open spec fn all_rows(nt: nat) -> Seq<usize> {
    Seq::new(nt, |i: int| i as usize)
}

proof fn lemma_one_cluster<T, D: Fn(&[T], &[T]) -> u32>(
    f: D,
    train: Seq<T>,
    dsub: nat,
    cent: Seq<T>,
    k: nat,
)
    ensures
        members(f, train, dsub, cent, 1, k, 0) == all_rows(k),
    decreases k,
{
    if k > 0 {
        lemma_one_cluster(f, train, dsub, cent, (k - 1) as nat);
        assert(all_rows(k) =~= all_rows((k - 1) as nat).push((k - 1) as usize));
    } else {
        assert(all_rows(0) =~= Seq::empty());
    }
}

/// A codebook of one row is, after any training at all, the mean of all training rows.
pub proof fn law_one_centroid_is_the_mean<
    T,
    D: Fn(&[T], &[T]) -> u32,
    M: Fn(&[T], &[usize]) -> Vec<T>,
>(f: D, mean: M, train: Seq<T>, dsub: nat, nt: nat, iters: nat, seed: u64)
    requires
        nt > 0,
        iters > 0,
    ensures
        codebook(f, mean, train, dsub, nt, 1, iters, seed) == mean_of(mean, train, all_rows(nt)),
{
    let p = picks(nt, 1, 1, seed | 1);
    lemma_one_round(f, mean, train, dsub, nt, rows_at(train, dsub, p.0), p.1, iters);
}

proof fn lemma_one_round<T, D: Fn(&[T], &[T]) -> u32, M: Fn(&[T], &[usize]) -> Vec<T>>(
    f: D,
    mean: M,
    train: Seq<T>,
    dsub: nat,
    nt: nat,
    cent: Seq<T>,
    s: u64,
    iters: nat,
)
    requires
        nt > 0,
        iters > 0,
    ensures
        lloyd(f, mean, train, dsub, nt, cent, 1, s, iters) == mean_of(mean, train, all_rows(nt)),
    decreases iters,
{
    lemma_one_cluster(f, train, dsub, cent, nt);
    let p = refined(f, mean, train, dsub, nt, cent, 1, 1, s);
    reveal_with_fuel(refined, 2);
    let mu = mean_of(mean, train, all_rows(nt));
    assert(Seq::<T>::empty() + mu =~= mu);
    assert(p.0 == mu);
    if iters > 1 {
        lemma_one_round(f, mean, train, dsub, nt, p.0, p.1, (iters - 1) as nat);
    } else {
        reveal_with_fuel(lloyd, 2);
    }
}

} // verus!
