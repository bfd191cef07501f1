//! Exhaustive search, and how much of it an approximate search finds.

use vstd::prelude::*;

use crate::answers::{best_below, law_top_is_best};
use crate::beam::{cand_of, connected, lemma_bounded, lemma_first, Oracle};
use crate::cand::{
    first, holds, ids, insert_sorted, lemma_first_ins, lemma_same_sorted, lemma_sort, sort, sorted, Cand,
};
use crate::graph::descend;
use crate::index::{
    hits, larger, law_shortlist, law_wide_search_is_exhaustive, shortlist, valid, Index,
};
use crate::metric::{dist_of, from_query, measures, Corpus, Near};
use crate::walk::to_hits;

verus! {

/// The nodes below `n` as candidates.
pub open spec fn all_cands(key: spec_fn(u32) -> u32, n: nat) -> Seq<Cand> {
    Seq::new(n, |i: int| Cand { d: key(i as u32), id: i as u32 })
}

/// The `k` nearest of the nodes below `n`, nearest first and by id where the
/// distances agree.
pub open spec fn top(key: spec_fn(u32) -> u32, n: nat, k: nat) -> Seq<Cand> {
    first(sort(all_cands(key, n)), k)
}

/// The `k` nearest of the nodes below `n`.
pub(crate) fn nearest<O: Oracle>(o: &O, n: usize, k: usize) -> (best: Vec<Cand>)
    requires
        o.valid(),
        n <= o.reach(),
        n <= u32::MAX,
    ensures
        best@ == top(o.keys(), n as nat, k as nat),
{
    let ghost key = o.keys();
    let ghost all = all_cands(key, n as nat);
    let mut best: Vec<Cand> = Vec::new();
    let mut i: usize = 0;
    assert(all.take(0) =~= Seq::empty());
    while i < n
        invariant
            i <= n <= u32::MAX,
            o.valid(),
            n <= o.reach(),
            key == o.keys(),
            all == all_cands(key, n as nat),
            best@ == first(sort(all.take(i as int)), k as nat),
            sorted(best@),
        decreases n - i,
    {
        let c = Cand { d: o.key(i as u32), id: i as u32 };
        proof {
            assert(all.take(i + 1).drop_last() =~= all.take(i as int));
            assert(all.take(i + 1).last() == c);
            lemma_sort(all.take(i as int));
            lemma_first_ins(sort(all.take(i as int)), c, k as nat);
            lemma_sort(all.take(i + 1));
        }
        insert_sorted(&mut best, c);
        let ghost full = best@;
        best.truncate(k);
        assert(best@ =~= first(full, k as nat));
        i = i + 1;
    }
    assert(all.take(n as int) =~= all);
    best
}

/// The `k` vectors of `data` that are nearest to `q`, over the whole corpus.
pub fn truth<T, D: Fn(&[T], &[T]) -> u32>(
    data: &[T],
    dim: usize,
    q: &[T],
    k: usize,
    dist: &D,
) -> (r: Vec<(u32, u32)>)
    requires
        dim > 0,
        q@.len() == dim,
        data@.len() / dim as nat <= u32::MAX,
        measures(*dist),
    ensures
        r@ == hits(
            top(
                from_query(*dist, data@, dim as nat, q@),
                data@.len() / dim as nat,
                k as nat,
            ),
        ),
        best_below(
            r@,
            data@.len() / dim as nat,
            from_query(*dist, data@, dim as nat, q@),
            k as nat,
        ),
        forall|i: int|
            0 <= i < r@.len() ==> (#[trigger] r@[i]).1 == dist_of(
                *dist,
                q@,
                data@.subrange(r@[i].0 * dim, (r@[i].0 + 1) * dim),
            ),
{
    let n: usize = data.len() / dim;
    proof {
        let (len, d) = (data@.len() as int, dim as int);
        assert((len / d) * d <= len) by (nonlinear_arith)
            requires
                0 < d,
                0 <= len,
        ;
    }
    let corpus = Corpus { data, dim, n, dist };
    let near = Near { corpus: &corpus, q };
    let best = nearest(&near, n, k);
    assert(first(best@, k as nat) =~= best@);
    proof {
        law_top_is_best(near.keys(), n as nat, k as nat);
    }
    to_hits(&best, k)
}

/// How many places of `got` name a node of `truth`.
pub open spec fn agreed(got: Seq<u32>, truth: Seq<u32>) -> nat
    decreases got.len(),
{
    if got.len() == 0 {
        0
    } else {
        agreed(got.drop_last(), truth) + if truth.contains(got.last()) {
            1nat
        } else {
            0nat
        }
    }
}

/// The same over the first `n` queries.
pub open spec fn agreed_upto(got: Seq<Vec<u32>>, truth: Seq<Vec<u32>>, n: nat) -> nat
    decreases n,
{
    if n == 0 {
        0
    } else {
        agreed_upto(got, truth, (n - 1) as nat) + agreed(got[n - 1]@, truth[n - 1]@)
    }
}

/// How many of the nodes that searches returned are among the true ones, over all
/// queries that have both. Divided by how many there are, it is the recall.
pub fn recall(got: &[Vec<u32>], truth: &[Vec<u32>]) -> (hit: u64)
    requires
        forall|i: int|
            0 <= i < got@.len() ==> (#[trigger] got@[i])@.len() <= u32::MAX,
        got@.len() <= u32::MAX,
    ensures
        hit == agreed_upto(
            got@,
            truth@,
            if got@.len() <= truth@.len() {
                got@.len()
            } else {
                truth@.len()
            },
        ),
{
    let n: usize = if got.len() <= truth.len() {
        got.len()
    } else {
        truth.len()
    };
    let mut hit: u64 = 0;
    let mut i: usize = 0;
    while i < n
        invariant
            i <= n <= got@.len(),
            n <= truth@.len(),
            got@.len() <= u32::MAX,
            forall|x: int| 0 <= x < got@.len() ==> (#[trigger] got@[x])@.len() <= u32::MAX,
            hit == agreed_upto(got@, truth@, i as nat),
            hit <= i * 0xFFFF_FFFF,
        decreases n - i,
    {
        let g = &got[i];
        let t = &truth[i];
        let ghost before = hit;
        let mut j: usize = 0;
        assert(g@.take(0) =~= Seq::empty());
        assert(g@.len() <= u32::MAX);
        while j < g.len()
            invariant
                j <= g@.len() <= u32::MAX,
                i < u32::MAX,
                before <= i * 0xFFFF_FFFF,
                hit == before + agreed(g@.take(j as int), t@),
                hit <= before + j,
            decreases g@.len() - j,
        {
            assert(g@.take(j + 1).drop_last() =~= g@.take(j as int));
            if holds(t, g[j]) {
                hit = hit + 1;
            }
            j = j + 1;
        }
        assert(g@.take(j as int) =~= g@);
        i = i + 1;
    }
    hit
}

/// What agrees are the places of `got` that name a node of `truth`, each counted once.
pub proof fn law_agreed_counts_places(got: Seq<u32>, truth: Seq<u32>)
    ensures
        ({
            let hit = Set::new(|i: int| 0 <= i < got.len() && truth.contains(got[i]));
            hit.finite() && hit.len() == agreed(got, truth)
        }),
    decreases got.len(),
{
    let hit = Set::new(|i: int| 0 <= i < got.len() && truth.contains(got[i]));
    if got.len() == 0 {
        assert(hit =~= Set::empty());
    } else {
        let t = got.drop_last();
        let n = t.len() as int;
        let less = Set::new(|i: int| 0 <= i < t.len() && truth.contains(t[i]));
        law_agreed_counts_places(t, truth);
        assert forall|i: int| #[trigger] less.contains(i) <==> hit.contains(i) && i != n by {
            if 0 <= i < n {
                assert(t[i] == got[i]);
            }
        }
        if truth.contains(got.last()) {
            assert(hit =~= less.insert(n));
        } else {
            assert(hit =~= less);
        }
    }
}

/// Two batches of queries, one after the other, agree in as many places as the one and the
/// other together, and a batch of one as that query does.
pub proof fn law_recall_adds_up(
    got: Seq<Vec<u32>>,
    truth: Seq<Vec<u32>>,
    a: nat,
    b: nat,
)
    requires
        a + b <= got.len(),
        a + b <= truth.len(),
    ensures
        agreed_upto(got, truth, a + b) == agreed_upto(got, truth, a) + agreed_upto(
            got.skip(a as int),
            truth.skip(a as int),
            b,
        ),
        got.len() > 0 && truth.len() > 0 ==> agreed_upto(got, truth, 1) == agreed(
            got[0]@,
            truth[0]@,
        ),
    decreases b,
{
    assert(agreed_upto(got, truth, 0) == 0);
    if b > 0 {
        law_recall_adds_up(got, truth, a, (b - 1) as nat);
        assert(got.skip(a as int)[b - 1] == got[a + b - 1]);
        assert(truth.skip(a as int)[b - 1] == truth[a + b - 1]);
    }
}

/// Exhaustive search returns the `k` nearest of all: at most `k`, in order, each
/// once and with its true distance, and no vector outside is nearer than any
/// inside.
pub proof fn law_top_is_exact(key: spec_fn(u32) -> u32, n: nat, k: nat)
    requires
        n <= u32::MAX,
    ensures
        ({
            let best = top(key, n, k);
            &&& sorted(best)
            &&& best.no_duplicates()
            &&& best.len() == if n <= k {
                n
            } else {
                k
            }
            &&& forall|i: int|
                0 <= i < best.len() ==> (#[trigger] best[i]).id < n && best[i].d == key(best[i].id)
            &&& forall|id: u32, i: int|
                id < n && !best.contains(#[trigger] cand_of(key, id)) && 0 <= i < best.len() ==> (
                #[trigger] best[i]).d <= key(id)
        }),
{
    let all = all_cands(key, n);
    lemma_sort(all);
    lemma_first(sort(all), k);
    let best = top(key, n, k);
    assert forall|i: int| 0 <= i < best.len() implies (#[trigger] best[i]).id < n && best[i].d
        == key(best[i].id) by {
        assert(best.contains(best[i]));
        assert(sort(all).contains(best[i]));
        assert(all.contains(best[i]));
    }
    assert forall|id: u32, i: int|
        id < n && !best.contains(#[trigger] cand_of(key, id)) && 0 <= i < best.len() implies (
    #[trigger] best[i]).d <= key(id) by {
        assert(all[id as int] == cand_of(key, id));
        assert(all.contains(cand_of(key, id)));
        assert(sort(all).contains(cand_of(key, id)));
    }
}

/// As many different nodes as there are, are all of them.
proof fn lemma_all_present(s: Seq<Cand>, key: spec_fn(u32) -> u32, n: nat)
    requires
        s.no_duplicates(),
        s.len() == n <= u32::MAX,
        forall|i: int|
            0 <= i < s.len() ==> (#[trigger] s[i]).id < n && s[i] == cand_of(key, s[i].id),
    ensures
        forall|id: u32| id < n ==> s.contains(#[trigger] cand_of(key, id)),
{
    let f = ids(s);
    assert forall|i: int, j: int| 0 <= i < f.len() && 0 <= j < f.len() && i != j implies f[i]
        != f[j] by {
        assert(s[i] != s[j]);
    }
    f.unique_seq_to_set();
    assert forall|id: u32| id < n implies s.contains(#[trigger] cand_of(key, id)) by {
        if !f.contains(id) {
            let set = f.to_set().insert(id);
            assert forall|x: u32| #[trigger] set.contains(x) implies x < n by {
                if x != id {
                    assert(f.contains(x));
                    let i = choose|i: int| 0 <= i < f.len() && f[i] == x;
                    assert(s[i].id < n);
                }
            }
            vstd::seq_lib::seq_to_set_is_finite(f);
            lemma_bounded(set, n);
        } else {
            let i = choose|i: int| 0 <= i < f.len() && f[i] == id;
            assert(s[i] == cand_of(key, id));
        }
    }
}

/// With a beam as wide as the index, and a level 0 on which every node can be
/// reached from where the descent ends, a search of the graph is an exhaustive
/// search.
pub proof fn law_wide_search_is_exact<T>(
    ix: Index<T>,
    key: spec_fn(u32) -> u32,
    k: nat,
    ef: nat,
)
    requires
        valid(ix),
        ix.graph.len() > 0,
        ef >= ix.graph.len(),
        forall|id: u32|
            id < ix.graph.len() ==> #[trigger] connected(
                ix.graph,
                0,
                seq![descend(ix.graph, key, ix.entry, ix.max_level, 0)],
                id,
            ),
    ensures
        first(shortlist(ix, key, larger(ef, k)), k) == top(key, ix.graph.len(), k),
{
    let n = ix.graph.len();
    let w = larger(ef, k);
    let s = shortlist(ix, key, w);
    let t = sort(all_cands(key, n));
    law_shortlist(ix, key, w);
    law_top_is_exact(key, n, n);
    assert(top(key, n, n) =~= t) by {
        lemma_sort(all_cands(key, n));
    }
    if s.len() == n {
        lemma_all_present(s, key, n);
    }
    assert forall|c: Cand| #[trigger] s.contains(c) <==> t.contains(c) by {
        if s.contains(c) {
            let i = choose|i: int| 0 <= i < s.len() && s[i] == c;
            assert(s[i].id < n);
            lemma_sort(all_cands(key, n));
            assert(all_cands(key, n)[c.id as int] == c);
            assert(all_cands(key, n).contains(c));
        }
        if t.contains(c) {
            let i = choose|i: int| 0 <= i < t.len() && t[i] == c;
            assert(t[i].id < n);
            if s.len() < n {
                let e = seq![descend(ix.graph, key, ix.entry, ix.max_level, 0)];
                assert(connected(ix.graph, 0, e, c.id));
                law_wide_search_is_exhaustive(ix, key, w, c.id);
            }
            assert(s.contains(cand_of(key, c.id)));
        }
    }
    lemma_same_sorted(s, t);
}

} // verus!
