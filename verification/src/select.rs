//! Which of many candidates become neighbours.
//!
//! A candidate is kept only if it is nearer to the base than to every neighbour
//! kept before it. That keeps the lists from filling up with one cluster.

use vstd::prelude::*;

use crate::beam::cand_of;
use crate::cand::{ids, lemma_sort, precedes, sort, sort_cands, sorted, Cand};
use crate::metric::Corpus;

verus! {

/// `c` is nearer to the base than to each of `kept`.
pub open spec fn diverse(kept: Seq<Cand>, c: Cand, pair: spec_fn(u32, u32) -> u32) -> bool {
    forall|i: int| 0 <= i < kept.len() ==> pair(c.id, (#[trigger] kept[i]).id) > c.d
}

/// One of `kept` stands before `c` and is as near to it as the base is.
pub open spec fn hidden(kept: Seq<Cand>, c: Cand, pair: spec_fn(u32, u32) -> u32) -> bool {
    exists|i: int|
        0 <= i < kept.len() && precedes(#[trigger] kept[i], c) && pair(c.id, kept[i].id) <= c.d
}

/// Each of `kept` stands before `c`.
pub open spec fn behind_all(kept: Seq<Cand>, c: Cand) -> bool {
    forall|i: int| 0 <= i < kept.len() ==> precedes(#[trigger] kept[i], c)
}

/// What is kept of a sorted pool: each candidate in turn, as long as fewer than
/// `m` are kept and it is diverse from those.
pub open spec fn keep(pool: Seq<Cand>, m: nat, pair: spec_fn(u32, u32) -> u32) -> Seq<Cand>
    decreases pool.len(),
{
    if pool.len() == 0 {
        Seq::empty()
    } else {
        let k = keep(pool.drop_last(), m, pair);
        let c = pool.last();
        if k.len() < m && diverse(k, c, pair) {
            k.push(c)
        } else {
            k
        }
    }
}

/// The neighbours that are chosen from a pool, nearest first.
pub open spec fn chosen(pool: Seq<Cand>, m: nat, pair: spec_fn(u32, u32) -> u32) -> Seq<u32> {
    ids(keep(sort(pool), m, pair))
}

/// Once `m` are kept, nothing more is.
proof fn lemma_keep_full(pool: Seq<Cand>, i: int, m: nat, pair: spec_fn(u32, u32) -> u32)
    requires
        0 <= i <= pool.len(),
        keep(pool.take(i), m, pair).len() >= m,
    ensures
        keep(pool, m, pair) == keep(pool.take(i), m, pair),
    decreases pool.len() - i,
{
    if i == pool.len() {
        assert(pool.take(i) =~= pool);
    } else {
        assert(pool.take(i + 1).drop_last() =~= pool.take(i));
        lemma_keep_full(pool, i + 1, m, pair);
    }
}

/// Choose at most `m` neighbours from `pool`.
pub fn select<T, D: Fn(&[T], &[T]) -> u32>(
    corpus: &Corpus<T, D>,
    pool: &Vec<Cand>,
    m: usize,
) -> (r: Vec<u32>)
    requires
        corpus.wf(),
        forall|i: int| 0 <= i < pool@.len() ==> (#[trigger] pool@[i]).id < corpus.n,
    ensures
        r@ == chosen(pool@, m as nat, corpus.pairs()),
{
    let sorted_pool = sort_cands(pool);
    let ghost s = sorted_pool@;
    let ghost pair = corpus.pairs();
    proof {
        lemma_sort(pool@);
        assert forall|i: int| 0 <= i < s.len() implies (#[trigger] s[i]).id < corpus.n by {
            assert(s.contains(s[i]));
            assert(pool@.contains(s[i]));
            let j = choose|j: int| 0 <= j < pool@.len() && pool@[j] == s[i];
            assert(pool@[j].id < corpus.n);
        }
        assert(s.take(0) =~= Seq::empty());
    }
    let mut kept: Vec<Cand> = Vec::new();
    let mut out: Vec<u32> = Vec::new();
    let mut i: usize = 0;
    while i < sorted_pool.len() && kept.len() < m
        invariant
            corpus.wf(),
            pair == corpus.pairs(),
            s == sorted_pool@,
            i <= s.len(),
            forall|j: int| 0 <= j < s.len() ==> (#[trigger] s[j]).id < corpus.n,
            forall|j: int| 0 <= j < kept@.len() ==> (#[trigger] kept@[j]).id < corpus.n,
            kept@ == keep(s.take(i as int), m as nat, pair),
            out@ =~= ids(kept@),
        decreases s.len() - i,
    {
        let c = sorted_pool[i];
        let mut far = true;
        let mut j: usize = 0;
        while far && j < kept.len()
            invariant
                corpus.wf(),
                pair == corpus.pairs(),
                c.id < corpus.n,
                j <= kept@.len(),
                forall|x: int| 0 <= x < kept@.len() ==> (#[trigger] kept@[x]).id < corpus.n,
                far ==> forall|x: int|
                    0 <= x < j ==> pair(c.id, (#[trigger] kept@[x]).id) > c.d,
                !far ==> !diverse(kept@, c, pair),
            decreases kept@.len() - j + if far {
                1int
            } else {
                0int
            },
        {
            if corpus.between(c.id, kept[j].id) > c.d {
                j = j + 1;
            } else {
                far = false;
            }
        }
        assert(s.take(i + 1).drop_last() =~= s.take(i as int));
        if far {
            kept.push(c);
            out.push(c.id);
        }
        i = i + 1;
    }
    proof {
        if i == s.len() {
            assert(s.take(i as int) =~= s);
        } else {
            lemma_keep_full(s, i as int, m as nat, pair);
        }
    }
    out
}

/// What is kept is part of the pool, each candidate at most once, never more
/// than `m`, and the nearest of all is among it.
pub proof fn lemma_keep(pool: Seq<Cand>, m: nat, pair: spec_fn(u32, u32) -> u32)
    ensures
        ({
            let k = keep(pool, m, pair);
            &&& k.len() <= m
            &&& k.len() <= pool.len()
            &&& forall|c: Cand| #[trigger] k.contains(c) ==> pool.contains(c)
            &&& pool.no_duplicates() ==> k.no_duplicates()
            &&& sorted(pool) ==> sorted(k)
            &&& (m > 0 && pool.len() > 0 ==> k.len() > 0 && k[0] == pool[0])
        }),
    decreases pool.len(),
{
    if pool.len() > 0 {
        let t = pool.drop_last();
        let p = keep(t, m, pair);
        let k = keep(pool, m, pair);
        let c = pool.last();
        lemma_keep(t, m, pair);
        assert forall|x: Cand| #[trigger] k.contains(x) implies pool.contains(x) by {
            if p.contains(x) {
                assert(t.contains(x));
                let i = choose|i: int| 0 <= i < t.len() && t[i] == x;
                assert(pool[i] == x);
            } else {
                let i = choose|i: int| 0 <= i < k.len() && k[i] == x;
                if i < p.len() {
                    assert(p[i] == x);
                    assert(p.contains(x));
                }
                assert(pool[pool.len() - 1] == c);
            }
        }
        if pool.no_duplicates() {
            assert(!p.contains(c)) by {
                if t.contains(c) {
                    let i = choose|i: int| 0 <= i < t.len() && t[i] == c;
                    assert(pool[i] == pool[pool.len() - 1]);
                }
            }
            assert forall|i: int, j: int| 0 <= i < k.len() && 0 <= j < k.len() && i != j implies k[i]
                != k[j] by {
                if i < p.len() {
                    assert(p.contains(p[i]));
                }
                if j < p.len() {
                    assert(p.contains(p[j]));
                }
            }
        }
        if sorted(pool) {
            assert forall|i: int, j: int| 0 <= i <= j < k.len() implies precedes(
                #[trigger] k[i],
                #[trigger] k[j],
            ) by {
                if j == p.len() && i < j {
                    assert(p.contains(p[i]));
                    assert(t.contains(p[i]));
                    let x = choose|x: int| 0 <= x < t.len() && t[x] == p[i];
                    assert(precedes(pool[x], pool[pool.len() - 1]));
                }
            }
        }
    }
}

/// What is chosen from a pool in which no node stands twice.
pub proof fn lemma_chosen(
    pool: Seq<Cand>,
    m: nat,
    pair: spec_fn(u32, u32) -> u32,
    key: spec_fn(u32) -> u32,
)
    requires
        pool.no_duplicates(),
        forall|c: Cand| #[trigger] pool.contains(c) ==> c == cand_of(key, c.id),
    ensures
        ({
            let r = chosen(pool, m, pair);
            &&& r.len() <= m
            &&& r.no_duplicates()
            &&& forall|i: int| 0 <= i < r.len() ==> pool.contains(cand_of(key, #[trigger] r[i]))
            &&& (m > 0 && pool.len() > 0 ==> r.len() > 0)
        }),
{
    lemma_sort(pool);
    let s = sort(pool);
    lemma_keep(s, m, pair);
    let k = keep(s, m, pair);
    let r = chosen(pool, m, pair);
    assert forall|i: int| 0 <= i < r.len() implies pool.contains(cand_of(key, #[trigger] r[i])) by {
        assert(k.contains(k[i]));
        assert(s.contains(k[i]));
        assert(pool.contains(k[i]));
    }
    assert forall|i: int, j: int| 0 <= i < r.len() && 0 <= j < r.len() && i != j implies r[i]
        != r[j] by {
        assert(k.contains(k[i]) && k.contains(k[j]));
        assert(s.contains(k[i]) && s.contains(k[j]));
        assert(pool.contains(k[i]) && pool.contains(k[j]));
        assert(k[i] != k[j]);
    }
}

/// The chosen neighbours are spread out, and no candidate is passed over without
/// need. Each chosen one is nearer to the base than to any chosen before it; a
/// candidate that was not chosen is as near to a chosen one before it as to the base,
/// or stands behind all that were, and there was no room left; and the nearest candidate
/// comes first.
pub proof fn law_chosen_are_diverse(pool: Seq<Cand>, m: nat, pair: spec_fn(u32, u32) -> u32)
    ensures
        ({
            let k = keep(sort(pool), m, pair);
            &&& chosen(pool, m, pair) == ids(k)
            &&& k.len() <= m
            &&& sorted(k)
            &&& forall|i: int, j: int|
                0 <= i < j < k.len() ==> pair((#[trigger] k[j]).id, (#[trigger] k[i]).id) > k[j].d
            &&& forall|c: Cand|
                #[trigger] pool.contains(c) && !k.contains(c) ==> hidden(k, c, pair) || k.len() == m
                    && behind_all(k, c)
            &&& m > 0 && pool.len() > 0 ==> k.len() > 0 && k[0] == sort(pool)[0]
        }),
{
    lemma_sort(pool);
    lemma_keep(sort(pool), m, pair);
    lemma_keep_spread(sort(pool), m, pair);
}

proof fn lemma_keep_spread(pool: Seq<Cand>, m: nat, pair: spec_fn(u32, u32) -> u32)
    requires
        sorted(pool),
    ensures
        ({
            let k = keep(pool, m, pair);
            &&& k.len() <= m
            &&& forall|i: int, j: int|
                0 <= i < j < k.len() ==> pair((#[trigger] k[j]).id, (#[trigger] k[i]).id) > k[j].d
            &&& forall|c: Cand|
                #[trigger] pool.contains(c) && !k.contains(c) ==> hidden(k, c, pair) || k.len() == m
                    && behind_all(k, c)
        }),
    decreases pool.len(),
{
    if pool.len() > 0 {
        let t = pool.drop_last();
        let c = pool.last();
        let p = keep(t, m, pair);
        let k = keep(pool, m, pair);
        assert forall|i: int, j: int| 0 <= i <= j < t.len() implies precedes(
            #[trigger] t[i],
            #[trigger] t[j],
        ) by {
            assert(precedes(pool[i], pool[j]));
        }
        lemma_keep_spread(t, m, pair);
        lemma_keep(t, m, pair);
        assert forall|x: Cand| #[trigger] pool.contains(x) && !k.contains(x) implies hidden(
            k,
            x,
            pair,
        ) || k.len() == m && behind_all(k, x) by {
            let i = choose|i: int| 0 <= i < pool.len() && pool[i] == x;
            if p.len() < m && diverse(p, c, pair) {
                assert(k[p.len() as int] == c);
                if i < t.len() {
                    assert(t[i] == x);
                    assert(t.contains(x));
                    if p.contains(x) {
                        let j = choose|j: int| 0 <= j < p.len() && p[j] == x;
                        assert(k[j] == x);
                    }
                    if hidden(p, x, pair) {
                        let j = choose|j: int|
                            0 <= j < p.len() && precedes(#[trigger] p[j], x) && pair(x.id, p[j].id)
                                <= x.d;
                        assert(k[j] == p[j]);
                    }
                }
            } else if i < t.len() {
                assert(t[i] == x);
                assert(t.contains(x));
            } else if p.len() >= m {
                assert forall|j: int| 0 <= j < k.len() implies precedes(#[trigger] k[j], x) by {
                    assert(p.contains(p[j]));
                    let y = choose|y: int| 0 <= y < t.len() && t[y] == p[j];
                    assert(precedes(pool[y], pool[pool.len() - 1]));
                }
            } else {
                let j = choose|j: int|
                    0 <= j < p.len() && pair(c.id, (#[trigger] p[j]).id) <= c.d;
                assert(p.contains(p[j]));
                assert(t.contains(p[j]));
                let y = choose|y: int| 0 <= y < t.len() && t[y] == p[j];
                assert(precedes(pool[y], pool[pool.len() - 1]));
            }
        }
    }
}

} // verus!
