//! What an index is, and what its operations make of it.

use vstd::prelude::*;

use crate::beam::{
    cand_of, coherent, connected, law_exhaustive, law_local_optimum, layer, lemma_bounded,
    lemma_first, nbrs, seen, Graph,
};
use crate::cand::{first, ids, lemma_sort, sort, sorted, Cand};
use crate::graph::{
    absent, bare, descend, descend_calls, good_list, join, join_calls, lemma_descend,
    lemma_layer_tall, lemma_sound_edges, sound,
};
use crate::level::level_at;
use crate::links::NONE;
use crate::metric::{from_query, holds_rows, pairs};
use crate::synth::{output, scramble};

verus! {

/// What an index is, as a value.
#[verifier::ext_equal]
pub struct Index<T> {
    pub dim: nat,
    pub m: nat,
    pub ef_construction: nat,
    /// The vectors, one after the other.
    pub data: Seq<T>,
    pub graph: Graph,
    /// The node at which every walk starts, `NONE` while there is no node.
    pub entry: u32,
    pub max_level: nat,
    /// The state of the level stream.
    pub rng: u64,
}

/// A count that stays at its limit once there.
pub open spec fn sat(x: int) -> u64 {
    if x > u64::MAX {
        u64::MAX
    } else {
        x as u64
    }
}

/// A count is as it is up to the limit, and stays there beyond it.
pub proof fn law_sat(x: int)
    requires
        0 <= x,
    ensures
        x <= 0xFFFF_FFFF_FFFF_FFFF ==> sat(x) == x,
        x > 0xFFFF_FFFF_FFFF_FFFF ==> sat(x) == 0xFFFF_FFFF_FFFF_FFFF,
{
}

/// The entry is a node of the highest level, and there is none only while there
/// is no node.
pub open spec fn entry_ok(g: Graph, entry: u32, max_level: nat) -> bool {
    if g.len() == 0 {
        entry == NONE
    } else {
        &&& entry < g.len()
        &&& g[entry as int].len() == max_level + 1
        &&& forall|i: int| 0 <= i < g.len() ==> (#[trigger] g[i]).len() <= max_level + 1
    }
}

/// An index that searches can rely on: the graph is sound, every node has its
/// vector, and the entry is in place.
pub open spec fn valid<T>(ix: Index<T>) -> bool {
    &&& sound(ix.graph, ix.m)
    &&& holds_rows(ix.data, ix.dim, ix.graph.len())
    &&& ix.graph.len() <= u32::MAX
    &&& 2 * ix.m <= 0xFFFF
    &&& entry_ok(ix.graph, ix.entry, ix.max_level)
}

/// The index once the vector `v` was inserted.
pub open spec fn inserted<T, D: Fn(&[T], &[T]) -> u32, L: Fn(u64) -> usize>(
    ix: Index<T>,
    dist: D,
    level: L,
    v: Seq<T>,
) -> Index<T> {
    let rng = scramble(ix.rng);
    let l = level_at(level, output(rng) >> 11);
    let g = ix.graph.push(bare(l));
    let data = ix.data + v;
    let id = ix.graph.len() as u32;
    if ix.graph.len() == 0 {
        Index { data, graph: g, entry: id, max_level: l, rng, ..ix }
    } else {
        let key = from_query(dist, data, ix.dim, v);
        let pair = pairs(dist, data, ix.dim);
        let top = ix.max_level;
        let e = descend(g, key, ix.entry, top, l);
        let low = if l <= top {
            l
        } else {
            top
        };
        Index {
            data,
            graph: join(g, id, low, ix.m, ix.ef_construction, seq![e], key, pair),
            entry: if l > top {
                id
            } else {
                ix.entry
            },
            max_level: if l > top {
                l
            } else {
                top
            },
            rng,
            ..ix
        }
    }
}

/// How many distances an insertion takes from the new vector.
pub open spec fn insert_calls<T, D: Fn(&[T], &[T]) -> u32, L: Fn(u64) -> usize>(
    ix: Index<T>,
    dist: D,
    level: L,
    v: Seq<T>,
) -> nat {
    let l = level_at(level, output(scramble(ix.rng)) >> 11);
    let g = ix.graph.push(bare(l));
    let data = ix.data + v;
    let id = ix.graph.len() as u32;
    if ix.graph.len() == 0 {
        0
    } else {
        let key = from_query(dist, data, ix.dim, v);
        let pair = pairs(dist, data, ix.dim);
        let top = ix.max_level;
        let e = descend(g, key, ix.entry, top, l);
        let low = if l <= top {
            l
        } else {
            top
        };
        descend_calls(g, key, ix.entry, top, l) + join_calls(
            g,
            id,
            low,
            ix.m,
            ix.ef_construction,
            seq![e],
            key,
            pair,
        )
    }
}

/// Candidates as pairs of id and distance.
pub open spec fn hits(s: Seq<Cand>) -> Seq<(u32, u32)> {
    Seq::new(s.len(), |i: int| (s[i].id, s[i].d))
}

/// The `ef` best nodes that a search of the whole graph ends with.
pub open spec fn shortlist<T>(ix: Index<T>, key: spec_fn(u32) -> u32, ef: nat) -> Seq<Cand> {
    layer(
        ix.graph,
        0,
        key,
        seq![descend(ix.graph, key, ix.entry, ix.max_level, 0)],
        ef,
    ).best
}

/// How many distances that search takes.
pub open spec fn shortlist_calls<T>(ix: Index<T>, key: spec_fn(u32) -> u32, ef: nat) -> nat {
    descend_calls(ix.graph, key, ix.entry, ix.max_level, 0) + layer(
        ix.graph,
        0,
        key,
        seq![descend(ix.graph, key, ix.entry, ix.max_level, 0)],
        ef,
    ).visited.len()
}

pub open spec fn larger(a: nat, b: nat) -> nat {
    if a < b {
        b
    } else {
        a
    }
}

/// The best `k` of a shortlist. With `rerank` above one the first `k * rerank` are
/// first put in the order of the distances `key`.
pub open spec fn reranked(
    short: Seq<Cand>,
    key: spec_fn(u32) -> u32,
    k: nat,
    rerank: nat,
) -> Seq<Cand> {
    if rerank <= 1 {
        first(short, k)
    } else {
        first(sort(rescored(first(short, k * rerank), key)), k)
    }
}

/// The same nodes with the distances `key`.
pub open spec fn rescored(s: Seq<Cand>, key: spec_fn(u32) -> u32) -> Seq<Cand> {
    Seq::new(s.len(), |i: int| cand_of(key, s[i].id))
}

/// A node without neighbours can be added to a sound graph, and stands on no list.
pub proof fn lemma_grown(g: Graph, m: nat, l: nat)
    requires
        sound(g, m),
        g.len() < u32::MAX,
    ensures
        sound(g.push(bare(l)), m),
        forall|lev: nat| #[trigger] absent(g.push(bare(l)), g.len() as u32, lev),
{
    let h = g.push(bare(l));
    let id = g.len() as u32;
    assert forall|x: u32, lev: nat| #[trigger] nbrs(h, x, lev) == nbrs(g, x, lev) by {
        if x == id {
            assert(nbrs(h, x, lev) =~= nbrs(g, x, lev));
        }
    }
    assert forall|x: u32, lev: nat| x < h.len() && lev < h[x as int].len() implies good_list(
        h,
        m,
        x,
        lev,
        #[trigger] nbrs(h, x, lev),
    ) by {
        if x < g.len() {
            assert(good_list(g, m, x, lev, nbrs(g, x, lev)));
        }
    }
    assert forall|x: u32| x < h.len() implies (#[trigger] h[x as int]).len() >= 1 by {
        if x < g.len() {
            assert(g[x as int].len() >= 1);
        }
    }
    assert forall|lev: nat| #[trigger] absent(h, id, lev) by {
        assert forall|x: u32, y: nat, k: int| y <= lev && 0 <= k < nbrs(h, x, y).len() implies
            #[trigger] nbrs(h, x, y)[k] != id by {
            lemma_sound_edges(g, m, y);
            assert(nbrs(g, x, y)[k] < g.len());
        }
    }
}

/// What a search returns: at most `k` nodes of the index, nearest first, each once
/// and with its true distance, and something wherever something was asked for.
pub proof fn law_search_result<T>(ix: Index<T>, key: spec_fn(u32) -> u32, k: nat, ef: nat)
    requires
        valid(ix),
        ix.graph.len() > 0,
    ensures
        ({
            let r = first(shortlist(ix, key, larger(ef, k)), k);
            &&& sorted(r)
            &&& r.len() <= k
            &&& k > 0 ==> r.len() > 0
            &&& forall|i: int|
                0 <= i < r.len() ==> (#[trigger] r[i]).id < ix.graph.len() && r[i].d == key(r[i].id)
            &&& forall|i: int, j: int|
                0 <= i < j < r.len() ==> (#[trigger] r[i]).id != (#[trigger] r[j]).id
        }),
{
    let w = larger(ef, k);
    lemma_shortlist(ix, key, w);
    let s = shortlist(ix, key, w);
    lemma_first(s, k);
    let r = first(s, k);
    assert forall|i: int, j: int| 0 <= i < j < r.len() implies (#[trigger] r[i]).id != (
    #[trigger] r[j]).id by {
        assert(s[i] != s[j]);
    }
}

/// What a shortlist is: nodes of the index, nearest first, each once and with its
/// true distance, at most `ef` of them and at most all.
pub proof fn law_shortlist<T>(ix: Index<T>, key: spec_fn(u32) -> u32, ef: nat)
    requires
        valid(ix),
        ix.graph.len() > 0,
    ensures
        ({
            let s = shortlist(ix, key, ef);
            &&& sorted(s)
            &&& s.no_duplicates()
            &&& s.len() <= ef
            &&& s.len() <= ix.graph.len()
            &&& forall|i: int|
                0 <= i < s.len() ==> (#[trigger] s[i]).id < ix.graph.len() && s[i] == cand_of(
                    key,
                    s[i].id,
                )
        }),
{
    lemma_shortlist(ix, key, ef);
    let s = shortlist(ix, key, ef);
    let n = ix.graph.len();
    let f = ids(s);
    assert forall|i: int, j: int| 0 <= i < f.len() && 0 <= j < f.len() && i != j implies f[i]
        != f[j] by {
        assert(s[i] != s[j]);
    }
    f.unique_seq_to_set();
    assert forall|id: u32| #[trigger] f.to_set().contains(id) implies id < n by {
        let i = choose|i: int| 0 <= i < f.len() && f[i] == id;
        assert(s[i].id < n);
    }
    lemma_bounded(f.to_set(), n);
}

proof fn lemma_shortlist<T>(ix: Index<T>, key: spec_fn(u32) -> u32, ef: nat)
    requires
        valid(ix),
        ix.graph.len() > 0,
    ensures
        ({
            let e = descend(ix.graph, key, ix.entry, ix.max_level, 0);
            let b = layer(ix.graph, 0, key, seq![e], ef);
            let s = shortlist(ix, key, ef);
            &&& e < ix.graph.len()
            &&& coherent(b, key, ef)
            &&& b.best == s
            &&& (ef > 0 ==> s.len() > 0)
            &&& b.visited.len() <= ix.graph.len()
            &&& descend_calls(ix.graph, key, ix.entry, ix.max_level, 0) <= ix.max_level
                * ix.graph.len()
            &&& forall|i: int|
                0 <= i < s.len() ==> (#[trigger] s[i]).id < ix.graph.len() && s[i] == cand_of(
                    key,
                    s[i].id,
                )
        }),
{
    let e = descend(ix.graph, key, ix.entry, ix.max_level, 0);
    lemma_descend(ix.graph, ix.m, key, ix.entry, ix.max_level, 0);
    lemma_layer_tall(ix.graph, ix.m, 0, key, seq![e], ef);
}

/// A search takes no distance twice on one level, so it takes at most one for
/// every node and every level.
pub proof fn law_search_calls<T>(ix: Index<T>, key: spec_fn(u32) -> u32, ef: nat)
    requires
        valid(ix),
        ix.graph.len() > 0,
    ensures
        shortlist_calls(ix, key, ef) <= (ix.max_level + 1) * ix.graph.len(),
{
    lemma_shortlist(ix, key, ef);
    let (l, n) = (ix.max_level as int, ix.graph.len() as int);
    assert((l + 1) * n == l * n + n) by (nonlinear_arith);
}

/// A search ends at a local optimum: a neighbour on level 0 of any node of the
/// shortlist is on the shortlist too, or is no nearer than all of it.
pub proof fn law_search_is_local_optimum<T>(
    ix: Index<T>,
    key: spec_fn(u32) -> u32,
    ef: nat,
    i: int,
    k: int,
)
    requires
        valid(ix),
        ix.graph.len() > 0,
        0 <= i < shortlist(ix, key, ef).len(),
        0 <= k < nbrs(ix.graph, shortlist(ix, key, ef)[i].id, 0).len(),
    ensures
        ({
            let s = shortlist(ix, key, ef);
            let y = nbrs(ix.graph, s[i].id, 0)[k];
            s.contains(cand_of(key, y)) || s.len() == ef && forall|j: int|
                0 <= j < s.len() ==> (#[trigger] s[j]).d <= key(y)
        }),
{
    let e = descend(ix.graph, key, ix.entry, ix.max_level, 0);
    lemma_shortlist(ix, key, ef);
    lemma_sound_edges(ix.graph, ix.m, 0);
    law_local_optimum(ix.graph, 0, key, seq![e], ef);
    let b = layer(ix.graph, 0, key, seq![e], ef);
    assert(seen(ix.graph, 0, b.visited, b.best[i].id));
    assert(b.visited.contains(nbrs(ix.graph, b.best[i].id, 0)[k]));
}

/// With a beam that did not fill up, a search finds every node that the descent's
/// end leads to on level 0.
pub proof fn law_wide_search_is_exhaustive<T>(
    ix: Index<T>,
    key: spec_fn(u32) -> u32,
    ef: nat,
    id: u32,
)
    requires
        valid(ix),
        ix.graph.len() > 0,
        shortlist(ix, key, ef).len() < ef,
        connected(
            ix.graph,
            0,
            seq![descend(ix.graph, key, ix.entry, ix.max_level, 0)],
            id,
        ),
    ensures
        shortlist(ix, key, ef).contains(cand_of(key, id)),
{
    let e = descend(ix.graph, key, ix.entry, ix.max_level, 0);
    lemma_shortlist(ix, key, ef);
    lemma_sound_edges(ix.graph, ix.m, 0);
    law_exhaustive(ix.graph, 0, key, seq![e], ef, id);
}

/// Asking for fewer nodes at one width gives the first of those that asking for
/// more gives.
pub proof fn law_fewer_is_prefix<T>(
    ix: Index<T>,
    key: spec_fn(u32) -> u32,
    k1: nat,
    k2: nat,
    ef: nat,
)
    requires
        k1 <= k2 <= ef,
    ensures
        first(shortlist(ix, key, larger(ef, k1)), k1) == first(
            first(shortlist(ix, key, larger(ef, k2)), k2),
            k1,
        ),
{
    let s = shortlist(ix, key, ef);
    assert(first(s, k1) =~= first(first(s, k2), k1));
}

/// Reranking returns the best of the first `k * rerank` by their true distances:
/// in order, each with its true distance, and none of the others is nearer.
pub proof fn law_rerank<T>(
    ix: Index<T>,
    near: spec_fn(u32) -> u32,
    exact: spec_fn(u32) -> u32,
    k: nat,
    rerank: nat,
    ef: nat,
)
    requires
        valid(ix),
        ix.graph.len() > 0,
        rerank > 1,
    ensures
        ({
            let pool = first(shortlist(ix, near, larger(ef, k * rerank)), k * rerank);
            let r = reranked(
                shortlist(ix, near, larger(ef, k * rerank)),
                exact,
                k,
                rerank,
            );
            &&& sorted(r)
            &&& r.no_duplicates()
            &&& r.len() == if pool.len() <= k {
                pool.len()
            } else {
                k
            }
            &&& forall|i: int|
                0 <= i < r.len() ==> (#[trigger] r[i]).d == exact(r[i].id) && pool.contains(
                    cand_of(near, r[i].id),
                )
            &&& forall|j: int, i: int|
                0 <= j < pool.len() && !r.contains(cand_of(exact, (#[trigger] pool[j]).id)) && 0
                    <= i < r.len() ==> (#[trigger] r[i]).d <= exact(pool[j].id)
        }),
{
    let w = larger(ef, k * rerank);
    let s = shortlist(ix, near, w);
    lemma_shortlist(ix, near, w);
    lemma_first(s, k * rerank);
    let pool = first(s, k * rerank);
    let t = rescored(pool, exact);
    assert forall|i: int, j: int| 0 <= i < t.len() && 0 <= j < t.len() && i != j implies t[i]
        != t[j] by {
        assert(s[i] != s[j]);
    }
    lemma_sort(t);
    lemma_first(sort(t), k);
    let r = reranked(s, exact, k, rerank);
    assert forall|i: int| 0 <= i < r.len() implies (#[trigger] r[i]).d == exact(r[i].id)
        && pool.contains(cand_of(near, r[i].id)) by {
        assert(r.contains(r[i]));
        assert(sort(t).contains(r[i]));
        assert(t.contains(r[i]));
        let j = choose|j: int| 0 <= j < t.len() && t[j] == r[i];
        assert(pool[j] == s[j]);
        assert(pool[j] == cand_of(near, r[i].id));
    }
    assert forall|j: int, i: int|
        0 <= j < pool.len() && !r.contains(cand_of(exact, (#[trigger] pool[j]).id)) && 0 <= i
            < r.len() implies (#[trigger] r[i]).d <= exact(pool[j].id) by {
        let c = cand_of(exact, pool[j].id);
        assert(t[j] == c);
        assert(t.contains(c));
        assert(sort(t).contains(c));
    }
}

} // verus!
