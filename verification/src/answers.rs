//! What the answer to a query is, told of the pairs that are returned.

use vstd::prelude::*;

use crate::beam::{
    cand_of, connected, law_exhaustive, law_found_is_reachable, law_local_optimum, layer,
    lemma_layer, nbrs, seen, Graph,
};
use crate::cand::{first, ids, lemma_sort, precedes, sort, sorted, Cand};
use crate::graph::{
    descend, descend_calls, good_list, lemma_descend, lemma_layer_tall, lemma_sound_edges, sound,
};
use crate::index::{
    hits, law_shortlist, rescored, reranked, shortlist, shortlist_calls, valid, Index,
};
use crate::truth::{all_cands, top};
use crate::wiring::ahead;

verus! {

/// `s` is where a search of level `lev` from the nodes `from` may end with at most
/// `width` nodes: they are reached from there, nearest first and each once. Whatever the
/// search started from, and whatever a node of `s` links to, is on `s` too, or `s` is
/// full and has nothing that is farther. A list that is not full has all that is reached.
pub open spec fn ends_at(
    g: Graph,
    lev: nat,
    key: spec_fn(u32) -> u32,
    from: Seq<u32>,
    width: nat,
    s: Seq<u32>,
) -> bool {
    &&& s.len() <= width
    &&& width > 0 && from.len() > 0 ==> s.len() > 0
    &&& forall|i: int|
        0 <= i < s.len() ==> #[trigger] s[i] < g.len() && lev < g[s[i] as int].len() && connected(
            g,
            lev,
            from,
            s[i],
        )
    &&& forall|i: int, j: int|
        0 <= i < j < s.len() ==> ahead(key, #[trigger] s[i], #[trigger] s[j])
    &&& forall|k: int|
        0 <= k < from.len() ==> listed_or_no_nearer(key, width, s, #[trigger] from[k])
    &&& forall|i: int, k: int|
        0 <= i < s.len() && 0 <= k < nbrs(g, s[i], lev).len() ==> listed_or_no_nearer(
            key,
            width,
            s,
            #[trigger] nbrs(g, s[i], lev)[k],
        )
    &&& s.len() < width ==> forall|y: u32| connected(g, lev, from, y) ==> #[trigger] s.contains(y)
}

/// `y` is on `s`, or `s` is full and nothing on it is farther than `y`.
pub open spec fn listed_or_no_nearer(
    key: spec_fn(u32) -> u32,
    width: nat,
    s: Seq<u32>,
    y: u32,
) -> bool {
    s.contains(y) || s.len() == width && forall|j: int|
        0 <= j < s.len() ==> key(#[trigger] s[j]) <= key(y)
}

/// `steps` is a walk down from level `top` to level `bottom`: on each level above that it
/// goes to where a search for one node ends.
pub open spec fn walks_down(
    g: Graph,
    key: spec_fn(u32) -> u32,
    top: nat,
    bottom: nat,
    steps: Seq<u32>,
) -> bool {
    &&& steps.len() == 1 + if top <= bottom {
        0
    } else {
        top - bottom
    }
    &&& forall|i: int|
        0 <= i < steps.len() - 1 ==> ends_at(
            g,
            (top - i) as nat,
            key,
            seq![#[trigger] steps[i]],
            1,
            seq![steps[i + 1]],
        )
}

/// `r` holds the best `k` of the nodes `pool`, or all of them where there are fewer:
/// each once and with its distance by `key`, nearest first and the lower id first among
/// equals. No node that is left out belongs before one that is not.
pub open spec fn best_of(
    r: Seq<(u32, u32)>,
    pool: Seq<u32>,
    key: spec_fn(u32) -> u32,
    k: nat,
) -> bool {
    &&& r.len() == if pool.len() < k {
        pool.len()
    } else {
        k
    }
    &&& forall|i: int|
        0 <= i < r.len() ==> pool.contains((#[trigger] r[i]).0) && r[i].1 == key(r[i].0)
    &&& forall|i: int, j: int|
        0 <= i < j < r.len() ==> {
            &&& (#[trigger] r[i]).0 != (#[trigger] r[j]).0
            &&& r[i].1 < r[j].1 || r[i].1 == r[j].1 && r[i].0 < r[j].0
        }
    &&& forall|y: u32, i: int|
        #[trigger] pool.contains(y) && !r.contains((y, key(y))) && 0 <= i < r.len() ==> (
        #[trigger] r[i]).1 < key(y) || r[i].1 == key(y) && r[i].0 < y
}

/// `r` holds the best `k` of the nodes below `n`, or all of them where there are fewer:
/// each once and with its distance by `key`, nearest first and the lower id first among
/// equals. No node that is left out belongs before one that is not.
pub open spec fn best_below(
    r: Seq<(u32, u32)>,
    n: nat,
    key: spec_fn(u32) -> u32,
    k: nat,
) -> bool {
    &&& r.len() == if n < k {
        n
    } else {
        k
    }
    &&& forall|i: int| 0 <= i < r.len() ==> (#[trigger] r[i]).0 < n && r[i].1 == key(r[i].0)
    &&& forall|i: int, j: int|
        0 <= i < j < r.len() ==> {
            &&& (#[trigger] r[i]).0 != (#[trigger] r[j]).0
            &&& r[i].1 < r[j].1 || r[i].1 == r[j].1 && r[i].0 < r[j].0
        }
    &&& forall|y: u32, i: int|
        y < n && !#[trigger] r.contains((y, key(y))) && 0 <= i < r.len() ==> (#[trigger] r[i]).1
            < key(y) || r[i].1 == key(y) && r[i].0 < y
}

/// `r` answers a query for `k` nodes: the walk goes down from the entry, a search of
/// `width` on level 0 starts where it ends, and the best of what that finds are returned.
pub open spec fn answers<T>(
    ix: Index<T>,
    key: spec_fn(u32) -> u32,
    k: nat,
    width: nat,
    r: Seq<(u32, u32)>,
) -> bool {
    exists|steps: Seq<u32>, s: Seq<u32>|
        {
            &&& #[trigger] walks_down(ix.graph, key, ix.max_level, 0, steps)
            &&& steps[0] == ix.entry
            &&& #[trigger] ends_at(ix.graph, 0, key, seq![steps.last()], width, s)
            &&& best_of(r, s, key, k)
        }
}

/// `r` answers a query for `k` nodes whose search goes by `near`, and whose answer is
/// picked by `exact` from the first `pool` nodes of what was found.
pub open spec fn answers_twice<T>(
    ix: Index<T>,
    near: spec_fn(u32) -> u32,
    exact: spec_fn(u32) -> u32,
    k: nat,
    pool: nat,
    width: nat,
    r: Seq<(u32, u32)>,
) -> bool {
    exists|steps: Seq<u32>, s: Seq<u32>|
        {
            &&& #[trigger] walks_down(ix.graph, near, ix.max_level, 0, steps)
            &&& steps[0] == ix.entry
            &&& #[trigger] ends_at(ix.graph, 0, near, seq![steps.last()], width, s)
            &&& best_of(
                r,
                if s.len() <= pool {
                    s
                } else {
                    s.take(pool as int)
                },
                exact,
                k,
            )
        }
}

/// Where the search of a level ends.
pub proof fn law_layer_ends(
    g: Graph,
    m: nat,
    lev: nat,
    key: spec_fn(u32) -> u32,
    eps: Seq<u32>,
    ef: nat,
)
    requires
        sound(g, m),
        forall|i: int|
            0 <= i < eps.len() ==> #[trigger] eps[i] < g.len() && lev < g[eps[i] as int].len(),
    ensures
        ends_at(g, lev, key, eps, ef, ids(layer(g, lev, key, eps, ef).best)),
        forall|i: int|
            0 <= i < layer(g, lev, key, eps, ef).best.len() ==> (#[trigger] layer(
                g,
                lev,
                key,
                eps,
                ef,
            ).best[i]) == cand_of(key, ids(layer(g, lev, key, eps, ef).best)[i]),
{
    let b = layer(g, lev, key, eps, ef);
    let s = ids(b.best);
    lemma_layer_tall(g, m, lev, key, eps, ef);
    lemma_sound_edges(g, m, lev);
    law_found_is_reachable(g, lev, key, eps, ef);
    law_local_optimum(g, lev, key, eps, ef);
    lemma_layer(g, lev, key, eps, ef, |x: u32| x < g.len());
    assert forall|i: int| 0 <= i < s.len() implies #[trigger] s[i] < g.len() && lev
        < g[s[i] as int].len() && connected(g, lev, eps, s[i]) by {
        assert(b.best[i].id == s[i]);
    }
    assert forall|i: int, j: int| 0 <= i < j < s.len() implies ahead(
        key,
        #[trigger] s[i],
        #[trigger] s[j],
    ) by {
        assert(precedes(b.best[i], b.best[j]));
        assert(b.best[i] != b.best[j]);
        assert(b.best[i] == cand_of(key, s[i]));
        assert(b.best[j] == cand_of(key, s[j]));
    }
    assert forall|y: u32| #[trigger] b.visited.contains(y) implies listed_or_no_nearer(
        key,
        ef,
        s,
        y,
    ) by {
        if b.best.contains(cand_of(key, y)) {
            let i = choose|i: int| 0 <= i < b.best.len() && b.best[i] == cand_of(key, y);
            assert(s[i] == y);
        } else {
            assert forall|j: int| 0 <= j < s.len() implies key(#[trigger] s[j]) <= key(y) by {
                assert(b.best[j].d <= key(y));
            }
        }
    }
    assert forall|k: int| 0 <= k < eps.len() implies listed_or_no_nearer(
        key,
        ef,
        s,
        #[trigger] eps[k],
    ) by {
        assert(b.visited.contains(eps[k]));
    }
    assert forall|i: int, k: int| 0 <= i < s.len() && 0 <= k < nbrs(g, s[i], lev).len() implies
        listed_or_no_nearer(key, ef, s, #[trigger] nbrs(g, s[i], lev)[k]) by {
        assert(seen(g, lev, b.visited, b.best[i].id));
        assert(b.visited.contains(nbrs(g, s[i], lev)[k]));
    }
    if s.len() < ef {
        assert forall|y: u32| connected(g, lev, eps, y) implies #[trigger] s.contains(y) by {
            law_exhaustive(g, lev, key, eps, ef, y);
            let i = choose|i: int| 0 <= i < b.best.len() && b.best[i] == cand_of(key, y);
            assert(s[i] == y);
        }
    }
}

/// How many distances the search of a level takes: one for each node that it comes upon,
/// among them those that it starts from, those that it ends with and all their neighbours.
/// A search whose beam does not fill up takes as many as it ends with nodes.
pub proof fn law_layer_calls(
    g: Graph,
    m: nat,
    lev: nat,
    key: spec_fn(u32) -> u32,
    eps: Seq<u32>,
    ef: nat,
)
    requires
        sound(g, m),
        forall|i: int|
            0 <= i < eps.len() ==> #[trigger] eps[i] < g.len() && lev < g[eps[i] as int].len(),
    ensures
        ({
            let b = layer(g, lev, key, eps, ef);
            &&& b.visited.finite()
            &&& b.best.len() <= b.visited.len() <= g.len()
            &&& b.best.len() < ef ==> b.visited.len() == b.best.len()
            &&& forall|i: int| 0 <= i < eps.len() ==> b.visited.contains(#[trigger] eps[i])
            &&& forall|i: int|
                0 <= i < b.best.len() ==> b.visited.len() >= 1 + nbrs(
                    g,
                    (#[trigger] b.best[i]).id,
                    lev,
                ).len()
        }),
{
    let b = layer(g, lev, key, eps, ef);
    let s = ids(b.best);
    lemma_layer_tall(g, m, lev, key, eps, ef);
    lemma_sound_edges(g, m, lev);
    law_local_optimum(g, lev, key, eps, ef);
    lemma_layer(g, lev, key, eps, ef, |x: u32| x < g.len());
    assert forall|i: int, j: int| 0 <= i < s.len() && 0 <= j < s.len() && i != j implies s[i]
        != s[j] by {
        assert(b.best[i] != b.best[j]);
        assert(b.best[i] == cand_of(key, s[i]) && b.best[j] == cand_of(key, s[j]));
    }
    s.unique_seq_to_set();
    assert forall|y: u32| #[trigger] s.to_set().contains(y) implies b.visited.contains(y) by {
        let i = choose|i: int| 0 <= i < s.len() && s[i] == y;
        assert(b.best.contains(b.best[i]));
    }
    vstd::set_lib::lemma_len_subset(s.to_set(), b.visited);
    if b.best.len() < ef {
        assert forall|y: u32| #[trigger] b.visited.contains(y) implies s.to_set().contains(y) by {
            assert(b.best.contains(cand_of(key, y)));
            let i = choose|i: int| 0 <= i < b.best.len() && b.best[i] == cand_of(key, y);
            assert(s[i] == y);
        }
        assert(s.to_set() =~= b.visited);
    }
    assert forall|i: int| 0 <= i < b.best.len() implies b.visited.len() >= 1 + nbrs(
        g,
        (#[trigger] b.best[i]).id,
        lev,
    ).len() by {
        let x = b.best[i].id;
        let list = nbrs(g, x, lev);
        let all = list.push(x);
        assert(x < g.len() && lev < g[x as int].len());
        assert(good_list(g, m, x, lev, list));
        assert(seen(g, lev, b.visited, x));
        assert(all.no_duplicates());
        all.unique_seq_to_set();
        assert forall|y: u32| #[trigger] all.to_set().contains(y) implies b.visited.contains(y) by {
            let k = choose|k: int| 0 <= k < all.len() && all[k] == y;
            if k < list.len() {
                assert(b.visited.contains(nbrs(g, x, lev)[k]));
            } else {
                assert(b.best.contains(b.best[i]));
            }
        }
        vstd::set_lib::lemma_len_subset(all.to_set(), b.visited);
    }
}

/// A descent in two parts is the one part and then the other, and takes as many distances
/// as both together. One level takes as many as its search.
pub proof fn law_descent_in_parts(
    g: Graph,
    key: spec_fn(u32) -> u32,
    e: u32,
    top: nat,
    mid: nat,
    bottom: nat,
)
    requires
        bottom <= mid <= top,
    ensures
        descend(g, key, e, top, bottom) == descend(
            g,
            key,
            descend(g, key, e, top, mid),
            mid,
            bottom,
        ),
        descend_calls(g, key, e, top, bottom) == descend_calls(g, key, e, top, mid)
            + descend_calls(g, key, descend(g, key, e, top, mid), mid, bottom),
        descend_calls(g, key, e, bottom, bottom) == 0,
        descend_calls(g, key, e, bottom + 1, bottom) == layer(
            g,
            bottom + 1,
            key,
            seq![e],
            1,
        ).visited.len(),
    decreases top,
{
    if top > mid {
        let e2 = layer(g, top, key, seq![e], 1).best[0].id;
        law_descent_in_parts(g, key, e2, (top - 1) as nat, mid, bottom);
    }
    let e2 = layer(g, bottom + 1, key, seq![e], 1).best[0].id;
    assert(descend_calls(g, key, e2, bottom, bottom) == 0);
}

/// How many distances a search of the whole graph takes: those of the descent, and those
/// of the search of level 0. Where the beam does not fill up the latter are as many as
/// there are nodes on the shortlist.
pub proof fn law_search_calls_are_counted<T>(ix: Index<T>, key: spec_fn(u32) -> u32, ef: nat)
    requires
        valid(ix),
        ix.graph.len() > 0,
    ensures
        ({
            let down = descend_calls(ix.graph, key, ix.entry, ix.max_level, 0);
            let s = shortlist(ix, key, ef);
            let end = descend(ix.graph, key, ix.entry, ix.max_level, 0);
            let met = layer(ix.graph, 0, key, seq![end], ef).visited;
            &&& shortlist_calls(ix, key, ef) == down + met.len()
            &&& down + s.len() <= shortlist_calls(ix, key, ef) <= down + ix.graph.len()
            &&& s.len() < ef ==> shortlist_calls(ix, key, ef) == down + s.len()
        }),
{
    let e = descend(ix.graph, key, ix.entry, ix.max_level, 0);
    lemma_descend(ix.graph, ix.m, key, ix.entry, ix.max_level, 0);
    law_layer_calls(ix.graph, ix.m, 0, key, seq![e], ef);
}

/// The steps that a descent takes.
pub open spec fn steps_of(
    g: Graph,
    key: spec_fn(u32) -> u32,
    e: u32,
    top: nat,
    bottom: nat,
) -> Seq<u32>
    decreases top,
{
    if top <= bottom {
        seq![e]
    } else {
        seq![e] + steps_of(
            g,
            key,
            layer(g, top, key, seq![e], 1).best[0].id,
            (top - 1) as nat,
            bottom,
        )
    }
}

/// A descent walks down from where it starts to where it ends, and never away from the
/// goal.
pub proof fn law_descent_walks_down(
    g: Graph,
    m: nat,
    key: spec_fn(u32) -> u32,
    e: u32,
    top: nat,
    bottom: nat,
)
    requires
        sound(g, m),
        e < g.len(),
        top < g[e as int].len(),
    ensures
        exists|steps: Seq<u32>| #[trigger]
            walks_down(g, key, top, bottom, steps) && steps[0] == e && steps.last() == descend(
                g,
                key,
                e,
                top,
                bottom,
            ),
        key(descend(g, key, e, top, bottom)) <= key(e),
{
    lemma_steps(g, m, key, e, top, bottom);
}

pub(crate) proof fn lemma_steps(
    g: Graph,
    m: nat,
    key: spec_fn(u32) -> u32,
    e: u32,
    top: nat,
    bottom: nat,
)
    requires
        sound(g, m),
        e < g.len(),
        top < g[e as int].len(),
    ensures
        walks_down(g, key, top, bottom, steps_of(g, key, e, top, bottom)),
        steps_of(g, key, e, top, bottom)[0] == e,
        steps_of(g, key, e, top, bottom).last() == descend(g, key, e, top, bottom),
        key(descend(g, key, e, top, bottom)) <= key(e),
    decreases top,
{
    let steps = steps_of(g, key, e, top, bottom);
    if top > bottom {
        let from = seq![e];
        let b = layer(g, top, key, from, 1).best;
        lemma_layer_tall(g, m, top, key, from, 1);
        law_layer_ends(g, m, top, key, from, 1);
        let e2 = b[0].id;
        assert(ids(b) =~= seq![e2]);
        let rest = steps_of(g, key, e2, (top - 1) as nat, bottom);
        lemma_steps(g, m, key, e2, (top - 1) as nat, bottom);
        assert(steps =~= seq![e] + rest);
        assert(listed_or_no_nearer(key, 1, seq![e2], from[0]));
        assert forall|i: int| 0 <= i < steps.len() - 1 implies ends_at(
            g,
            (top - i) as nat,
            key,
            seq![#[trigger] steps[i]],
            1,
            seq![steps[i + 1]],
        ) by {
            if i > 0 {
                assert(steps[i] == rest[i - 1]);
                assert(steps[i + 1] == rest[i]);
                assert((top - i) as nat == ((top - 1) as nat - (i - 1)) as nat);
            } else {
                assert(steps[1] == e2);
            }
        }
    }
}

/// The first `k` of a sorted list are the best of the nodes that are on it.
proof fn lemma_best_of(c: Seq<Cand>, pool: Seq<u32>, key: spec_fn(u32) -> u32, k: nat)
    requires
        sorted(c),
        c.no_duplicates(),
        c.len() == pool.len(),
        forall|i: int| 0 <= i < c.len() ==> (#[trigger] c[i]).d == key(c[i].id),
        forall|y: u32| #[trigger] pool.contains(y) <==> c.contains(cand_of(key, y)),
    ensures
        best_of(hits(first(c, k)), pool, key, k),
{
    let f = first(c, k);
    let r = hits(f);
    assert forall|i: int| 0 <= i < r.len() implies r[i] == (c[i].id, c[i].d) && pool.contains(
        (#[trigger] r[i]).0,
    ) && r[i].1 == key(r[i].0) by {
        assert(f[i] == c[i]);
        assert(c[i] == cand_of(key, c[i].id));
        assert(c.contains(c[i]));
    }
    assert forall|i: int, j: int| 0 <= i < j < r.len() implies {
        &&& (#[trigger] r[i]).0 != (#[trigger] r[j]).0
        &&& r[i].1 < r[j].1 || r[i].1 == r[j].1 && r[i].0 < r[j].0
    } by {
        assert(precedes(c[i], c[j]));
        assert(c[i] != c[j]);
        assert(c[i].d == key(c[i].id) && c[j].d == key(c[j].id));
    }
    assert forall|y: u32, i: int|
        #[trigger] pool.contains(y) && !r.contains((y, key(y))) && 0 <= i < r.len() implies (
    #[trigger] r[i]).1 < key(y) || r[i].1 == key(y) && r[i].0 < y by {
        let j = choose|j: int| 0 <= j < c.len() && c[j] == cand_of(key, y);
        if j < r.len() {
            assert(r[j] == (y, key(y)));
        }
        assert(precedes(c[i], c[j]));
        assert(c[i] != c[j]);
    }
}

/// There is only one answer that holds the best of a pool.
pub proof fn law_best_is_unique(
    a: Seq<(u32, u32)>,
    b: Seq<(u32, u32)>,
    pool: Seq<u32>,
    key: spec_fn(u32) -> u32,
    k: nat,
)
    requires
        best_of(a, pool, key, k),
        best_of(b, pool, key, k),
    ensures
        a == b,
{
    lemma_best_agree(a, b, pool, key, k, a.len());
    assert(a =~= b);
}

proof fn lemma_best_agree(
    a: Seq<(u32, u32)>,
    b: Seq<(u32, u32)>,
    pool: Seq<u32>,
    key: spec_fn(u32) -> u32,
    k: nat,
    n: nat,
)
    requires
        best_of(a, pool, key, k),
        best_of(b, pool, key, k),
        n <= a.len(),
    ensures
        forall|i: int| 0 <= i < n ==> #[trigger] a[i] == b[i],
    decreases n,
{
    if n > 0 {
        lemma_best_agree(a, b, pool, key, k, (n - 1) as nat);
        lemma_none_before(a, b, pool, key, k, n - 1);
        lemma_none_before(b, a, pool, key, k, n - 1);
    }
}

/// Where two answers agree up to place `n`, neither has there what belongs before the
/// other's.
proof fn lemma_none_before(
    a: Seq<(u32, u32)>,
    b: Seq<(u32, u32)>,
    pool: Seq<u32>,
    key: spec_fn(u32) -> u32,
    k: nat,
    n: int,
)
    requires
        best_of(a, pool, key, k),
        best_of(b, pool, key, k),
        0 <= n < a.len(),
        forall|i: int| 0 <= i < n ==> #[trigger] a[i] == b[i],
    ensures
        !(a[n].1 < b[n].1 || a[n].1 == b[n].1 && a[n].0 < b[n].0),
{
    let (x, y) = (a[n], b[n]);
    assert(pool.contains(x.0) && x.1 == key(x.0));
    if x.1 < y.1 || x.1 == y.1 && x.0 < y.0 {
        if b.contains((x.0, key(x.0))) {
            let i = choose|i: int| 0 <= i < b.len() && b[i] == (x.0, key(x.0));
            if i < n {
                assert(a[i] == b[i]);
                assert(a[i].0 != a[n].0);
            } else if i > n {
                assert(b[n].1 < b[i].1 || b[n].1 == b[i].1 && b[n].0 < b[i].0);
            }
        } else {
            assert(b[n].1 < key(x.0) || b[n].1 == key(x.0) && b[n].0 < x.0);
        }
    }
}

/// Exhaustive search returns the best of all nodes.
pub proof fn law_top_is_best(key: spec_fn(u32) -> u32, n: nat, k: nat)
    requires
        n <= u32::MAX,
    ensures
        best_below(hits(top(key, n, k)), n, key, k),
{
    let all = all_cands(key, n);
    let c = sort(all);
    let pool = Seq::new(n, |i: int| i as u32);
    assert forall|i: int, j: int| 0 <= i < all.len() && 0 <= j < all.len() && i != j implies all[i]
        != all[j] by {
        assert(all[i].id == i && all[j].id == j);
    }
    lemma_sort(all);
    assert forall|i: int| 0 <= i < c.len() implies (#[trigger] c[i]).d == key(c[i].id) by {
        assert(c.contains(c[i]));
        assert(all.contains(c[i]));
    }
    assert forall|y: u32| #[trigger] pool.contains(y) <==> c.contains(cand_of(key, y)) by {
        let d = cand_of(key, y);
        if pool.contains(y) {
            let i = choose|i: int| 0 <= i < n && pool[i] == y;
            assert(all[i] == d);
            assert(all.contains(d));
        }
        if all.contains(d) {
            let i = choose|i: int| 0 <= i < n && all[i] == d;
            assert(pool[i] == y);
        }
        assert(all.contains(d) <==> c.contains(d));
    }
    lemma_best_of(c, pool, key, k);
    let r = hits(top(key, n, k));
    assert forall|i: int| 0 <= i < r.len() implies (#[trigger] r[i]).0 < n && r[i].1 == key(
        r[i].0,
    ) by {
        assert(pool.contains(r[i].0));
        let j = choose|j: int| 0 <= j < n && pool[j] == r[i].0;
        assert(pool[j] == j);
    }
    assert forall|y: u32, i: int|
        y < n && !#[trigger] r.contains((y, key(y))) && 0 <= i < r.len() implies (#[trigger] r[i]).1
        < key(y) || r[i].1 == key(y) && r[i].0 < y by {
        assert(pool[y as int] == y);
        assert(pool.contains(y));
    }
}

/// A search answers its query: what is returned are the best of what the walk finds,
/// each with its own distance and none twice.
pub proof fn law_search_answers<T>(ix: Index<T>, key: spec_fn(u32) -> u32, k: nat, width: nat)
    requires
        valid(ix),
        ix.graph.len() > 0,
    ensures
        answers(ix, key, k, width, hits(first(shortlist(ix, key, width), k))),
{
    let c = shortlist(ix, key, width);
    lemma_shortlist_ends(ix, key, width);
    law_shortlist(ix, key, width);
    assert forall|y: u32| #[trigger] ids(c).contains(y) <==> c.contains(cand_of(key, y)) by {
        lemma_ids(c, key, y);
    }
    lemma_best_of(c, ids(c), key, k);
}

/// What every answer is: at most `k` nodes of the index, nearest first, each once and
/// with its own distance, and something wherever something was asked for.
pub proof fn law_answers<T>(
    ix: Index<T>,
    key: spec_fn(u32) -> u32,
    k: nat,
    width: nat,
    r: Seq<(u32, u32)>,
)
    requires
        answers(ix, key, k, width, r),
    ensures
        r.len() <= k,
        k > 0 && width > 0 ==> r.len() > 0,
        forall|i: int|
            0 <= i < r.len() ==> (#[trigger] r[i]).0 < ix.graph.len() && r[i].1 == key(r[i].0),
        forall|i: int, j: int|
            0 <= i < j < r.len() ==> (#[trigger] r[i]).0 != (#[trigger] r[j]).0 && r[i].1
                <= r[j].1,
{
    let (steps, s) = choose|steps: Seq<u32>, s: Seq<u32>|
        {
            &&& #[trigger] walks_down(ix.graph, key, ix.max_level, 0, steps)
            &&& steps[0] == ix.entry
            &&& #[trigger] ends_at(ix.graph, 0, key, seq![steps.last()], width, s)
            &&& best_of(r, s, key, k)
        };
    assert forall|i: int| 0 <= i < r.len() implies (#[trigger] r[i]).0 < ix.graph.len() && r[i].1
        == key(r[i].0) by {
        let j = choose|j: int| 0 <= j < s.len() && s[j] == r[i].0;
        assert(s[j] < ix.graph.len());
    }
}

/// The same of an answer that is picked by other distances than those of the search.
pub proof fn law_answers_twice<T>(
    ix: Index<T>,
    near: spec_fn(u32) -> u32,
    exact: spec_fn(u32) -> u32,
    k: nat,
    pool: nat,
    width: nat,
    r: Seq<(u32, u32)>,
)
    requires
        answers_twice(ix, near, exact, k, pool, width, r),
    ensures
        r.len() <= k,
        k > 0 && pool > 0 && width > 0 ==> r.len() > 0,
        forall|i: int|
            0 <= i < r.len() ==> (#[trigger] r[i]).0 < ix.graph.len() && r[i].1 == exact(r[i].0),
        forall|i: int, j: int|
            0 <= i < j < r.len() ==> (#[trigger] r[i]).0 != (#[trigger] r[j]).0 && r[i].1
                <= r[j].1,
{
    let (steps, s) = choose|steps: Seq<u32>, s: Seq<u32>|
        {
            &&& #[trigger] walks_down(ix.graph, near, ix.max_level, 0, steps)
            &&& steps[0] == ix.entry
            &&& #[trigger] ends_at(ix.graph, 0, near, seq![steps.last()], width, s)
            &&& best_of(
                r,
                if s.len() <= pool {
                    s
                } else {
                    s.take(pool as int)
                },
                exact,
                k,
            )
        };
    let f = if s.len() <= pool {
        s
    } else {
        s.take(pool as int)
    };
    assert forall|i: int| 0 <= i < r.len() implies (#[trigger] r[i]).0 < ix.graph.len() && r[i].1
        == exact(r[i].0) by {
        assert(f.contains(r[i].0));
        let j = choose|j: int| 0 <= j < f.len() && f[j] == r[i].0;
        assert(s[j] < ix.graph.len());
    }
}

proof fn lemma_ids(c: Seq<Cand>, key: spec_fn(u32) -> u32, y: u32)
    requires
        forall|i: int| 0 <= i < c.len() ==> (#[trigger] c[i]).d == key(c[i].id),
    ensures
        ids(c).contains(y) <==> c.contains(cand_of(key, y)),
{
    if ids(c).contains(y) {
        let i = choose|i: int| 0 <= i < c.len() && ids(c)[i] == y;
        assert(c[i] == cand_of(key, y));
    }
    if c.contains(cand_of(key, y)) {
        let i = choose|i: int| 0 <= i < c.len() && c[i] == cand_of(key, y);
        assert(ids(c)[i] == y);
    }
}

proof fn lemma_shortlist_ends<T>(ix: Index<T>, key: spec_fn(u32) -> u32, width: nat)
    requires
        valid(ix),
        ix.graph.len() > 0,
    ensures
        ({
            let steps = steps_of(ix.graph, key, ix.entry, ix.max_level, 0);
            &&& walks_down(ix.graph, key, ix.max_level, 0, steps)
            &&& steps[0] == ix.entry
            &&& ends_at(
                ix.graph,
                0,
                key,
                seq![steps.last()],
                width,
                ids(shortlist(ix, key, width)),
            )
        }),
{
    let e = descend(ix.graph, key, ix.entry, ix.max_level, 0);
    lemma_descend(ix.graph, ix.m, key, ix.entry, ix.max_level, 0);
    lemma_steps(ix.graph, ix.m, key, ix.entry, ix.max_level, 0);
    law_layer_ends(ix.graph, ix.m, 0, key, seq![e], width);
}

/// What is returned of a shortlist. With `rerank` at most one these are as many of its
/// nodes as `k` allows, each with the distance that the shortlist has for it, and none that
/// is left out is nearer by that. Otherwise it is the same of its first `k * rerank` nodes
/// and their distances by `exact`.
pub proof fn law_shortlist_is_answered(
    short: Seq<Cand>,
    near: spec_fn(u32) -> u32,
    exact: spec_fn(u32) -> u32,
    k: nat,
    rerank: nat,
)
    requires
        sorted(short),
        short.no_duplicates(),
        forall|i: int| 0 <= i < short.len() ==> (#[trigger] short[i]).d == near(short[i].id),
    ensures
        ({
            let r = hits(reranked(short, exact, k, rerank));
            let nodes = Seq::new(short.len(), |i: int| short[i].id);
            if rerank <= 1 {
                best_of(r, nodes, near, k)
            } else {
                best_of(
                    r,
                    if nodes.len() <= k * rerank {
                        nodes
                    } else {
                        nodes.take((k * rerank) as int)
                    },
                    exact,
                    k,
                )
            }
        }),
{
    let nodes = Seq::new(short.len(), |i: int| short[i].id);
    assert(nodes =~= ids(short));
    if rerank <= 1 {
        assert forall|y: u32| #[trigger] nodes.contains(y) <==> short.contains(cand_of(near, y)) by {
            lemma_ids(short, near, y);
        }
        lemma_best_of(short, nodes, near, k);
    } else {
        let f = first(short, k * rerank);
        let t = rescored(f, exact);
        let pool = if nodes.len() <= k * rerank {
            nodes
        } else {
            nodes.take((k * rerank) as int)
        };
        assert(pool =~= ids(f));
        assert forall|i: int, j: int| 0 <= i < t.len() && 0 <= j < t.len() && i != j implies t[i]
            != t[j] by {
            assert(short[i] != short[j]);
            assert(short[i].d == near(short[i].id) && short[j].d == near(short[j].id));
        }
        lemma_sort(t);
        let o = sort(t);
        assert forall|i: int| 0 <= i < o.len() implies (#[trigger] o[i]).d == exact(o[i].id) by {
            assert(o.contains(o[i]));
            assert(t.contains(o[i]));
        }
        assert forall|y: u32| #[trigger] pool.contains(y) <==> o.contains(cand_of(exact, y)) by {
            assert(ids(t) =~= ids(f));
            lemma_ids(t, exact, y);
            assert(t.contains(cand_of(exact, y)) <==> o.contains(cand_of(exact, y)));
        }
        lemma_best_of(o, pool, exact, k);
    }
}

/// A quantized search answers its query. With `rerank` at most one it returns the best
/// that were found by the codes' distances, and these distances; otherwise the best of
/// the first `k * rerank` by their true distances, and those.
pub proof fn law_quantized_search_answers<T>(
    ix: Index<T>,
    near: spec_fn(u32) -> u32,
    exact: spec_fn(u32) -> u32,
    k: nat,
    rerank: nat,
    width: nat,
)
    requires
        valid(ix),
        ix.graph.len() > 0,
    ensures
        ({
            let r = hits(reranked(shortlist(ix, near, width), exact, k, rerank));
            if rerank <= 1 {
                answers(ix, near, k, width, r)
            } else {
                answers_twice(ix, near, exact, k, k * rerank, width, r)
            }
        }),
{
    let c = shortlist(ix, near, width);
    lemma_shortlist_ends(ix, near, width);
    law_shortlist(ix, near, width);
    law_shortlist_is_answered(c, near, exact, k, rerank);
    assert(Seq::new(c.len(), |i: int| c[i].id) =~= ids(c));
}

} // verus!
