//! How a node joins the graph, and what holds of the graph throughout.

use vstd::prelude::*;

use crate::beam::{
    cand_of, coherent, edges_inside, layer, lemma_layer, nbrs, Graph,
};
use crate::cand::{ids, Cand};
use crate::select::{chosen, lemma_chosen};

verus! {

/// How many neighbours a node may have on a level.
pub open spec fn cap(m: nat, lev: nat) -> nat {
    if lev == 0 {
        2 * m
    } else {
        m
    }
}

/// The lists of a node that reaches level `l` and has no neighbours.
pub open spec fn bare(l: nat) -> Seq<Seq<u32>> {
    Seq::new(l + 1, |lev: int| Seq::empty())
}

/// The graph with one list replaced.
pub open spec fn set_list(g: Graph, id: u32, lev: nat, list: Seq<u32>) -> Graph {
    g.update(id as int, g[id as int].update(lev as int, list))
}

/// The nodes of `list` as candidates, by their distance from `base`.
pub open spec fn pool_of(
    base: u32,
    list: Seq<u32>,
    pair: spec_fn(u32, u32) -> u32,
) -> Seq<Cand> {
    Seq::new(list.len(), |i: int| Cand { d: pair(base, list[i]), id: list[i] })
}

/// The list of `nb` once `id` has linked to it: longer by one while there is
/// room, and chosen afresh from old and new otherwise.
pub open spec fn backlink(
    cur: Seq<u32>,
    nb: u32,
    id: u32,
    room: nat,
    pair: spec_fn(u32, u32) -> u32,
) -> Seq<u32> {
    if cur.len() < room {
        cur.push(id)
    } else {
        chosen(pool_of(nb, cur.push(id), pair), room, pair)
    }
}

/// The graph once each node of `to`, in order, has linked back to `id`.
pub open spec fn link_back(
    g: Graph,
    to: Seq<u32>,
    id: u32,
    lev: nat,
    m: nat,
    pair: spec_fn(u32, u32) -> u32,
) -> Graph
    decreases to.len(),
{
    if to.len() == 0 {
        g
    } else {
        let p = link_back(g, to.drop_last(), id, lev, m, pair);
        let nb = to.last();
        set_list(p, nb, lev, backlink(nbrs(p, nb, lev), nb, id, cap(m, lev), pair))
    }
}

/// The graph once `id` is wired, in both directions, to what is chosen among
/// `found`.
pub open spec fn connect(
    g: Graph,
    found: Seq<Cand>,
    id: u32,
    lev: nat,
    m: nat,
    pair: spec_fn(u32, u32) -> u32,
) -> Graph {
    let to = chosen(found, cap(m, lev), pair);
    link_back(set_list(g, id, lev, to), to, id, lev, m, pair)
}

/// The graph once `id` has joined the levels from `lev` down: each is searched
/// from what was found on the one above.
pub open spec fn join(
    g: Graph,
    id: u32,
    lev: nat,
    m: nat,
    ef: nat,
    eps: Seq<u32>,
    key: spec_fn(u32) -> u32,
    pair: spec_fn(u32, u32) -> u32,
) -> Graph
    decreases lev,
{
    let found = layer(g, lev, key, eps, ef).best;
    let h = connect(g, found, id, lev, m, pair);
    if lev == 0 {
        h
    } else {
        join(h, id, (lev - 1) as nat, m, ef, ids(found), key, pair)
    }
}

/// How many distances from the new node `join` takes.
pub open spec fn join_calls(
    g: Graph,
    id: u32,
    lev: nat,
    m: nat,
    ef: nat,
    eps: Seq<u32>,
    key: spec_fn(u32) -> u32,
    pair: spec_fn(u32, u32) -> u32,
) -> nat
    decreases lev,
{
    let b = layer(g, lev, key, eps, ef);
    if lev == 0 {
        b.visited.len()
    } else {
        b.visited.len() + join_calls(
            connect(g, b.best, id, lev, m, pair),
            id,
            (lev - 1) as nat,
            m,
            ef,
            ids(b.best),
            key,
            pair,
        )
    }
}

/// The node nearest to the goal that a walk from `e` comes to, one node wide,
/// through the levels `top` to `bottom + 1`.
pub open spec fn descend(
    g: Graph,
    key: spec_fn(u32) -> u32,
    e: u32,
    top: nat,
    bottom: nat,
) -> u32
    decreases top,
{
    if top <= bottom {
        e
    } else {
        descend(g, key, layer(g, top, key, seq![e], 1).best[0].id, (top - 1) as nat, bottom)
    }
}

/// How many distances `descend` takes.
pub open spec fn descend_calls(
    g: Graph,
    key: spec_fn(u32) -> u32,
    e: u32,
    top: nat,
    bottom: nat,
) -> nat
    decreases top,
{
    if top <= bottom {
        0
    } else {
        let b = layer(g, top, key, seq![e], 1);
        b.visited.len() + descend_calls(g, key, b.best[0].id, (top - 1) as nat, bottom)
    }
}

/// A list that node `id` may have on level `lev`: not too long, no node twice,
/// never `id` itself, and only nodes that reach the level.
pub open spec fn good_list(g: Graph, m: nat, id: u32, lev: nat, list: Seq<u32>) -> bool {
    &&& list.len() <= cap(m, lev)
    &&& list.no_duplicates()
    &&& forall|k: int|
        0 <= k < list.len() ==> #[trigger] list[k] < g.len() && list[k] != id && lev
            < g[list[k] as int].len()
}

/// Every node reaches level 0 at least, and all its lists are good.
pub open spec fn sound(g: Graph, m: nat) -> bool {
    &&& forall|id: u32| id < g.len() ==> (#[trigger] g[id as int]).len() >= 1
    &&& forall|id: u32, lev: nat|
        id < g.len() && lev < g[id as int].len() ==> good_list(g, m, id, lev, #[trigger] nbrs(g, id, lev))
}

/// `id` stands on no list of the levels up to `lev`.
pub open spec fn absent(g: Graph, id: u32, lev: nat) -> bool {
    forall|x: u32, l: nat, k: int|
        l <= lev && 0 <= k < nbrs(g, x, l).len() ==> #[trigger] nbrs(g, x, l)[k] != id
}

/// Both graphs have the same nodes, and these reach the same levels.
pub open spec fn same_shape(g: Graph, h: Graph) -> bool {
    &&& h.len() == g.len()
    &&& forall|i: int| 0 <= i < g.len() ==> (#[trigger] h[i]).len() == g[i].len()
}

pub proof fn lemma_sound_edges(g: Graph, m: nat, lev: nat)
    requires
        sound(g, m),
    ensures
        edges_inside(g, lev),
        forall|id: u32, k: int|
            0 <= k < nbrs(g, id, lev).len() ==> #[trigger] nbrs(g, id, lev)[k] < g.len() && nbrs(
                g,
                id,
                lev,
            )[k] != id && lev < g[nbrs(g, id, lev)[k] as int].len(),
{
    assert forall|id: u32, k: int| 0 <= k < nbrs(g, id, lev).len() implies #[trigger] nbrs(
        g,
        id,
        lev,
    )[k] < g.len() && nbrs(g, id, lev)[k] != id && lev < g[nbrs(g, id, lev)[k] as int].len() by {
        assert(good_list(g, m, id, lev, nbrs(g, id, lev)));
    }
}

/// A walk from a node that reaches a level stays on nodes that reach it, and
/// from one that reaches above stays there.
pub proof fn lemma_layer_tall(
    g: Graph,
    m: nat,
    lev: nat,
    key: spec_fn(u32) -> u32,
    eps: Seq<u32>,
    ef: nat,
)
    requires
        sound(g, m),
        forall|i: int|
            0 <= i < eps.len() ==> #[trigger] eps[i] < g.len() && lev < g[eps[i] as int].len(),
    ensures
        ({
            let r = layer(g, lev, key, eps, ef);
            &&& coherent(r, key, ef)
            &&& r.visited.len() <= g.len()
            &&& (eps.len() > 0 && ef > 0 ==> r.best.len() > 0)
            &&& forall|i: int|
                0 <= i < r.best.len() ==> (#[trigger] r.best[i]).id < g.len() && lev
                    < g[r.best[i].id as int].len() && r.best[i] == cand_of(key, r.best[i].id)
        }),
{
    lemma_sound_edges(g, m, lev);
    lemma_layer(g, lev, key, eps, ef, |x: u32| x < g.len() && lev < g[x as int].len());
}

/// A node that stands on no list of a level is not found on that level.
pub proof fn lemma_layer_absent(
    g: Graph,
    m: nat,
    lev: nat,
    key: spec_fn(u32) -> u32,
    eps: Seq<u32>,
    ef: nat,
    id: u32,
)
    requires
        sound(g, m),
        absent(g, id, lev),
        forall|i: int| 0 <= i < eps.len() ==> #[trigger] eps[i] < g.len() && eps[i] != id,
    ensures
        forall|i: int|
            0 <= i < layer(g, lev, key, eps, ef).best.len() ==> (#[trigger] layer(
                g,
                lev,
                key,
                eps,
                ef,
            ).best[i]).id != id,
{
    lemma_sound_edges(g, m, lev);
    lemma_layer(g, lev, key, eps, ef, |x: u32| x != id);
}

/// The descent ends on a node that reaches the level below its last.
pub proof fn lemma_descend(
    g: Graph,
    m: nat,
    key: spec_fn(u32) -> u32,
    e: u32,
    top: nat,
    bottom: nat,
)
    requires
        sound(g, m),
        e < g.len(),
        top < g[e as int].len(),
    ensures
        descend(g, key, e, top, bottom) < g.len(),
        (if top <= bottom {
            top
        } else {
            bottom
        }) < g[descend(g, key, e, top, bottom) as int].len(),
        descend_calls(g, key, e, top, bottom) <= top * g.len(),
    decreases top,
{
    if top > bottom {
        let eps = seq![e];
        lemma_layer_tall(g, m, top, key, eps, 1);
        let r = layer(g, top, key, eps, 1);
        let e2 = r.best[0].id;
        lemma_descend(g, m, key, e2, (top - 1) as nat, bottom);
        assert(top * g.len() == (top - 1) * g.len() + g.len()) by (nonlinear_arith)
            requires
                top > 0,
        ;
    } else {
        assert(0 <= top * g.len()) by (nonlinear_arith);
    }
}

/// A descent from a node other than `id` does not come to `id` when `id` stands
/// on no list.
pub proof fn lemma_descend_absent(
    g: Graph,
    m: nat,
    key: spec_fn(u32) -> u32,
    e: u32,
    top: nat,
    bottom: nat,
    id: u32,
)
    requires
        sound(g, m),
        absent(g, id, top),
        e < g.len(),
        e != id,
        top < g[e as int].len(),
    ensures
        descend(g, key, e, top, bottom) != id,
    decreases top,
{
    if top > bottom {
        let eps = seq![e];
        lemma_layer_tall(g, m, top, key, eps, 1);
        lemma_layer_absent(g, m, top, key, eps, 1, id);
        let e2 = layer(g, top, key, eps, 1).best[0].id;
        lemma_descend_absent(g, m, key, e2, (top - 1) as nat, bottom, id);
    }
}

/// What replacing one list does to every list.
pub proof fn lemma_set_list(g: Graph, id: u32, lev: nat, list: Seq<u32>)
    requires
        id < g.len(),
        lev < g[id as int].len(),
    ensures
        same_shape(g, set_list(g, id, lev, list)),
        forall|x: u32, l: nat| #[trigger]
            nbrs(set_list(g, id, lev, list), x, l) == if x == id && l == lev {
                list
            } else {
                nbrs(g, x, l)
            },
{
}

/// Replacing one list by a good one keeps a graph sound.
pub proof fn lemma_set_sound(g: Graph, m: nat, id: u32, lev: nat, list: Seq<u32>)
    requires
        sound(g, m),
        id < g.len(),
        lev < g[id as int].len(),
        good_list(g, m, id, lev, list),
    ensures
        sound(set_list(g, id, lev, list), m),
{
    lemma_set_list(g, id, lev, list);
    let h = set_list(g, id, lev, list);
    assert forall|x: u32, l: nat| x < h.len() && l < h[x as int].len() implies good_list(
        h,
        m,
        x,
        l,
        #[trigger] nbrs(h, x, l),
    ) by {
        assert(good_list(g, m, x, l, nbrs(h, x, l)));
    }
    assert forall|x: u32| x < h.len() implies (#[trigger] h[x as int]).len() >= 1 by {
        assert(g[x as int].len() >= 1);
    }
}

/// A back link makes a good list of a good list.
pub proof fn lemma_backlink(
    g: Graph,
    m: nat,
    nb: u32,
    id: u32,
    lev: nat,
    cur: Seq<u32>,
    pair: spec_fn(u32, u32) -> u32,
)
    requires
        good_list(g, m, nb, lev, cur),
        !cur.contains(id),
        nb != id,
        id < g.len(),
        lev < g[id as int].len(),
    ensures
        good_list(g, m, nb, lev, backlink(cur, nb, id, cap(m, lev), pair)),
        cap(m, lev) > 0 ==> backlink(cur, nb, id, cap(m, lev), pair).len() > 0,
{
    let all = cur.push(id);
    assert forall|i: int, j: int| 0 <= i < all.len() && 0 <= j < all.len() && i != j implies all[i]
        != all[j] by {
        if i < cur.len() {
            assert(cur.contains(cur[i]));
        }
        if j < cur.len() {
            assert(cur.contains(cur[j]));
        }
    }
    if cur.len() >= cap(m, lev) {
        let pool = pool_of(nb, all, pair);
        let key = |x: u32| pair(nb, x);
        assert forall|i: int, j: int| 0 <= i < pool.len() && 0 <= j < pool.len() && i != j implies
            pool[i] != pool[j] by {
            assert(all[i] != all[j]);
        }
        lemma_chosen(pool, cap(m, lev), pair, key);
        let r = backlink(cur, nb, id, cap(m, lev), pair);
        assert forall|k: int| 0 <= k < r.len() implies #[trigger] r[k] < g.len() && r[k] != nb && lev
            < g[r[k] as int].len() by {
            let c = cand_of(key, r[k]);
            assert(pool.contains(c));
            let i = choose|i: int| 0 <= i < pool.len() && pool[i] == c;
            assert(all[i] == r[k]);
            if i < cur.len() {
                assert(cur[i] < g.len());
            }
        }
    }
}

/// What linking back does: the nodes of `to` alone, and on level `lev` alone,
/// get new lists, and these are good.
pub proof fn lemma_link_back(
    g: Graph,
    to: Seq<u32>,
    id: u32,
    lev: nat,
    m: nat,
    pair: spec_fn(u32, u32) -> u32,
)
    requires
        sound(g, m),
        id < g.len(),
        lev < g[id as int].len(),
        to.no_duplicates(),
        forall|k: int|
            0 <= k < to.len() ==> #[trigger] to[k] < g.len() && to[k] != id && lev
                < g[to[k] as int].len() && !nbrs(g, to[k], lev).contains(id),
    ensures
        ({
            let h = link_back(g, to, id, lev, m, pair);
            &&& sound(h, m)
            &&& same_shape(g, h)
            &&& forall|x: u32, l: nat| #[trigger]
                nbrs(h, x, l) == if to.contains(x) && l == lev {
                    backlink(nbrs(g, x, lev), x, id, cap(m, lev), pair)
                } else {
                    nbrs(g, x, l)
                }
        }),
    decreases to.len(),
{
    if to.len() > 0 {
        let t = to.drop_last();
        let nb = to.last();
        let p = link_back(g, t, id, lev, m, pair);
        let h = link_back(g, to, id, lev, m, pair);
        assert forall|k: int| 0 <= k < t.len() implies #[trigger] t[k] < g.len() && t[k] != id && lev
            < g[t[k] as int].len() && !nbrs(g, t[k], lev).contains(id) by {
            assert(t[k] == to[k]);
        }
        lemma_link_back(g, t, id, lev, m, pair);
        assert(to[to.len() - 1] == nb);
        assert(!t.contains(nb)) by {
            if t.contains(nb) {
                let i = choose|i: int| 0 <= i < t.len() && t[i] == nb;
                assert(to[i] == to[to.len() - 1]);
            }
        }
        assert(p[nb as int].len() == g[nb as int].len());
        assert(p[id as int].len() == g[id as int].len());
        let cur = nbrs(p, nb, lev);
        assert(cur == nbrs(g, nb, lev));
        assert(good_list(p, m, nb, lev, cur));
        lemma_backlink(p, m, nb, id, lev, cur, pair);
        let list = backlink(cur, nb, id, cap(m, lev), pair);
        lemma_set_sound(p, m, nb, lev, list);
        lemma_set_list(p, nb, lev, list);
        assert forall|x: u32, l: nat| #[trigger]
            nbrs(h, x, l) == if to.contains(x) && l == lev {
                backlink(nbrs(g, x, lev), x, id, cap(m, lev), pair)
            } else {
                nbrs(g, x, l)
            } by {
            if to.contains(x) && x != nb {
                let i = choose|i: int| 0 <= i < to.len() && to[i] == x;
                assert(t[i] == x);
                assert(t.contains(x));
            }
            if t.contains(x) {
                let i = choose|i: int| 0 <= i < t.len() && t[i] == x;
                assert(to[i] == x);
                assert(to.contains(x));
            }
            assert(to.contains(nb));
        }
        assert forall|i: int| 0 <= i < g.len() implies (#[trigger] h[i]).len() == g[i].len() by {
            assert(p[i].len() == g[i].len());
        }
    }
}

/// Wiring a node that stands on no list yet, neither here nor below, keeps the
/// graph sound and leaves the levels below alone.
pub proof fn lemma_connect(
    g: Graph,
    found: Seq<Cand>,
    id: u32,
    lev: nat,
    m: nat,
    key: spec_fn(u32) -> u32,
    pair: spec_fn(u32, u32) -> u32,
)
    requires
        sound(g, m),
        absent(g, id, lev),
        id < g.len(),
        lev < g[id as int].len(),
        found.no_duplicates(),
        forall|c: Cand| #[trigger]
            found.contains(c) ==> c == cand_of(key, c.id) && c.id < g.len() && c.id != id && lev
                < g[c.id as int].len(),
    ensures
        ({
            let to = chosen(found, cap(m, lev), pair);
            let h = connect(g, found, id, lev, m, pair);
            &&& good_list(g, m, id, lev, to)
            &&& (m > 0 && found.len() > 0 ==> to.len() > 0)
            &&& forall|k: int| 0 <= k < to.len() ==> found.contains(cand_of(key, #[trigger] to[k]))
            &&& sound(set_list(g, id, lev, to), m)
            &&& sound(h, m)
            &&& same_shape(g, h)
            &&& forall|x: u32, l: nat| #[trigger]
                nbrs(h, x, l) == if l != lev {
                    nbrs(g, x, l)
                } else if x == id {
                    to
                } else if to.contains(x) {
                    backlink(nbrs(g, x, lev), x, id, cap(m, lev), pair)
                } else {
                    nbrs(g, x, l)
                }
        }),
{
    let to = chosen(found, cap(m, lev), pair);
    lemma_chosen(found, cap(m, lev), pair, key);
    assert forall|k: int| 0 <= k < to.len() implies #[trigger] to[k] < g.len() && to[k] != id && lev
        < g[to[k] as int].len() by {
        assert(found.contains(cand_of(key, to[k])));
    }
    let s = set_list(g, id, lev, to);
    lemma_set_sound(g, m, id, lev, to);
    lemma_set_list(g, id, lev, to);
    assert(s[id as int].len() == g[id as int].len());
    assert forall|k: int| 0 <= k < to.len() implies #[trigger] to[k] < s.len() && to[k] != id && lev
        < s[to[k] as int].len() && !nbrs(s, to[k], lev).contains(id) by {
        assert(s[to[k] as int].len() == g[to[k] as int].len());
        let list = nbrs(g, to[k], lev);
        if list.contains(id) {
            let j = choose|j: int| 0 <= j < list.len() && list[j] == id;
            assert(nbrs(g, to[k], lev)[j] != id);
        }
    }
    lemma_link_back(s, to, id, lev, m, pair);
    let h = connect(g, found, id, lev, m, pair);
    assert forall|i: int| 0 <= i < g.len() implies (#[trigger] h[i]).len() == g[i].len() by {
        assert(s[i].len() == g[i].len());
    }
    assert(!to.contains(id)) by {
        if to.contains(id) {
            let k = choose|k: int| 0 <= k < to.len() && to[k] == id;
            assert(to[k] != id);
        }
    }
}

/// After wiring on one level, the node still stands on no list below.
pub proof fn lemma_connect_absent(g: Graph, h: Graph, id: u32, lev: nat)
    requires
        lev > 0,
        absent(g, id, lev),
        forall|x: u32, l: nat| l < lev ==> #[trigger] nbrs(h, x, l) == nbrs(g, x, l),
    ensures
        absent(h, id, (lev - 1) as nat),
{
    assert forall|x: u32, l: nat, k: int| l <= lev - 1 && 0 <= k < nbrs(h, x, l).len() implies
        #[trigger] nbrs(h, x, l)[k] != id by {
        assert(nbrs(g, x, l)[k] != id);
    }
}

} // verus!
