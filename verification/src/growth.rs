//! What an insertion does to the graph, and what it leaves alone.

use vstd::prelude::*;

use crate::beam::{cand_of, layer, nbrs, Graph};
use crate::cand::{ids, Cand};
use crate::graph::{
    absent, backlink, bare, cap, connect, descend, good_list, join, lemma_backlink,
    lemma_connect, lemma_connect_absent, lemma_descend, lemma_descend_absent, lemma_layer_absent,
    lemma_layer_tall, pool_of, same_shape, sound,
};
use crate::index::{inserted, lemma_grown, valid, Index};
use crate::level::level_at;
use crate::metric::{from_query, lemma_row_bounds, pairs, row};
use crate::select::{chosen, lemma_chosen};
use crate::synth::{output, scramble};

verus! {

/// No edge of `h` is new but those to `id` and those of `id`.
pub open spec fn grew(g: Graph, h: Graph, id: u32) -> bool {
    forall|x: u32, l: nat, k: int|
        x != id && 0 <= k < nbrs(h, x, l).len() ==> #[trigger] nbrs(h, x, l)[k] == id || nbrs(
            g,
            x,
            l,
        ).contains(nbrs(h, x, l)[k])
}

/// A node other than `id` that had neighbours still has some.
pub open spec fn kept_company(g: Graph, h: Graph, id: u32) -> bool {
    forall|x: u32, l: nat|
        x != id && nbrs(g, x, l).len() > 0 ==> (#[trigger] nbrs(h, x, l)).len() > 0
}

/// `id` has neighbours on level 0, and each of these has neighbours there too.
pub open spec fn found_company(h: Graph, id: u32) -> bool {
    &&& nbrs(h, id, 0).len() > 0
    &&& forall|k: int| 0 <= k < nbrs(h, id, 0).len() ==> nbrs(h, #[trigger] nbrs(h, id, 0)[k], 0).len() > 0
}

/// With two nodes or more, every node has a neighbour on level 0.
pub open spec fn peopled(g: Graph) -> bool {
    g.len() >= 2 ==> forall|i: int| 0 <= i < g.len() ==> (#[trigger] g[i])[0].len() > 0
}

/// A back link adds at most `id`.
pub proof fn lemma_backlink_from(
    cur: Seq<u32>,
    nb: u32,
    id: u32,
    room: nat,
    pair: spec_fn(u32, u32) -> u32,
)
    requires
        cur.no_duplicates(),
        !cur.contains(id),
    ensures
        forall|k: int|
            0 <= k < backlink(cur, nb, id, room, pair).len() ==> {
                let y = #[trigger] backlink(cur, nb, id, room, pair)[k];
                y == id || cur.contains(y)
            },
{
    let r = backlink(cur, nb, id, room, pair);
    if cur.len() < room {
        assert forall|k: int| 0 <= k < r.len() implies #[trigger] r[k] == id || cur.contains(r[k]) by {
            if k < cur.len() {
                assert(cur[k] == r[k]);
            }
        }
    } else {
        let all = cur.push(id);
        let pool = pool_of(nb, all, pair);
        let key = |x: u32| pair(nb, x);
        assert forall|i: int, j: int| 0 <= i < pool.len() && 0 <= j < pool.len() && i != j implies
            pool[i] != pool[j] by {
            if i < cur.len() {
                assert(cur.contains(cur[i]));
            }
            if j < cur.len() {
                assert(cur.contains(cur[j]));
            }
        }
        lemma_chosen(pool, room, pair, key);
        assert forall|k: int| 0 <= k < r.len() implies #[trigger] r[k] == id || cur.contains(r[k]) by {
            let c = cand_of(key, r[k]);
            assert(pool.contains(c));
            let i = choose|i: int| 0 <= i < pool.len() && pool[i] == c;
            assert(all[i] == r[k]);
            if i < cur.len() {
                assert(cur[i] == r[k]);
            }
        }
    }
}

/// What wiring on one level does.
proof fn lemma_connect_grows(
    g: Graph,
    found: Seq<Cand>,
    id: u32,
    lev: nat,
    m: nat,
    key: spec_fn(u32) -> u32,
    pair: spec_fn(u32, u32) -> u32,
)
    requires
        sound(g, m),
        absent(g, id, lev),
        id < g.len(),
        lev < g[id as int].len(),
        found.no_duplicates(),
        forall|c: Cand| #[trigger]
            found.contains(c) ==> c == cand_of(key, c.id) && c.id < g.len() && c.id != id && lev
                < g[c.id as int].len(),
    ensures
        ({
            let h = connect(g, found, id, lev, m, pair);
            &&& grew(g, h, id)
            &&& m > 0 ==> kept_company(g, h, id)
            &&& m > 0 && lev == 0 && found.len() > 0 ==> found_company(h, id)
        }),
{
    lemma_connect(g, found, id, lev, m, key, pair);
    let h = connect(g, found, id, lev, m, pair);
    let to = chosen(found, cap(m, lev), pair);
    assert forall|x: u32| #[trigger] to.contains(x) implies {
        let cur = nbrs(g, x, lev);
        &&& x != id
        &&& nbrs(h, x, lev) == backlink(cur, x, id, cap(m, lev), pair)
        &&& m > 0 ==> nbrs(h, x, lev).len() > 0
        &&& forall|k: int|
            0 <= k < nbrs(h, x, lev).len() ==> #[trigger] nbrs(h, x, lev)[k] == id || cur.contains(
                nbrs(h, x, lev)[k],
            )
    } by {
        let j = choose|j: int| 0 <= j < to.len() && to[j] == x;
        assert(to[j] < g.len());
        let cur = nbrs(g, x, lev);
        assert(good_list(g, m, x, lev, cur));
        assert(!cur.contains(id)) by {
            if cur.contains(id) {
                let k = choose|k: int| 0 <= k < cur.len() && cur[k] == id;
                assert(nbrs(g, x, lev)[k] != id);
            }
        }
        lemma_backlink(g, m, x, id, lev, cur, pair);
        lemma_backlink_from(cur, x, id, cap(m, lev), pair);
    }
    assert forall|x: u32, l: nat, k: int| x != id && 0 <= k < nbrs(h, x, l).len() implies
        #[trigger] nbrs(h, x, l)[k] == id || nbrs(g, x, l).contains(nbrs(h, x, l)[k]) by {
        if l == lev && to.contains(x) {
        } else {
            assert(nbrs(h, x, l) == nbrs(g, x, l));
        }
    }
    if m > 0 && lev == 0 && found.len() > 0 {
        assert forall|k: int| 0 <= k < nbrs(h, id, 0).len() implies nbrs(
            h,
            #[trigger] nbrs(h, id, 0)[k],
            0,
        ).len() > 0 by {
            assert(nbrs(h, id, 0) == to);
            assert(to.contains(to[k]));
        }
    }
}

/// What joining the levels from `lev` down does.
pub proof fn lemma_join(
    g: Graph,
    id: u32,
    lev: nat,
    m: nat,
    ef: nat,
    eps: Seq<u32>,
    key: spec_fn(u32) -> u32,
    pair: spec_fn(u32, u32) -> u32,
)
    requires
        sound(g, m),
        absent(g, id, lev),
        id < g.len(),
        lev < g[id as int].len(),
        forall|i: int|
            0 <= i < eps.len() ==> #[trigger] eps[i] < g.len() && eps[i] != id && lev
                < g[eps[i] as int].len(),
    ensures
        ({
            let h = join(g, id, lev, m, ef, eps, key, pair);
            &&& sound(h, m)
            &&& same_shape(g, h)
            &&& grew(g, h, id)
            &&& m > 0 ==> kept_company(g, h, id)
            &&& m > 0 && ef > 0 && eps.len() > 0 ==> found_company(h, id)
        }),
    decreases lev,
{
    let b = layer(g, lev, key, eps, ef);
    let found = b.best;
    let p = connect(g, found, id, lev, m, pair);
    lemma_layer_tall(g, m, lev, key, eps, ef);
    lemma_layer_absent(g, m, lev, key, eps, ef, id);
    assert forall|c: Cand| #[trigger] found.contains(c) implies c == cand_of(key, c.id) && c.id
        < g.len() && c.id != id && lev < g[c.id as int].len() by {
        let i = choose|i: int| 0 <= i < found.len() && found[i] == c;
        assert(b.best[i].id != id);
    }
    lemma_connect(g, found, id, lev, m, key, pair);
    lemma_connect_grows(g, found, id, lev, m, key, pair);
    if lev > 0 {
        let next = ids(found);
        let h = join(g, id, lev, m, ef, eps, key, pair);
        lemma_connect_absent(g, p, id, lev);
        assert forall|i: int| 0 <= i < next.len() implies #[trigger] next[i] < p.len() && next[i]
            != id && lev - 1 < p[next[i] as int].len() by {
            assert(found.contains(found[i]));
            assert(p[next[i] as int].len() == g[next[i] as int].len());
        }
        assert(p[id as int].len() == g[id as int].len());
        lemma_join(p, id, (lev - 1) as nat, m, ef, next, key, pair);
        assert forall|i: int| 0 <= i < g.len() implies (#[trigger] h[i]).len() == g[i].len() by {
            assert(p[i].len() == g[i].len());
        }
        assert forall|x: u32, l: nat, k: int| x != id && 0 <= k < nbrs(h, x, l).len() implies
            #[trigger] nbrs(h, x, l)[k] == id || nbrs(g, x, l).contains(nbrs(h, x, l)[k]) by {
            let y = nbrs(h, x, l)[k];
            if y != id {
                let list = nbrs(p, x, l);
                assert(list.contains(y));
                let j = choose|j: int| 0 <= j < list.len() && list[j] == y;
                assert(nbrs(p, x, l)[j] == y);
            }
        }
        if m > 0 {
            assert forall|x: u32, l: nat| x != id && nbrs(g, x, l).len() > 0 implies (
            #[trigger] nbrs(h, x, l)).len() > 0 by {
                assert(nbrs(p, x, l).len() > 0);
            }
        }
    }
}

/// An insertion keeps an index valid, adds one node behind all others, leaves the
/// levels of the others alone, and makes no edge that neither starts nor ends at
/// the new node.
pub proof fn law_insert<T, D: Fn(&[T], &[T]) -> u32, L: Fn(u64) -> usize>(
    ix: Index<T>,
    dist: D,
    level: L,
    v: Seq<T>,
)
    requires
        valid(ix),
        v.len() == ix.dim,
        ix.graph.len() < u32::MAX,
    ensures
        ({
            let r = inserted(ix, dist, level, v);
            let n = ix.graph.len();
            &&& valid(r)
            &&& r.graph.len() == n + 1
            &&& forall|i: int| 0 <= i < n ==> (#[trigger] r.graph[i]).len() == ix.graph[i].len()
            &&& r.graph[n as int].len() == level_at(level, output(scramble(ix.rng)) >> 11) + 1
            &&& grew(ix.graph, r.graph, n as u32)
        }),
{
    lemma_inserted(ix, dist, level, v);
}

/// In an index that vectors are inserted into one after the other, every node has
/// a neighbour on level 0 as soon as there are two.
pub proof fn law_insert_leaves_no_orphan<T, D: Fn(&[T], &[T]) -> u32, L: Fn(u64) -> usize>(
    ix: Index<T>,
    dist: D,
    level: L,
    v: Seq<T>,
)
    requires
        valid(ix),
        v.len() == ix.dim,
        ix.graph.len() < u32::MAX,
        ix.m > 0,
        ix.ef_construction > 0,
        peopled(ix.graph),
    ensures
        peopled(inserted(ix, dist, level, v).graph),
{
    lemma_inserted(ix, dist, level, v);
    let h = inserted(ix, dist, level, v).graph;
    let n = ix.graph.len();
    let id = n as u32;
    if n > 0 {
        assert forall|i: int| 0 <= i < h.len() implies (#[trigger] h[i])[0].len() > 0 by {
            let x = i as u32;
            assert(h[x as int].len() >= 1);
            assert(nbrs(h, x, 0) == h[i][0]);
            if x != id {
                if n >= 2 {
                    assert(ix.graph[i][0].len() > 0);
                    assert(ix.graph[x as int].len() >= 1);
                    assert(nbrs(ix.graph, x, 0).len() > 0);
                } else {
                    let y = nbrs(h, id, 0)[0];
                    assert(good_list(h, ix.m, id, 0, nbrs(h, id, 0)));
                    assert(y == x);
                }
            }
        }
    }
}

/// An insertion puts the vector behind the others and moves none of them.
pub proof fn law_insert_keeps_vectors<T, D: Fn(&[T], &[T]) -> u32, L: Fn(u64) -> usize>(
    ix: Index<T>,
    dist: D,
    level: L,
    v: Seq<T>,
)
    requires
        valid(ix),
        v.len() == ix.dim,
        ix.data.len() == ix.graph.len() * ix.dim,
    ensures
        ({
            let r = inserted(ix, dist, level, v);
            let n = ix.graph.len();
            &&& r.data.len() == (n + 1) * ix.dim
            &&& row(r.data, ix.dim, n as int) == v
            &&& forall|i: int|
                0 <= i < n ==> #[trigger] row(r.data, ix.dim, i) == row(ix.data, ix.dim, i)
        }),
{
    let r = inserted(ix, dist, level, v);
    let n = ix.graph.len();
    let d = ix.dim;
    assert((n + 1) * d == n * d + d) by (nonlinear_arith);
    assert(row(r.data, d, n as int) =~= v);
    assert forall|i: int| 0 <= i < n implies #[trigger] row(r.data, d, i) == row(ix.data, d, i) by {
        lemma_row_bounds(d, n, i, ix.data.len());
        assert(row(r.data, d, i) =~= row(ix.data, d, i));
    }
}

proof fn lemma_inserted<T, D: Fn(&[T], &[T]) -> u32, L: Fn(u64) -> usize>(
    ix: Index<T>,
    dist: D,
    level: L,
    v: Seq<T>,
)
    requires
        valid(ix),
        v.len() == ix.dim,
        ix.graph.len() < u32::MAX,
    ensures
        ({
            let r = inserted(ix, dist, level, v);
            let n = ix.graph.len();
            &&& valid(r)
            &&& r.graph.len() == n + 1
            &&& forall|i: int| 0 <= i < n ==> (#[trigger] r.graph[i]).len() == ix.graph[i].len()
            &&& r.graph[n as int].len() == level_at(level, output(scramble(ix.rng)) >> 11) + 1
            &&& grew(ix.graph, r.graph, n as u32)
            &&& ix.m > 0 ==> kept_company(ix.graph, r.graph, n as u32)
            &&& ix.m > 0 && ix.ef_construction > 0 && n > 0 ==> found_company(r.graph, n as u32)
        }),
{
    let r = inserted(ix, dist, level, v);
    let l = level_at(level, output(scramble(ix.rng)) >> 11);
    let n = ix.graph.len();
    let id = n as u32;
    let g = ix.graph.push(bare(l));
    let data = ix.data + v;
    lemma_grown(ix.graph, ix.m, l);
    assert((n + 1) * ix.dim == n * ix.dim + ix.dim) by (nonlinear_arith);
    assert forall|x: u32, lev: nat| x != id implies #[trigger] nbrs(g, x, lev) == nbrs(
        ix.graph,
        x,
        lev,
    ) by {
    }
    if n > 0 {
        let key = from_query(dist, data, ix.dim, v);
        let pair = pairs(dist, data, ix.dim);
        let top = ix.max_level;
        let e = descend(g, key, ix.entry, top, l);
        let low = if l <= top {
            l
        } else {
            top
        };
        assert(g[ix.entry as int] == ix.graph[ix.entry as int]);
        lemma_descend(g, ix.m, key, ix.entry, top, l);
        assert(absent(g, id, top));
        assert(absent(g, id, low));
        lemma_descend_absent(g, ix.m, key, ix.entry, top, l, id);
        lemma_join(g, id, low, ix.m, ix.ef_construction, seq![e], key, pair);
        let h = r.graph;
        assert forall|i: int| 0 <= i < h.len() implies (#[trigger] h[i]).len() <= r.max_level + 1 by {
            assert(h[i].len() == g[i].len());
            if i < n {
                assert(ix.graph[i].len() <= ix.max_level + 1);
            }
        }
        assert(h[r.entry as int].len() == g[r.entry as int].len());
        assert forall|i: int| 0 <= i < n implies (#[trigger] h[i]).len() == ix.graph[i].len() by {
            assert(h[i].len() == g[i].len());
        }
        assert(h[n as int].len() == g[n as int].len());
        assert forall|x: u32, lev: nat, k: int| x != id && 0 <= k < nbrs(h, x, lev).len() implies
            #[trigger] nbrs(h, x, lev)[k] == id || nbrs(ix.graph, x, lev).contains(
            nbrs(h, x, lev)[k],
        ) by {
            assert(nbrs(g, x, lev) == nbrs(ix.graph, x, lev));
        }
        if ix.m > 0 {
            assert forall|x: u32, lev: nat| x != id && nbrs(ix.graph, x, lev).len() > 0 implies (
            #[trigger] nbrs(h, x, lev)).len() > 0 by {
                assert(nbrs(g, x, lev) == nbrs(ix.graph, x, lev));
            }
        }
    }
}

} // verus!
