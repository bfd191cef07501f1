//! What an insertion does, told of the neighbours that each node has before and after.

use vstd::prelude::*;

use crate::answers::{
    ends_at, law_layer_calls, law_layer_ends, lemma_steps, listed_or_no_nearer, steps_of, walks_down,
};
use crate::beam::{cand_of, connected, layer, nbrs, reachable, Graph};
use crate::cand::{ids, Cand};
use crate::graph::{
    absent, bare, cap, connect, descend, descend_calls, good_list, join, join_calls,
    lemma_connect, lemma_connect_absent, lemma_descend, lemma_descend_absent, lemma_layer_absent,
    lemma_layer_tall, same_shape, sound,
};
use crate::growth::law_insert;
use crate::index::{insert_calls, inserted, lemma_grown, valid, Index};
use crate::level::level_at;
use crate::metric::{from_query, pairs};
use crate::select::chosen;
use crate::synth::{output, scramble};
use crate::wiring::{
    among, law_backlink_makes_room, law_choice_is_spread_out, law_nearer_gets_in, made_room,
    spread_out,
};

verus! {

/// On level `lev` the node `id` is linked to nodes of `found` that are spread out around
/// it, each of them has made room for a link back, and no other list is touched.
pub open spec fn wired(
    g: Graph,
    h: Graph,
    id: u32,
    lev: nat,
    room: nat,
    found: Seq<u32>,
    key: spec_fn(u32) -> u32,
    pair: spec_fn(u32, u32) -> u32,
) -> bool {
    &&& spread_out(nbrs(h, id, lev), Set::new(|y: u32| found.contains(y)), key, room, pair)
    &&& forall|x: u32|
        x != id && nbrs(h, id, lev).contains(x) ==> made_room(
            nbrs(g, x, lev),
            #[trigger] nbrs(h, x, lev),
            x,
            id,
            room,
            pair,
        )
    &&& forall|x: u32|
        x != id && !nbrs(h, id, lev).contains(x) ==> #[trigger] nbrs(h, x, lev) == nbrs(
            g,
            x,
            lev,
        )
}

/// The node `id` joins the levels `low` to 0: each is searched with the width `ef`, the
/// first from `eps` and each other from what was found on the level above, and `id` is
/// wired to what was found. The levels above stay as they are.
pub open spec fn joins(
    g: Graph,
    h: Graph,
    id: u32,
    low: nat,
    m: nat,
    ef: nat,
    eps: Seq<u32>,
    key: spec_fn(u32) -> u32,
    pair: spec_fn(u32, u32) -> u32,
    found: Seq<Seq<u32>>,
) -> bool {
    &&& found.len() == low + 1
    &&& ends_at(g, low, key, eps, ef, found[low as int])
    &&& forall|lev: nat|
        lev < low ==> ends_at(g, lev, key, found[lev as int + 1], ef, #[trigger] found[lev as int])
    &&& forall|lev: nat|
        lev <= low ==> wired(
            g,
            h,
            id,
            lev,
            if lev == 0 {
                2 * m
            } else {
                m
            },
            #[trigger] found[lev as int],
            key,
            pair,
        )
    &&& forall|x: u32, lev: nat| lev > low ==> #[trigger] nbrs(h, x, lev) == nbrs(g, x, lev)
}

/// `g` is the graph `old_graph` with one node more, which reaches level `l` and has no
/// neighbours.
pub open spec fn one_more(old_graph: Graph, g: Graph, l: nat) -> bool {
    &&& g.len() == old_graph.len() + 1
    &&& forall|i: int| 0 <= i < old_graph.len() ==> #[trigger] g[i] == old_graph[i]
    &&& g[old_graph.len() as int].len() == l + 1
    &&& forall|lev: int|
        0 <= lev <= l ==> (#[trigger] g[old_graph.len() as int][lev]).len() == 0
}

/// From `g` to `h` the node `id`, which reaches level `l`, finds its place: a walk comes
/// down from the entry, and where it ends the node joins the levels from `low` down.
pub open spec fn finds_place(
    g: Graph,
    h: Graph,
    id: u32,
    entry: u32,
    top: nat,
    l: nat,
    low: nat,
    m: nat,
    ef: nat,
    key: spec_fn(u32) -> u32,
    pair: spec_fn(u32, u32) -> u32,
) -> bool {
    exists|steps: Seq<u32>, found: Seq<Seq<u32>>|
        {
            &&& #[trigger] walks_down(g, key, top, l, steps)
            &&& steps[0] == entry
            &&& #[trigger] joins(g, h, id, low, m, ef, seq![steps.last()], key, pair, found)
        }
}

/// `r` is the index `ix` with the vector `v` in it, whose node reaches level `l`. A node
/// that reaches higher than all others becomes the entry.
pub open spec fn takes_in<T>(
    ix: Index<T>,
    r: Index<T>,
    v: Seq<T>,
    l: nat,
    key: spec_fn(u32) -> u32,
    pair: spec_fn(u32, u32) -> u32,
) -> bool {
    let n = ix.graph.len();
    let id = n as u32;
    let low = if l <= ix.max_level {
        l
    } else {
        ix.max_level
    };
    &&& r.data == ix.data + v
    &&& r.rng == scramble(ix.rng)
    &&& (r.dim, r.m, r.ef_construction) == (ix.dim, ix.m, ix.ef_construction)
    &&& r.graph.len() == n + 1
    &&& r.graph[n as int].len() == l + 1
    &&& forall|i: int| 0 <= i < n ==> (#[trigger] r.graph[i]).len() == ix.graph[i].len()
    &&& if n == 0 {
        one_more(ix.graph, r.graph, l) && r.entry == id && r.max_level == l
    } else {
        &&& r.entry == if l > ix.max_level {
            id
        } else {
            ix.entry
        }
        &&& r.max_level == if l > ix.max_level {
            l
        } else {
            ix.max_level
        }
        &&& exists|g: Graph| #[trigger]
            one_more(ix.graph, g, l) && finds_place(
                g,
                r.graph,
                id,
                ix.entry,
                ix.max_level,
                l,
                low,
                ix.m,
                ix.ef_construction,
                key,
                pair,
            )
    }
}

/// A node that is wired to another stands on the other's list where there is room, and
/// where it is nearer to the other than all that stand there.
pub proof fn law_wired_is_linked_back(
    g: Graph,
    h: Graph,
    id: u32,
    lev: nat,
    room: nat,
    found: Seq<u32>,
    key: spec_fn(u32) -> u32,
    pair: spec_fn(u32, u32) -> u32,
    x: u32,
)
    requires
        wired(g, h, id, lev, room, found, key, pair),
        room > 0,
        x != id,
        nbrs(h, id, lev).contains(x),
        nbrs(g, x, lev).len() < room || forall|k: int|
            0 <= k < nbrs(g, x, lev).len() ==> pair(x, id) < pair(x, #[trigger] nbrs(g, x, lev)[k]),
    ensures
        nbrs(h, x, lev).contains(id),
{
    assert(made_room(nbrs(g, x, lev), nbrs(h, x, lev), x, id, room, pair));
    law_nearer_gets_in(nbrs(g, x, lev), nbrs(h, x, lev), x, id, room, pair);
}

/// What is found on each level that a node joins.
spec fn found_of(
    g: Graph,
    id: u32,
    lev: nat,
    m: nat,
    ef: nat,
    eps: Seq<u32>,
    key: spec_fn(u32) -> u32,
    pair: spec_fn(u32, u32) -> u32,
) -> Seq<Seq<u32>>
    decreases lev,
{
    let b = layer(g, lev, key, eps, ef).best;
    if lev == 0 {
        seq![ids(b)]
    } else {
        found_of(
            connect(g, b, id, lev, m, pair),
            id,
            (lev - 1) as nat,
            m,
            ef,
            ids(b),
            key,
            pair,
        ).push(ids(b))
    }
}

/// Where a search ends depends on one level alone.
proof fn lemma_ends_same(
    g: Graph,
    h: Graph,
    lev: nat,
    key: spec_fn(u32) -> u32,
    from: Seq<u32>,
    width: nat,
    s: Seq<u32>,
)
    requires
        ends_at(g, lev, key, from, width, s),
        same_shape(g, h),
        forall|x: u32| #[trigger] nbrs(h, x, lev) == nbrs(g, x, lev),
    ensures
        ends_at(h, lev, key, from, width, s),
{
    assert forall|y: u32| connected(g, lev, from, y) == connected(h, lev, from, y) by {
        if connected(g, lev, from, y) {
            let n = choose|n: nat| reachable(g, lev, from, y, n);
            lemma_reachable_same(g, h, lev, from, y, n);
        }
        if connected(h, lev, from, y) {
            let n = choose|n: nat| reachable(h, lev, from, y, n);
            lemma_reachable_same(h, g, lev, from, y, n);
        }
    }
    assert forall|i: int| 0 <= i < s.len() implies #[trigger] s[i] < h.len() && lev
        < h[s[i] as int].len() && connected(h, lev, from, s[i]) by {
        assert(h[s[i] as int].len() == g[s[i] as int].len());
    }
    assert forall|i: int, k: int| 0 <= i < s.len() && 0 <= k < nbrs(h, s[i], lev).len() implies
        listed_or_no_nearer(key, width, s, #[trigger] nbrs(h, s[i], lev)[k]) by {
        assert(listed_or_no_nearer(key, width, s, nbrs(g, s[i], lev)[k]));
    }
}

proof fn lemma_reachable_same(g: Graph, h: Graph, lev: nat, from: Seq<u32>, y: u32, n: nat)
    requires
        reachable(g, lev, from, y, n),
        forall|x: u32| #[trigger] nbrs(h, x, lev) == nbrs(g, x, lev),
    ensures
        reachable(h, lev, from, y, n),
    decreases n,
{
    if n > 0 {
        let x = choose|x: u32|
            reachable(g, lev, from, x, (n - 1) as nat) && (#[trigger] nbrs(g, x, lev)).contains(y);
        lemma_reachable_same(g, h, lev, from, x, (n - 1) as nat);
        assert(nbrs(h, x, lev).contains(y));
    }
}

/// What wiring on one level does to the lists of that level.
proof fn lemma_wired(
    g: Graph,
    found: Seq<Cand>,
    id: u32,
    lev: nat,
    m: nat,
    key: spec_fn(u32) -> u32,
    pair: spec_fn(u32, u32) -> u32,
)
    requires
        sound(g, m),
        absent(g, id, lev),
        id < g.len(),
        lev < g[id as int].len(),
        found.no_duplicates(),
        forall|c: Cand| #[trigger]
            found.contains(c) ==> c == cand_of(key, c.id) && c.id < g.len() && c.id != id && lev
                < g[c.id as int].len(),
    ensures
        wired(g, connect(g, found, id, lev, m, pair), id, lev, cap(m, lev), ids(found), key, pair),
{
    let h = connect(g, found, id, lev, m, pair);
    let room = cap(m, lev);
    let to = chosen(found, room, pair);
    lemma_connect(g, found, id, lev, m, key, pair);
    law_choice_is_spread_out(found, room, pair, key);
    let set = Set::new(|y: u32| ids(found).contains(y));
    assert forall|y: u32| #[trigger] among(found, key).contains(y) <==> set.contains(y) by {
        let c = Cand { d: key(y), id: y };
        if found.contains(c) {
            let i = choose|i: int| 0 <= i < found.len() && found[i] == c;
            assert(ids(found)[i] == y);
        }
        if ids(found).contains(y) {
            let i = choose|i: int| 0 <= i < found.len() && ids(found)[i] == y;
            assert(found.contains(found[i]));
            assert(found[i] == c);
        }
    }
    assert(among(found, key) =~= set);
    assert(nbrs(h, id, lev) == to);
    assert forall|x: u32| x != id && nbrs(h, id, lev).contains(x) implies made_room(
        nbrs(g, x, lev),
        #[trigger] nbrs(h, x, lev),
        x,
        id,
        room,
        pair,
    ) by {
        let j = choose|j: int| 0 <= j < to.len() && to[j] == x;
        assert(to[j] < g.len());
        let cur = nbrs(g, x, lev);
        assert(good_list(g, m, x, lev, cur));
        if cur.contains(id) {
            let k = choose|k: int| 0 <= k < cur.len() && cur[k] == id;
            assert(nbrs(g, x, lev)[k] != id);
        }
        law_backlink_makes_room(cur, x, id, room, pair);
    }
}

proof fn lemma_joins(
    g: Graph,
    id: u32,
    lev: nat,
    m: nat,
    ef: nat,
    eps: Seq<u32>,
    key: spec_fn(u32) -> u32,
    pair: spec_fn(u32, u32) -> u32,
)
    requires
        sound(g, m),
        absent(g, id, lev),
        id < g.len(),
        lev < g[id as int].len(),
        forall|i: int|
            0 <= i < eps.len() ==> #[trigger] eps[i] < g.len() && eps[i] != id && lev
                < g[eps[i] as int].len(),
    ensures
        joins(
            g,
            join(g, id, lev, m, ef, eps, key, pair),
            id,
            lev,
            m,
            ef,
            eps,
            key,
            pair,
            found_of(g, id, lev, m, ef, eps, key, pair),
        ),
    decreases lev,
{
    let b = layer(g, lev, key, eps, ef);
    let best = b.best;
    let p = connect(g, best, id, lev, m, pair);
    let h = join(g, id, lev, m, ef, eps, key, pair);
    let found = found_of(g, id, lev, m, ef, eps, key, pair);
    lemma_layer_tall(g, m, lev, key, eps, ef);
    lemma_layer_absent(g, m, lev, key, eps, ef, id);
    law_layer_ends(g, m, lev, key, eps, ef);
    assert forall|c: Cand| #[trigger] best.contains(c) implies c == cand_of(key, c.id) && c.id
        < g.len() && c.id != id && lev < g[c.id as int].len() by {
        let i = choose|i: int| 0 <= i < best.len() && best[i] == c;
        assert(b.best[i].id != id);
    }
    lemma_connect(g, best, id, lev, m, key, pair);
    lemma_wired(g, best, id, lev, m, key, pair);
    if lev > 0 {
        let next = ids(best);
        let rest = found_of(p, id, (lev - 1) as nat, m, ef, next, key, pair);
        lemma_connect_absent(g, p, id, lev);
        assert forall|i: int| 0 <= i < next.len() implies #[trigger] next[i] < p.len() && next[i]
            != id && lev - 1 < p[next[i] as int].len() by {
            assert(best.contains(best[i]));
            assert(p[next[i] as int].len() == g[next[i] as int].len());
        }
        assert(p[id as int].len() == g[id as int].len());
        lemma_joins(p, id, (lev - 1) as nat, m, ef, next, key, pair);
        assert(found =~= rest.push(next));
        assert(found[lev as int] == next);
        assert(same_shape(p, g)) by {
            assert forall|i: int| 0 <= i < p.len() implies (#[trigger] g[i]).len() == p[i].len() by {
                assert(p[i].len() == g[i].len());
            }
        }
        assert forall|l: nat| l < lev implies ends_at(
            g,
            l,
            key,
            found[l as int + 1],
            ef,
            #[trigger] found[l as int],
        ) by {
            assert(found[l as int] == rest[l as int]);
            let from = if l == lev - 1 {
                next
            } else {
                rest[l as int + 1]
            };
            assert(found[l as int + 1] == from);
            assert(ends_at(p, l, key, from, ef, rest[l as int]));
            lemma_ends_same(p, g, l, key, from, ef, rest[l as int]);
        }
        assert forall|l: nat| l <= lev implies wired(
            g,
            h,
            id,
            l,
            if l == 0 {
                2 * m
            } else {
                m
            },
            #[trigger] found[l as int],
            key,
            pair,
        ) by {
            if l < lev {
                assert(found[l as int] == rest[l as int]);
                assert(wired(p, h, id, l, cap(m, l), rest[l as int], key, pair));
                assert(forall|x: u32| #[trigger] nbrs(p, x, l) == nbrs(g, x, l));
            } else {
                assert(forall|x: u32| #[trigger] nbrs(h, x, l) == nbrs(p, x, l));
            }
        }
    }
}

/// How many distances joining takes: on each level as many as its search, so at least one
/// for each level, and at most one for each node and level.
pub proof fn law_join_calls(
    g: Graph,
    id: u32,
    lev: nat,
    m: nat,
    ef: nat,
    eps: Seq<u32>,
    key: spec_fn(u32) -> u32,
    pair: spec_fn(u32, u32) -> u32,
)
    requires
        sound(g, m),
        absent(g, id, lev),
        id < g.len(),
        lev < g[id as int].len(),
        forall|i: int|
            0 <= i < eps.len() ==> #[trigger] eps[i] < g.len() && eps[i] != id && lev
                < g[eps[i] as int].len(),
    ensures
        join_calls(g, id, lev, m, ef, eps, key, pair) <= (lev + 1) * g.len(),
        ef > 0 && eps.len() > 0 ==> join_calls(g, id, lev, m, ef, eps, key, pair) > lev,
        lev == 0 ==> join_calls(g, id, lev, m, ef, eps, key, pair) == layer(
            g,
            0,
            key,
            eps,
            ef,
        ).visited.len(),
        lev > 0 ==> join_calls(g, id, lev, m, ef, eps, key, pair) == layer(
            g,
            lev,
            key,
            eps,
            ef,
        ).visited.len() + join_calls(
            connect(g, layer(g, lev, key, eps, ef).best, id, lev, m, pair),
            id,
            (lev - 1) as nat,
            m,
            ef,
            ids(layer(g, lev, key, eps, ef).best),
            key,
            pair,
        ),
    decreases lev,
{
    let b = layer(g, lev, key, eps, ef);
    let best = b.best;
    let p = connect(g, best, id, lev, m, pair);
    lemma_layer_tall(g, m, lev, key, eps, ef);
    lemma_layer_absent(g, m, lev, key, eps, ef, id);
    law_layer_calls(g, m, lev, key, eps, ef);
    assert forall|c: Cand| #[trigger] best.contains(c) implies c == cand_of(key, c.id) && c.id
        < g.len() && c.id != id && lev < g[c.id as int].len() by {
        let i = choose|i: int| 0 <= i < best.len() && best[i] == c;
        assert(b.best[i].id != id);
    }
    lemma_connect(g, best, id, lev, m, key, pair);
    assert((lev + 1) * g.len() == lev * g.len() + g.len()) by (nonlinear_arith);
    if lev > 0 {
        let next = ids(best);
        lemma_connect_absent(g, p, id, lev);
        assert forall|i: int| 0 <= i < next.len() implies #[trigger] next[i] < p.len() && next[i]
            != id && lev - 1 < p[next[i] as int].len() by {
            assert(best.contains(best[i]));
            assert(p[next[i] as int].len() == g[next[i] as int].len());
        }
        assert(p[id as int].len() == g[id as int].len());
        law_join_calls(p, id, (lev - 1) as nat, m, ef, next, key, pair);
    } else {
        assert(0 * g.len() == 0) by (nonlinear_arith);
    }
}

/// An insertion takes at least one distance for each level below and with the highest, and
/// at most one for each node and level.
pub proof fn law_insert_calls<T, D: Fn(&[T], &[T]) -> u32, L: Fn(u64) -> usize>(
    ix: Index<T>,
    dist: D,
    level: L,
    v: Seq<T>,
)
    requires
        valid(ix),
        v.len() == ix.dim,
        ix.graph.len() < u32::MAX,
    ensures
        ix.graph.len() == 0 ==> insert_calls(ix, dist, level, v) == 0,
        ix.graph.len() > 0 ==> ({
            let l = level_at(level, output(scramble(ix.rng)) >> 11);
            let g = ix.graph.push(bare(l));
            let key = from_query(dist, ix.data + v, ix.dim, v);
            let e = descend(g, key, ix.entry, ix.max_level, l);
            insert_calls(ix, dist, level, v) == descend_calls(g, key, ix.entry, ix.max_level, l)
                + join_calls(
                g,
                ix.graph.len() as u32,
                if l <= ix.max_level {
                    l
                } else {
                    ix.max_level
                },
                ix.m,
                ix.ef_construction,
                seq![e],
                key,
                pairs(dist, ix.data + v, ix.dim),
            )
        }),
        insert_calls(ix, dist, level, v) <= (2 * ix.max_level + 1) * (ix.graph.len() + 1),
        ix.graph.len() > 0 && ix.ef_construction > 0 ==> insert_calls(ix, dist, level, v)
            > ix.max_level,
{
    let l = level_at(level, output(scramble(ix.rng)) >> 11);
    let n = ix.graph.len();
    let id = n as u32;
    let g = ix.graph.push(bare(l));
    let data = ix.data + v;
    if n > 0 {
        let key = from_query(dist, data, ix.dim, v);
        let pair = pairs(dist, data, ix.dim);
        let top = ix.max_level;
        let e = descend(g, key, ix.entry, top, l);
        let low = if l <= top {
            l
        } else {
            top
        };
        lemma_grown(ix.graph, ix.m, l);
        assert(g[ix.entry as int] == ix.graph[ix.entry as int]);
        lemma_descend(g, ix.m, key, ix.entry, top, l);
        assert(absent(g, id, top));
        assert(absent(g, id, low));
        lemma_descend_absent(g, ix.m, key, ix.entry, top, l, id);
        law_join_calls(g, id, low, ix.m, ix.ef_construction, seq![e], key, pair);
        lemma_descend_calls(g, ix.m, key, ix.entry, top, l);
        assert((2 * top + 1) * g.len() == top * g.len() + (top + 1) * g.len()) by (nonlinear_arith);
        assert((low + 1) * g.len() <= (top + 1) * g.len()) by (nonlinear_arith)
            requires
                low <= top,
        ;
    } else {
        assert((2 * ix.max_level + 1) * (n + 1) >= 0) by (nonlinear_arith);
    }
}

proof fn lemma_descend_calls(
    g: Graph,
    m: nat,
    key: spec_fn(u32) -> u32,
    e: u32,
    top: nat,
    bottom: nat,
)
    requires
        sound(g, m),
        e < g.len(),
        top < g[e as int].len(),
    ensures
        top > bottom ==> descend_calls(g, key, e, top, bottom) >= top - bottom,
    decreases top,
{
    if top > bottom {
        let from = seq![e];
        lemma_layer_tall(g, m, top, key, from, 1);
        law_layer_calls(g, m, top, key, from, 1);
        let e2 = layer(g, top, key, from, 1).best[0].id;
        lemma_descend_calls(g, m, key, e2, (top - 1) as nat, bottom);
    }
}

/// An insertion takes the vector in: whom the new node is linked to, on which levels,
/// what becomes of the lists of these, and that no other list changes.
pub proof fn law_insert_takes_in<T, D: Fn(&[T], &[T]) -> u32, L: Fn(u64) -> usize>(
    ix: Index<T>,
    dist: D,
    level: L,
    v: Seq<T>,
)
    requires
        valid(ix),
        v.len() == ix.dim,
        ix.graph.len() < u32::MAX,
    ensures
        takes_in(
            ix,
            inserted(ix, dist, level, v),
            v,
            level_at(level, output(scramble(ix.rng)) >> 11),
            from_query(dist, ix.data + v, ix.dim, v),
            pairs(dist, ix.data + v, ix.dim),
        ),
{
    let r = inserted(ix, dist, level, v);
    let l = level_at(level, output(scramble(ix.rng)) >> 11);
    let n = ix.graph.len();
    let id = n as u32;
    let g = ix.graph.push(bare(l));
    let data = ix.data + v;
    law_insert(ix, dist, level, v);
    assert(one_more(ix.graph, g, l));
    if n > 0 {
        let key = from_query(dist, data, ix.dim, v);
        let pair = pairs(dist, data, ix.dim);
        let top = ix.max_level;
        let e = descend(g, key, ix.entry, top, l);
        let low = if l <= top {
            l
        } else {
            top
        };
        lemma_grown(ix.graph, ix.m, l);
        assert(g[ix.entry as int] == ix.graph[ix.entry as int]);
        lemma_descend(g, ix.m, key, ix.entry, top, l);
        assert(absent(g, id, top));
        assert(absent(g, id, low));
        lemma_descend_absent(g, ix.m, key, ix.entry, top, l, id);
        lemma_steps(g, ix.m, key, ix.entry, top, l);
        lemma_joins(g, id, low, ix.m, ix.ef_construction, seq![e], key, pair);
        assert(finds_place(
            g,
            r.graph,
            id,
            ix.entry,
            top,
            l,
            low,
            ix.m,
            ix.ef_construction,
            key,
            pair,
        )) by {
            let steps = steps_of(g, key, ix.entry, top, l);
            let found = found_of(g, id, low, ix.m, ix.ef_construction, seq![e], key, pair);
            assert(walks_down(g, key, top, l, steps));
            assert(joins(
                g,
                r.graph,
                id,
                low,
                ix.m,
                ix.ef_construction,
                seq![steps.last()],
                key,
                pair,
                found,
            ));
        }
    }
}

} // verus!
