//! A build during which each insertion is left alone.

use vstd::prelude::*;

use crate::beam::{cand_of, layer, nbrs, Graph};
use crate::cand::{ids, Cand};
use crate::graph::{
    backlink, bare, cap, connect, descend, good_list, join, lemma_connect,
    lemma_connect_absent, lemma_descend, lemma_descend_absent, lemma_layer_absent,
    lemma_layer_tall, same_shape, sound,
};
use crate::growth::{lemma_backlink_from, lemma_join};
use crate::guard::Deed;
use crate::replay::{
    alone, awaits, fresh, law_quiet_insertion, lemma_parts, lower, quiet, replay,
};
use crate::select::chosen;
use crate::store::{is_top, raised, Plan};
use crate::trace::Stage;

verus! {

/// Wiring `id` to nodes other than `y` leaves `y` as fresh as it was.
proof fn lemma_connect_avoids(
    g: Graph,
    found: Seq<Cand>,
    id: u32,
    lev: nat,
    m: nat,
    key: spec_fn(u32) -> u32,
    pair: spec_fn(u32, u32) -> u32,
    y: u32,
    far: nat,
)
    requires
        sound(g, m),
        fresh(g, id, lev),
        id < g.len(),
        lev < g[id as int].len(),
        found.no_duplicates(),
        forall|c: Cand| #[trigger]
            found.contains(c) ==> c == cand_of(key, c.id) && c.id < g.len() && c.id != id && lev
                < g[c.id as int].len() && c.id != y,
        y != id,
        fresh(g, y, far),
    ensures
        fresh(connect(g, found, id, lev, m, pair), y, far),
{
    lemma_connect(g, found, id, lev, m, key, pair);
    let h = connect(g, found, id, lev, m, pair);
    let to = chosen(found, cap(m, lev), pair);
    assert(!to.contains(y)) by {
        if to.contains(y) {
            let k = choose|k: int| 0 <= k < to.len() && to[k] == y;
            assert(found.contains(cand_of(key, to[k])));
        }
    }
    assert forall|x: u32, l: nat, k: int| l <= far && 0 <= k < nbrs(h, x, l).len() implies
        #[trigger] nbrs(h, x, l)[k] != y by {
        if l == lev && x == id {
            assert(to.contains(to[k]));
        } else if l == lev && to.contains(x) {
            let cur = nbrs(g, x, lev);
            let j = choose|j: int| 0 <= j < to.len() && to[j] == x;
            assert(to[j] < g.len() && lev < g[to[j] as int].len());
            assert(good_list(g, m, x, lev, cur));
            assert(!cur.contains(id)) by {
                if cur.contains(id) {
                    let i = choose|i: int| 0 <= i < cur.len() && cur[i] == id;
                    assert(nbrs(g, x, lev)[i] != id);
                }
            }
            lemma_backlink_from(cur, x, id, cap(m, lev), pair);
            let z = backlink(cur, x, id, cap(m, lev), pair)[k];
            assert(z == id || cur.contains(z));
            if cur.contains(z) {
                let i = choose|i: int| 0 <= i < cur.len() && cur[i] == z;
                assert(nbrs(g, x, lev)[i] != y);
            }
        } else {
            assert(nbrs(g, x, l)[k] != y);
        }
    }
    assert forall|l: nat| l <= far implies (#[trigger] nbrs(h, y, l)).len() == 0 by {
        assert(nbrs(g, y, l).len() == 0);
    }
}

/// The same of all levels from `lev` down, and what else joining them does.
proof fn lemma_join_avoids(
    g: Graph,
    id: u32,
    lev: nat,
    m: nat,
    ef: nat,
    eps: Seq<u32>,
    key: spec_fn(u32) -> u32,
    pair: spec_fn(u32, u32) -> u32,
    y: u32,
    far: nat,
)
    requires
        sound(g, m),
        fresh(g, id, lev),
        id < g.len(),
        lev < g[id as int].len(),
        lev <= far,
        forall|i: int|
            0 <= i < eps.len() ==> #[trigger] eps[i] < g.len() && eps[i] != id && eps[i] != y && lev
                < g[eps[i] as int].len(),
        y != id,
        fresh(g, y, far),
    ensures
        ({
            let h = join(g, id, lev, m, ef, eps, key, pair);
            &&& sound(h, m)
            &&& same_shape(g, h)
            &&& fresh(h, y, far)
        }),
    decreases lev,
{
    let b = layer(g, lev, key, eps, ef);
    let found = b.best;
    let p = connect(g, found, id, lev, m, pair);
    lemma_layer_tall(g, m, lev, key, eps, ef);
    lemma_layer_absent(g, m, lev, key, eps, ef, id);
    lemma_layer_absent(g, m, lev, key, eps, ef, y);
    assert forall|c: Cand| #[trigger] found.contains(c) implies c == cand_of(key, c.id) && c.id
        < g.len() && c.id != id && lev < g[c.id as int].len() && c.id != y by {
        let i = choose|i: int| 0 <= i < found.len() && found[i] == c;
        assert(b.best[i].id != id && b.best[i].id != y);
    }
    lemma_connect(g, found, id, lev, m, key, pair);
    lemma_connect_avoids(g, found, id, lev, m, key, pair, y, far);
    if lev > 0 {
        let next = ids(found);
        let h = join(g, id, lev, m, ef, eps, key, pair);
        lemma_connect_absent(g, p, id, lev);
        assert forall|l: nat| l <= lev - 1 implies (#[trigger] nbrs(p, id, l)).len() == 0 by {
            assert(nbrs(g, id, l).len() == 0);
        }
        assert forall|i: int| 0 <= i < next.len() implies #[trigger] next[i] < p.len() && next[i]
            != id && next[i] != y && lev - 1 < p[next[i] as int].len() by {
            assert(found.contains(found[i]));
            assert(p[next[i] as int].len() == g[next[i] as int].len());
        }
        assert(p[id as int].len() == g[id as int].len());
        lemma_join_avoids(p, id, (lev - 1) as nat, m, ef, next, key, pair, y, far);
        assert forall|i: int| 0 <= i < g.len() implies (#[trigger] h[i]).len() == g[i].len() by {
            assert(p[i].len() == g[i].len());
        }
    }
}

/// The graph and the entry once the nodes 1 to `k` have joined, one after the other.
pub open spec fn joined_up<'a, T, D: Fn(&[T], &[T]) -> u32>(plan: Plan<'a, T, D>, k: nat) -> (
    Graph,
    (u32, u8),
)
    decreases k,
{
    if k == 0 {
        (plan.shape(), (0, plan.levels@[0]))
    } else {
        let p = joined_up(plan, (k - 1) as nat);
        let id = k as u32;
        (alone(plan, p.0, p.1, id), raised(p.1, id, plan.levels@[k as int]))
    }
}

/// No node reaches above this level.
pub open spec fn sky() -> nat {
    0xFF
}

/// What holds after the nodes 1 to `k` have joined: the graph is sound, the entry is one
/// of the nodes that have joined, and the others are as they were.
proof fn lemma_joined_up<'a, T, D: Fn(&[T], &[T]) -> u32>(plan: Plan<'a, T, D>, k: nat)
    requires
        plan.wf(),
        k < plan.levels@.len(),
    ensures
        ({
            let p = joined_up(plan, k);
            &&& sound(p.0, plan.m as nat)
            &&& same_shape(plan.shape(), p.0)
            &&& is_top(plan.shape(), p.1)
            &&& p.1.0 <= k
            &&& forall|y: u32| k < y < plan.levels@.len() ==> #[trigger] fresh(p.0, y, sky())
        }),
    decreases k,
{
    let g = plan.shape();
    if k == 0 {
        assert forall|x: u32, lev: nat| (#[trigger] nbrs(g, x, lev)).len() == 0 by {
            if x < g.len() && lev < g[x as int].len() {
                assert(g[x as int] == bare(plan.levels@[x as int] as nat));
            }
        }
    } else {
        lemma_joined_up(plan, (k - 1) as nat);
        let p = joined_up(plan, (k - 1) as nat);
        let r = joined_up(plan, k);
        let id = k as u32;
        let l = plan.levels@[k as int] as nat;
        let h = p.1.1 as nat;
        let low = lower(l, h);
        let key = plan.keys(id);
        let m = plan.m as nat;
        let pair = plan.corpus.pairs();
        let e = descend(p.0, key, p.1.0, h, l);
        assert(fresh(p.0, id, sky()));
        assert(p.0[p.1.0 as int].len() == g[p.1.0 as int].len());
        assert(p.0[id as int].len() == g[id as int].len());
        lemma_descend(p.0, m, key, p.1.0, h, l);
        lemma_descend_absent(p.0, m, key, p.1.0, h, l, id);
        assert(fresh(p.0, id, low));
        assert forall|y: u32| k < y < plan.levels@.len() implies {
            &&& sound(r.0, m)
            &&& same_shape(p.0, r.0)
            &&& #[trigger] fresh(r.0, y, sky())
        } by {
            assert(fresh(p.0, y, sky()));
            lemma_descend_absent(p.0, m, key, p.1.0, h, l, y);
            lemma_join_avoids(
                p.0,
                id,
                low,
                m,
                plan.ef_construction as nat,
                seq![e],
                key,
                pair,
                y,
                sky(),
            );
        }
        lemma_join(
            p.0,
            id,
            low,
            m,
            plan.ef_construction as nat,
            seq![e],
            key,
            pair,
        );
        assert forall|i: int| 0 <= i < g.len() implies (#[trigger] r.0[i]).len() == g[i].len() by {
            assert(p.0[i].len() == g[i].len());
        }
    }
}

/// What was done in some insertions, one after the other.
pub open spec fn all_deeds(runs: Seq<(Seq<Stage>, Seq<Deed>)>) -> Seq<Deed>
    decreases runs.len(),
{
    if runs.len() == 0 {
        Seq::empty()
    } else {
        all_deeds(runs.drop_last()) + runs.last().1
    }
}

/// Insertions of the nodes 1, 2 and so on, each from the entry that those before it have
/// left.
pub open spec fn in_turn<'a, T, D: Fn(&[T], &[T]) -> u32>(
    plan: Plan<'a, T, D>,
    runs: Seq<(Seq<Stage>, Seq<Deed>)>,
) -> bool {
    forall|i: int|
        0 <= i < runs.len() ==> plan.tells(
            joined_up(plan, i as nat).1,
            (#[trigger] runs[i]).0,
            runs[i].1,
            (i + 1) as u32,
        )
}

/// Where the nodes join one after the other, and no two threads are ever at work at one
/// time, the lists come out as those of insertions on one thread.
pub proof fn law_quiet_build<'a, T, D: Fn(&[T], &[T]) -> u32>(
    plan: Plan<'a, T, D>,
    runs: Seq<(Seq<Stage>, Seq<Deed>)>,
)
    requires
        plan.wf(),
        plan.ef_construction >= 1,
        runs.len() < plan.levels@.len(),
        in_turn(plan, runs),
        quiet(plan.shape(), all_deeds(runs)),
    ensures
        replay(plan.shape(), all_deeds(runs)) == joined_up(plan, runs.len()).0,
    decreases runs.len(),
{
    if runs.len() > 0 {
        let t = runs.drop_last();
        let (stages, deeds) = runs.last();
        let id = runs.len() as u32;
        lemma_parts(plan.shape(), all_deeds(t), deeds);
        assert forall|i: int| 0 <= i < t.len() implies plan.tells(
            joined_up(plan, i as nat).1,
            (#[trigger] t[i]).0,
            t[i].1,
            (i + 1) as u32,
        ) by {
            assert(t[i] == runs[i]);
        }
        law_quiet_build(plan, t);
        lemma_joined_up(plan, t.len());
        let p = joined_up(plan, t.len());
        assert(runs[t.len() as int] == runs.last());
        assert(fresh(p.0, id, sky()));
        assert(awaits(plan, p.0, p.1, id));
        law_quiet_insertion(plan, p.0, p.1, stages, deeds, id);
    }
}

} // verus!
