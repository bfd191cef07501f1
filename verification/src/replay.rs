//! What an insertion comes to when no other thread is at work: the graph that it
//! leaves behind is that of an insertion on one thread.

use vstd::prelude::*;

use crate::beam::{cand_of, coherent, layer, nbrs, start, stops, Beam, Graph};
use crate::cand::{ids, Cand};
use crate::graph::{
    absent, cap, connect, descend, descend_calls, join, join_calls, lemma_connect,
    lemma_connect_absent, lemma_layer_absent, lemma_layer_tall, lemma_link_back, lemma_set_list,
    lemma_sound_edges, link_back, same_shape, set_list, sound,
};
use crate::guard::Deed;
use crate::links::NONE;
use crate::select::chosen;
use crate::store::{joined, published, Plan};
use crate::trace::{
    agrees, flat, follow, known, law_quiet_search, lemma_outset, lemma_skipping, outset, skipping,
    Stage,
};

verus! {

/// The graph once a deed is done to `g`.
pub open spec fn done(g: Graph, d: Deed) -> Graph {
    match d {
        Deed::Put { id, lev, list, .. } => set_list(g, id, lev, list),
        _ => g,
    }
}

/// What a deed reads or replaces is what stands in `g`.
pub open spec fn heeds(g: Graph, d: Deed) -> bool {
    match d {
        Deed::Read { id, lev, list } => list == nbrs(g, id, lev),
        Deed::Put { id, lev, cur, .. } => cur == nbrs(g, id, lev),
        _ => true,
    }
}

/// The graph once some deeds are done to `g`.
pub open spec fn replay(g: Graph, deeds: Seq<Deed>) -> Graph
    decreases deeds.len(),
{
    if deeds.len() == 0 {
        g
    } else {
        done(replay(g, deeds.drop_last()), deeds.last())
    }
}

/// No other thread is at work while the deeds are done to `g`: each reads and
/// replaces what those before it have left.
pub open spec fn quiet(g: Graph, deeds: Seq<Deed>) -> bool
    decreases deeds.len(),
{
    deeds.len() > 0 ==> quiet(g, deeds.drop_last()) && heeds(
        replay(g, deeds.drop_last()),
        deeds.last(),
    )
}

/// Deeds in two parts.
pub proof fn lemma_parts(g: Graph, a: Seq<Deed>, b: Seq<Deed>)
    ensures
        replay(g, a + b) == replay(replay(g, a), b),
        quiet(g, a + b) <==> quiet(g, a) && quiet(replay(g, a), b),
    decreases b.len(),
{
    if b.len() == 0 {
        assert(a + b =~= a);
    } else {
        assert((a + b).drop_last() =~= a + b.drop_last());
        assert((a + b).last() == b.last());
        lemma_parts(g, a, b.drop_last());
    }
}

/// A search changes nothing, and where no other thread is at work it reads one
/// graph.
proof fn lemma_reads<'a, T, D: Fn(&[T], &[T]) -> u32>(
    plan: Plan<'a, T, D>,
    g: Graph,
    b: Beam,
    reads: Seq<Deed>,
    key: spec_fn(u32) -> u32,
    ef: nat,
    lev: nat,
    id: u32,
)
    requires
        plan.reads_right(b, reads, key, ef, lev, id),
        quiet(g, reads),
        forall|x: u32, k: int|
            0 <= k < nbrs(g, x, lev).len() ==> #[trigger] nbrs(g, x, lev)[k] != id,
    ensures
        replay(g, reads) == g,
        agrees(g, reads, lev, id),
    decreases reads.len(),
{
    if reads.len() > 0 {
        let t = reads.drop_last();
        lemma_reads(plan, g, b, t, key, ef, lev, id);
        if let Deed::Read { id: x, list, .. } = reads.last() {
            lemma_skipping(list, id);
            if list.contains(id) {
                let k = choose|k: int| 0 <= k < list.len() && list[k] == id;
                assert(nbrs(g, x, lev)[k] != id);
            }
        }
        assert forall|i: int| 0 <= i < reads.len() implies match #[trigger] reads[i] {
            Deed::Read { id: x, list, .. } => skipping(list, id) == nbrs(g, x, lev),
            _ => true,
        } by {
            if i < t.len() {
                assert(t[i] == reads[i]);
            }
        }
    }
}

/// A search of a level, by any distances, during which no other thread is at work is the
/// search of that level of the graph on one thread, from the same nodes, and changes
/// nothing. `id` is a node that stands on no list of the level, or no node at all.
pub proof fn law_quiet_search_is_sequential<'a, T, D: Fn(&[T], &[T]) -> u32>(
    plan: Plan<'a, T, D>,
    g: Graph,
    eps: Seq<u32>,
    reads: Seq<Deed>,
    key: spec_fn(u32) -> u32,
    ef: nat,
    lev: nat,
    id: u32,
)
    requires
        plan.searches(eps, reads, key, ef, lev, id),
        quiet(g, reads),
        sound(g, plan.m as nat),
        g.len() <= u32::MAX,
        forall|x: u32, k: int|
            0 <= k < nbrs(g, x, lev).len() ==> #[trigger] nbrs(g, x, lev)[k] != id,
        forall|i: int|
            0 <= i < eps.len() ==> #[trigger] eps[i] == NONE || eps[i] < g.len() && eps[i] != id,
    ensures
        replay(g, reads) == g,
        known(eps, reads, key, ef, id) == layer(g, lev, key, skipping(eps, NONE), ef),
{
    lemma_sound_edges(g, plan.m as nat, lev);
    lemma_reads(plan, g, start(outset(eps, id), key, ef), reads, key, ef, lev, id);
    law_quiet_search(plan, g, eps, reads, key, ef, lev, id);
    lemma_skipping(eps, NONE);
    lemma_skipping(skipping(eps, NONE), id);
    if skipping(eps, NONE).contains(id) {
        assert(eps.contains(id));
        let i = choose|i: int| 0 <= i < eps.len() && eps[i] == id;
        assert(eps[i] == NONE || eps[i] != id);
    }
}

/// The back links of a wiring, so far as they go.
proof fn lemma_links<'a, T, D: Fn(&[T], &[T]) -> u32>(
    plan: Plan<'a, T, D>,
    g: Graph,
    to: Seq<u32>,
    links: Seq<Deed>,
    id: u32,
    lev: nat,
)
    requires
        sound(g, plan.m as nat),
        id < g.len(),
        lev < g[id as int].len(),
        to.no_duplicates(),
        forall|k: int|
            0 <= k < to.len() ==> #[trigger] to[k] < g.len() && to[k] != id && lev
                < g[to[k] as int].len() && !nbrs(g, to[k], lev).contains(id),
        links.len() == to.len(),
        forall|k: int| 0 <= k < to.len() ==> plan.links(#[trigger] links[k], to[k], id, lev),
        quiet(g, links),
    ensures
        replay(g, links) == link_back(g, to, id, lev, plan.m as nat, plan.corpus.pairs()),
    decreases to.len(),
{
    if to.len() > 0 {
        let t = to.drop_last();
        let ls = links.drop_last();
        let nb = to.last();
        let pair = plan.corpus.pairs();
        let m = plan.m as nat;
        assert forall|k: int| 0 <= k < t.len() implies #[trigger] t[k] < g.len() && t[k] != id && lev
            < g[t[k] as int].len() && !nbrs(g, t[k], lev).contains(id) by {
            assert(t[k] == to[k]);
        }
        assert forall|k: int| 0 <= k < t.len() implies plan.links(#[trigger] ls[k], t[k], id, lev) by {
            assert(ls[k] == links[k]);
            assert(t[k] == to[k]);
        }
        lemma_links(plan, g, t, ls, id, lev);
        lemma_link_back(g, t, id, lev, m, pair);
        let p = link_back(g, t, id, lev, m, pair);
        assert(to[to.len() - 1] == nb);
        assert(!t.contains(nb)) by {
            if t.contains(nb) {
                let i = choose|i: int| 0 <= i < t.len() && t[i] == nb;
                assert(to[i] == to[to.len() - 1]);
            }
        }
        assert(nbrs(p, nb, lev) == nbrs(g, nb, lev));
        assert(plan.links(links[links.len() - 1], nb, id, lev));
    }
}

/// A wiring where no other thread is at work.
proof fn lemma_wires<'a, T, D: Fn(&[T], &[T]) -> u32>(
    plan: Plan<'a, T, D>,
    g: Graph,
    found: Seq<Cand>,
    writes: Seq<Deed>,
    id: u32,
    lev: nat,
)
    requires
        plan.wires(writes, id, lev, found),
        quiet(g, writes),
        sound(g, plan.m as nat),
        absent(g, id, lev),
        id < g.len(),
        lev < g[id as int].len(),
        nbrs(g, id, lev).len() == 0,
        found.no_duplicates(),
        forall|c: Cand| #[trigger]
            found.contains(c) ==> c == cand_of(plan.keys(id), c.id) && c.id < g.len() && c.id != id
                && lev < g[c.id as int].len(),
    ensures
        replay(g, writes) == connect(g, found, id, lev, plan.m as nat, plan.corpus.pairs()),
{
    let m = plan.m as nat;
    let pair = plan.corpus.pairs();
    let key = plan.keys(id);
    let room = cap(m, lev);
    let to = chosen(found, room, pair);
    lemma_connect(g, found, id, lev, m, key, pair);
    let shown = seq![writes[0]];
    let links = writes.skip(1);
    assert(writes =~= shown + links);
    lemma_parts(g, shown, links);
    let none = nbrs(g, id, lev);
    assert(shown.drop_last() =~= Seq::empty());
    assert(shown.last() == writes[0]);
    assert(quiet(g, shown));
    assert(none =~= Seq::empty());
    assert(joined(to, none) == to);
    assert(published(to, none, id, room, pair) == to);
    let s = set_list(g, id, lev, to);
    assert(replay(g, shown.drop_last()) == g);
    assert(replay(g, shown) == s);
    lemma_set_list(g, id, lev, to);
    assert(s[id as int].len() == g[id as int].len());
    assert forall|k: int| 0 <= k < to.len() implies #[trigger] to[k] < s.len() && to[k] != id && lev
        < s[to[k] as int].len() && !nbrs(s, to[k], lev).contains(id) by {
        assert(to[k] != id);
        assert(s[to[k] as int].len() == g[to[k] as int].len());
        let list = nbrs(g, to[k], lev);
        if list.contains(id) {
            let j = choose|j: int| 0 <= j < list.len() && list[j] == id;
            assert(nbrs(g, to[k], lev)[j] != id);
        }
    }
    assert forall|k: int| 0 <= k < to.len() implies plan.links(#[trigger] links[k], to[k], id, lev) by {
        assert(links[k] == writes[k + 1]);
    }
    lemma_links(plan, s, to, links, id, lev);
}

/// `id` has no neighbours on the levels up to `lev`, and is nobody's neighbour there.
pub open spec fn fresh(g: Graph, id: u32, lev: nat) -> bool {
    &&& absent(g, id, lev)
    &&& forall|l: nat| l <= lev ==> (#[trigger] nbrs(g, id, l)).len() == 0
}

/// The lower of two levels.
pub open spec fn lower(a: nat, b: nat) -> nat {
    if a <= b {
        a
    } else {
        b
    }
}

/// The graph that an insertion of `id` on one thread makes of `g`, from the entry
/// `top`.
pub open spec fn alone<'a, T, D: Fn(&[T], &[T]) -> u32>(
    plan: Plan<'a, T, D>,
    g: Graph,
    top: (u32, u8),
    id: u32,
) -> Graph {
    let l = plan.levels@[id as int] as nat;
    let h = top.1 as nat;
    join(
        g,
        id,
        lower(l, h),
        plan.m as nat,
        plan.ef_construction as nat,
        seq![descend(g, plan.keys(id), top.0, h, l)],
        plan.keys(id),
        plan.corpus.pairs(),
    )
}

/// How many distances that insertion takes.
pub open spec fn alone_calls<'a, T, D: Fn(&[T], &[T]) -> u32>(
    plan: Plan<'a, T, D>,
    g: Graph,
    top: (u32, u8),
    id: u32,
) -> nat {
    let l = plan.levels@[id as int] as nat;
    let h = top.1 as nat;
    descend_calls(g, plan.keys(id), top.0, h, l) + join_calls(
        g,
        id,
        lower(l, h),
        plan.m as nat,
        plan.ef_construction as nat,
        seq![descend(g, plan.keys(id), top.0, h, l)],
        plan.keys(id),
        plan.corpus.pairs(),
    )
}

/// A graph into which `id` may be inserted from the entry `top`.
pub open spec fn awaits<'a, T, D: Fn(&[T], &[T]) -> u32>(
    plan: Plan<'a, T, D>,
    g: Graph,
    top: (u32, u8),
    id: u32,
) -> bool {
    &&& sound(g, plan.m as nat)
    &&& same_shape(plan.shape(), g)
    &&& id < g.len() <= u32::MAX
    &&& top.0 != id
    &&& fresh(g, id, top.1 as nat)
}

/// The first `n` stages of an insertion have left the rest of an insertion on one
/// thread to do.
spec fn on_track<'a, T, D: Fn(&[T], &[T]) -> u32>(
    plan: Plan<'a, T, D>,
    g: Graph,
    top: (u32, u8),
    stages: Seq<Stage>,
    n: int,
    id: u32,
) -> bool {
    let l = plan.levels@[id as int] as nat;
    let lev = (top.1 - n) as nat;
    let key = plan.keys(id);
    let k = replay(g, flat(stages.take(n)));
    let eps = plan.before(stages, top.0, n, id);
    let spent = plan.spent(stages.take(n), id);
    if n == top.1 + 1 {
        k == alone(plan, g, top, id) && spent == alone_calls(plan, g, top, id)
    } else {
        &&& sound(k, plan.m as nat)
        &&& same_shape(g, k)
        &&& fresh(k, id, lev)
        &&& eps.len() > 0
        &&& forall|i: int|
            0 <= i < eps.len() ==> #[trigger] eps[i] < g.len() && lev < g[eps[i] as int].len()
                && eps[i] != id
        &&& if lev > l {
            &&& k == g
            &&& eps == seq![eps[0]]
            &&& descend(g, key, eps[0], lev, l) == descend(g, key, top.0, top.1 as nat, l)
            &&& spent + descend_calls(g, key, eps[0], lev, l) == descend_calls(
                g,
                key,
                top.0,
                top.1 as nat,
                l,
            )
        } else {
            let (m, ef) = (plan.m as nat, plan.ef_construction as nat);
            &&& join(k, id, lev, m, ef, eps, key, plan.corpus.pairs()) == alone(plan, g, top, id)
            &&& spent + join_calls(k, id, lev, m, ef, eps, key, plan.corpus.pairs())
                == alone_calls(plan, g, top, id)
        }
    }
}

/// What holds of all stages holds of the first of them.
pub proof fn lemma_first_stages(g: Graph, stages: Seq<Stage>, n: int)
    requires
        quiet(g, flat(stages)),
        0 <= n <= stages.len(),
    ensures
        quiet(g, flat(stages.take(n))),
    decreases stages.len(),
{
    if n < stages.len() {
        let t = stages.drop_last();
        let p = stages.last();
        lemma_parts(g, flat(t) + p.reads, p.writes);
        lemma_parts(g, flat(t), p.reads);
        lemma_first_stages(g, t, n);
        assert(t.take(n) =~= stages.take(n));
    } else {
        assert(stages.take(n) =~= stages);
    }
}

proof fn lemma_track<'a, T, D: Fn(&[T], &[T]) -> u32>(
    plan: Plan<'a, T, D>,
    g: Graph,
    top: (u32, u8),
    stages: Seq<Stage>,
    n: int,
    id: u32,
)
    requires
        plan.ef_construction >= 1,
        awaits(plan, g, top, id),
        top.0 < g.len(),
        top.1 < g[top.0 as int].len(),
        stages.len() == top.1 + 1,
        plan.descends(stages, top.0, top.1 as nat, id),
        quiet(g, flat(stages)),
        0 <= n <= top.1 + 1,
    ensures
        on_track(plan, g, top, stages, n, id),
    decreases n,
{
    let l = plan.levels@[id as int] as nat;
    if n == 0 {
        assert(stages.take(0) =~= Seq::empty());
        assert(replay(g, flat(stages.take(0))) == g);
    } else {
        lemma_track(plan, g, top, stages, n - 1, id);
        lemma_first_stages(g, stages, n);
        if top.1 - (n - 1) > l {
            lemma_above(plan, g, top, stages, n - 1, id);
        } else {
            lemma_below(plan, g, top, stages, n - 1, id);
        }
    }
}

/// What a stage finds where no other thread is at work.
proof fn lemma_finds<'a, T, D: Fn(&[T], &[T]) -> u32>(
    plan: Plan<'a, T, D>,
    k: Graph,
    p: Stage,
    id: u32,
)
    requires
        plan.ef_construction >= 1,
        plan.stage_right(p, id),
        k.len() <= u32::MAX,
        sound(k, plan.m as nat),
        fresh(k, id, p.lev),
        quiet(k, p.reads),
        p.eps.len() > 0,
        forall|i: int|
            0 <= i < p.eps.len() ==> #[trigger] p.eps[i] < k.len() && p.lev < k[p.eps[i] as int].len()
                && p.eps[i] != id,
    ensures
        replay(k, p.reads) == k,
        ({
            let key = plan.keys(id);
            let ef = plan.width(p.lev, plan.levels@[id as int] as nat);
            let b = layer(k, p.lev, key, p.eps, ef);
            &&& plan.finds(p, id) == b
            &&& coherent(b, key, ef)
            &&& b.best.len() > 0
            &&& forall|i: int|
                0 <= i < b.best.len() ==> (#[trigger] b.best[i]).id < k.len() && p.lev
                    < k[b.best[i].id as int].len() && b.best[i] == cand_of(key, b.best[i].id)
                    && b.best[i].id != id
        }),
{
    let key = plan.keys(id);
    let ef = plan.width(p.lev, plan.levels@[id as int] as nat);
    let eps = p.eps;
    let m = plan.m as nat;
    reveal(Plan::stage_right);
    reveal(Plan::searched);
    lemma_outset(eps, id);
    assert(!eps.contains(id) && !eps.contains(NONE)) by {
        if eps.contains(id) {
            let i = choose|i: int| 0 <= i < eps.len() && eps[i] == id;
            assert(eps[i] != id);
        }
        if eps.contains(NONE) {
            let i = choose|i: int| 0 <= i < eps.len() && eps[i] == NONE;
            assert(eps[i] < k.len());
        }
    }
    lemma_reads(plan, k, start(eps, key, ef), p.reads, key, ef, p.lev, id);
    lemma_sound_edges(k, m, p.lev);
    law_quiet_search(plan, k, eps, p.reads, key, ef, p.lev, id);
    lemma_layer_tall(k, m, p.lev, key, eps, ef);
    lemma_layer_absent(k, m, p.lev, key, eps, ef, id);
}

/// One stage more, above the level of `id`.
proof fn lemma_above<'a, T, D: Fn(&[T], &[T]) -> u32>(
    plan: Plan<'a, T, D>,
    g: Graph,
    top: (u32, u8),
    stages: Seq<Stage>,
    n: int,
    id: u32,
)
    requires
        plan.ef_construction >= 1,
        awaits(plan, g, top, id),
        stages.len() == top.1 + 1,
        plan.descends(stages, top.0, top.1 as nat, id),
        0 <= n <= top.1,
        top.1 - n > plan.levels@[id as int],
        quiet(g, flat(stages.take(n + 1))),
        on_track(plan, g, top, stages, n, id),
    ensures
        on_track(plan, g, top, stages, n + 1, id),
{
    reveal(Plan::stage_right);
    reveal(Plan::searched);
    let p = stages[n];
    let lev = p.lev;
    let key = plan.keys(id);
    assert(p.eps == plan.before(stages, top.0, n, id));
    assert(stages.take(n + 1).drop_last() =~= stages.take(n));
    assert(stages.take(n + 1).last() == p);
    lemma_parts(g, flat(stages.take(n)) + p.reads, p.writes);
    lemma_parts(g, flat(stages.take(n)), p.reads);
    lemma_finds(plan, g, p, id);
    let b = layer(g, lev, key, p.eps, 1);
    let x = b.best[0].id;
    assert(p.writes =~= Seq::empty());
    assert(replay(g, flat(stages.take(n + 1))) == g);
    let next = plan.before(stages, top.0, n + 1, id);
    assert(next == plan.after(p, id));
    assert(next == seq![x]);
    assert(next[0] == x);
    assert(p.eps == seq![p.eps[0]]);
    assert(fresh(g, id, (lev - 1) as nat));
    let l = plan.levels@[id as int] as nat;
    assert(descend(g, key, p.eps[0], lev, l) == descend(g, key, x, (lev - 1) as nat, l));
    if lev - 1 == l {
        assert(descend(g, key, x, l, l) == x);
        assert(descend_calls(g, key, x, l, l) == 0);
        assert(lower(l, top.1 as nat) == l);
    }
}

/// One stage more, on a level that `id` reaches.
proof fn lemma_below<'a, T, D: Fn(&[T], &[T]) -> u32>(
    plan: Plan<'a, T, D>,
    g: Graph,
    top: (u32, u8),
    stages: Seq<Stage>,
    n: int,
    id: u32,
)
    requires
        plan.ef_construction >= 1,
        awaits(plan, g, top, id),
        stages.len() == top.1 + 1,
        plan.descends(stages, top.0, top.1 as nat, id),
        0 <= n <= top.1,
        top.1 - n <= plan.levels@[id as int],
        quiet(g, flat(stages.take(n + 1))),
        on_track(plan, g, top, stages, n, id),
    ensures
        on_track(plan, g, top, stages, n + 1, id),
{
    let key = plan.keys(id);
    let pair = plan.corpus.pairs();
    let m = plan.m as nat;
    let ef = plan.ef_construction as nat;
    reveal(Plan::stage_right);
    reveal(Plan::searched);
    let p = stages[n];
    let lev = p.lev;
    let k = replay(g, flat(stages.take(n)));
    assert(p.eps == plan.before(stages, top.0, n, id));
    assert(stages.take(n + 1).drop_last() =~= stages.take(n));
    assert(stages.take(n + 1).last() == p);
    lemma_parts(g, flat(stages.take(n)) + p.reads, p.writes);
    lemma_parts(g, flat(stages.take(n)), p.reads);
    assert forall|i: int| 0 <= i < p.eps.len() implies #[trigger] p.eps[i] < k.len() && lev
        < k[p.eps[i] as int].len() && p.eps[i] != id by {
        assert(p.eps[i] < g.len());
    }
    lemma_finds(plan, k, p, id);
    let b = layer(k, lev, key, p.eps, ef);
    assert(g[id as int].len() == plan.shape()[id as int].len());
    assert(k[id as int].len() == g[id as int].len());
    assert forall|c: Cand| #[trigger] b.best.contains(c) implies c == cand_of(key, c.id) && c.id
        < k.len() && c.id != id && lev < k[c.id as int].len() by {
        let i = choose|i: int| 0 <= i < b.best.len() && b.best[i] == c;
        assert(b.best[i].id < k.len());
    }
    assert(nbrs(k, id, lev).len() == 0);
    lemma_wires(plan, k, b.best, p.writes, id, lev);
    lemma_connect(k, b.best, id, lev, m, key, pair);
    let h = connect(k, b.best, id, lev, m, pair);
    assert(replay(g, flat(stages.take(n + 1))) == h);
    let next = plan.before(stages, top.0, n + 1, id);
    assert(next == plan.after(p, id));
    assert(next == ids(b.best));
    if lev > 0 {
        lemma_connect_absent(k, h, id, lev);
        let lo = (lev - 1) as nat;
        assert forall|y: nat| y <= lo implies (#[trigger] nbrs(h, id, y)).len() == 0 by {
            assert(nbrs(k, id, y).len() == 0);
        }
        assert forall|i: int| 0 <= i < g.len() implies (#[trigger] h[i]).len() == g[i].len() by {
            assert(k[i].len() == g[i].len());
        }
        assert forall|i: int| 0 <= i < next.len() implies #[trigger] next[i] < g.len() && lo
            < g[next[i] as int].len() && next[i] != id by {
            assert(next[i] == b.best[i].id);
            assert(k[next[i] as int].len() == g[next[i] as int].len());
        }
    }
}

/// An insertion during which no other thread is at work makes of a graph what an
/// insertion on one thread makes of it, and takes as many distances.
pub proof fn law_quiet_insertion<'a, T, D: Fn(&[T], &[T]) -> u32>(
    plan: Plan<'a, T, D>,
    g: Graph,
    top: (u32, u8),
    stages: Seq<Stage>,
    deeds: Seq<Deed>,
    id: u32,
)
    requires
        plan.ef_construction >= 1,
        awaits(plan, g, top, id),
        plan.tells(top, stages, deeds, id),
        quiet(g, deeds),
    ensures
        replay(g, deeds) == alone(plan, g, top, id),
        plan.spent(stages, id) == alone_calls(plan, g, top, id),
{
    let enter = seq![Deed::Enter { top }];
    let main = enter + flat(stages);
    assert(enter.drop_last() =~= Seq::empty());
    assert(replay(g, enter.drop_last()) == g);
    assert(replay(g, enter) == g);
    assert(g[top.0 as int].len() == plan.shape()[top.0 as int].len());
    assert(quiet(g, main));
    lemma_parts(g, enter, flat(stages));
    lemma_track(plan, g, top, stages, top.1 + 1, id);
    assert(stages.take(top.1 + 1) =~= stages);
    assert(replay(g, deeds) == replay(g, main));
}

/// Of two searches from the same nodes during which nobody else is at work, the shorter
/// is the beginning of the longer.
proof fn lemma_same_reads<'a, T, D: Fn(&[T], &[T]) -> u32>(
    plan: Plan<'a, T, D>,
    g: Graph,
    b: Beam,
    x: Seq<Deed>,
    y: Seq<Deed>,
    key: spec_fn(u32) -> u32,
    ef: nat,
    lev: nat,
    id: u32,
    n: nat,
)
    requires
        plan.reads_right(b, x, key, ef, lev, id),
        plan.reads_right(b, y, key, ef, lev, id),
        quiet(g, x),
        quiet(g, y),
        n <= x.len(),
        n <= y.len(),
    ensures
        x.take(n as int) == y.take(n as int),
        plan.reads_right(b, x.take(n as int), key, ef, lev, id),
        quiet(g, x.take(n as int)),
        n < x.len() ==> !stops(follow(b, x.take(n as int), key, ef, id), ef),
        n < y.len() ==> !stops(follow(b, x.take(n as int), key, ef, id), ef),
    decreases n,
{
    lemma_read_prefix(plan, g, b, x, key, ef, lev, id, n);
    lemma_read_prefix(plan, g, b, y, key, ef, lev, id, n);
    let (s, t) = (x.take(n as int), y.take(n as int));
    if n > 0 {
        let p = (n - 1) as nat;
        lemma_same_reads(plan, g, b, x, y, key, ef, lev, id, p);
        assert(s.drop_last() =~= x.take(p as int));
        assert(t.drop_last() =~= y.take(p as int));
        assert(s.last() == t.last());
        assert(s =~= s.drop_last().push(s.last()));
        assert(t =~= t.drop_last().push(t.last()));
    } else {
        assert(s =~= t);
    }
}

/// What holds of a search holds of its first `n` reads, and it does not stop before it
/// ends.
proof fn lemma_read_prefix<'a, T, D: Fn(&[T], &[T]) -> u32>(
    plan: Plan<'a, T, D>,
    g: Graph,
    b: Beam,
    x: Seq<Deed>,
    key: spec_fn(u32) -> u32,
    ef: nat,
    lev: nat,
    id: u32,
    n: nat,
)
    requires
        plan.reads_right(b, x, key, ef, lev, id),
        quiet(g, x),
        n <= x.len(),
    ensures
        plan.reads_right(b, x.take(n as int), key, ef, lev, id),
        quiet(g, x.take(n as int)),
        n < x.len() ==> !stops(follow(b, x.take(n as int), key, ef, id), ef),
    decreases x.len(),
{
    if n < x.len() {
        let t = x.drop_last();
        lemma_read_prefix(plan, g, b, t, key, ef, lev, id, n);
        assert(t.take(n as int) =~= x.take(n as int));
        if n == t.len() {
            assert(x.take(n as int) =~= t);
        }
    } else {
        assert(x.take(n as int) =~= x);
    }
}

/// Two wirings of the same during which nobody else is at work are the same.
proof fn lemma_same_writes<'a, T, D: Fn(&[T], &[T]) -> u32>(
    plan: Plan<'a, T, D>,
    g: Graph,
    x: Seq<Deed>,
    y: Seq<Deed>,
    found: Seq<Cand>,
    id: u32,
    lev: nat,
    n: nat,
)
    requires
        plan.wires(x, id, lev, found),
        plan.wires(y, id, lev, found),
        quiet(g, x),
        quiet(g, y),
        n <= x.len(),
    ensures
        x.take(n as int) == y.take(n as int),
    decreases n,
{
    let (s, t) = (x.take(n as int), y.take(n as int));
    if n > 0 {
        let p = (n - 1) as nat;
        lemma_same_writes(plan, g, x, y, found, id, lev, p);
        assert(s.drop_last() =~= x.take(p as int));
        assert(t.drop_last() =~= y.take(p as int));
        lemma_parts(g, s, x.skip(n as int));
        lemma_parts(g, t, y.skip(n as int));
        assert(s + x.skip(n as int) =~= x);
        assert(t + y.skip(n as int) =~= y);
        if p > 0 {
            let to = chosen(found, plan.room(lev), plan.corpus.pairs());
            assert(plan.links(x[(p - 1) + 1], to[p - 1], id, lev));
            assert(plan.links(y[(p - 1) + 1], to[p - 1], id, lev));
        }
        assert(s.last() == t.last());
        assert(s =~= s.drop_last().push(s.last()));
        assert(t =~= t.drop_last().push(t.last()));
    } else {
        assert(s =~= t);
    }
}

/// Two stages on the same level, from the same nodes, during which nobody else is at
/// work, are the same.
proof fn lemma_same_stage<'a, T, D: Fn(&[T], &[T]) -> u32>(
    plan: Plan<'a, T, D>,
    g: Graph,
    p: Stage,
    q: Stage,
    id: u32,
)
    requires
        plan.stage_right(p, id),
        plan.stage_right(q, id),
        p.lev == q.lev,
        p.eps == q.eps,
        quiet(g, p.reads),
        quiet(g, q.reads),
        quiet(replay(g, p.reads), p.writes),
        quiet(replay(g, q.reads), q.writes),
    ensures
        p == q,
{
    reveal(Plan::stage_right);
    reveal(Plan::searched);
    let key = plan.keys(id);
    let ef = plan.width(p.lev, plan.levels@[id as int] as nat);
    let b = start(outset(p.eps, id), key, ef);
    let (x, y) = (p.reads, q.reads);
    if x.len() <= y.len() {
        lemma_same_reads(plan, g, b, x, y, key, ef, p.lev, id, x.len());
    } else {
        lemma_same_reads(plan, g, b, x, y, key, ef, p.lev, id, y.len());
    }
    assert(x.take(x.len() as int) =~= x);
    assert(y.take(y.len() as int) =~= y);
    assert(x == y);
    let found = plan.finds(p, id).best;
    if p.lev > plan.levels@[id as int] || found.len() == 0 {
        assert(p.writes =~= q.writes);
    } else {
        let k = replay(g, x);
        lemma_same_writes(plan, k, p.writes, q.writes, found, id, p.lev, p.writes.len());
        assert(p.writes.take(p.writes.len() as int) =~= p.writes);
        assert(q.writes.take(q.writes.len() as int) =~= q.writes);
    }
}

/// What an insertion does while nobody else is at work is determined: two of the same
/// node into the same graph, from the same entry, take the same steps.
pub proof fn law_quiet_insertion_is_determined<'a, T, D: Fn(&[T], &[T]) -> u32>(
    plan: Plan<'a, T, D>,
    g: Graph,
    top: (u32, u8),
    s: Seq<Stage>,
    t: Seq<Stage>,
    id: u32,
)
    requires
        s.len() == t.len(),
        plan.descends(s, top.0, top.1 as nat, id),
        plan.descends(t, top.0, top.1 as nat, id),
        quiet(g, flat(s)),
        quiet(g, flat(t)),
    ensures
        s == t,
{
    lemma_same_stages(plan, g, top, s, t, id, s.len() as int);
    assert(s.take(s.len() as int) =~= s);
    assert(t.take(t.len() as int) =~= t);
}

proof fn lemma_same_stages<'a, T, D: Fn(&[T], &[T]) -> u32>(
    plan: Plan<'a, T, D>,
    g: Graph,
    top: (u32, u8),
    s: Seq<Stage>,
    t: Seq<Stage>,
    id: u32,
    n: int,
)
    requires
        s.len() == t.len(),
        plan.descends(s, top.0, top.1 as nat, id),
        plan.descends(t, top.0, top.1 as nat, id),
        quiet(g, flat(s)),
        quiet(g, flat(t)),
        0 <= n <= s.len(),
    ensures
        s.take(n) == t.take(n),
    decreases n,
{
    if n > 0 {
        let i = n - 1;
        lemma_same_stages(plan, g, top, s, t, id, i);
        lemma_stage_parts(g, s, i);
        lemma_stage_parts(g, t, i);
        if i > 0 {
            assert(s[i - 1] == s.take(i)[i - 1]);
            assert(t[i - 1] == t.take(i)[i - 1]);
        }
        assert(s[i].eps == plan.before(s, top.0, i, id));
        assert(t[i].eps == plan.before(t, top.0, i, id));
        lemma_same_stage(plan, replay(g, flat(s.take(i))), s[i], t[i], id);
        assert(s.take(n) =~= s.take(i).push(s[i]));
        assert(t.take(n) =~= t.take(i).push(t[i]));
    } else {
        assert(s.take(n) =~= t.take(n));
    }
}

/// Stage `i` begins with what those before it have left.
proof fn lemma_stage_parts(g: Graph, s: Seq<Stage>, i: int)
    requires
        quiet(g, flat(s)),
        0 <= i < s.len(),
    ensures
        ({
            let k = replay(g, flat(s.take(i)));
            quiet(k, s[i].reads) && quiet(replay(k, s[i].reads), s[i].writes)
        }),
{
    lemma_first_stages(g, s, i + 1);
    assert(s.take(i + 1).drop_last() =~= s.take(i));
    assert(s.take(i + 1).last() == s[i]);
    lemma_parts(g, flat(s.take(i)) + s[i].reads, s[i].writes);
    lemma_parts(g, flat(s.take(i)), s[i].reads);
}

} // verus!
