//! Inserting once more the nodes that are still owed an insertion.
//!
//! Whether every insertion of a build has run is read off the marks that the nodes leave.
//! A pass over the finished graph looks after those whose marks are not complete, and
//! after those that have no neighbours on level 0: each is inserted while nobody else
//! is at work.

use vstd::prelude::*;

use crate::beam::{coherent, nbrs, start, Beam, Graph};
use crate::graph::{lemma_set_list, same_shape, set_list};
use crate::growth::peopled;
use crate::guard::Deed;
use crate::history::{chain_of, linked, Chain, History, Step};
use crate::insertion::{walk_down, Scratch};
use crate::links::Links;
use crate::replay::{
    law_quiet_insertion_is_determined, lemma_first_stages, lemma_parts, quiet, replay,
};
use crate::store::{is_top, Plan};
use crate::trace::{eligible, flat, follow, lemma_company, outset, Stage};
use crate::web::{lies_on, minds_all, Still, Web};

verus! {

/// The node, of the first `n` other than `id`, that reaches highest; the first of them
/// where several do.
pub open spec fn rival(levels: Seq<u8>, id: u32, n: nat) -> u32
    decreases n,
{
    if n == 0 {
        if id == 0 {
            1
        } else {
            0
        }
    } else {
        let o = rival(levels, id, (n - 1) as nat);
        if n - 1 != id && levels[n - 1] > levels[o as int] {
            (n - 1) as u32
        } else {
            o
        }
    }
}

/// The rival of `id` is another node, no other node but `id` reaches higher, and none
/// before it as high.
pub proof fn law_rival(levels: Seq<u8>, id: u32)
    requires
        2 <= levels.len() <= u32::MAX,
    ensures
        ({
            let o = rival(levels, id, levels.len());
            &&& o < levels.len()
            &&& o != id
            &&& forall|j: int|
                0 <= j < levels.len() && j != id ==> #[trigger] levels[j] <= levels[o as int] && (j
                    < o ==> levels[j] < levels[o as int])
        }),
{
    lemma_rival(levels, id, levels.len());
    lemma_rival_highest(levels, id, levels.len());
}

proof fn lemma_rival_highest(levels: Seq<u8>, id: u32, n: nat)
    requires
        2 <= levels.len() <= u32::MAX,
        n <= levels.len(),
    ensures
        ({
            let o = rival(levels, id, n);
            let first: u32 = if id == 0 {
                1
            } else {
                0
            };
            &&& o == first || o < n
            &&& forall|j: int|
                0 <= j < n && j != id ==> #[trigger] levels[j] <= levels[o as int] && (j < o
                    ==> levels[j] < levels[o as int])
        }),
    decreases n,
{
    if n > 0 {
        lemma_rival_highest(levels, id, (n - 1) as nat);
    }
}

/// Where `id` is inserted from: the entry `e`, or another node where `id` is the entry.
pub open spec fn way_in(levels: Seq<u8>, e: u32, id: u32) -> (u32, u8) {
    let o = if e != id {
        e
    } else {
        rival(levels, id, levels.len())
    };
    (o, levels[o as int])
}

/// A node is inserted from the entry, and the entry itself from the highest of the others,
/// at the level that this reaches.
pub proof fn law_way_in(levels: Seq<u8>, e: u32, id: u32)
    requires
        2 <= levels.len() <= u32::MAX,
        e < levels.len(),
    ensures
        ({
            let (o, l) = way_in(levels, e, id);
            &&& o < levels.len()
            &&& o != id
            &&& l == levels[o as int]
            &&& e != id ==> o == e
            &&& e == id ==> forall|j: int|
                0 <= j < levels.len() && j != id ==> #[trigger] levels[j] <= l
        }),
{
    law_rival(levels, id);
}

/// `h` is `g` once `id` is inserted, in these stages and from the entry `top` on, while
/// nobody else is at work.
pub open spec fn rejoins<'a, T, D: Fn(&[T], &[T]) -> u32>(
    plan: Plan<'a, T, D>,
    g: Graph,
    top: (u32, u8),
    id: u32,
    stages: Seq<Stage>,
    h: Graph,
) -> bool {
    &&& stages.len() == top.1 + 1
    &&& plan.descends(stages, top.0, top.1 as nat, id)
    &&& quiet(g, flat(stages))
    &&& h == replay(g, flat(stages))
}

/// `h` is `g` once `id` is looked after: it is inserted where it is owed that, or has no
/// neighbours on level 0, and nothing is changed where not.
pub open spec fn settles<'a, T, D: Fn(&[T], &[T]) -> u32>(
    plan: Plan<'a, T, D>,
    g: Graph,
    due: bool,
    e: u32,
    id: u32,
    h: Graph,
) -> bool {
    if due || nbrs(g, id, 0).len() == 0 {
        exists|stages: Seq<Stage>| #[trigger]
            rejoins(plan, g, way_in(plan.levels@, e, id), id, stages, h)
    } else {
        h == g
    }
}

/// Each of the graphs is the one before it once the next node is looked after.
pub open spec fn passes<'a, T, D: Fn(&[T], &[T]) -> u32>(
    plan: Plan<'a, T, D>,
    gs: Seq<Graph>,
    owed: Seq<bool>,
    e: u32,
) -> bool {
    &&& 0 < gs.len() <= owed.len() + 1
    &&& forall|i: int|
        0 <= i < gs.len() - 1 ==> settles(
            plan,
            gs[i],
            #[trigger] owed[i],
            e,
            i as u32,
            gs[i + 1],
        )
}

/// `h` is `g` once all nodes are looked after, in order.
pub open spec fn settled<'a, T, D: Fn(&[T], &[T]) -> u32>(
    plan: Plan<'a, T, D>,
    g: Graph,
    owed: Seq<bool>,
    e: u32,
    h: Graph,
) -> bool {
    exists|gs: Seq<Graph>|
        {
            &&& #[trigger] passes(plan, gs, owed, e)
            &&& gs.len() == owed.len() + 1
            &&& gs[0] == g
            &&& gs.last() == h
        }
}

/// Each node but the first has come in, or is owed an insertion.
pub open spec fn in_or_owed<'a, T, D: Fn(&[T], &[T]) -> u32>(
    plan: Plan<'a, T, D>,
    hist: History,
    chains: Seq<Chain>,
    owed: Seq<bool>,
) -> bool {
    &&& chains.len() == owed.len()
    &&& forall|id: u32|
        1 <= id < owed.len() && !owed[id as int] ==> #[trigger] plan.came_in(
            hist,
            chains[id as int],
            id,
        )
}

/// Every step of `a` is a step of `b`.
pub open spec fn grows(a: History, b: History) -> bool {
    &&& b.len() == a.len()
    &&& forall|x: int| 0 <= x < a.len() ==> (#[trigger] b[x]).len() == a[x].len()
    &&& forall|x: int, lev: int, s: Step|
        0 <= x < a.len() && 0 <= lev < a[x].len() && a[x][lev].contains(s)
            ==> #[trigger] b[x][lev].contains(s)
}

/// One step more of one list.
spec fn extended(hist: History, x: u32, lev: nat, s: Step) -> History {
    let h = hist[x as int];
    hist.update(x as int, h.update(lev as int, h[lev as int].push(s)))
}

proof fn lemma_extended<'a, T, D: Fn(&[T], &[T]) -> u32>(
    plan: Plan<'a, T, D>,
    g: Graph,
    hist: History,
    x: u32,
    lev: nat,
    s: Step,
)
    requires
        plan.led(hist, g),
        x < g.len(),
        lev < g[x as int].len(),
        plan.step_right(x, lev, s),
        plan.stages_known(chain_of(s).stages),
    ensures
        ({
            let h = extended(hist, x, lev, s);
            &&& plan.led(h, set_list(g, x, lev, plan.stepped(nbrs(g, x, lev), x, lev, s)))
            &&& grows(hist, h)
            &&& h[x as int][lev as int].contains(s)
            &&& plan.m >= 1 ==> plan.stepped(nbrs(g, x, lev), x, lev, s).len() > 0
        }),
{
    let h = extended(hist, x, lev, s);
    let cur = nbrs(g, x, lev);
    let list = plan.stepped(cur, x, lev, s);
    let k = set_list(g, x, lev, list);
    let steps = hist[x as int][lev as int];
    lemma_set_list(g, x, lev, list);
    assert(plan.node_led(x as int, hist[x as int], g[x as int]));
    assert(plan.leads_to(x, lev, steps, cur));
    plan.lemma_step(x, lev, steps, cur, s);
    plan.lemma_grounded(steps, s);
    plan.law_steps_lead_to_good_lists(x, lev, steps.push(s), list);
    assert(steps.push(s)[steps.len() as int] == s);
    assert forall|y: int, l: int, t: Step|
        0 <= y < hist.len() && 0 <= l < hist[y].len() && hist[y][l].contains(t) implies
        #[trigger] h[y][l].contains(t) by {
        if y == x && l == lev {
            let i = choose|i: int| 0 <= i < steps.len() && steps[i] == t;
            assert(steps.push(s)[i] == t);
        }
    }
    assert forall|y: int| 0 <= y < k.len() implies plan.node_led(y, #[trigger] h[y], k[y]) by {
        assert(plan.node_led(y, hist[y], g[y]));
        if y == x {
            assert forall|l: int| 0 <= l < k[y].len() implies plan.leads_to(
                y as u32,
                l as nat,
                #[trigger] h[y][l],
                k[y][l],
            ) && plan.grounded(h[y][l]) by {
                assert(plan.leads_to(y as u32, l as nat, hist[y][l], g[y][l]));
            }
        }
    }
    assert forall|i: int| 0 <= i < plan.shape().len() implies (#[trigger] k[i]).len()
        == plan.shape()[i].len() by {
        assert(g[i].len() == plan.shape()[i].len());
    }
}

proof fn lemma_grows(a: History, b: History, c: History)
    requires
        grows(a, b),
        grows(b, c),
    ensures
        grows(a, c),
{
    assert forall|x: int| 0 <= x < a.len() implies (#[trigger] c[x]).len() == a[x].len() by {
        assert(b[x].len() == a[x].len());
    }
    assert forall|x: int, lev: int, s: Step|
        0 <= x < a.len() && 0 <= lev < a[x].len() && a[x][lev].contains(s) implies
        #[trigger] c[x][lev].contains(s) by {
        assert(b[x].len() == a[x].len());
        assert(b[x][lev].contains(s));
    }
}

/// Who has joined a level has still joined it when the history has grown.
proof fn lemma_still_joined<'a, T, D: Fn(&[T], &[T]) -> u32>(
    plan: Plan<'a, T, D>,
    a: History,
    b: History,
    g: Graph,
    c: Chain,
    id: u32,
    i: int,
)
    requires
        plan.led(a, g),
        grows(a, b),
        id < g.len(),
        plan.chained(c, id),
        0 <= i < c.stages.len(),
        c.stages[i].lev <= plan.levels@[id as int],
        plan.joined_by(a, c, id, i),
    ensures
        plan.joined_by(b, c, id, i),
{
    let p = c.stages[i];
    let to = plan.choice(p, id);
    plan.lemma_choice(c, id, i);
    assert(g[id as int].len() == plan.shape()[id as int].len());
    assert(plan.node_led(id as int, a[id as int], g[id as int]));
    assert(b[id as int][p.lev as int].contains(Step::Show { chain: c.first(i + 1) }));
    assert forall|k: int| 0 <= k < to.len() implies linked(b, #[trigger] to[k], p.lev, id) by {
        let y = to[k] as int;
        assert(linked(a, to[k], p.lev, id));
        assert(g[y].len() == plan.shape()[y].len());
        assert(plan.node_led(y, a[y], g[y]));
        let chain = choose|chain: Chain| #[trigger]
            a[y][p.lev as int].contains(Step::Link { from: id, chain });
        assert(b[y][p.lev as int].contains(Step::Link { from: id, chain }));
    }
}

/// Who has come in stays in.
proof fn lemma_still_in<'a, T, D: Fn(&[T], &[T]) -> u32>(
    plan: Plan<'a, T, D>,
    a: History,
    b: History,
    g: Graph,
    c: Chain,
    id: u32,
)
    requires
        plan.led(a, g),
        grows(a, b),
        id < g.len(),
        plan.came_in(a, c, id),
    ensures
        plan.came_in(b, c, id),
{
    assert forall|i: int|
        0 <= i < c.stages.len() && (#[trigger] c.stages[i]).lev <= plan.levels@[id as int] implies
        plan.joined_by(b, c, id, i) by {
        lemma_still_joined(plan, a, b, g, c, id, i);
    }
}

/// No list of `g` that is not empty is empty in `h`.
pub open spec fn keeps_company(g: Graph, h: Graph) -> bool {
    forall|x: u32| nbrs(g, x, 0).len() > 0 ==> (#[trigger] nbrs(h, x, 0)).len() > 0
}

/// The back links of a wiring, so far as they go.
proof fn lemma_links<'a, T, D: Fn(&[T], &[T]) -> u32>(
    plan: Plan<'a, T, D>,
    g: Graph,
    hist: History,
    to: Seq<u32>,
    links: Seq<Deed>,
    id: u32,
    lev: nat,
    chain: Chain,
) -> (r: History)
    requires
        plan.m >= 1,
        plan.led(hist, g),
        id < g.len(),
        lev < plan.shape()[id as int].len(),
        plan.chained(chain, id),
        chain.stages.last().lev == lev,
        plan.stages_known(chain.stages),
        forall|k: int|
            0 <= k < to.len() ==> plan.choice(chain.stages.last(), id).contains(#[trigger] to[k]),
        forall|k: int|
            0 <= k < to.len() ==> eligible(plan.shape(), id, lev, #[trigger] to[k]),
        links.len() == to.len(),
        forall|k: int| 0 <= k < to.len() ==> plan.links(#[trigger] links[k], to[k], id, lev),
        quiet(g, links),
    ensures
        plan.led(r, replay(g, links)),
        grows(hist, r),
        keeps_company(g, replay(g, links)),
        forall|k: int| 0 <= k < to.len() ==> linked(r, #[trigger] to[k], lev, id),
    decreases to.len(),
{
    if to.len() == 0 {
        hist
    } else {
        let t = to.drop_last();
        let ls = links.drop_last();
        let nb = to.last();
        assert forall|k: int| 0 <= k < t.len() implies eligible(
            plan.shape(),
            id,
            lev,
            #[trigger] t[k],
        ) by {
            assert(t[k] == to[k]);
        }
        assert forall|k: int| 0 <= k < t.len() implies plan.links(#[trigger] ls[k], t[k], id, lev) by {
            assert(ls[k] == links[k]);
            assert(t[k] == to[k]);
        }
        assert forall|k: int| 0 <= k < t.len() implies plan.choice(
            chain.stages.last(),
            id,
        ).contains(#[trigger] t[k]) by {
            assert(t[k] == to[k]);
        }
        let mid = lemma_links(plan, g, hist, t, ls, id, lev, chain);
        let k = replay(g, ls);
        let h = replay(g, links);
        assert(eligible(plan.shape(), id, lev, to[to.len() - 1]));
        assert(plan.links(links[links.len() - 1], to[to.len() - 1], id, lev));
        assert(k[nb as int].len() == plan.shape()[nb as int].len());
        let s = Step::Link { from: id, chain };
        assert(plan.choice(chain.stages.last(), id).contains(to[to.len() - 1]));
        assert(plan.step_right(nb, lev, s)) by {
            reveal(Plan::step_right);
        }
        lemma_extended(plan, k, mid, nb, lev, s);
        let r = extended(mid, nb, lev, s);
        let list = plan.stepped(nbrs(k, nb, lev), nb, lev, s);
        lemma_set_list(k, nb, lev, list);
        lemma_grows(hist, mid, r);
        assert(h == set_list(k, nb, lev, list));
        assert forall|j: int| 0 <= j < to.len() implies linked(r, #[trigger] to[j], lev, id) by {
            if j < t.len() {
                assert(t[j] == to[j]);
                assert(linked(mid, t[j], lev, id));
                let y = to[j] as int;
                assert(eligible(plan.shape(), id, lev, to[j]));
                assert(k[y].len() == plan.shape()[y].len());
                assert(plan.node_led(y, mid[y], k[y]));
                let other = choose|other: Chain| #[trigger]
                    mid[y][lev as int].contains(Step::Link { from: id, chain: other });
                assert(r[y][lev as int].contains(Step::Link { from: id, chain: other }));
            }
        }
        assert forall|x: u32| nbrs(g, x, 0).len() > 0 implies (#[trigger] nbrs(h, x, 0)).len() > 0 by {
            assert(nbrs(k, x, 0).len() > 0);
        }
        r
    }
}

/// Reads change nothing.
proof fn lemma_reads_change_nothing<'a, T, D: Fn(&[T], &[T]) -> u32>(
    plan: Plan<'a, T, D>,
    g: Graph,
    b: Beam,
    reads: Seq<Deed>,
    key: spec_fn(u32) -> u32,
    ef: nat,
    lev: nat,
    id: u32,
)
    requires
        plan.reads_right(b, reads, key, ef, lev, id),
    ensures
        replay(g, reads) == g,
    decreases reads.len(),
{
    if reads.len() > 0 {
        lemma_reads_change_nothing(plan, g, b, reads.drop_last(), key, ef, lev, id);
    }
}

/// What one wiring comes to: `r` is how the lists came to be, and `id` has joined the
/// level of stage `i` of the chain.
proof fn lemma_wiring<'a, T, D: Fn(&[T], &[T]) -> u32>(
    plan: Plan<'a, T, D>,
    k: Graph,
    hist: History,
    c: Chain,
    id: u32,
    i: int,
) -> (r: History)
    requires
        plan.m >= 1,
        plan.led(hist, k),
        id < k.len(),
        plan.chained(c, id),
        0 <= i < c.stages.len(),
        c.stages[i].lev <= plan.levels@[id as int],
        plan.finds(c.stages[i], id).best.len() > 0,
        plan.wires(
            c.stages[i].writes,
            id,
            c.stages[i].lev,
            plan.finds(c.stages[i], id).best,
        ),
        quiet(k, c.stages[i].writes),
        plan.stages_known(c.stages.take(i + 1)),
    ensures
        plan.led(r, replay(k, c.stages[i].writes)),
        grows(hist, r),
        keeps_company(k, replay(k, c.stages[i].writes)),
        plan.joined_by(r, c, id, i),
{
    let p = c.stages[i];
    let to = plan.choice(p, id);
    let shown = seq![p.writes[0]];
    let links = p.writes.skip(1);
    assert(p.writes =~= shown + links);
    lemma_parts(k, shown, links);
    assert(shown.drop_last() =~= Seq::empty());
    assert(shown.last() == p.writes[0]);
    assert(quiet(k, shown));
    assert(replay(k, shown.drop_last()) == k);
    let chain = c.first(i + 1);
    plan.lemma_walks_prefix(c.stages, i + 1, c.top.0, c.top.1 as nat, id);
    assert(chain.stages.last() == p);
    let s = Step::Show { chain };
    assert(plan.step_right(id, p.lev, s)) by {
        reveal(Plan::step_right);
    }
    assert(k[id as int].len() == plan.shape()[id as int].len());
    lemma_extended(plan, k, hist, id, p.lev, s);
    let next = extended(hist, id, p.lev, s);
    let list = plan.stepped(nbrs(k, id, p.lev), id, p.lev, s);
    let q = replay(k, shown);
    assert(q == set_list(k, id, p.lev, list));
    lemma_set_list(k, id, p.lev, list);
    plan.lemma_choice(c, id, i);
    assert forall|j: int| 0 <= j < to.len() implies eligible(
        plan.shape(),
        id,
        p.lev,
        #[trigger] to[j],
    ) by {
        assert(to[j] < plan.shape().len());
    }
    assert forall|j: int| 0 <= j < to.len() implies plan.links(
        #[trigger] links[j],
        to[j],
        id,
        p.lev,
    ) by {
        assert(links[j] == p.writes[j + 1]);
    }
    assert forall|j: int| 0 <= j < to.len() implies plan.choice(
        chain.stages.last(),
        id,
    ).contains(#[trigger] to[j]) by {}
    let r = lemma_links(plan, q, next, to, links, id, p.lev, chain);
    lemma_grows(hist, next, r);
    assert(next[id as int][p.lev as int].contains(s));
    assert(r[id as int][p.lev as int].contains(s));
    let h = replay(k, p.writes);
    assert forall|x: u32| nbrs(k, x, 0).len() > 0 implies (#[trigger] nbrs(h, x, 0)).len() > 0 by {
        assert(nbrs(q, x, 0).len() > 0);
    }
    r
}

/// What stage `n` of an insertion while nobody else is at work does to the graph.
proof fn lemma_stage<'a, T, D: Fn(&[T], &[T]) -> u32>(
    plan: Plan<'a, T, D>,
    g: Graph,
    stages: Seq<Stage>,
    id: u32,
    n: int,
)
    requires
        quiet(g, flat(stages)),
        0 <= n < stages.len(),
        plan.stage_right(stages[n], id),
    ensures
        ({
            let k = replay(g, flat(stages.take(n)));
            let p = stages[n];
            &&& replay(g, flat(stages.take(n + 1))) == replay(k, p.writes)
            &&& quiet(k, p.reads)
            &&& quiet(k, p.writes)
            &&& if p.lev > plan.levels@[id as int] || plan.finds(p, id).best.len() == 0 {
                p.writes.len() == 0
            } else {
                plan.wires(p.writes, id, p.lev, plan.finds(p, id).best)
            }
        }),
{
    let k = replay(g, flat(stages.take(n)));
    let p = stages[n];
    let key = plan.keys(id);
    let ef = plan.width(p.lev, plan.levels@[id as int] as nat);
    lemma_first_stages(g, stages, n + 1);
    assert(stages.take(n + 1).drop_last() =~= stages.take(n));
    assert(stages.take(n + 1).last() == p);
    lemma_parts(g, flat(stages.take(n)) + p.reads, p.writes);
    lemma_parts(g, flat(stages.take(n)), p.reads);
    reveal(Plan::stage_right);
    reveal(Plan::searched);
    lemma_reads_change_nothing(
        plan,
        k,
        start(outset(p.eps, id), key, ef),
        p.reads,
        key,
        ef,
        p.lev,
        id,
    );
}

/// A search of a graph whose lists came to be by right steps reads lists that are known.
proof fn lemma_stage_known<'a, T, D: Fn(&[T], &[T]) -> u32>(
    plan: Plan<'a, T, D>,
    k: Graph,
    hist: History,
    p: Stage,
    id: u32,
)
    requires
        plan.led(hist, k),
        plan.levels@.len() <= u32::MAX,
        plan.stage_right(p, id),
        quiet(k, p.reads),
        plan.reach(p.eps, p.lev),
    ensures
        plan.reads_known(p.reads),
{
    reveal(Plan::stage_right);
    reveal(Plan::searched);
    let key = plan.keys(id);
    let ef = plan.width(p.lev, plan.levels@[id as int] as nat);
    let b = start(outset(p.eps, id), key, ef);
    plan.lemma_begins(p.eps, key, ef, p.lev, id);
    lemma_reads_known(plan, k, hist, b, p.reads, key, ef, p.lev, id);
}

proof fn lemma_reads_known<'a, T, D: Fn(&[T], &[T]) -> u32>(
    plan: Plan<'a, T, D>,
    k: Graph,
    hist: History,
    b: Beam,
    reads: Seq<Deed>,
    key: spec_fn(u32) -> u32,
    ef: nat,
    lev: nat,
    id: u32,
)
    requires
        plan.led(hist, k),
        plan.reads_right(b, reads, key, ef, lev, id),
        quiet(k, reads),
        coherent(b, key, ef),
        forall|x: u32| #[trigger]
            b.visited.contains(x) ==> eligible(plan.shape(), id, lev, x),
    ensures
        plan.reads_known(reads),
    decreases reads.len(),
{
    if reads.len() > 0 {
        let t = reads.drop_last();
        lemma_reads_known(plan, k, hist, b, t, key, ef, lev, id);
        lemma_reads_change_nothing(plan, k, b, t, key, ef, lev, id);
        plan.lemma_follow(b, t, key, ef, lev, id);
        let f = follow(b, t, key, ef, id);
        if let Deed::Read { id: x, list, .. } = reads.last() {
            assert(f.frontier.contains(f.frontier[0]));
            assert(f.visited.contains(x));
            assert(eligible(plan.shape(), id, lev, x));
            assert(k[x as int].len() == plan.shape()[x as int].len());
            assert(plan.node_led(x as int, hist[x as int], k[x as int]));
            assert(list == k[x as int][lev as int]);
            assert(plan.leads_to(x, lev, hist[x as int][lev as int], list));
            plan.lemma_known(x, lev, hist[x as int][lev as int], list);
        }
        assert forall|j: int| 0 <= j < reads.len() implies plan.read_known(#[trigger] reads[j]) by {
            if j < t.len() {
                assert(t[j] == reads[j]);
            }
        }
    }
}

/// `id` has joined, of the levels of the first `n` stages of a chain, those that it
/// reaches.
spec fn joined_first<'a, T, D: Fn(&[T], &[T]) -> u32>(
    plan: Plan<'a, T, D>,
    hist: History,
    c: Chain,
    id: u32,
    n: int,
) -> bool {
    forall|i: int|
        0 <= i < n && (#[trigger] c.stages[i]).lev <= plan.levels@[id as int] ==> plan.joined_by(
            hist,
            c,
            id,
            i,
        )
}

/// One level more.
proof fn lemma_joined_first<'a, T, D: Fn(&[T], &[T]) -> u32>(
    plan: Plan<'a, T, D>,
    a: History,
    b: History,
    g: Graph,
    c: Chain,
    id: u32,
    n: int,
)
    requires
        plan.led(a, g),
        grows(a, b),
        id < g.len(),
        plan.chained(c, id),
        0 <= n < c.stages.len(),
        joined_first(plan, a, c, id, n),
        plan.joined_by(b, c, id, n),
    ensures
        joined_first(plan, b, c, id, n + 1),
{
    assert forall|i: int|
        0 <= i < n + 1 && (#[trigger] c.stages[i]).lev <= plan.levels@[id as int] implies plan.joined_by(
        b,
        c,
        id,
        i,
    ) by {
        if i < n {
            assert(plan.joined_by(a, c, id, i));
            lemma_still_joined(plan, a, b, g, c, id, i);
        }
    }
}

/// What the first `n` stages of an insertion while nobody else is at work come to: `r`
/// is how the lists came to be, and `id` has joined the levels of these stages.
proof fn lemma_stages<'a, T, D: Fn(&[T], &[T]) -> u32>(
    plan: Plan<'a, T, D>,
    g: Graph,
    hist: History,
    c: Chain,
    id: u32,
    n: int,
) -> (r: History)
    requires
        plan.m >= 1,
        plan.ef_construction >= 1,
        plan.levels@.len() <= u32::MAX,
        plan.led(hist, g),
        id < g.len(),
        plan.chained(c, id),
        c.top.0 != id,
        c.stages.len() == c.top.1 + 1,
        plan.descends(c.stages, c.top.0, c.top.1 as nat, id),
        quiet(g, flat(c.stages)),
        0 <= n <= c.stages.len(),
    ensures
        plan.led(r, replay(g, flat(c.stages.take(n)))),
        grows(hist, r),
        keeps_company(g, replay(g, flat(c.stages.take(n)))),
        joined_first(plan, r, c, id, n),
        plan.stages_known(c.stages.take(n)),
    decreases n,
{
    let stages = c.stages;
    if n == 0 {
        assert(stages.take(0) =~= Seq::empty());
        assert(replay(g, flat(stages.take(0))) == g);
        hist
    } else {
        let i = n - 1;
        let mid = lemma_stages(plan, g, hist, c, id, i);
        let k = replay(g, flat(stages.take(i)));
        let p = stages[i];
        assert(plan.stage_right(stages[i], id));
        lemma_stage(plan, g, stages, id, i);
        let h = replay(k, p.writes);
        plan.lemma_walk(stages, c.top, id, i);
        lemma_stage_known(plan, k, mid, stages[i], id);
        assert forall|j: int| 0 <= j < stages.take(n).len() implies plan.reads_known(
            (#[trigger] stages.take(n)[j]).reads,
        ) by {
            if j < i {
                assert(stages.take(i)[j] == stages[j]);
            }
        }
        if p.lev > plan.levels@[id as int] {
            assert(p.writes =~= Seq::empty());
            assert(h == k);
            mid
        } else {
            assert(plan.finds(p, id).best.len() > 0) by {
                lemma_company(plan, c.top, stages, id, i);
            }
            let r = lemma_wiring(plan, k, mid, c, id, i);
            lemma_grows(hist, mid, r);
            lemma_joined_first(plan, mid, r, k, c, id, i);
            assert forall|x: u32| nbrs(g, x, 0).len() > 0 implies (#[trigger] nbrs(h, x, 0)).len()
                > 0 by {
                assert(nbrs(k, x, 0).len() > 0);
            }
            r
        }
    }
}

/// The node that `rival` gives is another one.
proof fn lemma_rival(levels: Seq<u8>, id: u32, n: nat)
    requires
        2 <= levels.len() <= u32::MAX,
        n <= levels.len(),
    ensures
        rival(levels, id, n) < levels.len(),
        rival(levels, id, n) != id,
    decreases n,
{
    if n > 0 {
        lemma_rival(levels, id, (n - 1) as nat);
    }
}

/// Where a node is inserted from is another node, and the level that it reaches.
proof fn lemma_way_in<'a, T, D: Fn(&[T], &[T]) -> u32>(plan: Plan<'a, T, D>, e: u32, id: u32)
    requires
        2 <= plan.levels@.len() <= u32::MAX,
        e < plan.levels@.len(),
    ensures
        is_top(plan.shape(), way_in(plan.levels@, e, id)),
        way_in(plan.levels@, e, id).0 != id,
{
    lemma_rival(plan.levels@, id, plan.levels@.len());
}

/// A pass over a graph whose lists came to be by right steps leaves such a graph, with
/// the same nodes on the same levels. Every node but the first has come in then, by the
/// chains that are handed back, and none is alone.
pub proof fn law_settled<'a, T, D: Fn(&[T], &[T]) -> u32>(
    plan: Plan<'a, T, D>,
    g: Graph,
    owed: Seq<bool>,
    e: u32,
    h: Graph,
    hist: History,
    chains: Seq<Chain>,
) -> (r: (History, Seq<Chain>))
    requires
        plan.m >= 1,
        plan.ef_construction >= 1,
        2 <= g.len() <= u32::MAX,
        e < g.len(),
        owed.len() == g.len(),
        plan.led(hist, g),
        in_or_owed(plan, hist, chains, owed),
        settled(plan, g, owed, e, h),
    ensures
        plan.led(r.0, h),
        same_shape(g, h),
        r.1.len() == g.len(),
        forall|id: u32|
            1 <= id < g.len() ==> #[trigger] plan.came_in(r.0, r.1[id as int], id),
        peopled(h),
{
    let gs = choose|gs: Seq<Graph>|
        {
            &&& #[trigger] passes(plan, gs, owed, e)
            &&& gs.len() == owed.len() + 1
            &&& gs[0] == g
            &&& gs.last() == h
        };
    let r = lemma_passes(plan, gs, owed, e, g.len(), hist, chains);
    assert forall|i: int| 0 <= i < h.len() implies (#[trigger] h[i])[0].len() > 0 by {
        assert(nbrs(h, i as u32, 0).len() > 0);
    }
    assert forall|i: int| 0 <= i < g.len() implies (#[trigger] h[i]).len() == g[i].len() by {
        assert(g[i].len() == plan.shape()[i].len());
    }
    r
}

/// What an insertion while nobody else is at work comes to: how the lists came to be, and
/// the chain by which `id` has come in.
pub proof fn law_inserted_node_comes_in<'a, T, D: Fn(&[T], &[T]) -> u32>(
    plan: Plan<'a, T, D>,
    g: Graph,
    hist: History,
    top: (u32, u8),
    id: u32,
    stages: Seq<Stage>,
    h: Graph,
) -> (r: (History, Chain))
    requires
        plan.m >= 1,
        plan.ef_construction >= 1,
        plan.levels@.len() <= u32::MAX,
        plan.led(hist, g),
        id < g.len(),
        is_top(plan.shape(), top),
        top.0 != id,
        rejoins(plan, g, top, id, stages, h),
    ensures
        plan.led(r.0, h),
        grows(hist, r.0),
        plan.came_in(r.0, r.1, id),
        nbrs(h, id, 0).len() > 0,
        keeps_company(g, h),
{
    let c = Chain { top, stages };
    plan.lemma_descends_walks(stages, top.0, top.1 as nat, id);
    assert(plan.chained(c, id));
    let more = lemma_stages(plan, g, hist, c, id, stages.len() as int);
    assert(stages.take(stages.len() as int) =~= stages);
    assert(plan.came_in(more, c, id));
    plan.law_who_came_in_has_company(more, h, c, id);
    assert(h[id as int].len() == plan.shape()[id as int].len());
    (more, c)
}

/// Of the nodes but the first, each that is not owed an insertion has come in, and so has
/// each of the first `n`.
spec fn in_by<'a, T, D: Fn(&[T], &[T]) -> u32>(
    plan: Plan<'a, T, D>,
    hist: History,
    chains: Seq<Chain>,
    owed: Seq<bool>,
    n: int,
) -> bool {
    &&& chains.len() == owed.len()
    &&& forall|id: u32|
        1 <= id < owed.len() && (id < n || !owed[id as int]) ==> #[trigger] plan.came_in(
            hist,
            chains[id as int],
            id,
        )
}

/// One node more.
proof fn lemma_in_by<'a, T, D: Fn(&[T], &[T]) -> u32>(
    plan: Plan<'a, T, D>,
    g: Graph,
    a: History,
    b: History,
    chains: Seq<Chain>,
    c: Chain,
    owed: Seq<bool>,
    n: int,
)
    requires
        plan.led(a, g),
        grows(a, b),
        0 <= n < owed.len() == g.len() <= u32::MAX,
        in_by(plan, a, chains, owed, n),
        plan.came_in(b, c, n as u32),
    ensures
        in_by(plan, b, chains.update(n, c), owed, n + 1),
{
    let all = chains.update(n, c);
    assert forall|x: u32|
        1 <= x < owed.len() && (x < n + 1 || !owed[x as int]) implies #[trigger] plan.came_in(
        b,
        all[x as int],
        x,
    ) by {
        if x != n {
            assert(plan.came_in(a, chains[x as int], x));
            lemma_still_in(plan, a, b, g, chains[x as int], x);
        }
    }
}

/// The first `n` nodes have neighbours on level 0.
spec fn company(g: Graph, n: int) -> bool {
    forall|x: u32| x < n ==> (#[trigger] nbrs(g, x, 0)).len() > 0
}

/// One node more is looked after.
proof fn lemma_settles<'a, T, D: Fn(&[T], &[T]) -> u32>(
    plan: Plan<'a, T, D>,
    g: Graph,
    owed: Seq<bool>,
    e: u32,
    n: int,
    h: Graph,
    hist: History,
    chains: Seq<Chain>,
) -> (r: (History, Seq<Chain>))
    requires
        plan.m >= 1,
        plan.ef_construction >= 1,
        2 <= g.len() == owed.len() <= u32::MAX,
        0 <= n < g.len(),
        e < g.len(),
        plan.led(hist, g),
        in_by(plan, hist, chains, owed, n),
        company(g, n),
        settles(plan, g, owed[n], e, n as u32, h),
    ensures
        plan.led(r.0, h),
        in_by(plan, r.0, r.1, owed, n + 1),
        company(h, n + 1),
{
    let id = n as u32;
    if owed[n] || nbrs(g, id, 0).len() == 0 {
        let top = way_in(plan.levels@, e, id);
        let stages = choose|stages: Seq<Stage>| #[trigger] rejoins(plan, g, top, id, stages, h);
        lemma_way_in(plan, e, id);
        let more = law_inserted_node_comes_in(plan, g, hist, top, id, stages, h);
        lemma_in_by(plan, g, hist, more.0, chains, more.1, owed, n);
        assert forall|x: u32| x < n + 1 implies (#[trigger] nbrs(h, x, 0)).len() > 0 by {
            if x < n {
                assert(nbrs(g, x, 0).len() > 0);
            }
        }
        (more.0, chains.update(n, more.1))
    } else {
        assert forall|x: u32| x < n + 1 implies (#[trigger] nbrs(h, x, 0)).len() > 0 by {
            if x < n {
                assert(nbrs(g, x, 0).len() > 0);
            }
        }
        (hist, chains)
    }
}

/// What the graph after `n` nodes were looked after is like.
proof fn lemma_passes<'a, T, D: Fn(&[T], &[T]) -> u32>(
    plan: Plan<'a, T, D>,
    gs: Seq<Graph>,
    owed: Seq<bool>,
    e: u32,
    n: nat,
    hist: History,
    chains: Seq<Chain>,
) -> (r: (History, Seq<Chain>))
    requires
        plan.m >= 1,
        plan.ef_construction >= 1,
        passes(plan, gs, owed, e),
        2 <= plan.levels@.len() == owed.len() <= u32::MAX,
        e < owed.len(),
        plan.led(hist, gs[0]),
        in_or_owed(plan, hist, chains, owed),
        n < gs.len(),
    ensures
        plan.led(r.0, gs[n as int]),
        in_by(plan, r.0, r.1, owed, n as int),
        company(gs[n as int], n as int),
    decreases n,
{
    if n == 0 {
        (hist, chains)
    } else {
        let mid = lemma_passes(plan, gs, owed, e, (n - 1) as nat, hist, chains);
        assert(settles(plan, gs[n - 1], owed[n - 1], e, (n - 1) as u32, gs[n as int]));
        lemma_settles(plan, gs[n - 1], owed, e, n - 1, gs[n as int], mid.0, mid.1)
    }
}

/// What a pass comes to is determined by the graph, by who is owed an insertion and by
/// the entry.
pub proof fn law_settled_is_determined<'a, T, D: Fn(&[T], &[T]) -> u32>(
    plan: Plan<'a, T, D>,
    g: Graph,
    owed: Seq<bool>,
    e: u32,
    h: Graph,
    k: Graph,
)
    requires
        settled(plan, g, owed, e, h),
        settled(plan, g, owed, e, k),
    ensures
        h == k,
{
    let gs = choose|gs: Seq<Graph>|
        {
            &&& #[trigger] passes(plan, gs, owed, e)
            &&& gs.len() == owed.len() + 1
            &&& gs[0] == g
            &&& gs.last() == h
        };
    let ks = choose|ks: Seq<Graph>|
        {
            &&& #[trigger] passes(plan, ks, owed, e)
            &&& ks.len() == owed.len() + 1
            &&& ks[0] == g
            &&& ks.last() == k
        };
    lemma_same_passes(plan, gs, ks, owed, e, owed.len());
}

proof fn lemma_same_passes<'a, T, D: Fn(&[T], &[T]) -> u32>(
    plan: Plan<'a, T, D>,
    gs: Seq<Graph>,
    ks: Seq<Graph>,
    owed: Seq<bool>,
    e: u32,
    n: nat,
)
    requires
        passes(plan, gs, owed, e),
        passes(plan, ks, owed, e),
        gs[0] == ks[0],
        n < gs.len() == ks.len(),
    ensures
        gs[n as int] == ks[n as int],
    decreases n,
{
    if n > 0 {
        lemma_same_passes(plan, gs, ks, owed, e, (n - 1) as nat);
        let id = (n - 1) as u32;
        let p = gs[n - 1];
        let (h, k) = (gs[n as int], ks[n as int]);
        assert(settles(plan, p, owed[n - 1], e, id, h));
        assert(settles(plan, p, owed[n - 1], e, id, k));
        if owed[n - 1] || nbrs(p, id, 0).len() == 0 {
            let top = way_in(plan.levels@, e, id);
            let s = choose|s: Seq<Stage>| #[trigger] rejoins(plan, p, top, id, s, h);
            let t = choose|t: Seq<Stage>| #[trigger] rejoins(plan, p, top, id, t, k);
            law_quiet_insertion_is_determined(plan, p, top, s, t, id);
        }
    }
}

/// Where nobody is owed an insertion and no node is alone, a pass changes nothing.
pub proof fn law_nothing_to_settle<'a, T, D: Fn(&[T], &[T]) -> u32>(
    plan: Plan<'a, T, D>,
    g: Graph,
    owed: Seq<bool>,
    e: u32,
    h: Graph,
)
    requires
        settled(plan, g, owed, e, h),
        owed.len() == g.len() <= u32::MAX,
        forall|i: int| 0 <= i < g.len() ==> !(#[trigger] owed[i]),
        forall|i: int| 0 <= i < g.len() ==> (#[trigger] g[i]).len() > 0 && g[i][0].len() > 0,
    ensures
        h == g,
{
    let gs = choose|gs: Seq<Graph>|
        {
            &&& #[trigger] passes(plan, gs, owed, e)
            &&& gs.len() == owed.len() + 1
            &&& gs[0] == g
            &&& gs.last() == h
        };
    lemma_no_change(plan, gs, owed, e, g.len());
}

proof fn lemma_no_change<'a, T, D: Fn(&[T], &[T]) -> u32>(
    plan: Plan<'a, T, D>,
    gs: Seq<Graph>,
    owed: Seq<bool>,
    e: u32,
    n: nat,
)
    requires
        passes(plan, gs, owed, e),
        gs[0].len() == owed.len() <= u32::MAX,
        forall|i: int| 0 <= i < owed.len() ==> !(#[trigger] owed[i]),
        forall|i: int|
            0 <= i < owed.len() ==> (#[trigger] gs[0][i]).len() > 0 && gs[0][i][0].len() > 0,
        n < gs.len(),
    ensures
        gs[n as int] == gs[0],
    decreases n,
{
    if n > 0 {
        lemma_no_change(plan, gs, owed, e, (n - 1) as nat);
        assert(settles(plan, gs[n - 1], owed[n - 1], e, (n - 1) as u32, gs[n as int]));
        assert(gs[0][n - 1][0].len() > 0);
    }
}

/// The node that reaches highest, of those other than `id`.
fn find_rival(levels: &Vec<u8>, id: u32) -> (o: u32)
    requires
        2 <= levels@.len() <= u32::MAX,
    ensures
        o == rival(levels@, id, levels@.len()),
        o < levels@.len(),
        o != id,
        forall|j: int|
            0 <= j < levels@.len() && j != id ==> #[trigger] levels@[j] <= levels@[o as int],
{
    proof {
        law_rival(levels@, id);
    }
    let mut o: u32 = if id == 0 {
        1
    } else {
        0
    };
    let mut i: usize = 0;
    while i < levels.len()
        invariant
            2 <= levels@.len() <= u32::MAX,
            i <= levels@.len(),
            o == rival(levels@, id, i as nat),
            o < levels@.len(),
        decreases levels@.len() - i,
    {
        if i as u32 != id && levels[i] > levels[o as usize] {
            o = i as u32;
        }
        i = i + 1;
    }
    o
}

/// Insert, in order, every node that is owed an insertion or has no neighbours on
/// level 0.
pub fn settle<'a, T, D: Fn(&[T], &[T]) -> u32>(
    plan: &Plan<'a, T, D>,
    links: Links,
    owed: &Vec<bool>,
    e: u32,
) -> (r: Links)
    requires
        plan.wf(),
        links.wf(),
        links.m0 == 2 * plan.m,
        lies_on(links@, *plan),
        2 <= links@.len(),
        owed@.len() == links@.len(),
        e < links@.len(),
    ensures
        r.wf(),
        r.m0 == links.m0,
        lies_on(r@, *plan),
        settled(*plan, links@, owed@, e, r@),
{
    let ghost g = links@;
    let n = links.len();
    let mut sc = Scratch::new();
    let mut w = Still::new(links);
    let ghost mut gs: Seq<Graph> = seq![g];
    let mut i: usize = 0;
    while i < n
        invariant
            plan.wf(),
            w.fits(*plan),
            2 <= n == g.len() == plan.levels@.len() == owed@.len(),
            sc.wf(),
            e < g.len(),
            i <= n,
            passes(*plan, gs, owed@, e),
            gs.len() == i + 1,
            gs[0] == g,
            gs.last() == w.links@,
        decreases n - i,
    {
        let id = i as u32;
        let ghost p = w.links@;
        proof {
            assert(p[i as int].len() == plan.shape()[i as int].len());
            w.links.lemma_degree(i as int);
        }
        if owed[i] || w.links.deg0[i] == 0 {
            proof {
                lemma_way_in(*plan, e, id);
            }
            let o = if e != id {
                e
            } else {
                find_rival(plan.levels, id)
            };
            let top = (o, plan.levels[o as usize]);
            let stages = walk_down(plan, &mut w, &mut sc, id, top);
            proof {
                assert(minds_all(Some(p), flat(stages@), Some(w.links@)));
                assert(rejoins(*plan, p, top, id, stages@, w.links@));
            }
        }
        proof {
            let h = w.links@;
            let more = gs.push(h);
            assert(settles(*plan, p, owed@[i as int], e, id, h));
            assert forall|j: int| 0 <= j < more.len() - 1 implies settles(
                *plan,
                more[j],
                #[trigger] owed@[j],
                e,
                j as u32,
                more[j + 1],
            ) by {
                if j < i {
                    assert(settles(*plan, gs[j], owed@[j], e, j as u32, gs[j + 1]));
                }
            }
            gs = more;
        }
        i = i + 1;
    }
    w.links
}

} // verus!
