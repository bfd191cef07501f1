//! Greedy beam search on one layer of a graph.
//!
//! The search keeps the `ef` best nodes met so far and a frontier of nodes whose
//! neighbours it has not looked at. It stops when the nearest frontier node is
//! farther than the worst of the best.

use vstd::prelude::*;

use crate::cand::{first, ins, insert_sorted, lemma_ins, precedes, sorted, Cand, FAR};
use crate::links::Links;
use crate::visited::Visited;

verus! {

/// The neighbour lists of a graph: node, then level, then list.
pub type Graph = Seq<Seq<Seq<u32>>>;

/// What a search knows at some moment.
#[verifier::ext_equal]
pub struct Beam {
    pub visited: Set<u32>,
    pub frontier: Seq<Cand>,
    pub best: Seq<Cand>,
}

/// The neighbours of `id` on level `lev`, none where the node does not reach
/// that level.
pub open spec fn nbrs(g: Graph, id: u32, lev: nat) -> Seq<u32> {
    if id < g.len() && lev < g[id as int].len() {
        g[id as int][lev as int]
    } else {
        Seq::empty()
    }
}

/// The distance of the worst of the best.
pub open spec fn worst(best: Seq<Cand>) -> u32 {
    if best.len() == 0 {
        FAR
    } else {
        best.last().d
    }
}

/// The beam after a new node was met: it joins when there is room, or when it is
/// nearer than the worst.
pub open spec fn offer(b: Beam, c: Cand, ef: nat) -> Beam {
    if b.best.len() < ef || c.d < worst(b.best) {
        Beam {
            visited: b.visited.insert(c.id),
            frontier: ins(b.frontier, c),
            best: first(ins(b.best, c), ef),
        }
    } else {
        Beam { visited: b.visited.insert(c.id), frontier: b.frontier, best: b.best }
    }
}

/// The beam after looking at the nodes of `list` in order; a node that was met
/// before is passed over.
pub open spec fn expand(b: Beam, list: Seq<u32>, key: spec_fn(u32) -> u32, ef: nat) -> Beam
    decreases list.len(),
{
    if list.len() == 0 {
        b
    } else {
        let p = expand(b, list.drop_last(), key, ef);
        let id = list.last();
        if p.visited.contains(id) {
            p
        } else {
            offer(p, Cand { d: key(id), id }, ef)
        }
    }
}

/// The entry points, each once.
pub open spec fn seed(eps: Seq<u32>, key: spec_fn(u32) -> u32) -> Beam
    decreases eps.len(),
{
    if eps.len() == 0 {
        Beam { visited: Set::empty(), frontier: Seq::empty(), best: Seq::empty() }
    } else {
        let p = seed(eps.drop_last(), key);
        let id = eps.last();
        let c = Cand { d: key(id), id };
        if p.visited.contains(id) {
            p
        } else {
            Beam {
                visited: p.visited.insert(id),
                frontier: ins(p.frontier, c),
                best: ins(p.best, c),
            }
        }
    }
}

/// The beam that a search starts with.
pub open spec fn start(eps: Seq<u32>, key: spec_fn(u32) -> u32, ef: nat) -> Beam {
    let p = seed(eps, key);
    Beam { visited: p.visited, frontier: p.frontier, best: first(p.best, ef) }
}

/// Nothing is left to look at, or nothing nearer can be reached.
pub open spec fn stops(b: Beam, ef: nat) -> bool {
    b.frontier.len() == 0 || (b.frontier[0].d > worst(b.best) && b.best.len() >= ef)
}

/// The nearest frontier node is taken and its neighbours are looked at.
pub open spec fn step(g: Graph, lev: nat, key: spec_fn(u32) -> u32, ef: nat, b: Beam) -> Beam {
    expand(
        Beam { visited: b.visited, frontier: b.frontier.drop_first(), best: b.best },
        nbrs(g, b.frontier[0].id, lev),
        key,
        ef,
    )
}

/// Every node that was met is a node of the graph.
pub open spec fn inside(g: Graph, b: Beam) -> bool {
    &&& b.visited.finite()
    &&& forall|id: u32| #[trigger] b.visited.contains(id) ==> id < g.len()
}

/// Every neighbour is a node of the graph.
pub open spec fn edges_inside(g: Graph, lev: nat) -> bool {
    forall|id: u32, k: int|
        0 <= k < nbrs(g, id, lev).len() ==> #[trigger] nbrs(g, id, lev)[k] < g.len()
}

/// The beam with which a search ends that has come to `b`.
pub open spec fn run(g: Graph, lev: nat, key: spec_fn(u32) -> u32, ef: nat, b: Beam) -> Beam
    decreases g.len() - b.visited.len(), b.frontier.len(),
    when inside(g, b) && edges_inside(g, lev)
    via run_decreases
{
    if stops(b, ef) {
        b
    } else {
        run(g, lev, key, ef, step(g, lev, key, ef, b))
    }
}

#[via_fn]
proof fn run_decreases(g: Graph, lev: nat, key: spec_fn(u32) -> u32, ef: nat, b: Beam) {
    if !stops(b, ef) {
        lemma_step(g, lev, key, ef, b);
    }
}

/// The beam with which the search of one layer ends.
pub open spec fn layer(
    g: Graph,
    lev: nat,
    key: spec_fn(u32) -> u32,
    eps: Seq<u32>,
    ef: nat,
) -> Beam {
    run(g, lev, key, ef, start(eps, key, ef))
}

pub proof fn lemma_bounded(s: Set<u32>, n: nat)
    requires
        s.finite(),
        forall|id: u32| #[trigger] s.contains(id) ==> id < n,
    ensures
        s.len() <= n,
    decreases n,
{
    if n == 0 {
        if s.len() > 0 {
            assert(s.contains(s.choose()));
        }
    } else if n - 1 <= u32::MAX && s.contains((n - 1) as u32) {
        lemma_bounded(s.remove((n - 1) as u32), (n - 1) as nat);
    } else {
        assert forall|id: u32| #[trigger] s.contains(id) implies id < n - 1 by {
            if id == n - 1 {
                assert(id == (n - 1) as u32);
            }
        }
        lemma_bounded(s, (n - 1) as nat);
    }
}

/// Looking at a list only ever adds nodes, and a node joins the frontier only
/// when it was not met before.
pub proof fn lemma_expand(b: Beam, list: Seq<u32>, key: spec_fn(u32) -> u32, ef: nat)
    requires
        b.visited.finite(),
    ensures
        ({
            let r = expand(b, list, key, ef);
            &&& r.visited.finite()
            &&& b.visited.len() <= r.visited.len() <= b.visited.len() + list.len()
            &&& r.visited.len() == b.visited.len() ==> r == b
            &&& forall|id: u32| #[trigger]
                r.visited.contains(id) <==> (b.visited.contains(id) || list.contains(id))
            &&& sorted(b.frontier) ==> sorted(r.frontier)
            &&& sorted(b.best) ==> sorted(r.best)
            &&& b.best.len() <= ef ==> b.best.len() <= r.best.len() <= ef
        }),
    decreases list.len(),
{
    if list.len() > 0 {
        let t = list.drop_last();
        let id = list.last();
        lemma_expand(b, t, key, ef);
        let p = expand(b, t, key, ef);
        let c = Cand { d: key(id), id };
        lemma_ins(p.frontier, c);
        lemma_ins(p.best, c);
        let r = expand(b, list, key, ef);
        assert forall|x: u32| #[trigger]
            r.visited.contains(x) <==> (b.visited.contains(x) || list.contains(x)) by {
            if list.contains(x) && x != id {
                let i = choose|i: int| 0 <= i < list.len() && list[i] == x;
                assert(t[i] == x);
                assert(t.contains(x));
            }
            if t.contains(x) {
                let i = choose|i: int| 0 <= i < t.len() && t[i] == x;
                assert(list[i] == x);
            }
            assert(list[list.len() - 1] == id);
        }
    }
}

/// A step keeps to the nodes of the graph, and either meets a new node or
/// shortens the frontier.
pub proof fn lemma_step(g: Graph, lev: nat, key: spec_fn(u32) -> u32, ef: nat, b: Beam)
    requires
        inside(g, b),
        edges_inside(g, lev),
        b.frontier.len() > 0,
    ensures
        inside(g, step(g, lev, key, ef, b)),
        b.visited.len() <= step(g, lev, key, ef, b).visited.len() <= g.len(),
        step(g, lev, key, ef, b).visited.len() == b.visited.len() ==> step(
            g,
            lev,
            key,
            ef,
            b,
        ).frontier.len() < b.frontier.len(),
{
    let p = Beam { visited: b.visited, frontier: b.frontier.drop_first(), best: b.best };
    let c = b.frontier[0].id;
    let list = nbrs(g, c, lev);
    lemma_expand(p, list, key, ef);
    let r = step(g, lev, key, ef, b);
    assert forall|id: u32| #[trigger] r.visited.contains(id) implies id < g.len() by {
        if list.contains(id) {
            let k = choose|k: int| 0 <= k < list.len() && list[k] == id;
            assert(nbrs(g, c, lev)[k] < g.len());
        }
    }
    lemma_bounded(r.visited, g.len());
}

/// The starting beam holds the entry points and nothing else.
pub proof fn lemma_seed(eps: Seq<u32>, key: spec_fn(u32) -> u32)
    ensures
        ({
            let r = seed(eps, key);
            &&& r.visited.finite()
            &&& r.visited.len() <= eps.len()
            &&& r.frontier.len() == r.best.len() == r.visited.len()
            &&& forall|id: u32| #[trigger] r.visited.contains(id) <==> eps.contains(id)
            &&& sorted(r.frontier)
            &&& sorted(r.best)
        }),
    decreases eps.len(),
{
    if eps.len() > 0 {
        let t = eps.drop_last();
        let id = eps.last();
        lemma_seed(t, key);
        let p = seed(t, key);
        let c = Cand { d: key(id), id };
        lemma_ins(p.frontier, c);
        lemma_ins(p.best, c);
        let r = seed(eps, key);
        assert forall|x: u32| #[trigger] r.visited.contains(x) <==> eps.contains(x) by {
            if eps.contains(x) && x != id {
                let i = choose|i: int| 0 <= i < eps.len() && eps[i] == x;
                assert(t[i] == x);
                assert(t.contains(x));
            }
            if t.contains(x) {
                let i = choose|i: int| 0 <= i < t.len() && t[i] == x;
                assert(eps[i] == x);
            }
            assert(eps[eps.len() - 1] == id);
        }
    }
}

pub proof fn lemma_start(eps: Seq<u32>, key: spec_fn(u32) -> u32, ef: nat)
    ensures
        ({
            let r = start(eps, key, ef);
            &&& r.visited.finite()
            &&& forall|id: u32| #[trigger] r.visited.contains(id) <==> eps.contains(id)
            &&& sorted(r.frontier)
            &&& sorted(r.best)
            &&& r.best.len() <= ef
        }),
{
    lemma_seed(eps, key);
}

/// The candidate that a node makes.
pub open spec fn cand_of(key: spec_fn(u32) -> u32, id: u32) -> Cand {
    Cand { d: key(id), id }
}

/// Each list holds nodes that were met, each once, with its true distance, and
/// in order. The best are the nearest of all that were met: a node outside is no
/// nearer than any inside, and there is one outside only when there are `ef`
/// inside.
pub open spec fn coherent(b: Beam, key: spec_fn(u32) -> u32, ef: nat) -> bool {
    &&& b.visited.finite()
    &&& sorted(b.frontier)
    &&& sorted(b.best)
    &&& b.frontier.no_duplicates()
    &&& b.best.no_duplicates()
    &&& b.best.len() <= ef
    &&& forall|c: Cand| #[trigger]
        b.frontier.contains(c) ==> b.visited.contains(c.id) && c == cand_of(key, c.id)
    &&& forall|c: Cand| #[trigger]
        b.best.contains(c) ==> b.visited.contains(c.id) && c == cand_of(key, c.id)
    &&& forall|id: u32, i: int|
        #[trigger] b.visited.contains(id) && !b.best.contains(cand_of(key, id)) && 0 <= i
            < b.best.len() ==> (#[trigger] b.best[i]).d <= key(id)
    &&& forall|id: u32|
        #[trigger] b.visited.contains(id) && !b.best.contains(cand_of(key, id)) ==> b.best.len()
            == ef
}

/// What `first` keeps of a sorted list without duplicates.
pub proof fn lemma_first(s: Seq<Cand>, k: nat)
    requires
        sorted(s),
        s.no_duplicates(),
    ensures
        sorted(first(s, k)),
        first(s, k).no_duplicates(),
        first(s, k).len() == if s.len() <= k {
            s.len()
        } else {
            k
        },
        forall|c: Cand| #[trigger] first(s, k).contains(c) ==> s.contains(c),
        forall|c: Cand, i: int|
            #[trigger] s.contains(c) && !first(s, k).contains(c) && 0 <= i < first(s, k).len()
                ==> (#[trigger] first(s, k)[i]).d <= c.d,
        forall|c: Cand| #[trigger]
            s.contains(c) && !first(s, k).contains(c) ==> first(s, k).len() == k,
{
    let f = first(s, k);
    assert forall|c: Cand| #[trigger] f.contains(c) implies s.contains(c) by {
        let i = choose|i: int| 0 <= i < f.len() && f[i] == c;
        assert(s[i] == c);
    }
    assert forall|c: Cand, i: int|
        #[trigger] s.contains(c) && !f.contains(c) && 0 <= i < f.len() implies (#[trigger] f[i]).d
        <= c.d by {
        let j = choose|j: int| 0 <= j < s.len() && s[j] == c;
        if j < f.len() {
            assert(f[j] == c);
        }
        assert(precedes(s[i], s[j]));
    }
}

pub proof fn lemma_offer_coherent(b: Beam, key: spec_fn(u32) -> u32, ef: nat, id: u32)
    requires
        coherent(b, key, ef),
        !b.visited.contains(id),
    ensures
        coherent(offer(b, cand_of(key, id), ef), key, ef),
{
    let c = cand_of(key, id);
    let r = offer(b, c, ef);
    lemma_ins(b.frontier, c);
    lemma_ins(b.best, c);
    let full = ins(b.best, c);
    assert(!b.frontier.contains(c));
    assert(!b.best.contains(c));
    if b.best.len() < ef || c.d < worst(b.best) {
        lemma_first(full, ef);
        assert forall|x: u32, i: int|
            #[trigger] r.visited.contains(x) && !r.best.contains(cand_of(key, x)) && 0 <= i
                < r.best.len() implies (#[trigger] r.best[i]).d <= key(x) by {
            if full.contains(cand_of(key, x)) {
            } else {
                assert(b.visited.contains(x) && !b.best.contains(cand_of(key, x)));
                assert(r.best.contains(r.best[i]));
                assert(full.contains(r.best[i]));
                if r.best[i] == c {
                    assert(b.best.len() == ef);
                    assert(b.best[b.best.len() - 1].d <= key(x));
                } else {
                    assert(b.best.contains(r.best[i]));
                    let k = choose|k: int| 0 <= k < b.best.len() && b.best[k] == r.best[i];
                    assert(b.best[k].d <= key(x));
                }
            }
        }
        assert forall|x: u32|
            #[trigger] r.visited.contains(x) && !r.best.contains(cand_of(key, x)) implies r.best.len()
            == ef by {
            if full.contains(cand_of(key, x)) {
            } else {
                assert(b.visited.contains(x) && !b.best.contains(cand_of(key, x)));
            }
        }
    } else {
        assert forall|x: u32, i: int|
            #[trigger] r.visited.contains(x) && !r.best.contains(cand_of(key, x)) && 0 <= i
                < r.best.len() implies (#[trigger] r.best[i]).d <= key(x) by {
            if x == id {
                assert(precedes(b.best[i], b.best[b.best.len() - 1]));
            } else {
                assert(b.visited.contains(x));
            }
        }
    }
}

pub proof fn lemma_expand_coherent(b: Beam, list: Seq<u32>, key: spec_fn(u32) -> u32, ef: nat)
    requires
        coherent(b, key, ef),
    ensures
        coherent(expand(b, list, key, ef), key, ef),
    decreases list.len(),
{
    if list.len() > 0 {
        lemma_expand_coherent(b, list.drop_last(), key, ef);
        let p = expand(b, list.drop_last(), key, ef);
        if !p.visited.contains(list.last()) {
            lemma_offer_coherent(p, key, ef, list.last());
        }
    }
}

/// Taking the nearest frontier node keeps a beam coherent.
pub proof fn lemma_take_coherent(b: Beam, key: spec_fn(u32) -> u32, ef: nat)
    requires
        coherent(b, key, ef),
        b.frontier.len() > 0,
    ensures
        coherent(
            (Beam { visited: b.visited, frontier: b.frontier.drop_first(), best: b.best }),
            key,
            ef,
        ),
{
    let f = b.frontier.drop_first();
    assert forall|c: Cand| #[trigger] f.contains(c) implies b.frontier.contains(c) by {
        let i = choose|i: int| 0 <= i < f.len() && f[i] == c;
        assert(b.frontier[i + 1] == c);
    }
    assert forall|i: int, j: int| 0 <= i <= j < f.len() implies precedes(
        #[trigger] f[i],
        #[trigger] f[j],
    ) by {
        assert(precedes(b.frontier[i + 1], b.frontier[j + 1]));
    }
}

pub proof fn lemma_step_coherent(g: Graph, lev: nat, key: spec_fn(u32) -> u32, ef: nat, b: Beam)
    requires
        coherent(b, key, ef),
        b.frontier.len() > 0,
    ensures
        coherent(step(g, lev, key, ef, b), key, ef),
{
    let p = Beam { visited: b.visited, frontier: b.frontier.drop_first(), best: b.best };
    lemma_take_coherent(b, key, ef);
    lemma_expand_coherent(p, nbrs(g, b.frontier[0].id, lev), key, ef);
}

/// With room for everything, the entry points make a coherent beam in which each
/// of them is on both lists.
pub proof fn lemma_seed_coherent(eps: Seq<u32>, key: spec_fn(u32) -> u32)
    ensures
        coherent(seed(eps, key), key, seed(eps, key).best.len()),
        seed(eps, key).frontier == seed(eps, key).best,
        forall|id: u32|
            #![trigger seed(eps, key).visited.contains(id)]
            seed(eps, key).visited.contains(id) <==> seed(eps, key).best.contains(cand_of(key, id)),
    decreases eps.len(),
{
    if eps.len() > 0 {
        let p = seed(eps.drop_last(), key);
        let id = eps.last();
        lemma_seed_coherent(eps.drop_last(), key);
        lemma_ins(p.best, cand_of(key, id));
    }
}

pub proof fn lemma_start_coherent(eps: Seq<u32>, key: spec_fn(u32) -> u32, ef: nat)
    ensures
        coherent(start(eps, key, ef), key, ef),
{
    lemma_seed(eps, key);
    lemma_seed_coherent(eps, key);
    let p = seed(eps, key);
    let r = start(eps, key, ef);
    lemma_first(p.best, ef);
    assert forall|x: u32, i: int|
        #[trigger] r.visited.contains(x) && !r.best.contains(cand_of(key, x)) && 0 <= i
            < r.best.len() implies (#[trigger] r.best[i]).d <= key(x) by {
        assert(p.best.contains(cand_of(key, x)));
    }
    assert forall|x: u32|
        #[trigger] r.visited.contains(x) && !r.best.contains(cand_of(key, x)) implies r.best.len()
        == ef by {
        assert(p.best.contains(cand_of(key, x)));
    }
}

/// A set of nodes that holds the entry points, and with each node its
/// neighbours, holds every node that the search meets.
pub proof fn lemma_run_stays(
    g: Graph,
    lev: nat,
    key: spec_fn(u32) -> u32,
    ef: nat,
    b: Beam,
    p: spec_fn(u32) -> bool,
)
    requires
        inside(g, b),
        edges_inside(g, lev),
        coherent(b, key, ef),
        forall|id: u32| #[trigger] b.visited.contains(id) ==> p(id),
        forall|id: u32, k: int|
            p(id) && 0 <= k < nbrs(g, id, lev).len() ==> p(#[trigger] nbrs(g, id, lev)[k]),
    ensures
        ({
            let r = run(g, lev, key, ef, b);
            &&& inside(g, r)
            &&& coherent(r, key, ef)
            &&& stops(r, ef)
            &&& r.visited.len() <= g.len()
            &&& b.best.len() <= r.best.len()
            &&& forall|id: u32| #[trigger] r.visited.contains(id) ==> p(id)
            &&& forall|id: u32| #[trigger] b.visited.contains(id) ==> r.visited.contains(id)
        }),
    decreases g.len() - b.visited.len(), b.frontier.len(),
{
    if stops(b, ef) {
        lemma_bounded(b.visited, g.len());
    } else {
        let s = step(g, lev, key, ef, b);
        let c = b.frontier[0];
        let q = Beam { visited: b.visited, frontier: b.frontier.drop_first(), best: b.best };
        assert(b.frontier.contains(c));
        lemma_step(g, lev, key, ef, b);
        lemma_step_coherent(g, lev, key, ef, b);
        lemma_expand(q, nbrs(g, c.id, lev), key, ef);
        assert forall|id: u32| #[trigger] s.visited.contains(id) implies p(id) by {
            if !b.visited.contains(id) {
                let list = nbrs(g, c.id, lev);
                let k = choose|k: int| 0 <= k < list.len() && list[k] == id;
                assert(p(nbrs(g, c.id, lev)[k]));
            }
        }
        lemma_run_stays(g, lev, key, ef, s, p);
        assert(forall|id: u32| #[trigger]
            b.visited.contains(id) ==> s.visited.contains(id));
    }
}

/// The same for the search of a layer from its start.
pub proof fn lemma_layer(
    g: Graph,
    lev: nat,
    key: spec_fn(u32) -> u32,
    eps: Seq<u32>,
    ef: nat,
    p: spec_fn(u32) -> bool,
)
    requires
        edges_inside(g, lev),
        forall|i: int| 0 <= i < eps.len() ==> #[trigger] eps[i] < g.len() && p(eps[i]),
        forall|id: u32, k: int|
            p(id) && 0 <= k < nbrs(g, id, lev).len() ==> p(#[trigger] nbrs(g, id, lev)[k]),
    ensures
        ({
            let r = layer(g, lev, key, eps, ef);
            &&& inside(g, r)
            &&& coherent(r, key, ef)
            &&& stops(r, ef)
            &&& r.visited.len() <= g.len()
            &&& (eps.len() > 0 && ef > 0 ==> r.best.len() > 0)
            &&& forall|id: u32| #[trigger] r.visited.contains(id) ==> p(id)
            &&& forall|i: int| 0 <= i < eps.len() ==> r.visited.contains(#[trigger] eps[i])
            &&& forall|i: int|
                0 <= i < r.best.len() ==> p((#[trigger] r.best[i]).id) && r.best[i].id < g.len()
                    && r.best[i] == cand_of(key, r.best[i].id)
        }),
{
    let b = start(eps, key, ef);
    lemma_start(eps, key, ef);
    lemma_start_coherent(eps, key, ef);
    lemma_seed(eps, key);
    assert forall|id: u32| #[trigger] b.visited.contains(id) implies p(id) && id < g.len() by {
        let i = choose|i: int| 0 <= i < eps.len() && eps[i] == id;
        assert(p(eps[i]));
    }
    lemma_run_stays(g, lev, key, ef, b, p);
    let r = layer(g, lev, key, eps, ef);
    assert forall|i: int| 0 <= i < eps.len() implies r.visited.contains(#[trigger] eps[i]) by {
        assert(eps.contains(eps[i]));
        assert(b.visited.contains(eps[i]));
    }
    if eps.len() > 0 && ef > 0 {
        assert(r.visited.contains(eps[0]));
        if r.best.len() == 0 {
            assert(!r.best.contains(cand_of(key, eps[0])));
        }
    }
    assert forall|i: int| 0 <= i < r.best.len() implies p((#[trigger] r.best[i]).id) && r.best[i].id
        < g.len() && r.best[i] == cand_of(key, r.best[i].id) by {
        assert(r.best.contains(r.best[i]));
    }
}

/// Every neighbour of `id` was met.
pub open spec fn seen(g: Graph, lev: nat, visited: Set<u32>, id: u32) -> bool {
    forall|k: int| 0 <= k < nbrs(g, id, lev).len() ==> visited.contains(#[trigger] nbrs(g, id, lev)[k])
}

/// Nothing that matters is forgotten: the neighbours of a node that was met, other
/// than `but`, are still to be looked at, or were met, or the node was turned away
/// by a full beam.
spec fn settled(
    b: Beam,
    g: Graph,
    lev: nat,
    key: spec_fn(u32) -> u32,
    ef: nat,
    but: Set<u32>,
) -> bool {
    forall|id: u32| #[trigger]
        b.visited.contains(id) && !but.contains(id) ==> {
            ||| b.frontier.contains(cand_of(key, id))
            ||| seen(g, lev, b.visited, id)
            ||| b.best.len() >= ef && !b.best.contains(cand_of(key, id))
        }
}

proof fn lemma_offer_settled(
    b: Beam,
    g: Graph,
    lev: nat,
    key: spec_fn(u32) -> u32,
    ef: nat,
    but: Set<u32>,
    x: u32,
)
    requires
        coherent(b, key, ef),
        settled(b, g, lev, key, ef, but),
        !b.visited.contains(x),
    ensures
        settled(offer(b, cand_of(key, x), ef), g, lev, key, ef, but),
{
    let c = cand_of(key, x);
    let r = offer(b, c, ef);
    lemma_ins(b.frontier, c);
    lemma_ins(b.best, c);
    assert(!b.best.contains(c));
    if b.best.len() < ef || c.d < worst(b.best) {
        lemma_first(ins(b.best, c), ef);
    }
    assert forall|id: u32| #[trigger] r.visited.contains(id) && !but.contains(id) implies {
        ||| r.frontier.contains(cand_of(key, id))
        ||| seen(g, lev, r.visited, id)
        ||| r.best.len() >= ef && !r.best.contains(cand_of(key, id))
    } by {
        let d = cand_of(key, id);
        if id != x {
            assert(b.visited.contains(id));
            if seen(g, lev, b.visited, id) {
                assert(seen(g, lev, r.visited, id));
            } else if b.frontier.contains(d) {
                assert(ins(b.frontier, c).contains(d));
            } else {
                assert(!b.best.contains(d));
                assert(!ins(b.best, c).contains(d));
            }
        } else {
            assert(ins(b.frontier, c).contains(c));
        }
    }
}

proof fn lemma_expand_settled(
    b: Beam,
    list: Seq<u32>,
    g: Graph,
    lev: nat,
    key: spec_fn(u32) -> u32,
    ef: nat,
    but: Set<u32>,
)
    requires
        coherent(b, key, ef),
        settled(b, g, lev, key, ef, but),
    ensures
        settled(expand(b, list, key, ef), g, lev, key, ef, but),
    decreases list.len(),
{
    if list.len() > 0 {
        let t = list.drop_last();
        lemma_expand_settled(b, t, g, lev, key, ef, but);
        lemma_expand_coherent(b, t, key, ef);
        let p = expand(b, t, key, ef);
        if !p.visited.contains(list.last()) {
            lemma_offer_settled(p, g, lev, key, ef, but, list.last());
        }
    }
}

proof fn lemma_run_settled(g: Graph, lev: nat, key: spec_fn(u32) -> u32, ef: nat, b: Beam)
    requires
        inside(g, b),
        edges_inside(g, lev),
        coherent(b, key, ef),
        settled(b, g, lev, key, ef, Set::empty()),
    ensures
        settled(run(g, lev, key, ef, b), g, lev, key, ef, Set::empty()),
    decreases g.len() - b.visited.len(), b.frontier.len(),
{
    if !stops(b, ef) {
        let c = b.frontier[0];
        let f = b.frontier.drop_first();
        let p = Beam { visited: b.visited, frontier: f, best: b.best };
        let list = nbrs(g, c.id, lev);
        let s = step(g, lev, key, ef, b);
        let but = set![c.id];
        assert(b.frontier.contains(c));
        assert forall|id: u32| #[trigger] p.visited.contains(id) && !but.contains(id) implies {
            ||| p.frontier.contains(cand_of(key, id))
            ||| seen(g, lev, p.visited, id)
            ||| p.best.len() >= ef && !p.best.contains(cand_of(key, id))
        } by {
            let d = cand_of(key, id);
            if b.frontier.contains(d) {
                let k = choose|k: int| 0 <= k < b.frontier.len() && b.frontier[k] == d;
                assert(f[k - 1] == d);
            }
        }
        lemma_take_coherent(b, key, ef);
        lemma_expand(p, list, key, ef);
        lemma_expand_settled(p, list, g, lev, key, ef, but);
        assert forall|k: int| 0 <= k < nbrs(g, c.id, lev).len() implies s.visited.contains(
            #[trigger] nbrs(g, c.id, lev)[k],
        ) by {
            assert(list.contains(list[k]));
        }
        assert(seen(g, lev, s.visited, c.id));
        lemma_step(g, lev, key, ef, b);
        lemma_step_coherent(g, lev, key, ef, b);
        lemma_run_settled(g, lev, key, ef, s);
    }
}

/// A search ends with the nearest of all nodes that it met, and at a local
/// optimum: it has met every neighbour of each of them.
pub proof fn law_local_optimum(
    g: Graph,
    lev: nat,
    key: spec_fn(u32) -> u32,
    eps: Seq<u32>,
    ef: nat,
)
    requires
        edges_inside(g, lev),
        forall|i: int| 0 <= i < eps.len() ==> #[trigger] eps[i] < g.len(),
    ensures
        ({
            let r = layer(g, lev, key, eps, ef);
            &&& coherent(r, key, ef)
            &&& forall|i: int|
                0 <= i < r.best.len() ==> seen(g, lev, r.visited, (#[trigger] r.best[i]).id)
        }),
{
    let b = start(eps, key, ef);
    let r = layer(g, lev, key, eps, ef);
    lemma_start_settled(g, lev, key, eps, ef);
    lemma_layer(g, lev, key, eps, ef, |x: u32| x < g.len());
    assert forall|i: int| 0 <= i < r.best.len() implies seen(
        g,
        lev,
        r.visited,
        (#[trigger] r.best[i]).id,
    ) by {
        let c = r.best[i];
        assert(r.best.contains(c));
        assert(r.visited.contains(c.id));
        if r.frontier.contains(c) {
            let k = choose|k: int| 0 <= k < r.frontier.len() && r.frontier[k] == c;
            assert(precedes(r.frontier[0], r.frontier[k]));
            assert(precedes(r.best[i], r.best[r.best.len() - 1]));
        }
    }
}

proof fn lemma_start_settled(
    g: Graph,
    lev: nat,
    key: spec_fn(u32) -> u32,
    eps: Seq<u32>,
    ef: nat,
)
    requires
        edges_inside(g, lev),
        forall|i: int| 0 <= i < eps.len() ==> #[trigger] eps[i] < g.len(),
    ensures
        settled(layer(g, lev, key, eps, ef), g, lev, key, ef, Set::empty()),
{
    let b = start(eps, key, ef);
    lemma_start(eps, key, ef);
    lemma_start_coherent(eps, key, ef);
    lemma_seed_coherent(eps, key);
    assert forall|id: u32| #[trigger] b.visited.contains(id) implies id < g.len() by {
        let i = choose|i: int| 0 <= i < eps.len() && eps[i] == id;
        assert(eps[i] < g.len());
    }
    lemma_run_settled(g, lev, key, ef, b);
}

/// `id` can be reached from the entry points in `n` steps.
pub open spec fn reachable(g: Graph, lev: nat, eps: Seq<u32>, id: u32, n: nat) -> bool
    decreases n,
{
    if n == 0 {
        eps.contains(id)
    } else {
        exists|x: u32|
            reachable(g, lev, eps, x, (n - 1) as nat) && (#[trigger] nbrs(g, x, lev)).contains(id)
    }
}

/// `id` can be reached from the entry points.
pub open spec fn connected(g: Graph, lev: nat, eps: Seq<u32>, id: u32) -> bool {
    exists|n: nat| reachable(g, lev, eps, id, n)
}

/// Whatever a search finds can be reached from the entry points.
pub proof fn law_found_is_reachable(
    g: Graph,
    lev: nat,
    key: spec_fn(u32) -> u32,
    eps: Seq<u32>,
    ef: nat,
)
    requires
        edges_inside(g, lev),
        forall|i: int| 0 <= i < eps.len() ==> #[trigger] eps[i] < g.len(),
    ensures
        forall|i: int|
            0 <= i < layer(g, lev, key, eps, ef).best.len() ==> connected(
                g,
                lev,
                eps,
                (#[trigger] layer(g, lev, key, eps, ef).best[i]).id,
            ),
{
    let p = |x: u32| connected(g, lev, eps, x);
    assert forall|i: int| 0 <= i < eps.len() implies p(#[trigger] eps[i]) by {
        assert(eps.contains(eps[i]));
        assert(reachable(g, lev, eps, eps[i], 0));
    }
    assert forall|id: u32, k: int| p(id) && 0 <= k < nbrs(g, id, lev).len() implies p(
        #[trigger] nbrs(g, id, lev)[k],
    ) by {
        let n = choose|n: nat| reachable(g, lev, eps, id, n);
        let y = nbrs(g, id, lev)[k];
        assert(nbrs(g, id, lev).contains(y));
        assert(reachable(g, lev, eps, y, n + 1));
    }
    lemma_layer(g, lev, key, eps, ef, p);
}

/// A beam that did not fill up is exhaustive: what it found is all that can be
/// reached from the entry points.
pub proof fn law_exhaustive(
    g: Graph,
    lev: nat,
    key: spec_fn(u32) -> u32,
    eps: Seq<u32>,
    ef: nat,
    id: u32,
)
    requires
        edges_inside(g, lev),
        forall|i: int| 0 <= i < eps.len() ==> #[trigger] eps[i] < g.len(),
        layer(g, lev, key, eps, ef).best.len() < ef,
        connected(g, lev, eps, id),
    ensures
        layer(g, lev, key, eps, ef).best.contains(cand_of(key, id)),
{
    lemma_exhaustive(g, lev, key, eps, ef, id, choose|n: nat| reachable(g, lev, eps, id, n));
}

proof fn lemma_exhaustive(
    g: Graph,
    lev: nat,
    key: spec_fn(u32) -> u32,
    eps: Seq<u32>,
    ef: nat,
    id: u32,
    n: nat,
)
    requires
        edges_inside(g, lev),
        forall|i: int| 0 <= i < eps.len() ==> #[trigger] eps[i] < g.len(),
        layer(g, lev, key, eps, ef).best.len() < ef,
        reachable(g, lev, eps, id, n),
    ensures
        layer(g, lev, key, eps, ef).best.contains(cand_of(key, id)),
    decreases n,
{
    let r = layer(g, lev, key, eps, ef);
    lemma_start_settled(g, lev, key, eps, ef);
    lemma_layer(g, lev, key, eps, ef, |x: u32| x < g.len());
    if n == 0 {
        let i = choose|i: int| 0 <= i < eps.len() && eps[i] == id;
        assert(r.visited.contains(eps[i]));
    } else {
        let x = choose|x: u32|
            reachable(g, lev, eps, x, (n - 1) as nat) && (#[trigger] nbrs(g, x, lev)).contains(id);
        lemma_exhaustive(g, lev, key, eps, ef, x, (n - 1) as nat);
        assert(r.visited.contains(x));
        let list = nbrs(g, x, lev);
        let k = choose|k: int| 0 <= k < list.len() && list[k] == id;
        assert(seen(g, lev, r.visited, x));
        assert(r.visited.contains(nbrs(g, x, lev)[k]));
    }
}

/// The distance from whatever is being searched for to each node.
pub trait Oracle {
    spec fn valid(&self) -> bool;

    /// How many nodes the oracle knows.
    spec fn reach(&self) -> nat;

    spec fn keys(&self) -> spec_fn(u32) -> u32;

    fn key(&self, id: u32) -> (r: u32)
        requires
            self.valid(),
            id < self.reach(),
        ensures
            r == (self.keys())(id),
    ;
}

/// The two sorted lists of a running search.
pub struct Front {
    pub frontier: Vec<Cand>,
    pub best: Vec<Cand>,
}

impl Front {
    pub open spec fn wf(&self) -> bool {
        sorted(self.frontier@) && sorted(self.best@)
    }

    /// The beam that these lists make with the nodes met so far.
    pub open spec fn beam(&self, visited: Set<u32>) -> Beam {
        Beam { visited, frontier: self.frontier@, best: self.best@ }
    }

    /// The beam at the entry points `eps`, and how many distances it took.
    pub fn start<O: Oracle>(vis: &mut Visited, o: &O, eps: &[u32], ef: usize) -> (r: (Self, usize))
        requires
            old(vis).wf(),
            old(vis)@ == Set::<u32>::empty(),
            o.valid(),
            forall|i: int|
                0 <= i < eps@.len() ==> #[trigger] eps@[i] < o.reach() && eps@[i] < old(
                    vis,
                ).room(),
        ensures
            final(vis).wf(),
            final(vis).room() == old(vis).room(),
            r.0.wf(),
            r.0.beam(final(vis)@) == start(eps@, o.keys(), ef as nat),
            r.1 == final(vis)@.len(),
    {
        let mut front = Front { frontier: Vec::new(), best: Vec::new() };
        let mut calls: usize = 0;
        let mut i: usize = 0;
        let ghost room = vis.room();
        assert(eps@.take(0) =~= Seq::empty());
        while i < eps.len()
            invariant
                i <= eps@.len(),
                vis.wf(),
                vis.room() == room,
                o.valid(),
                forall|j: int|
                    0 <= j < eps@.len() ==> #[trigger] eps@[j] < o.reach() && eps@[j] < room,
                front.wf(),
                front.beam(vis@) == seed(eps@.take(i as int), o.keys()),
                calls == vis@.len(),
                calls <= i,
                vis@.finite(),
            decreases eps@.len() - i,
        {
            let e = eps[i];
            assert(eps@.take(i + 1).drop_last() =~= eps@.take(i as int));
            if !vis.contains(e) {
                vis.mark(e);
                let c = Cand { d: o.key(e), id: e };
                insert_sorted(&mut front.frontier, c);
                insert_sorted(&mut front.best, c);
                calls = calls + 1;
            }
            i = i + 1;
        }
        assert(eps@.take(i as int) =~= eps@);
        let ghost full = front.best@;
        front.best.truncate(ef);
        assert(front.best@ =~= first(full, ef as nat));
        (front, calls)
    }

    /// Look at the nodes of `list`, and return how many distances it took.
    pub fn expand<O: Oracle>(
        &mut self,
        vis: &mut Visited,
        o: &O,
        list: &[u32],
        ef: usize,
    ) -> (calls: usize)
        requires
            old(self).wf(),
            old(vis).wf(),
            old(vis)@.finite(),
            o.valid(),
            forall|i: int|
                0 <= i < list@.len() ==> #[trigger] list@[i] < o.reach() && list@[i] < old(
                    vis,
                ).room(),
        ensures
            final(self).wf(),
            final(vis).wf(),
            final(vis).room() == old(vis).room(),
            final(self).beam(final(vis)@) == expand(
                old(self).beam(old(vis)@),
                list@,
                o.keys(),
                ef as nat,
            ),
            old(vis)@.len() + calls == final(vis)@.len(),
    {
        let mut calls: usize = 0;
        let mut i: usize = 0;
        let ghost room = vis.room();
        let ghost b = self.beam(vis@);
        let ghost met = vis@.len();
        assert(list@.take(0) =~= Seq::empty());
        while i < list.len()
            invariant
                i <= list@.len(),
                vis.wf(),
                vis@.finite(),
                vis.room() == room,
                o.valid(),
                forall|j: int|
                    0 <= j < list@.len() ==> #[trigger] list@[j] < o.reach() && list@[j] < room,
                self.wf(),
                self.beam(vis@) == expand(b, list@.take(i as int), o.keys(), ef as nat),
                met + calls == vis@.len(),
                calls <= i,
            decreases list@.len() - i,
        {
            let nb = list[i];
            assert(list@.take(i + 1).drop_last() =~= list@.take(i as int));
            if !vis.contains(nb) {
                vis.mark(nb);
                let worst = if self.best.len() == 0 {
                    FAR
                } else {
                    self.best[self.best.len() - 1].d
                };
                let c = Cand { d: o.key(nb), id: nb };
                calls = calls + 1;
                if self.best.len() < ef || c.d < worst {
                    insert_sorted(&mut self.frontier, c);
                    insert_sorted(&mut self.best, c);
                    let ghost full = self.best@;
                    self.best.truncate(ef);
                    assert(self.best@ =~= first(full, ef as nat));
                }
            }
            i = i + 1;
        }
        assert(list@.take(i as int) =~= list@);
        calls
    }

    /// Take the nearest frontier node, unless nothing nearer can be reached
    /// through it.
    pub fn next(&mut self, ef: usize) -> (r: Option<u32>)
        requires
            old(self).wf(),
        ensures
            final(self).wf(),
            final(self).best@ == old(self).best@,
            r is None <==> stops(old(self).beam(Set::empty()), ef as nat),
            r is None ==> final(self).frontier@ == old(self).frontier@,
            r matches Some(id) ==> id == old(self).frontier@[0].id && final(self).frontier@ == old(
                self,
            ).frontier@.drop_first(),
    {
        if self.frontier.len() == 0 {
            return None;
        }
        let worst = if self.best.len() == 0 {
            FAR
        } else {
            self.best[self.best.len() - 1].d
        };
        let c = self.frontier[0];
        if c.d > worst && self.best.len() >= ef {
            return None;
        }
        self.frontier.remove(0);
        assert(self.frontier@ =~= old(self).frontier@.drop_first());
        Some(c.id)
    }
}

/// Search one layer from the entry points `eps`. The second result is how many
/// distances were taken.
pub fn search_layer<O: Oracle>(
    links: &Links,
    vis: &mut Visited,
    o: &O,
    eps: &[u32],
    ef: usize,
    lev: usize,
) -> (r: (Vec<Cand>, usize))
    requires
        links.wf(),
        edges_inside(links@, lev as nat),
        old(vis).wf(),
        o.valid(),
        links@.len() <= o.reach(),
        forall|i: int| 0 <= i < eps@.len() ==> #[trigger] eps@[i] < links@.len(),
    ensures
        final(vis).wf(),
        r.0@ == layer(links@, lev as nat, o.keys(), eps@, ef as nat).best,
        r.1 == layer(links@, lev as nat, o.keys(), eps@, ef as nat).visited.len(),
{
    let ghost g = links@;
    vis.begin(links.len());
    let (mut front, mut calls) = Front::start(vis, o, eps, ef);
    let ghost ended = layer(g, lev as nat, o.keys(), eps@, ef as nat);
    let mut scratch: Vec<u32> = Vec::new();
    proof {
        lemma_start(eps@, o.keys(), ef as nat);
        lemma_start_coherent(eps@, o.keys(), ef as nat);
    }
    loop
        invariant
            links.wf(),
            g == links@,
            edges_inside(g, lev as nat),
            vis.wf(),
            vis.room() >= g.len(),
            o.valid(),
            g.len() <= o.reach(),
            front.wf(),
            inside(g, front.beam(vis@)),
            coherent(front.beam(vis@), o.keys(), ef as nat),
            calls == vis@.len(),
            run(g, lev as nat, o.keys(), ef as nat, front.beam(vis@)) == ended,
        ensures
            front.best@ == ended.best,
            calls == ended.visited.len(),
            vis.wf(),
        decreases g.len() - vis@.len(), front.frontier@.len(),
    {
        let ghost b = front.beam(vis@);
        match front.next(ef) {
            None => {
                break;
            },
            Some(id) => {
                assert(b.frontier.contains(b.frontier[0]));
                links.copy_nbrs(id, lev, &mut scratch);
                proof {
                    assert forall|i: int| 0 <= i < scratch@.len() implies #[trigger] scratch@[i]
                        < g.len() by {
                        assert(nbrs(g, id, lev as nat)[i] < g.len());
                    }
                    lemma_step(g, lev as nat, o.keys(), ef as nat, b);
                    lemma_step_coherent(g, lev as nat, o.keys(), ef as nat, b);
                    lemma_bounded(step(g, lev as nat, o.keys(), ef as nat, b).visited, g.len());
                    assert(links.levels.len() == g.len());
                }
                let more = front.expand(vis, o, &scratch, ef);
                assert(front.beam(vis@) == step(g, lev as nat, o.keys(), ef as nat, b));
                calls = calls + more;
            },
        }
    }
    (front.best, calls)
}

} // verus!
