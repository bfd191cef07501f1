//! What a thread does when it lets a node join the graph, told by the log of its
//! deeds.

use vstd::prelude::*;

use crate::beam::{
    cand_of, coherent, edges_inside, expand, inside, layer, lemma_expand, lemma_expand_coherent,
    lemma_start, lemma_start_coherent, lemma_step, lemma_take_coherent, nbrs, run, start, step,
    stops, Beam, Graph,
};
use crate::cand::{ids, Cand};
use crate::graph::pool_of;
use crate::guard::Deed;
use crate::index::sat;
use crate::links::NONE;
use crate::select::{chosen, lemma_chosen};
use crate::store::{is_top, joined, lemma_joined, lemma_push, Plan};

verus! {

/// The nodes of `list` other than `id`.
pub open spec fn skipping(list: Seq<u32>, id: u32) -> Seq<u32>
    decreases list.len(),
{
    if list.len() == 0 {
        list
    } else {
        let p = skipping(list.drop_last(), id);
        if list.last() == id {
            p
        } else {
            p.push(list.last())
        }
    }
}

pub proof fn lemma_skipping(list: Seq<u32>, id: u32)
    ensures
        forall|x: u32| #[trigger]
            skipping(list, id).contains(x) <==> list.contains(x) && x != id,
        !list.contains(id) ==> skipping(list, id) == list,
    decreases list.len(),
{
    if list.len() > 0 {
        let t = list.drop_last();
        let c = list.last();
        lemma_skipping(t, id);
        assert(list =~= t.push(c));
        assert forall|x: u32| #[trigger]
            skipping(list, id).contains(x) <==> list.contains(x) && x != id by {
            lemma_push(t, c, x);
            lemma_push(skipping(t, id), c, x);
            assert(skipping(t, id).contains(x) <==> t.contains(x) && x != id);
        }
        if !list.contains(id) {
            lemma_push(t, c, id);
            assert(skipping(list, id) =~= list);
        }
    }
}

/// Node `x` may be met by a search of level `lev` on behalf of `id`.
pub open spec fn eligible(g: Graph, id: u32, lev: nat, x: u32) -> bool {
    x < g.len() && x != id && lev < g[x as int].len()
}

/// The beam without its nearest frontier node.
pub open spec fn taken(b: Beam) -> Beam {
    Beam { visited: b.visited, frontier: b.frontier.drop_first(), best: b.best }
}

/// The beam `b` of a search on behalf of `id` after the given reads: for each, the
/// nearest frontier node is taken, and the list that was read is looked at.
pub open spec fn follow(
    b: Beam,
    reads: Seq<Deed>,
    key: spec_fn(u32) -> u32,
    ef: nat,
    id: u32,
) -> Beam
    decreases reads.len(),
{
    if reads.len() == 0 {
        b
    } else {
        let p = follow(b, reads.drop_last(), key, ef, id);
        match reads.last() {
            Deed::Read { list, .. } => expand(taken(p), skipping(list, id), key, ef),
            _ => p,
        }
    }
}

/// Where a search on behalf of `id` starts: at the nodes of `eps` other than `id`. What
/// marks an empty place is passed over.
pub open spec fn outset(eps: Seq<u32>, id: u32) -> Seq<u32> {
    skipping(skipping(eps, NONE), id)
}

pub proof fn lemma_outset(eps: Seq<u32>, id: u32)
    ensures
        forall|x: u32| #[trigger]
            outset(eps, id).contains(x) <==> eps.contains(x) && x != NONE && x != id,
        !eps.contains(NONE) && !eps.contains(id) ==> outset(eps, id) == eps,
{
    lemma_skipping(eps, NONE);
    lemma_skipping(skipping(eps, NONE), id);
    assert forall|x: u32| #[trigger] outset(eps, id).contains(x) <==> eps.contains(x) && x != NONE
        && x != id by {
        assert(skipping(eps, NONE).contains(x) <==> eps.contains(x) && x != NONE);
    }
}

/// What a search from `eps` on behalf of `id` knows after the given reads.
pub open spec fn known(
    eps: Seq<u32>,
    reads: Seq<Deed>,
    key: spec_fn(u32) -> u32,
    ef: nat,
    id: u32,
) -> Beam {
    follow(start(outset(eps, id), key, ef), reads, key, ef, id)
}

/// What an insertion did on one level: where it searched from, the lists that it
/// read, and the lists that it put in place.
pub struct Stage {
    pub lev: nat,
    pub eps: Seq<u32>,
    pub reads: Seq<Deed>,
    pub writes: Seq<Deed>,
}

/// The deeds of some stages, one after the other.
pub open spec fn flat(stages: Seq<Stage>) -> Seq<Deed>
    decreases stages.len(),
{
    if stages.len() == 0 {
        Seq::empty()
    } else {
        flat(stages.drop_last()) + stages.last().reads + stages.last().writes
    }
}

/// What one stage more adds to a log.
pub proof fn lemma_flat(log: Seq<Deed>, stages: Seq<Stage>, p: Stage)
    ensures
        log + flat(stages.push(p)) == log + flat(stages) + p.reads + p.writes,
{
    assert(stages.push(p).drop_last() =~= stages);
    assert(log + flat(stages.push(p)) =~= log + flat(stages) + p.reads + p.writes);
}

impl<'a, T, D: Fn(&[T], &[T]) -> u32> Plan<'a, T, D> {
    /// The reads are those of a search of level `lev` on behalf of `id` that has come
    /// to the beam `b`: it goes on as long as it does not stop, and each time reads
    /// the list of the nearest frontier node.
    pub open spec fn reads_right(
        &self,
        b: Beam,
        reads: Seq<Deed>,
        key: spec_fn(u32) -> u32,
        ef: nat,
        lev: nat,
        id: u32,
    ) -> bool
        decreases reads.len(),
    {
        reads.len() > 0 ==> {
            let p = follow(b, reads.drop_last(), key, ef, id);
            &&& self.reads_right(b, reads.drop_last(), key, ef, lev, id)
            &&& !stops(p, ef)
            &&& reads.last() matches Deed::Read { id: x, lev: y, list }
            &&& x == p.frontier[0].id
            &&& y == lev
            &&& self.good(x, lev, list)
        }
    }

    /// The reads are those of a whole search of level `lev`, from `eps` on, by the
    /// distances `key`, on behalf of `id`, which is itself passed over.
    pub open spec fn searches(
        &self,
        eps: Seq<u32>,
        reads: Seq<Deed>,
        key: spec_fn(u32) -> u32,
        ef: nat,
        lev: nat,
        id: u32,
    ) -> bool {
        &&& self.reads_right(start(outset(eps, id), key, ef), reads, key, ef, lev, id)
        &&& stops(known(eps, reads, key, ef, id), ef)
    }

    /// Each of `eps` reaches a level, or marks an empty place.
    pub open spec fn opens(&self, eps: Seq<u32>, lev: nat) -> bool {
        forall|i: int|
            0 <= i < eps.len() ==> #[trigger] eps[i] == NONE || (eps[i] < self.shape().len() && lev
                < self.shape()[eps[i] as int].len())
    }

    /// The nodes of a list reach a level.
    pub open spec fn reach(&self, list: Seq<u32>, lev: nat) -> bool {
        forall|i: int|
            0 <= i < list.len() ==> #[trigger] list[i] < self.shape().len() && lev
                < self.shape()[list[i] as int].len()
    }

    /// How wide a search on a level is, for a node that reaches level `l`.
    pub open spec fn width(&self, lev: nat, l: nat) -> nat {
        if lev > l {
            1
        } else {
            self.ef_construction as nat
        }
    }

    /// What a stage found.
    pub open spec fn finds(&self, p: Stage, id: u32) -> Beam {
        known(
            p.eps,
            p.reads,
            self.keys(id),
            self.width(p.lev, self.levels@[id as int] as nat),
            id,
        )
    }

    /// The writes wire `id` on a level to what is chosen among `found`: it shows
    /// itself first, then the chosen nodes link back to it, in order.
    pub open spec fn wires(
        &self,
        writes: Seq<Deed>,
        id: u32,
        lev: nat,
        found: Seq<Cand>,
    ) -> bool {
        let to = chosen(found, self.room(lev), self.corpus.pairs());
        &&& writes.len() == to.len() + 1
        &&& self.shows(writes[0], id, lev, to)
        &&& forall|k: int|
            0 <= k < to.len() ==> self.links(#[trigger] writes[k + 1], to[k], id, lev)
    }

    /// A stage reads what the insertion of `id` reads on its level: a whole search.
    #[verifier::opaque]
    pub open spec fn searched(&self, p: Stage, id: u32) -> bool {
        let l = self.levels@[id as int] as nat;
        self.searches(p.eps, p.reads, self.keys(id), self.width(p.lev, l), p.lev, id)
    }

    /// A stage is what the insertion of `id` does on its level: a search, and on the
    /// levels that `id` reaches `id` is wired to what was found.
    #[verifier::opaque]
    pub open spec fn stage_right(&self, p: Stage, id: u32) -> bool {
        let l = self.levels@[id as int] as nat;
        &&& self.searched(p, id)
        &&& if p.lev > l || self.finds(p, id).best.len() == 0 {
            p.writes.len() == 0
        } else {
            self.wires(p.writes, id, p.lev, self.finds(p, id).best)
        }
    }

    /// Where the level below a stage is searched from: the nearest node that was
    /// found while the walk is above the level of `id`, and all that were found from
    /// there on. Where nothing was found, nothing changes.
    pub open spec fn after(&self, p: Stage, id: u32) -> Seq<u32> {
        let best = self.finds(p, id).best;
        if best.len() == 0 {
            p.eps
        } else if p.lev > self.levels@[id as int] {
            seq![best[0].id]
        } else {
            ids(best)
        }
    }

    /// Where stage `i` searches from.
    pub open spec fn before(&self, stages: Seq<Stage>, e: u32, i: int, id: u32) -> Seq<u32> {
        if i == 0 {
            seq![e]
        } else {
            self.after(stages[i - 1], id)
        }
    }

    /// The first stages of the insertion of `id`, from the entry `e` on level
    /// `height` down: one per level, each right, and each from where the one above
    /// leads.
    pub open spec fn descends(&self, stages: Seq<Stage>, e: u32, height: nat, id: u32) -> bool {
        forall|i: int|
            0 <= i < stages.len() ==> {
                &&& (#[trigger] stages[i]).lev == height - i
                &&& stages[i].eps == self.before(stages, e, i, id)
                &&& self.stage_right(stages[i], id)
            }
    }

    /// The searches of `descends`, whatever is written on the way.
    pub open spec fn walks(&self, stages: Seq<Stage>, e: u32, height: nat, id: u32) -> bool {
        forall|i: int|
            0 <= i < stages.len() ==> {
                &&& (#[trigger] stages[i]).lev == height - i
                &&& stages[i].eps == self.before(stages, e, i, id)
                &&& self.searched(stages[i], id)
            }
    }

    /// How many distances some stages take.
    pub open spec fn spent(&self, stages: Seq<Stage>, id: u32) -> nat
        decreases stages.len(),
    {
        if stages.len() == 0 {
            0
        } else {
            self.spent(stages.drop_last(), id) + self.finds(stages.last(), id).visited.len()
        }
    }

    /// The deeds are the insertion of `id` from the entry `top`, in these stages: the
    /// entry is read, then come the levels from there down to level 0, and a second
    /// look at the entry where `id` reaches above level 0.
    pub open spec fn tells(
        &self,
        top: (u32, u8),
        stages: Seq<Stage>,
        deeds: Seq<Deed>,
        id: u32,
    ) -> bool {
        let l = self.levels@[id as int];
        let main = seq![Deed::Enter { top }] + flat(stages);
        &&& is_top(self.shape(), top)
        &&& stages.len() == top.1 + 1
        &&& self.descends(stages, top.0, top.1 as nat, id)
        &&& if l == 0 {
            deeds == main
        } else {
            deeds.len() > 0 && deeds.drop_last() == main && self.raises(deeds.last(), id, l)
        }
    }

    /// The deeds are an insertion of `id`, which takes a count of distances from
    /// `before` to `after`.
    pub open spec fn inserts(&self, deeds: Seq<Deed>, id: u32, before: u64, after: u64) -> bool {
        exists|top: (u32, u8), stages: Seq<Stage>| #[trigger]
            self.tells(top, stages, deeds, id) && after == sat(before + self.spent(stages, id))
    }

    /// One stage more.
    pub proof fn lemma_descends(
        &self,
        stages: Seq<Stage>,
        p: Stage,
        e: u32,
        height: nat,
        id: u32,
    )
        requires
            self.descends(stages, e, height, id),
            p.lev == height - stages.len(),
            p.eps == self.before(stages, e, stages.len() as int, id),
            self.stage_right(p, id),
        ensures
            self.descends(stages.push(p), e, height, id),
            self.before(stages.push(p), e, (stages.len() + 1) as int, id) == self.after(p, id),
            self.spent(stages.push(p), id) == self.spent(stages, id) + self.finds(
                p,
                id,
            ).visited.len(),
    {
        let r = stages.push(p);
        assert(r.drop_last() =~= stages);
        assert forall|i: int| 0 <= i < r.len() implies {
            &&& (#[trigger] r[i]).lev == height - i
            &&& r[i].eps == self.before(r, e, i, id)
            &&& self.stage_right(r[i], id)
        } by {
            if i < stages.len() {
                assert(r[i] == stages[i]);
                assert(stages[i].eps == self.before(stages, e, i, id));
            }
        }
    }

    pub proof fn lemma_descends_walks(
        &self,
        stages: Seq<Stage>,
        e: u32,
        height: nat,
        id: u32,
    )
        requires
            self.descends(stages, e, height, id),
        ensures
            self.walks(stages, e, height, id),
    {
        reveal(Plan::stage_right);
    }

    /// One search more.
    pub proof fn lemma_walks(
        &self,
        stages: Seq<Stage>,
        p: Stage,
        e: u32,
        height: nat,
        id: u32,
    )
        requires
            self.walks(stages, e, height, id),
            p.lev == height - stages.len(),
            p.eps == self.before(stages, e, stages.len() as int, id),
            self.searched(p, id),
        ensures
            self.walks(stages.push(p), e, height, id),
    {
        let r = stages.push(p);
        assert forall|i: int| 0 <= i < r.len() implies {
            &&& (#[trigger] r[i]).lev == height - i
            &&& r[i].eps == self.before(r, e, i, id)
            &&& self.searched(r[i], id)
        } by {
            if i < stages.len() {
                assert(r[i] == stages[i]);
                assert(stages[i].eps == self.before(stages, e, i, id));
            }
        }
    }

    /// The first of some searches.
    pub proof fn lemma_walks_prefix(
        &self,
        stages: Seq<Stage>,
        n: int,
        e: u32,
        height: nat,
        id: u32,
    )
        requires
            self.walks(stages, e, height, id),
            0 <= n <= stages.len(),
        ensures
            self.walks(stages.take(n), e, height, id),
    {
        let r = stages.take(n);
        assert forall|i: int| 0 <= i < r.len() implies {
            &&& (#[trigger] r[i]).lev == height - i
            &&& r[i].eps == self.before(r, e, i, id)
            &&& self.searched(r[i], id)
        } by {
            assert(r[i] == stages[i]);
            assert(stages[i].eps == self.before(stages, e, i, id));
        }
    }

    /// Each search starts at nodes that reach its level, and what it finds are such nodes
    /// other than `id`, each once and with its distance from `id`.
    pub proof fn lemma_walk(&self, stages: Seq<Stage>, top: (u32, u8), id: u32, i: int)
        requires
            is_top(self.shape(), top),
            self.walks(stages, top.0, top.1 as nat, id),
            0 <= i < stages.len() <= top.1 + 1,
        ensures
            self.reach(stages[i].eps, stages[i].lev),
            ({
                let b = self.finds(stages[i], id);
                &&& coherent(
                    b,
                    self.keys(id),
                    self.width(stages[i].lev, self.levels@[id as int] as nat),
                )
                &&& forall|k: int|
                    0 <= k < b.best.len() ==> eligible(
                        self.shape(),
                        id,
                        stages[i].lev,
                        (#[trigger] b.best[k]).id,
                    )
            }),
        decreases i,
    {
        reveal(Plan::searched);
        let p = stages[i];
        let ef = self.width(p.lev, self.levels@[id as int] as nat);
        assert(p.eps == self.before(stages, top.0, i, id));
        if i > 0 {
            self.lemma_walk(stages, top, id, i - 1);
            let q = stages[i - 1];
            let best = self.finds(q, id).best;
            assert(q.lev == p.lev + 1);
            assert forall|k: int| 0 <= k < p.eps.len() implies #[trigger] p.eps[k]
                < self.shape().len() && p.lev < self.shape()[p.eps[k] as int].len() by {
                if best.len() == 0 {
                    assert(q.eps[k] < self.shape().len());
                } else {
                    assert(eligible(self.shape(), id, q.lev, best[k].id));
                }
            }
        }
        self.lemma_searches(p.eps, p.reads, self.keys(id), ef, p.lev, id);
    }

    /// A search stays on nodes of the level other than `id`, forgets nothing, and
    /// knows the nearest of what it has met.
    pub proof fn lemma_follow(
        &self,
        b: Beam,
        reads: Seq<Deed>,
        key: spec_fn(u32) -> u32,
        ef: nat,
        lev: nat,
        id: u32,
    )
        requires
            self.reads_right(b, reads, key, ef, lev, id),
            coherent(b, key, ef),
            forall|x: u32| #[trigger]
                b.visited.contains(x) ==> eligible(self.shape(), id, lev, x),
        ensures
            ({
                let r = follow(b, reads, key, ef, id);
                &&& coherent(r, key, ef)
                &&& forall|x: u32| #[trigger]
                    r.visited.contains(x) ==> eligible(self.shape(), id, lev, x)
                &&& forall|x: u32| #[trigger] b.visited.contains(x) ==> r.visited.contains(x)
            }),
        decreases reads.len(),
    {
        if reads.len() > 0 {
            let p = follow(b, reads.drop_last(), key, ef, id);
            self.lemma_follow(b, reads.drop_last(), key, ef, lev, id);
            if let Deed::Read { id: x, list, .. } = reads.last() {
                self.lemma_look(p, x, list, key, ef, lev, id);
            }
        }
    }

    /// The same for one list.
    pub proof fn lemma_look(
        &self,
        p: Beam,
        x: u32,
        list: Seq<u32>,
        key: spec_fn(u32) -> u32,
        ef: nat,
        lev: nat,
        id: u32,
    )
        requires
            coherent(p, key, ef),
            p.frontier.len() > 0,
            self.good(x, lev, list),
            forall|y: u32| #[trigger]
                p.visited.contains(y) ==> eligible(self.shape(), id, lev, y),
        ensures
            forall|i: int|
                0 <= i < skipping(list, id).len() ==> eligible(
                    self.shape(),
                    id,
                    lev,
                    #[trigger] skipping(list, id)[i],
                ),
            ({
                let r = expand(taken(p), skipping(list, id), key, ef);
                &&& coherent(r, key, ef)
                &&& forall|y: u32| #[trigger]
                    r.visited.contains(y) ==> eligible(self.shape(), id, lev, y)
                &&& forall|y: u32| #[trigger] p.visited.contains(y) ==> r.visited.contains(y)
            }),
    {
        let g = self.shape();
        let s = skipping(list, id);
        lemma_skipping(list, id);
        assert forall|i: int| 0 <= i < s.len() implies eligible(g, id, lev, #[trigger] s[i]) by {
            assert(s.contains(s[i]));
            let k = choose|k: int| 0 <= k < list.len() && list[k] == s[i];
            assert(list[k] < g.len());
        }
        lemma_take_coherent(p, key, ef);
        lemma_expand(taken(p), s, key, ef);
        lemma_expand_coherent(taken(p), s, key, ef);
        let r = expand(taken(p), s, key, ef);
        assert forall|y: u32| #[trigger] r.visited.contains(y) implies eligible(g, id, lev, y) by {
            if s.contains(y) {
                let k = choose|k: int| 0 <= k < s.len() && s[k] == y;
                assert(eligible(g, id, lev, s[k]));
            }
        }
    }

    /// What holds of a whole search.
    pub proof fn lemma_searches(
        &self,
        eps: Seq<u32>,
        reads: Seq<Deed>,
        key: spec_fn(u32) -> u32,
        ef: nat,
        lev: nat,
        id: u32,
    )
        requires
            self.searches(eps, reads, key, ef, lev, id),
            self.opens(eps, lev),
        ensures
            ({
                let b = known(eps, reads, key, ef, id);
                &&& coherent(b, key, ef)
                &&& forall|i: int|
                    0 <= i < b.best.len() ==> eligible(
                        self.shape(),
                        id,
                        lev,
                        (#[trigger] b.best[i]).id,
                    )
                &&& forall|i: int|
                    0 <= i < eps.len() && eps[i] != NONE && eps[i] != id ==> b.visited.contains(
                        #[trigger] eps[i],
                    )
            }),
    {
        let b = known(eps, reads, key, ef, id);
        self.lemma_begins(eps, key, ef, lev, id);
        self.lemma_follow(start(outset(eps, id), key, ef), reads, key, ef, lev, id);
        lemma_outset(eps, id);
        lemma_start(outset(eps, id), key, ef);
        assert forall|i: int| 0 <= i < b.best.len() implies eligible(
            self.shape(),
            id,
            lev,
            (#[trigger] b.best[i]).id,
        ) by {
            assert(b.best.contains(b.best[i]));
            assert(b.visited.contains(b.best[i].id));
        }
        assert forall|i: int| 0 <= i < eps.len() && eps[i] != NONE && eps[i] != id implies
            b.visited.contains(#[trigger] eps[i]) by {
            assert(eps.contains(eps[i]));
            assert(outset(eps, id).contains(eps[i]));
            assert(start(outset(eps, id), key, ef).visited.contains(eps[i]));
        }
    }

    /// What holds of the beam that a search starts with.
    pub proof fn lemma_begins(
        &self,
        eps: Seq<u32>,
        key: spec_fn(u32) -> u32,
        ef: nat,
        lev: nat,
        id: u32,
    )
        requires
            self.opens(eps, lev),
        ensures
            forall|i: int|
                0 <= i < outset(eps, id).len() ==> eligible(
                    self.shape(),
                    id,
                    lev,
                    #[trigger] outset(eps, id)[i],
                ),
            ({
                let b = start(outset(eps, id), key, ef);
                &&& coherent(b, key, ef)
                &&& forall|x: u32| #[trigger]
                    b.visited.contains(x) ==> eligible(self.shape(), id, lev, x)
            }),
    {
        let g = self.shape();
        let s = outset(eps, id);
        lemma_outset(eps, id);
        assert forall|i: int| 0 <= i < s.len() implies eligible(g, id, lev, #[trigger] s[i]) by {
            assert(s.contains(s[i]));
            let k = choose|k: int| 0 <= k < eps.len() && eps[k] == s[i];
            assert(eps[k] == NONE || eps[k] < g.len());
        }
        lemma_start(s, key, ef);
        lemma_start_coherent(s, key, ef);
        let b = start(s, key, ef);
        assert forall|x: u32| #[trigger] b.visited.contains(x) implies eligible(g, id, lev, x) by {
            let k = choose|k: int| 0 <= k < s.len() && s[k] == x;
            assert(eligible(g, id, lev, s[k]));
        }
    }
}

/// Every list that was read is, but for `id`, that of a graph.
pub open spec fn agrees(g: Graph, reads: Seq<Deed>, lev: nat, id: u32) -> bool {
    forall|i: int|
        0 <= i < reads.len() ==> match #[trigger] reads[i] {
            Deed::Read { id: x, list, .. } => skipping(list, id) == nbrs(g, x, lev),
            _ => true,
        }
}

/// A search among other threads whose reads all come from one graph is the search of
/// that graph.
pub proof fn law_quiet_search<'a, T, D: Fn(&[T], &[T]) -> u32>(
    plan: Plan<'a, T, D>,
    g: Graph,
    eps: Seq<u32>,
    reads: Seq<Deed>,
    key: spec_fn(u32) -> u32,
    ef: nat,
    lev: nat,
    id: u32,
)
    requires
        plan.searches(eps, reads, key, ef, lev, id),
        agrees(g, reads, lev, id),
        edges_inside(g, lev),
        forall|i: int| 0 <= i < eps.len() ==> #[trigger] eps[i] == NONE || eps[i] < g.len(),
    ensures
        known(eps, reads, key, ef, id) == layer(g, lev, key, outset(eps, id), ef),
{
    let s = outset(eps, id);
    let b = start(s, key, ef);
    lemma_start(s, key, ef);
    lemma_outset(eps, id);
    assert forall|x: u32| #[trigger] b.visited.contains(x) implies x < g.len() by {
        assert(eps.contains(x));
        let i = choose|i: int| 0 <= i < eps.len() && eps[i] == x;
        assert(eps[i] == NONE || eps[i] < g.len());
    }
    lemma_quiet(plan, g, b, reads, key, ef, lev, id);
}

proof fn lemma_quiet<'a, T, D: Fn(&[T], &[T]) -> u32>(
    plan: Plan<'a, T, D>,
    g: Graph,
    b: Beam,
    reads: Seq<Deed>,
    key: spec_fn(u32) -> u32,
    ef: nat,
    lev: nat,
    id: u32,
)
    requires
        plan.reads_right(b, reads, key, ef, lev, id),
        agrees(g, reads, lev, id),
        edges_inside(g, lev),
        inside(g, b),
    ensures
        inside(g, follow(b, reads, key, ef, id)),
        run(g, lev, key, ef, b) == run(g, lev, key, ef, follow(b, reads, key, ef, id)),
    decreases reads.len(),
{
    if reads.len() > 0 {
        let t = reads.drop_last();
        assert forall|i: int| 0 <= i < t.len() implies match #[trigger] t[i] {
            Deed::Read { id: x, list, .. } => skipping(list, id) == nbrs(g, x, lev),
            _ => true,
        } by {
            assert(reads[i] == t[i]);
        }
        lemma_quiet(plan, g, b, t, key, ef, lev, id);
        let p = follow(b, t, key, ef, id);
        assert(reads[reads.len() - 1] == reads.last());
        lemma_step(g, lev, key, ef, p);
        assert(follow(b, reads, key, ef, id) == step(g, lev, key, ef, p));
    }
}

/// Where `id` shows itself with at least one node, its list is not empty.
proof fn lemma_shows_some<'a, T, D: Fn(&[T], &[T]) -> u32>(
    plan: Plan<'a, T, D>,
    d: Deed,
    id: u32,
    lev: nat,
    to: Seq<u32>,
)
    requires
        plan.shows(d, id, lev, to),
        plan.m >= 1,
        to.no_duplicates(),
        to.len() > 0,
    ensures
        d matches Deed::Put { list, .. } && list.len() > 0,
{
    if let Deed::Put { cur, .. } = d {
        let pair = plan.corpus.pairs();
        lemma_joined(to, cur);
        let all = joined(to, cur);
        assert(to.contains(to[0]));
        assert(all.contains(to[0]));
        let pool = pool_of(id, all, pair);
        assert forall|i: int, j: int| 0 <= i < pool.len() && 0 <= j < pool.len() && i != j implies
            pool[i] != pool[j] by {
            assert(all[i] != all[j]);
        }
        lemma_chosen(pool, plan.room(lev), pair, |x: u32| pair(id, x));
    }
}

/// Whatever the other threads do, an insertion from an entry other than `id` finds a
/// node on every level, and on each level that both it and the entry reach it shows
/// itself with a neighbour.
pub proof fn law_insertion_finds_company<'a, T, D: Fn(&[T], &[T]) -> u32>(
    plan: Plan<'a, T, D>,
    top: (u32, u8),
    stages: Seq<Stage>,
    deeds: Seq<Deed>,
    id: u32,
    i: int,
)
    requires
        plan.m >= 1,
        plan.ef_construction >= 1,
        plan.levels@.len() <= u32::MAX,
        plan.tells(top, stages, deeds, id),
        top.0 != id,
        0 <= i <= top.1,
    ensures
        plan.finds(stages[i], id).best.len() > 0,
        stages[i].lev <= plan.levels@[id as int] ==> {
            &&& stages[i].writes.len() > 0
            &&& stages[i].writes[0] matches Deed::Put { id: x, lev, list, .. }
            &&& x == id
            &&& lev == stages[i].lev
            &&& list.len() > 0
        },
{
    reveal(Plan::stage_right);
    lemma_company(plan, top, stages, id, i);
    let p = stages[i];
    let key = plan.keys(id);
    let found = plan.finds(p, id).best;
    let l = plan.levels@[id as int] as nat;
    if p.lev <= l {
        let room = plan.room(p.lev);
        let to = chosen(found, room, plan.corpus.pairs());
        lemma_chosen(found, room, plan.corpus.pairs(), key);
        lemma_shows_some(plan, p.writes[0], id, p.lev, to);
    }
}

pub proof fn lemma_company<'a, T, D: Fn(&[T], &[T]) -> u32>(
    plan: Plan<'a, T, D>,
    top: (u32, u8),
    stages: Seq<Stage>,
    id: u32,
    i: int,
)
    requires
        plan.ef_construction >= 1,
        plan.levels@.len() <= u32::MAX,
        is_top(plan.shape(), top),
        stages.len() == top.1 + 1,
        plan.descends(stages, top.0, top.1 as nat, id),
        top.0 != id,
        0 <= i <= top.1,
    ensures
        ({
            let b = plan.finds(stages[i], id);
            &&& b.best.len() > 0
            &&& coherent(
                b,
                plan.keys(id),
                plan.width(stages[i].lev, plan.levels@[id as int] as nat),
            )
            &&& forall|k: int|
                0 <= k < b.best.len() ==> eligible(
                    plan.shape(),
                    id,
                    stages[i].lev,
                    (#[trigger] b.best[k]).id,
                )
        }),
    decreases i,
{
    reveal(Plan::stage_right);
    reveal(Plan::searched);
    let p = stages[i];
    let l = plan.levels@[id as int] as nat;
    let ef = plan.width(p.lev, l);
    assert(p.eps == plan.before(stages, top.0, i, id));
    if i > 0 {
        lemma_company(plan, top, stages, id, i - 1);
        let best = plan.finds(stages[i - 1], id).best;
        assert(stages[i - 1].lev == p.lev + 1);
        assert(best[0].id != id);
        assert(ids(best)[0] == best[0].id);
        assert forall|k: int| 0 <= k < p.eps.len() implies #[trigger] p.eps[k] < plan.shape().len()
            && p.lev < plan.shape()[p.eps[k] as int].len() by {
            assert(eligible(plan.shape(), id, stages[i - 1].lev, best[k].id));
        }
    }
    plan.lemma_searches(p.eps, p.reads, plan.keys(id), ef, p.lev, id);
    let b = plan.finds(p, id);
    assert(p.eps.len() > 0 && p.eps[0] != id);
    assert(b.visited.contains(p.eps[0]));
    if b.best.len() == 0 {
        assert(!b.best.contains(cand_of(plan.keys(id), p.eps[0])));
    }
}

} // verus!
