//! How the lists of a graph came to be, step by step.

use vstd::prelude::*;

use crate::beam::{cand_of, lemma_bounded, nbrs, Graph};
use crate::graph::{good_list, lemma_backlink, pool_of, same_shape, sound};
use crate::growth::lemma_backlink_from;
use crate::guard::Deed;
use crate::replay::lower;
use crate::select::{chosen, lemma_chosen};
use crate::store::{
    is_top, joined, lemma_joined, lemma_published, lemma_push, published, relinked, Plan,
};
use crate::trace::{eligible, Stage};

verus! {

/// The searches of an insertion, from the entry `top` down.
pub struct Chain {
    pub top: (u32, u8),
    pub stages: Seq<Stage>,
}

/// How a list may change.
pub enum Step {
    /// Its node shows itself with what is chosen among what the last search of `chain`
    /// found.
    Show { chain: Chain },
    /// Its node links back to `from`, which chose it among what the last search of
    /// `chain` found.
    Link { from: u32, chain: Chain },
}

/// The searches that a step goes by.
pub open spec fn chain_of(s: Step) -> Chain {
    match s {
        Step::Show { chain } => chain,
        Step::Link { chain, .. } => chain,
    }
}

/// The steps of every list: node, then level, then steps.
pub type History = Seq<Seq<Seq<Step>>>;

impl Chain {
    /// The first `n` searches.
    pub open spec fn first(self, n: int) -> Chain {
        Chain { top: self.top, stages: self.stages.take(n) }
    }
}

impl<'a, T, D: Fn(&[T], &[T]) -> u32> Plan<'a, T, D> {
    /// The chain holds the searches that an insertion of `id` makes, from some entry on.
    pub open spec fn chained(&self, c: Chain, id: u32) -> bool {
        &&& is_top(self.shape(), c.top)
        &&& 0 < c.stages.len() <= c.top.1 + 1
        &&& self.walks(c.stages, c.top.0, c.top.1 as nat, id)
    }

    /// What an insertion of `id` chooses on the level of a stage.
    pub open spec fn choice(&self, p: Stage, id: u32) -> Seq<u32> {
        chosen(self.finds(p, id).best, self.room(p.lev), self.corpus.pairs())
    }

    /// A step that the list of `id` on a level may take.
    #[verifier::opaque]
    pub open spec fn step_right(&self, id: u32, lev: nat, s: Step) -> bool {
        match s {
            Step::Show { chain } => {
                &&& self.chained(chain, id)
                &&& chain.stages.last().lev == lev
                &&& lev <= self.levels@[id as int]
                &&& self.finds(chain.stages.last(), id).best.len() > 0
            },
            Step::Link { from, chain } => {
                &&& eligible(self.shape(), id, lev, from)
                &&& self.chained(chain, from)
                &&& chain.stages.last().lev == lev
                &&& self.choice(chain.stages.last(), from).contains(id)
            },
        }
    }

    /// `id` shows itself on a level with the nodes of `to`: these are chosen among what
    /// the last search of `chain` found, which started at `eps` and after which the level
    /// below is searched from `next`. It is the first level that `id` joins, or is not.
    pub open spec fn showing(
        &self,
        id: u32,
        lev: nat,
        to: Seq<u32>,
        eps: Seq<u32>,
        next: Seq<u32>,
        first: bool,
        chain: Chain,
    ) -> bool {
        let p = chain.stages.last();
        &&& self.step_right(id, lev, Step::Show { chain })
        &&& to == self.choice(p, id)
        &&& eps == p.eps
        &&& next == self.after(p, id)
        &&& first == (lev == lower(self.levels@[id as int] as nat, chain.top.1 as nat))
    }

    /// `nb` links back to `id` on a level: `id` chose it among what the last search of
    /// `chain` found.
    pub open spec fn asking(&self, nb: u32, id: u32, lev: nat, chain: Chain) -> bool {
        &&& self.step_right(nb, lev, Step::Link { from: id, chain })
        &&& lev < self.shape()[nb as int].len()
    }

    /// The list of `id` on a level after some steps, empty at first.
    pub open spec fn list_after(&self, steps: Seq<Step>, id: u32, lev: nat) -> Seq<u32>
        decreases steps.len(),
    {
        if steps.len() == 0 {
            Seq::empty()
        } else {
            self.stepped(self.list_after(steps.drop_last(), id, lev), id, lev, steps.last())
        }
    }

    /// The list `cur` of `id` on a level after one step.
    pub open spec fn stepped(&self, cur: Seq<u32>, id: u32, lev: nat, s: Step) -> Seq<u32> {
        let (room, pair) = (self.room(lev), self.corpus.pairs());
        match s {
            Step::Show { chain } => published(
                self.choice(chain.stages.last(), id),
                cur,
                id,
                room,
                pair,
            ),
            Step::Link { from, .. } => relinked(cur, id, from, room, pair),
        }
    }

    /// `steps` are right, and lead to the list of `id` on a level.
    pub open spec fn leads_to(
        &self,
        id: u32,
        lev: nat,
        steps: Seq<Step>,
        list: Seq<u32>,
    ) -> bool {
        &&& forall|i: int| 0 <= i < steps.len() ==> self.step_right(id, lev, #[trigger] steps[i])
        &&& list == self.list_after(steps, id, lev)
    }

    /// The steps go by searches that read lists which steps lead to, and these go by such
    /// searches again, at most `d` times over.
    pub open spec fn sourced(&self, d: nat, steps: Seq<Step>) -> bool
        decreases d, 2nat,
    {
        forall|i: int| 0 <= i < steps.len() ==> self.chain_sourced(d, chain_of(#[trigger] steps[i]))
    }

    /// The same of the searches of one chain.
    pub open spec fn chain_sourced(&self, d: nat, c: Chain) -> bool
        decreases d, 1nat,
    {
        forall|i: int, j: int|
            0 <= i < c.stages.len() && 0 <= j < c.stages[i].reads.len() ==> self.read_sourced(
                d,
                #[trigger] c.stages[i].reads[j],
            )
    }

    /// The same of one list that was read.
    pub open spec fn read_sourced(&self, d: nat, r: Deed) -> bool
        decreases d, 0nat,
    {
        match r {
            Deed::Read { id, lev, list } => {
                d > 0 && exists|steps: Seq<Step>| #[trigger]
                    self.leads_to(id, lev, steps, list) && self.sourced((d - 1) as nat, steps)
            },
            _ => true,
        }
    }

    /// The steps go by searches of lists that such steps, in turn, lead to.
    #[verifier::opaque]
    pub open spec fn grounded(&self, steps: Seq<Step>) -> bool {
        exists|d: nat| self.sourced(d, steps)
    }

    /// A list that was read is one that such steps lead to.
    #[verifier::opaque]
    pub open spec fn read_known(&self, r: Deed) -> bool {
        exists|d: nat| self.read_sourced(d, r)
    }

    /// The same of some lists.
    pub open spec fn reads_known(&self, reads: Seq<Deed>) -> bool {
        forall|j: int| 0 <= j < reads.len() ==> self.read_known(#[trigger] reads[j])
    }

    /// The same of the lists that were read in some stages.
    pub open spec fn stages_known(&self, stages: Seq<Stage>) -> bool {
        forall|i: int| 0 <= i < stages.len() ==> self.reads_known((#[trigger] stages[i]).reads)
    }

    /// Deeper is no less.
    pub proof fn lemma_deeper(&self, d: nat, e: nat, steps: Seq<Step>)
        requires
            self.sourced(d, steps),
            d <= e,
        ensures
            self.sourced(e, steps),
        decreases d, 2nat,
    {
        assert forall|i: int| 0 <= i < steps.len() implies self.chain_sourced(
            e,
            chain_of(#[trigger] steps[i]),
        ) by {
            self.lemma_deeper_chain(d, e, chain_of(steps[i]));
        }
    }

    pub proof fn lemma_deeper_chain(&self, d: nat, e: nat, c: Chain)
        requires
            self.chain_sourced(d, c),
            d <= e,
        ensures
            self.chain_sourced(e, c),
        decreases d, 1nat,
    {
        assert forall|i: int, j: int|
            0 <= i < c.stages.len() && 0 <= j < c.stages[i].reads.len() implies self.read_sourced(
            e,
            #[trigger] c.stages[i].reads[j],
        ) by {
            self.lemma_deeper_read(d, e, c.stages[i].reads[j]);
        }
    }

    pub proof fn lemma_deeper_read(&self, d: nat, e: nat, r: Deed)
        requires
            self.read_sourced(d, r),
            d <= e,
        ensures
            self.read_sourced(e, r),
        decreases d, 0nat,
    {
        if let Deed::Read { id, lev, list } = r {
            let steps = choose|steps: Seq<Step>| #[trigger]
                self.leads_to(id, lev, steps, list) && self.sourced((d - 1) as nat, steps);
            self.lemma_deeper((d - 1) as nat, (e - 1) as nat, steps);
        }
    }

    /// One depth serves all of some lists.
    proof fn lemma_reads_depth(&self, reads: Seq<Deed>, n: nat) -> (d: nat)
        requires
            self.reads_known(reads),
            n <= reads.len(),
        ensures
            forall|j: int| 0 <= j < n ==> self.read_sourced(d, #[trigger] reads[j]),
        decreases n,
    {
        if n == 0 {
            0
        } else {
            let d = self.lemma_reads_depth(reads, (n - 1) as nat);
            let r = reads[n - 1];
            assert(self.read_known(r)) by {
                assert(self.read_known(reads[n - 1]));
            }
            reveal(Plan::read_known);
            let e = choose|e: nat| self.read_sourced(e, r);
            let m = if d >= e {
                d
            } else {
                e
            };
            self.lemma_deeper_read(e, m, reads[n - 1]);
            assert forall|j: int| 0 <= j < n implies self.read_sourced(m, #[trigger] reads[j]) by {
                if j < n - 1 {
                    self.lemma_deeper_read(d, m, reads[j]);
                }
            }
            m
        }
    }

    /// One depth serves all searches of a chain.
    proof fn lemma_chain_depth(&self, c: Chain, n: nat) -> (d: nat)
        requires
            self.stages_known(c.stages),
            n <= c.stages.len(),
        ensures
            self.chain_sourced(d, c.first(n as int)),
        decreases n,
    {
        if n == 0 {
            0
        } else {
            let (p, q) = (c.first(n - 1), c.first(n as int));
            let d = self.lemma_chain_depth(c, (n - 1) as nat);
            let reads = c.stages[n - 1].reads;
            assert(self.reads_known(c.stages[n - 1].reads));
            let e = self.lemma_reads_depth(reads, reads.len());
            let m = if d >= e {
                d
            } else {
                e
            };
            self.lemma_deeper_chain(d, m, p);
            assert forall|i: int, j: int|
                0 <= i < q.stages.len() && 0 <= j < q.stages[i].reads.len() implies self.read_sourced(
                m,
                #[trigger] q.stages[i].reads[j],
            ) by {
                if i < n - 1 {
                    assert(p.stages[i] == q.stages[i]);
                    assert(self.read_sourced(m, p.stages[i].reads[j]));
                } else {
                    assert(self.read_sourced(e, reads[j]));
                    self.lemma_deeper_read(e, m, reads[j]);
                }
            }
            m
        }
    }

    /// One step more goes by lists that are known.
    pub proof fn lemma_grounded(&self, steps: Seq<Step>, s: Step)
        requires
            self.grounded(steps),
            self.stages_known(chain_of(s).stages),
        ensures
            self.grounded(steps.push(s)),
    {
        reveal(Plan::grounded);
        let c = chain_of(s);
        let d = choose|d: nat| self.sourced(d, steps);
        let e = self.lemma_chain_depth(c, c.stages.len());
        assert(c.stages.take(c.stages.len() as int) =~= c.stages);
        assert(c.first(c.stages.len() as int) == c);
        let m = if d >= e {
            d
        } else {
            e
        };
        self.lemma_deeper(d, m, steps);
        self.lemma_deeper_chain(e, m, c);
        let more = steps.push(s);
        assert forall|i: int| 0 <= i < more.len() implies self.chain_sourced(
            m,
            chain_of(#[trigger] more[i]),
        ) by {
            if i < steps.len() {
                assert(more[i] == steps[i]);
            }
        }
        assert(self.sourced(m, more));
    }

    /// The searches of a step that is among grounded ones read lists that are known.
    pub proof fn lemma_step_known(&self, steps: Seq<Step>, s: Step)
        requires
            self.grounded(steps),
            steps.contains(s),
        ensures
            self.stages_known(chain_of(s).stages),
    {
        reveal(Plan::grounded);
        reveal(Plan::read_known);
        let d = choose|d: nat| self.sourced(d, steps);
        let k = choose|k: int| 0 <= k < steps.len() && steps[k] == s;
        let c = chain_of(steps[k]);
        assert(self.chain_sourced(d, c));
        assert forall|i: int| 0 <= i < c.stages.len() implies self.reads_known(
            (#[trigger] c.stages[i]).reads,
        ) by {
            assert forall|j: int| 0 <= j < c.stages[i].reads.len() implies self.read_known(
                #[trigger] c.stages[i].reads[j],
            ) by {
                assert(self.read_sourced(d, c.stages[i].reads[j]));
            }
        }
    }

    /// A list that grounded steps lead to is known.
    pub proof fn lemma_known(&self, id: u32, lev: nat, steps: Seq<Step>, list: Seq<u32>)
        requires
            self.leads_to(id, lev, steps, list),
            self.grounded(steps),
        ensures
            self.read_known(Deed::Read { id, lev, list }),
    {
        reveal(Plan::grounded);
        reveal(Plan::read_known);
        let d = choose|d: nat| self.sourced(d, steps);
        let e = (d + 1) as nat;
        let r = Deed::Read { id, lev, list };
        assert(((e - 1) as nat) == d);
        assert(self.sourced((e - 1) as nat, steps));
        if let Deed::Read { id: x, lev: y, list: z } = r {
            assert(self.leads_to(x, y, steps, z));
        }
        assert(self.read_sourced(e, r));
    }

    /// `hist` is how the lists of `g` came to be.
    pub open spec fn led(&self, hist: History, g: Graph) -> bool {
        &&& same_shape(self.shape(), g)
        &&& hist.len() == g.len()
        &&& forall|x: int| 0 <= x < g.len() ==> self.node_led(x, #[trigger] hist[x], g[x])
    }

    /// The same of one node.
    pub open spec fn node_led(&self, x: int, hist: Seq<Seq<Step>>, lists: Seq<Seq<u32>>) -> bool {
        &&& hist.len() == lists.len()
        &&& forall|lev: int|
            0 <= lev < lists.len() ==> self.leads_to(
                x as u32,
                lev as nat,
                #[trigger] hist[lev],
                lists[lev],
            ) && self.grounded(hist[lev])
    }

    /// `id` has joined a level by the search of stage `i` of `c`: it has shown itself
    /// with what it chose, and each node that it chose has linked back.
    pub open spec fn joined_by(&self, hist: History, c: Chain, id: u32, i: int) -> bool {
        let p = c.stages[i];
        let to = self.choice(p, id);
        &&& hist[id as int][p.lev as int].contains(Step::Show { chain: c.first(i + 1) })
        &&& forall|k: int|
            0 <= k < to.len() ==> linked(hist, #[trigger] to[k], p.lev, id)
    }

    /// `id` has come in: there is a whole insertion of it, from an entry down to level 0,
    /// and by it `id` has joined every level that both it and the entry reach.
    pub open spec fn came_in(&self, hist: History, c: Chain, id: u32) -> bool {
        &&& self.chained(c, id)
        &&& c.stages.len() == c.top.1 + 1
        &&& forall|i: int|
            0 <= i < c.stages.len() && (#[trigger] c.stages[i]).lev <= self.levels@[id as int]
                ==> self.joined_by(hist, c, id, i)
    }

    /// What is chosen in a right step is a good list.
    pub proof fn lemma_choice(&self, c: Chain, id: u32, i: int)
        requires
            self.chained(c, id),
            0 <= i < c.stages.len(),
        ensures
            good_list(
                self.shape(),
                self.m as nat,
                id,
                c.stages[i].lev,
                self.choice(c.stages[i], id),
            ),
            self.m >= 1 && self.finds(c.stages[i], id).best.len() > 0 ==> self.choice(
                c.stages[i],
                id,
            ).len() > 0,
    {
        let p = c.stages[i];
        let key = self.keys(id);
        let found = self.finds(p, id).best;
        self.lemma_walk(c.stages, c.top, id, i);
        lemma_chosen(found, self.room(p.lev), self.corpus.pairs(), key);
        let to = self.choice(p, id);
        assert forall|k: int| 0 <= k < to.len() implies #[trigger] to[k] < self.shape().len()
            && to[k] != id && p.lev < self.shape()[to[k] as int].len() by {
            let x = cand_of(key, to[k]);
            assert(found.contains(x));
            let j = choose|j: int| 0 <= j < found.len() && found[j] == x;
            assert(eligible(self.shape(), id, p.lev, found[j].id));
        }
    }

    /// A right step makes a good list of a good list, and leaves none empty.
    pub proof fn lemma_stepped(&self, cur: Seq<u32>, id: u32, lev: nat, s: Step)
        requires
            self.good(id, lev, cur),
            self.step_right(id, lev, s),
        ensures
            self.good(id, lev, self.stepped(cur, id, lev, s)),
            self.m >= 1 ==> self.stepped(cur, id, lev, s).len() > 0,
    {
        reveal(Plan::step_right);
        let (g, m, pair) = (self.shape(), self.m as nat, self.corpus.pairs());
        match s {
            Step::Show { chain } => {
                let i = chain.stages.len() - 1;
                self.lemma_choice(chain, id, i);
                lemma_published(g, m, id, lev, self.choice(chain.stages[i], id), cur, pair);
            },
            Step::Link { from, .. } => {
                if !cur.contains(from) {
                    lemma_backlink(g, m, id, from, lev, cur, pair);
                }
            },
        }
    }

    /// Every list that steps lead to is a good one, and not empty where there is a step.
    pub proof fn law_steps_lead_to_good_lists(
        &self,
        id: u32,
        lev: nat,
        steps: Seq<Step>,
        list: Seq<u32>,
    )
        requires
            self.leads_to(id, lev, steps, list),
        ensures
            self.good(id, lev, list),
            self.m >= 1 && steps.len() > 0 ==> list.len() > 0,
        decreases steps.len(),
    {
        if steps.len() > 0 {
            let t = steps.drop_last();
            let cur = self.list_after(t, id, lev);
            assert forall|i: int| 0 <= i < t.len() implies self.step_right(
                id,
                lev,
                #[trigger] t[i],
            ) by {
                assert(t[i] == steps[i]);
            }
            self.law_steps_lead_to_good_lists(id, lev, t, cur);
            assert(self.step_right(id, lev, steps[steps.len() - 1]));
            self.lemma_stepped(cur, id, lev, steps.last());
        }
    }

    /// One step more.
    pub proof fn lemma_step(
        &self,
        id: u32,
        lev: nat,
        steps: Seq<Step>,
        cur: Seq<u32>,
        s: Step,
    )
        requires
            self.leads_to(id, lev, steps, cur),
            self.step_right(id, lev, s),
        ensures
            self.leads_to(id, lev, steps.push(s), self.stepped(cur, id, lev, s)),
            self.good(id, lev, self.stepped(cur, id, lev, s)),
    {
        let more = steps.push(s);
        assert(more.drop_last() =~= steps);
        assert forall|i: int| 0 <= i < more.len() implies self.step_right(
            id,
            lev,
            #[trigger] more[i],
        ) by {
            if i < steps.len() {
                assert(more[i] == steps[i]);
            }
        }
        self.law_steps_lead_to_good_lists(id, lev, more, self.stepped(cur, id, lev, s));
    }

    /// A step puts `y` on the list of `id`: `id` chose it, or it chose `id`.
    pub open spec fn brings(&self, s: Step, id: u32, y: u32) -> bool {
        match s {
            Step::Show { chain } => self.choice(chain.stages.last(), id).contains(y),
            Step::Link { from, .. } => from == y,
        }
    }

    /// One step puts no other node on a list.
    proof fn lemma_brings(&self, cur: Seq<u32>, id: u32, lev: nat, s: Step, y: u32)
        requires
            self.good(id, lev, cur),
            self.step_right(id, lev, s),
            self.stepped(cur, id, lev, s).contains(y),
        ensures
            cur.contains(y) || self.brings(s, id, y),
    {
        let (room, pair) = (self.room(lev), self.corpus.pairs());
        match s {
            Step::Show { chain } => {
                reveal(Plan::step_right);
                let i = chain.stages.len() - 1;
                let to = self.choice(chain.stages[i], id);
                self.lemma_choice(chain, id, i);
                lemma_joined(to, cur);
                let all = joined(to, cur);
                if all.len() > room {
                    let pool = pool_of(id, all, pair);
                    let key = |x: u32| pair(id, x);
                    assert forall|a: int, b: int|
                        0 <= a < pool.len() && 0 <= b < pool.len() && a != b implies pool[a]
                        != pool[b] by {
                        assert(all[a] != all[b]);
                    }
                    lemma_chosen(pool, room, pair, key);
                    let r = self.stepped(cur, id, lev, s);
                    let k = choose|k: int| 0 <= k < r.len() && r[k] == y;
                    assert(pool.contains(cand_of(key, r[k])));
                    let a = choose|a: int| 0 <= a < pool.len() && pool[a] == cand_of(key, r[k]);
                    assert(all[a] == y);
                }
                assert(all.contains(y));
            },
            Step::Link { from, .. } => {
                if !cur.contains(from) {
                    lemma_backlink_from(cur, id, from, room, pair);
                    let r = self.stepped(cur, id, lev, s);
                    let k = choose|k: int| 0 <= k < r.len() && r[k] == y;
                    assert(r[k] == from || cur.contains(r[k]));
                }
            },
        }
    }

    /// No neighbour comes from nowhere: of each node on a list, one of the steps that lead
    /// to the list put it there.
    pub proof fn law_neighbours_were_chosen(
        &self,
        id: u32,
        lev: nat,
        steps: Seq<Step>,
        list: Seq<u32>,
        y: u32,
    )
        requires
            self.leads_to(id, lev, steps, list),
            list.contains(y),
        ensures
            exists|i: int| 0 <= i < steps.len() && self.brings(#[trigger] steps[i], id, y),
        decreases steps.len(),
    {
        if steps.len() > 0 {
            let t = steps.drop_last();
            let cur = self.list_after(t, id, lev);
            assert forall|i: int| 0 <= i < t.len() implies self.step_right(
                id,
                lev,
                #[trigger] t[i],
            ) by {
                assert(t[i] == steps[i]);
            }
            self.law_steps_lead_to_good_lists(id, lev, t, cur);
            let n = steps.len() - 1;
            assert(self.step_right(id, lev, steps[n]));
            self.lemma_brings(cur, id, lev, steps[n], y);
            if cur.contains(y) {
                self.law_neighbours_were_chosen(id, lev, t, cur, y);
                let i = choose|i: int| 0 <= i < t.len() && self.brings(#[trigger] t[i], id, y);
                assert(self.brings(steps[i], id, y));
            }
        }
    }

    /// There is room on a list for every other node.
    pub open spec fn roomy(&self, lev: nat) -> bool {
        self.levels@.len() <= self.room(lev) + 1
    }

    /// Where there is room, a step keeps what is there, and puts in place what it brings.
    proof fn lemma_kept(&self, cur: Seq<u32>, id: u32, lev: nat, s: Step, y: u32)
        requires
            self.good(id, lev, cur),
            self.step_right(id, lev, s),
            id < self.levels@.len(),
            self.roomy(lev),
            cur.contains(y) || self.brings(s, id, y),
        ensures
            self.stepped(cur, id, lev, s).contains(y),
    {
        reveal(Plan::step_right);
        let n = self.levels@.len();
        match s {
            Step::Show { chain } => {
                let i = chain.stages.len() - 1;
                let to = self.choice(chain.stages[i], id);
                self.lemma_choice(chain, id, i);
                lemma_joined(to, cur);
                let all = joined(to, cur);
                assert forall|k: int| 0 <= k < all.len() implies #[trigger] all[k] < n && all[k]
                    != id by {
                    assert(all.contains(all[k]));
                    if to.contains(all[k]) {
                        let j = choose|j: int| 0 <= j < to.len() && to[j] == all[k];
                        assert(to[j] < self.shape().len());
                    } else {
                        let j = choose|j: int| 0 <= j < cur.len() && cur[j] == all[k];
                        assert(cur[j] < self.shape().len());
                    }
                }
                lemma_others(all, id, n);
            },
            Step::Link { from, .. } => {
                if !cur.contains(from) {
                    let all = cur.push(from);
                    assert forall|k: int| 0 <= k < all.len() implies #[trigger] all[k] < n
                        && all[k] != id by {
                        if k < cur.len() {
                            assert(cur[k] < self.shape().len());
                        }
                    }
                    lemma_others(all, id, n);
                    lemma_push(cur, from, y);
                }
            },
        }
    }

    /// While there is room no neighbour is lost: every node that a step put on a list is
    /// still there.
    pub proof fn law_no_neighbour_is_lost(
        &self,
        id: u32,
        lev: nat,
        steps: Seq<Step>,
        list: Seq<u32>,
        i: int,
        y: u32,
    )
        requires
            self.leads_to(id, lev, steps, list),
            id < self.levels@.len(),
            self.roomy(lev),
            0 <= i < steps.len(),
            self.brings(steps[i], id, y),
        ensures
            list.contains(y),
        decreases steps.len(),
    {
        let t = steps.drop_last();
        let cur = self.list_after(t, id, lev);
        let n = steps.len() - 1;
        assert forall|k: int| 0 <= k < t.len() implies self.step_right(id, lev, #[trigger] t[k]) by {
            assert(t[k] == steps[k]);
        }
        self.law_steps_lead_to_good_lists(id, lev, t, cur);
        if i < n {
            assert(t[i] == steps[i]);
            self.law_no_neighbour_is_lost(id, lev, t, cur, i, y);
        }
        assert(self.step_right(id, lev, steps[n]));
        self.lemma_kept(cur, id, lev, steps[n], y);
    }

    /// While there is room no edge is dropped: on a level that it has joined, a node that
    /// has come in stands beside each node that it chose, in both directions.
    pub proof fn law_no_edge_is_dropped(
        &self,
        hist: History,
        g: Graph,
        c: Chain,
        id: u32,
        i: int,
        y: u32,
    )
        requires
            self.led(hist, g),
            g.len() <= u32::MAX,
            id < g.len(),
            self.came_in(hist, c, id),
            0 <= i < c.stages.len(),
            c.stages[i].lev <= self.levels@[id as int],
            self.roomy(c.stages[i].lev),
            self.choice(c.stages[i], id).contains(y),
        ensures
            nbrs(g, id, c.stages[i].lev).contains(y),
            nbrs(g, y, c.stages[i].lev).contains(id),
    {
        let lev = c.stages[i].lev;
        let to = self.choice(c.stages[i], id);
        let k = choose|k: int| 0 <= k < to.len() && to[k] == y;
        assert(self.joined_by(hist, c, id, i));
        self.lemma_choice(c, id, i);
        assert(to[k] < self.shape().len());
        assert(g[id as int].len() == self.shape()[id as int].len());
        assert(g[y as int].len() == self.shape()[y as int].len());
        assert(self.node_led(id as int, hist[id as int], g[id as int]));
        assert(self.node_led(y as int, hist[y as int], g[y as int]));
        let (a, b) = (hist[id as int][lev as int], hist[y as int][lev as int]);
        let chain = c.first(i + 1);
        assert(a.contains(Step::Show { chain }));
        let p = choose|p: int| 0 <= p < a.len() && a[p] == (Step::Show { chain });
        assert(chain.stages.last() == c.stages[i]);
        assert(self.leads_to(id, lev, a, g[id as int][lev as int]));
        self.law_no_neighbour_is_lost(id, lev, a, g[id as int][lev as int], p, y);
        assert(linked(hist, to[k], lev, id));
        let other = choose|other: Chain| #[trigger]
            b.contains(Step::Link { from: id, chain: other });
        let q = choose|q: int|
            0 <= q < b.len() && b[q] == (Step::Link { from: id, chain: other });
        assert(self.leads_to(y, lev, b, g[y as int][lev as int]));
        self.law_no_neighbour_is_lost(y, lev, b, g[y as int][lev as int], q, id);
    }

    /// A graph whose lists came to be by right steps is sound.
    pub proof fn law_led_graph_is_sound(&self, hist: History, g: Graph)
        requires
            self.led(hist, g),
            g.len() <= u32::MAX,
        ensures
            sound(g, self.m as nat),
    {
        let m = self.m as nat;
        assert forall|x: u32| x < g.len() implies (#[trigger] g[x as int]).len() >= 1 by {
            assert(g[x as int].len() == self.shape()[x as int].len());
        }
        assert forall|x: u32, lev: nat| x < g.len() && lev < g[x as int].len() implies good_list(
            g,
            m,
            x,
            lev,
            #[trigger] nbrs(g, x, lev),
        ) by {
            let list = g[x as int][lev as int];
            assert(self.node_led(x as int, hist[x as int], g[x as int]));
            assert(self.leads_to(x, lev, hist[x as int][lev as int], list));
            self.law_steps_lead_to_good_lists(x, lev, hist[x as int][lev as int], list);
            assert forall|k: int| 0 <= k < list.len() implies #[trigger] list[k] < g.len()
                && list[k] != x && lev < g[list[k] as int].len() by {
                assert(list[k] < self.shape().len());
                assert(g[list[k] as int].len() == self.shape()[list[k] as int].len());
            }
        }
    }

    /// A node that has come in has neighbours on level 0, and so has each node that it
    /// chose there.
    pub proof fn law_who_came_in_has_company(&self, hist: History, g: Graph, c: Chain, id: u32)
        requires
            self.m >= 1,
            self.led(hist, g),
            g.len() <= u32::MAX,
            id < g.len(),
            self.came_in(hist, c, id),
        ensures
            g[id as int][0].len() > 0,
    {
        let i = c.stages.len() - 1;
        assert(c.stages[i].lev == 0);
        assert(self.joined_by(hist, c, id, i));
        let h = hist[id as int][0];
        let s = Step::Show { chain: c.first(i + 1) };
        assert(h.contains(s));
        assert(g[id as int].len() == self.shape()[id as int].len());
        assert(self.node_led(id as int, hist[id as int], g[id as int]));
        assert(self.leads_to(id, 0, h, g[id as int][0]));
        self.law_steps_lead_to_good_lists(id, 0, h, g[id as int][0]);
    }
}

/// A list of other nodes, each once, is shorter than the list of all.
proof fn lemma_others(list: Seq<u32>, id: u32, n: nat)
    requires
        list.no_duplicates(),
        id < n,
        forall|k: int| 0 <= k < list.len() ==> #[trigger] list[k] < n && list[k] != id,
    ensures
        list.len() + 1 <= n,
{
    let all = list.push(id);
    let s = all.to_set();
    all.unique_seq_to_set();
    assert forall|x: u32| #[trigger] s.contains(x) implies x < n by {
        let k = choose|k: int| 0 <= k < all.len() && all[k] == x;
        if k < list.len() {
            assert(list[k] < n);
        }
    }
    lemma_bounded(s, n);
}

/// Node `y` has linked back to `id` on a level.
pub open spec fn linked(hist: History, y: u32, lev: nat, id: u32) -> bool {
    has_link(hist[y as int][lev as int], id)
}

/// Among the steps is a link back to `id`.
pub open spec fn has_link(steps: Seq<Step>, id: u32) -> bool {
    exists|chain: Chain| #[trigger] steps.contains(Step::Link { from: id, chain })
}

} // verus!
