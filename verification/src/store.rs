//! What the threads of a build share: the nodes, in shards, and the entry, each behind a
//! lock.
//!
//! The locks are private to this module. A function takes one lock, and gives it back
//! before it returns: it wants a log that holds none, and leaves one that holds none.
//! Each function notes in the log what it read and what it put in place.
//!
//! Of what a lock guards, a contract can say only what holds at every moment: another
//! thread may have changed it by the time a call returns. So `fits` says of the store
//! that each list came to be by right steps, and that each node holds marks of what it
//! has done, and these are true. What one thread saw and did is told by its log.

use vstd::prelude::*;
use vstd::rwlock::{RwLock, RwLockPredicate};

use crate::beam::{cand_of, Graph};
use crate::cand::{copy_of, holds, same};
use crate::graph::{backlink, bare, cap, good_list, pool_of};
use crate::guard::{adds_one, lists_of, look, take, Deed, Log, Node, Nodes};
use crate::history::{chain_of, has_link, Chain, Step};
use crate::metric::{from_query, row, Corpus};
use crate::replay::lower;
use crate::select::{chosen, lemma_chosen, select};
use crate::walk::{link_one, pool_around};
use crate::web::Web;

verus! {

/// How many shards the neighbour lists are held in. Node `id` lies in shard
/// `id % SHARDS`.
const SHARDS: usize = 4096;

/// A graph whose nodes reach the given levels and have no neighbours.
pub open spec fn shape(levels: Seq<u8>) -> Graph {
    Seq::new(levels.len(), |i: int| bare(levels[i] as nat))
}

/// What is shared of one node is right: its lists came to be by the steps of its
/// history, the links that it notes are steps of it, and the levels that it has joined
/// it has joined by the searches of its chain.
pub open spec fn node_right<'a, T, D: Fn(&[T], &[T]) -> u32>(
    plan: Plan<'a, T, D>,
    id: int,
    node: Node,
) -> bool {
    let k = plan.shape()[id].len();
    &&& 0 <= id < plan.shape().len()
    &&& node.lists@.len() == k
    &&& node.chose@.len() == k
    &&& node.linked@.len() == k
    &&& plan.node_led(id, node.hist@, lists_of(node))
    &&& forall|lev: int, j: int|
        0 <= lev < k && 0 <= j < node.linked@[lev]@.len() ==> has_link(
            node.hist@[lev],
            #[trigger] node.linked@[lev]@[j],
        )
    &&& node.on ==> trail_right(plan, id, node)
}

/// The levels that a node has joined it has joined by the searches of its chain.
pub open spec fn trail_right<'a, T, D: Fn(&[T], &[T]) -> u32>(
    plan: Plan<'a, T, D>,
    id: int,
    node: Node,
) -> bool {
    let c = node.chain@;
    let l = plan.levels@[id] as nat;
    &&& plan.chained(c, id as u32)
    &&& node.lev == c.stages.last().lev
    &&& node.lev <= node.low
    &&& node.low == lower(l, c.top.1 as nat)
    &&& node.lev > 0 ==> plan.after(c.stages.last(), id as u32) == node.next@
    &&& forall|i: int|
        0 <= i < c.stages.len() && (#[trigger] c.stages[i]).lev <= l ==> shown(
            plan,
            id,
            node,
            c,
            i,
        )
}

/// The node has shown itself by the search of stage `i` of a chain.
pub open spec fn shown<'a, T, D: Fn(&[T], &[T]) -> u32>(
    plan: Plan<'a, T, D>,
    id: int,
    node: Node,
    c: Chain,
    i: int,
) -> bool {
    let lev = c.stages[i].lev as int;
    &&& node.hist@[lev].contains(Step::Show { chain: c.first(i + 1) })
    &&& node.chose@[lev]@ == plan.choice(c.stages[i], id as u32)
}

/// The node in place `k` of a shard.
spec fn node_at(shard: nat, k: int) -> int {
    k * SHARDS + shard
}

/// What a shard holds at every moment: its nodes, in order.
struct Held<'a, T, D: Fn(&[T], &[T]) -> u32> {
    plan: Plan<'a, T, D>,
    shard: nat,
}

impl<'a, T, D: Fn(&[T], &[T]) -> u32> RwLockPredicate<Nodes> for Held<'a, T, D> {
    closed spec fn inv(self, v: Nodes) -> bool {
        &&& node_at(self.shard, v@.len() as int) >= self.plan.shape().len()
        &&& forall|k: int|
            0 <= k < v@.len() ==> node_right(
                self.plan,
                node_at(self.shard, k),
                #[trigger] v@[k],
            )
    }
}

/// A shard in which one node was replaced by a right one is still what it should be.
proof fn lemma_replaced<'a, T, D: Fn(&[T], &[T]) -> u32>(
    h: Held<'a, T, D>,
    before: Nodes,
    after: Nodes,
    slot: int,
)
    requires
        h.inv(before),
        0 <= slot < before@.len() == after@.len(),
        forall|k: int| 0 <= k < after@.len() && k != slot ==> #[trigger] after@[k] == before@[k],
        node_right(h.plan, node_at(h.shard, slot), after@[slot]),
    ensures
        h.inv(after),
{
    assert forall|k: int| 0 <= k < after@.len() implies node_right(
        h.plan,
        node_at(h.shard, k),
        #[trigger] after@[k],
    ) by {
        if k != slot {
            assert(after@[k] == before@[k]);
        }
    }
}

/// The nodes of `to`, and behind them those of `cur` that are not among these.
pub open spec fn joined(to: Seq<u32>, cur: Seq<u32>) -> Seq<u32>
    decreases cur.len(),
{
    if cur.len() == 0 {
        to
    } else {
        let p = joined(to, cur.drop_last());
        if to.contains(cur.last()) {
            p
        } else {
            p.push(cur.last())
        }
    }
}

/// The list with which `id` shows itself on a level: what it has chosen, and with
/// it the nodes that have linked back to it before. Where these are too many, they
/// are chosen from once more.
pub open spec fn published(
    to: Seq<u32>,
    cur: Seq<u32>,
    id: u32,
    room: nat,
    pair: spec_fn(u32, u32) -> u32,
) -> Seq<u32> {
    let all = joined(to, cur);
    if all.len() <= room {
        all
    } else {
        chosen(pool_of(id, all, pair), room, pair)
    }
}

pub proof fn lemma_joined(to: Seq<u32>, cur: Seq<u32>)
    requires
        to.no_duplicates(),
        cur.no_duplicates(),
    ensures
        joined(to, cur).no_duplicates(),
        forall|x: u32| #[trigger]
            joined(to, cur).contains(x) <==> to.contains(x) || cur.contains(x),
    decreases cur.len(),
{
    if cur.len() > 0 {
        let t = cur.drop_last();
        let c = cur.last();
        let p = joined(to, t);
        let r = joined(to, cur);
        lemma_joined(to, t);
        assert(cur =~= t.push(c));
        assert(!t.contains(c)) by {
            if t.contains(c) {
                let i = choose|i: int| 0 <= i < t.len() && t[i] == c;
                assert(cur[i] == cur[cur.len() - 1]);
            }
        }
        assert forall|x: u32| #[trigger] r.contains(x) <==> to.contains(x) || cur.contains(x) by {
            lemma_push(t, c, x);
            lemma_push(p, c, x);
            assert(p.contains(x) <==> to.contains(x) || t.contains(x));
        }
        if !to.contains(c) {
            assert(!p.contains(c));
            assert forall|i: int, j: int| 0 <= i < r.len() && 0 <= j < r.len() && i != j implies r[i]
                != r[j] by {
                if i < p.len() {
                    assert(p.contains(p[i]));
                }
                if j < p.len() {
                    assert(p.contains(p[j]));
                }
            }
        }
    }
}

/// What is published is a good list, and not empty where something was chosen and there
/// is room.
pub proof fn lemma_published(
    g: Graph,
    m: nat,
    id: u32,
    lev: nat,
    to: Seq<u32>,
    cur: Seq<u32>,
    pair: spec_fn(u32, u32) -> u32,
)
    requires
        good_list(g, m, id, lev, to),
        good_list(g, m, id, lev, cur),
    ensures
        good_list(g, m, id, lev, published(to, cur, id, cap(m, lev), pair)),
        m > 0 && to.len() > 0 ==> published(to, cur, id, cap(m, lev), pair).len() > 0,
{
    lemma_joined(to, cur);
    let all = joined(to, cur);
    if to.len() > 0 {
        assert(to.contains(to[0]));
        assert(all.contains(to[0]));
    }
    assert forall|k: int| 0 <= k < all.len() implies #[trigger] all[k] < g.len() && all[k] != id && lev
        < g[all[k] as int].len() by {
        let x = all[k];
        assert(all.contains(x));
        if to.contains(x) {
            let i = choose|i: int| 0 <= i < to.len() && to[i] == x;
            assert(to[i] < g.len());
        } else {
            let i = choose|i: int| 0 <= i < cur.len() && cur[i] == x;
            assert(cur[i] < g.len());
        }
    }
    if all.len() > cap(m, lev) {
        let pool = pool_of(id, all, pair);
        let key = |x: u32| pair(id, x);
        assert forall|i: int, j: int| 0 <= i < pool.len() && 0 <= j < pool.len() && i != j implies
            pool[i] != pool[j] by {
            assert(all[i] != all[j]);
        }
        lemma_chosen(pool, cap(m, lev), pair, key);
        let r = published(to, cur, id, cap(m, lev), pair);
        assert forall|k: int| 0 <= k < r.len() implies #[trigger] r[k] < g.len() && r[k] != id && lev
            < g[r[k] as int].len() by {
            let c = cand_of(key, r[k]);
            assert(pool.contains(c));
            let i = choose|i: int| 0 <= i < pool.len() && pool[i] == c;
            assert(all[i] == r[k]);
        }
    }
}

/// The list with which `id` shows itself, where its list was `cur` and it chose `to`.
pub(crate) fn publish<T, D: Fn(&[T], &[T]) -> u32>(
    corpus: &Corpus<T, D>,
    cur: &Vec<u32>,
    id: u32,
    to: &Vec<u32>,
    room: usize,
) -> (all: Vec<u32>)
    requires
        corpus.wf(),
        id < corpus.n,
        to@.no_duplicates(),
        cur@.no_duplicates(),
        forall|k: int| 0 <= k < to@.len() ==> #[trigger] to@[k] < corpus.n,
        forall|k: int| 0 <= k < cur@.len() ==> #[trigger] cur@[k] < corpus.n,
    ensures
        all@ == published(to@, cur@, id, room as nat, corpus.pairs()),
{
    let mut all: Vec<u32> = Vec::new();
    all.extend_from_slice(to);
    assert(all@ =~= to@);
    let n = cur.len();
    let mut i: usize = 0;
    assert(cur@.take(0) =~= Seq::empty());
    while i < n
        invariant
            i <= n == cur@.len(),
            all@ == joined(to@, cur@.take(i as int)),
        decreases n - i,
    {
        let x = cur[i];
        assert(cur@.take(i + 1).drop_last() =~= cur@.take(i as int));
        if !holds(to, x) {
            all.push(x);
        }
        i = i + 1;
    }
    assert(cur@.take(i as int) =~= cur@);
    proof {
        lemma_joined(to@, cur@);
        assert forall|k: int| 0 <= k < all@.len() implies #[trigger] all@[k] < corpus.n by {
            let x = all@[k];
            assert(all@.contains(x));
            if to@.contains(x) {
                let j = choose|j: int| 0 <= j < to@.len() && to@[j] == x;
                assert(to@[j] < corpus.n);
            } else {
                let j = choose|j: int| 0 <= j < cur@.len() && cur@[j] == x;
                assert(cur@[j] < corpus.n);
            }
        }
    }
    if all.len() > room {
        let pool = pool_around(corpus, id, &all);
        all = select(corpus, &pool, room);
    }
    all
}

/// The list of `nb` once `id` has linked to it, which it does once only.
pub open spec fn relinked(
    cur: Seq<u32>,
    nb: u32,
    id: u32,
    room: nat,
    pair: spec_fn(u32, u32) -> u32,
) -> Seq<u32> {
    if cur.contains(id) {
        cur
    } else {
        backlink(cur, nb, id, room, pair)
    }
}

/// The list of `nb`, which is `cur`, once `id` has linked to it.
pub(crate) fn relink<T, D: Fn(&[T], &[T]) -> u32>(
    corpus: &Corpus<T, D>,
    cur: &mut Vec<u32>,
    nb: u32,
    id: u32,
    room: usize,
)
    requires
        corpus.wf(),
        nb < corpus.n,
        id < corpus.n,
        forall|k: int| 0 <= k < old(cur)@.len() ==> #[trigger] old(cur)@[k] < corpus.n,
    ensures
        final(cur)@ == relinked(old(cur)@, nb, id, room as nat, corpus.pairs()),
{
    if !holds(cur, id) {
        link_one(corpus, cur, nb, id, room);
    }
}

/// What stands for the entry at every moment: a node and the level it reaches.
struct Top {
    shape: Graph,
}

impl RwLockPredicate<(u32, u8)> for Top {
    closed spec fn inv(self, v: (u32, u8)) -> bool {
        v.0 < self.shape.len() && self.shape[v.0 as int].len() == v.1 + 1
    }
}

/// The entry once `id` has joined: `id` where it reaches higher.
pub open spec fn raised(top: (u32, u8), id: u32, l: u8) -> (u32, u8) {
    if l > top.1 {
        (id, l)
    } else {
        top
    }
}

/// `v` is a node and the level that it reaches.
pub open spec fn is_top(g: Graph, v: (u32, u8)) -> bool {
    v.0 < g.len() && g[v.0 as int].len() == v.1 + 1
}

/// What is fixed before the threads start: the vectors, the levels, and how many
/// neighbours nodes look for and may have.
pub struct Plan<'a, T, D: Fn(&[T], &[T]) -> u32> {
    pub corpus: &'a Corpus<'a, T, D>,
    pub m: usize,
    pub ef_construction: usize,
    pub levels: &'a Vec<u8>,
}

impl<'a, T, D: Fn(&[T], &[T]) -> u32> Plan<'a, T, D> {
    pub open spec fn wf(&self) -> bool {
        &&& self.corpus.wf()
        &&& self.corpus.n == self.levels@.len()
        &&& self.levels@.len() <= u32::MAX
        &&& 2 * self.m <= 0xFFFF
    }

    /// The nodes, and the levels that they reach.
    pub open spec fn shape(&self) -> Graph {
        shape(self.levels@)
    }

    /// How many neighbours a node may have on a level.
    pub open spec fn room(&self, lev: nat) -> nat {
        cap(self.m as nat, lev)
    }

    /// The distance of every node from `id`.
    pub open spec fn keys(&self, id: u32) -> spec_fn(u32) -> u32 {
        from_query(
            *self.corpus.dist,
            self.corpus.data@,
            self.corpus.dim as nat,
            row(self.corpus.data@, self.corpus.dim as nat, id as int),
        )
    }

    /// A list that node `id` may have on a level.
    pub open spec fn good(&self, id: u32, lev: nat, list: Seq<u32>) -> bool {
        good_list(self.shape(), self.m as nat, id, lev, list)
    }

    /// `d` is `id` showing itself on a level with the nodes of `to`.
    pub open spec fn shows(&self, d: Deed, id: u32, lev: nat, to: Seq<u32>) -> bool {
        d matches Deed::Put { id: x, lev: y, cur, list } && {
            &&& x == id
            &&& y == lev
            &&& self.good(id, lev, cur)
            &&& list == published(to, cur, id, self.room(lev), self.corpus.pairs())
        }
    }

    /// `d` is `nb` linking back to `id` on a level.
    pub open spec fn links(&self, d: Deed, nb: u32, id: u32, lev: nat) -> bool {
        d matches Deed::Put { id: x, lev: y, cur, list } && {
            &&& x == nb
            &&& y == lev
            &&& self.good(nb, lev, cur)
            &&& list == relinked(cur, nb, id, self.room(lev), self.corpus.pairs())
        }
    }

    /// `d` is a second look at the entry by `id`, which reaches level `l`.
    pub open spec fn raises(&self, d: Deed, id: u32, l: u8) -> bool {
        d matches Deed::Raise { seen, top } && is_top(self.shape(), seen) && top == raised(
            seen,
            id,
            l,
        )
    }

    /// How many neighbours a node may have on a level.
    pub(crate) fn room_on(&self, lev: usize) -> (r: usize)
        requires
            self.wf(),
        ensures
            r == self.room(lev as nat),
    {
        if lev == 0 {
            self.m * 2
        } else {
            self.m
        }
    }
}

/// One more step keeps those before it.
proof fn lemma_push_step(steps: Seq<Step>, s: Step)
    ensures
        steps.push(s).contains(s),
        forall|t: Step| #[trigger] steps.contains(t) ==> steps.push(s).contains(t),
{
    let more = steps.push(s);
    assert(more[steps.len() as int] == s);
    assert forall|t: Step| #[trigger] steps.contains(t) implies more.contains(t) by {
        let i = choose|i: int| 0 <= i < steps.len() && steps[i] == t;
        assert(more[i] == t);
    }
}

/// `after` is `before` with one more step `s` of its list on level `lev`.
spec fn stepped_on<'a, T, D: Fn(&[T], &[T]) -> u32>(
    plan: Plan<'a, T, D>,
    id: u32,
    before: Node,
    after: Node,
    lev: int,
    s: Step,
) -> bool {
    &&& after.lists@.len() == before.lists@.len()
    &&& after.lists@[lev]@ == plan.stepped(before.lists@[lev]@, id, lev as nat, s)
    &&& forall|l: int|
        0 <= l < after.lists@.len() && l != lev ==> #[trigger] after.lists@[l]
            == before.lists@[l]
    &&& after.hist@ == before.hist@.update(lev, before.hist@[lev].push(s))
}

/// A right step of one list keeps what leads to the lists.
proof fn lemma_stepped_on<'a, T, D: Fn(&[T], &[T]) -> u32>(
    plan: Plan<'a, T, D>,
    id: u32,
    before: Node,
    after: Node,
    lev: int,
    s: Step,
)
    requires
        node_right(plan, id as int, before),
        0 <= lev < before.lists@.len(),
        plan.step_right(id, lev as nat, s),
        plan.stages_known(chain_of(s).stages),
        stepped_on(plan, id, before, after, lev, s),
    ensures
        plan.node_led(id as int, after.hist@, lists_of(after)),
        after.hist@.len() == before.hist@.len(),
        after.hist@[lev].contains(s),
        forall|l: int, t: Step|
            0 <= l < before.hist@.len() && before.hist@[l].contains(t)
                ==> #[trigger] after.hist@[l].contains(t),
{
    let was = lists_of(before);
    let now = lists_of(after);
    lemma_push_step(before.hist@[lev], s);
    assert forall|l: int| 0 <= l < now.len() implies plan.leads_to(
        id,
        l as nat,
        #[trigger] after.hist@[l],
        now[l],
    ) && plan.grounded(after.hist@[l]) by {
        assert(plan.leads_to(id, l as nat, before.hist@[l], was[l]));
        if l == lev {
            plan.lemma_step(id, l as nat, before.hist@[l], was[l], s);
            plan.lemma_grounded(before.hist@[l], s);
        } else {
            assert(after.lists@[l] == before.lists@[l]);
        }
    }
}

/// Links stay links while a history grows.
proof fn lemma_links_kept(before: Node, after: Node)
    requires
        after.linked == before.linked,
        after.hist@.len() == before.hist@.len(),
        before.linked@.len() == before.hist@.len(),
        forall|l: int, j: int|
            0 <= l < before.linked@.len() && 0 <= j < before.linked@[l]@.len() ==> has_link(
                before.hist@[l],
                #[trigger] before.linked@[l]@[j],
            ),
        forall|l: int, t: Step|
            0 <= l < before.hist@.len() && before.hist@[l].contains(t)
                ==> #[trigger] after.hist@[l].contains(t),
    ensures
        forall|l: int, j: int|
            0 <= l < after.linked@.len() && 0 <= j < after.linked@[l]@.len() ==> has_link(
                after.hist@[l],
                #[trigger] after.linked@[l]@[j],
            ),
{
    assert forall|l: int, j: int|
        0 <= l < after.linked@.len() && 0 <= j < after.linked@[l]@.len() implies has_link(
        after.hist@[l],
        #[trigger] after.linked@[l]@[j],
    ) by {
        let from = before.linked@[l]@[j];
        assert(has_link(before.hist@[l], from));
        let c = choose|c: Chain| #[trigger]
            before.hist@[l].contains(Step::Link { from, chain: c });
        assert(after.hist@[l].contains(Step::Link { from, chain: c }));
    }
}

/// What a node has joined stays joined while its history grows.
proof fn lemma_trail<'a, T, D: Fn(&[T], &[T]) -> u32>(
    plan: Plan<'a, T, D>,
    id: u32,
    before: Node,
    after: Node,
)
    requires
        node_right(plan, id as int, before),
        before.on,
        after.chain == before.chain,
        after.low == before.low,
        after.lev == before.lev,
        after.next@ == before.next@,
        after.chose == before.chose,
        forall|l: int, t: Step|
            0 <= l < before.hist@.len() && before.hist@[l].contains(t)
                ==> #[trigger] after.hist@[l].contains(t),
    ensures
        trail_right(plan, id as int, after),
{
    let c = before.chain@;
    assert forall|i: int|
        0 <= i < c.stages.len() && (#[trigger] c.stages[i]).lev <= plan.levels@[id as int] implies
        shown(plan, id as int, after, c, i) by {
        assert(shown(plan, id as int, before, c, i));
    }
}

/// The searches by which a node has joined read lists that are known.
proof fn lemma_trail_known<'a, T, D: Fn(&[T], &[T]) -> u32>(
    plan: Plan<'a, T, D>,
    id: u32,
    node: Node,
)
    requires
        node_right(plan, id as int, node),
        node.on,
    ensures
        plan.stages_known(node.chain@.stages),
{
    let c = node.chain@;
    let i = c.stages.len() - 1;
    let lev = c.stages[i].lev as int;
    assert(shown(plan, id as int, node, c, i));
    assert(c.stages.take(i + 1) =~= c.stages);
    assert(c.first(i + 1) == c);
    assert(plan.leads_to(id, lev as nat, node.hist@[lev], lists_of(node)[lev]));
    plan.lemma_step_known(node.hist@[lev], Step::Show { chain: c });
}

/// The list of `id`, and with it the marks, once it has shown itself on a level with the
/// nodes of `to`, which are chosen among what the last search of `chain` found. That
/// search started at `eps`, and `next` is where the level below is searched from.
fn show_node<'a, T, D: Fn(&[T], &[T]) -> u32>(
    p: &Plan<'a, T, D>,
    node: &mut Node,
    id: u32,
    lev: usize,
    to: &Vec<u32>,
    eps: &Vec<u32>,
    next: &Vec<u32>,
    first: bool,
    Ghost(chain): Ghost<Chain>,
)
    requires
        p.wf(),
        id < p.levels@.len(),
        node_right(*p, id as int, *old(node)),
        p.showing(id, lev as nat, to@, eps@, next@, first, chain),
        p.stages_known(chain.stages),
    ensures
        node_right(*p, id as int, *final(node)),
        final(node).lists@.len() == old(node).lists@.len(),
        final(node).lists@[lev as int]@ == published(
            to@,
            old(node).lists@[lev as int]@,
            id,
            p.room(lev as nat),
            p.corpus.pairs(),
        ),
        forall|l: int|
            0 <= l < final(node).lists@.len() && l != lev ==> #[trigger] final(node).lists@[l]
                == old(node).lists@[l],
{
    let room = p.room_on(lev);
    let ghost before = *node;
    let ghost cur = node.lists@[lev as int]@;
    let ghost stage = chain.stages.last();
    proof {
        reveal(Plan::step_right);
        assert(p.leads_to(id, lev as nat, node.hist@[lev as int], lists_of(*node)[lev as int]));
        p.law_steps_lead_to_good_lists(id, lev as nat, node.hist@[lev as int], cur);
        p.lemma_choice(chain, id, chain.stages.len() - 1);
        assert forall|k: int| 0 <= k < to@.len() implies #[trigger] to@[k] < p.corpus.n by {
            assert(to@[k] < p.shape().len());
        }
        assert forall|k: int| 0 <= k < cur.len() implies #[trigger] cur[k] < p.corpus.n by {
            assert(cur[k] < p.shape().len());
        }
    }
    let list = publish(p.corpus, &node.lists[lev], id, to, room);
    node.lists[lev] = list;
    let goes_on = node.on && node.lev > 0 && node.lev - 1 == lev && same(&node.next, eps);
    let ghost longer = Chain { top: before.chain@.top, stages: before.chain@.stages.push(stage) };
    let ghost c = if !first && goes_on {
        longer
    } else {
        chain
    };
    let ghost s = Step::Show { chain: c };
    let ghost hist = before.hist@.update(lev as int, before.hist@[lev as int].push(s));
    node.hist = Ghost(hist);
    if first || goes_on {
        node.chose[lev] = copy_of(to);
        node.on = true;
        node.lev = lev;
        node.next = copy_of(next);
        node.chain = Ghost(c);
    }
    if first {
        node.low = lev;
    }
    proof {
        if !first && goes_on {
            let old_c = before.chain@;
            assert(old_c.stages[old_c.stages.len() - 1].lev == old_c.top.1 - (old_c.stages.len()
                - 1));
            assert(chain.stages[chain.stages.len() - 1] == stage);
            lemma_trail_known(*p, id, before);
            assert forall|i: int| 0 <= i < longer.stages.len() implies p.reads_known(
                (#[trigger] longer.stages[i]).reads,
            ) by {
                if i < old_c.stages.len() {
                    assert(p.reads_known(old_c.stages[i].reads));
                } else {
                    assert(p.reads_known(chain.stages[chain.stages.len() - 1].reads));
                }
            }
            p.lemma_walks(old_c.stages, stage, old_c.top.0, old_c.top.1 as nat, id);
        }
        assert(p.step_right(id, lev as nat, s));
        lemma_stepped_on(*p, id, before, *node, lev as int, s);
        lemma_links_kept(before, *node);
        if first || goes_on {
            let l = p.levels@[id as int] as nat;
            assert forall|i: int|
                0 <= i < c.stages.len() && (#[trigger] c.stages[i]).lev <= l implies shown(
                *p,
                id as int,
                *node,
                c,
                i,
            ) by {
                assert(c.stages[i].lev == c.top.1 - i);
                if i == c.stages.len() - 1 {
                    assert(c.stages.take(i + 1) =~= c.stages);
                    assert(c.first(i + 1) == c);
                } else {
                    assert(!first);
                    assert(before.chain@.stages[i] == c.stages[i]);
                    assert(shown(*p, id as int, before, before.chain@, i));
                    assert(before.chain@.stages.take(i + 1) =~= c.stages.take(i + 1));
                }
            }
        } else if before.on {
            lemma_trail(*p, id, before, *node);
        }
    }
}

/// The list of `nb`, and with it the marks, once it has linked back to `id` on a level.
fn link_node<'a, T, D: Fn(&[T], &[T]) -> u32>(
    p: &Plan<'a, T, D>,
    node: &mut Node,
    nb: u32,
    id: u32,
    lev: usize,
    Ghost(chain): Ghost<Chain>,
)
    requires
        p.wf(),
        nb < p.levels@.len(),
        p.asking(nb, id, lev as nat, chain),
        p.stages_known(chain.stages),
        node_right(*p, nb as int, *old(node)),
    ensures
        node_right(*p, nb as int, *final(node)),
        final(node).lists@.len() == old(node).lists@.len(),
        final(node).lists@[lev as int]@ == relinked(
            old(node).lists@[lev as int]@,
            nb,
            id,
            p.room(lev as nat),
            p.corpus.pairs(),
        ),
        forall|l: int|
            0 <= l < final(node).lists@.len() && l != lev ==> #[trigger] final(node).lists@[l]
                == old(node).lists@[l],
{
    let room = p.room_on(lev);
    let ghost before = *node;
    let ghost cur = node.lists@[lev as int]@;
    let ghost s = Step::Link { from: id, chain };
    proof {
        reveal(Plan::step_right);
        assert(p.leads_to(nb, lev as nat, node.hist@[lev as int], lists_of(*node)[lev as int]));
        p.law_steps_lead_to_good_lists(nb, lev as nat, node.hist@[lev as int], cur);
        assert forall|k: int| 0 <= k < cur.len() implies #[trigger] cur[k] < p.corpus.n by {
            assert(cur[k] < p.shape().len());
        }
    }
    relink(p.corpus, &mut node.lists[lev], nb, id, room);
    node.linked[lev].push(id);
    node.hist = Ghost(before.hist@.update(lev as int, before.hist@[lev as int].push(s)));
    proof {
        lemma_stepped_on(*p, nb, before, *node, lev as int, s);
        if before.on {
            lemma_trail(*p, nb, before, *node);
        }
        assert forall|l: int, j: int|
            0 <= l < node.linked@.len() && 0 <= j < node.linked@[l]@.len() implies has_link(
            node.hist@[l],
            #[trigger] node.linked@[l]@[j],
        ) by {
            if l == lev && j == before.linked@[l]@.len() {
                assert(node.linked@[l]@[j] == id);
                assert(node.hist@[l].contains(s));
            } else {
                let from = before.linked@[l]@[j];
                assert(from == node.linked@[l]@[j]);
                assert(has_link(before.hist@[l], from));
                let c = choose|c: Chain| #[trigger]
                    before.hist@[l].contains(Step::Link { from, chain: c });
                assert(node.hist@[l].contains(Step::Link { from, chain: c }));
            }
        }
    }
}

/// A copy of some lists.
fn copy_lists(v: &Vec<Vec<u32>>) -> (r: Vec<Vec<u32>>)
    ensures
        r@.len() == v@.len(),
        forall|i: int| 0 <= i < v@.len() ==> (#[trigger] r@[i])@ == v@[i]@,
{
    let mut r: Vec<Vec<u32>> = Vec::new();
    let mut i: usize = 0;
    while i < v.len()
        invariant
            i <= v@.len(),
            r@.len() == i,
            forall|j: int| 0 <= j < i ==> (#[trigger] r@[j])@ == v@[j]@,
        decreases v@.len() - i,
    {
        r.push(copy_of(&v[i]));
        i = i + 1;
    }
    r
}

/// A copy of what is shared of a node.
fn copy_node<'a, T, D: Fn(&[T], &[T]) -> u32>(
    node: &Node,
    Ghost(p): Ghost<Plan<'a, T, D>>,
    Ghost(id): Ghost<u32>,
) -> (r: Node)
    requires
        node_right(p, id as int, *node),
    ensures
        node_right(p, id as int, r),
        lists_of(r) == lists_of(*node),
{
    let r = Node {
        lists: copy_lists(&node.lists),
        chose: copy_lists(&node.chose),
        linked: copy_lists(&node.linked),
        on: node.on,
        low: node.low,
        lev: node.lev,
        next: copy_of(&node.next),
        hist: Ghost(node.hist@),
        chain: Ghost(node.chain@),
    };
    proof {
        assert(lists_of(r) =~= lists_of(*node));
        assert forall|l: int, j: int|
            0 <= l < r.linked@.len() && 0 <= j < r.linked@[l]@.len() implies has_link(
            r.hist@[l],
            #[trigger] r.linked@[l]@[j],
        ) by {
            assert(node.linked@[l]@[j] == r.linked@[l]@[j]);
        }
        if node.on {
            let c = node.chain@;
            assert forall|i: int|
                0 <= i < c.stages.len() && (#[trigger] c.stages[i]).lev <= p.levels@[id as int] implies
                shown(p, id as int, r, c, i) by {
                assert(shown(p, id as int, *node, c, i));
                assert(c.stages[i].lev < node.chose@.len());
            }
        }
    }
    r
}

/// The nodes and the entry.
pub struct Store<'a, T, D: Fn(&[T], &[T]) -> u32> {
    shards: Vec<RwLock<Nodes, Held<'a, T, D>>>,
    entry: RwLock<(u32, u8), Top>,
}

impl<'a, T, D: Fn(&[T], &[T]) -> u32> Store<'a, T, D> {
    /// The store holds what it should of the nodes of a plan, whatever happens.
    pub closed spec fn fits(&self, p: Plan<'a, T, D>) -> bool {
        &&& self.shards@.len() == SHARDS
        &&& forall|s: int|
            0 <= s < SHARDS ==> (#[trigger] self.shards@[s]).pred() == (Held {
                plan: p,
                shard: s as nat,
            })
        &&& self.entry.pred() == (Top { shape: p.shape() })
    }

    /// A store in which no node has neighbours and node 0 is the entry. That it starts
    /// out like this is left unsaid: only what stays true is known of a store.
    pub(crate) fn new(p: &Plan<'a, T, D>) -> (r: Self)
        requires
            p.wf(),
            0 < p.levels@.len(),
        ensures
            r.fits(*p),
    {
        let mut shards: Vec<RwLock<Nodes, Held<'a, T, D>>> = Vec::new();
        let mut k: usize = 0;
        while k < SHARDS
            invariant
                k <= SHARDS,
                p.wf(),
                shards@.len() == k,
                forall|j: int|
                    0 <= j < k ==> (#[trigger] shards@[j]).pred() == (Held {
                        plan: *p,
                        shard: j as nat,
                    }),
            decreases SHARDS - k,
        {
            let nodes = bare_shard(p, k);
            shards.push(RwLock::new(nodes, Ghost(Held { plan: *p, shard: k as nat })));
            k = k + 1;
        }
        let entry = RwLock::new((0u32, p.levels[0]), Ghost(Top { shape: p.shape() }));
        Store { shards, entry }
    }

    /// The entry and the level that it reaches.
    pub(crate) fn enter(&self, p: &Plan<'a, T, D>, log: &mut Log) -> (r: (u32, u8))
        requires
            p.wf(),
            self.fits(*p),
            !old(log).holds(),
        ensures
            !final(log).holds(),
            final(log)@ == old(log)@.push(Deed::Enter { top: r }),
            is_top(p.shape(), r),
    {
        let held = look(&self.entry, log);
        let top = *held.borrow();
        log.entered(held);
        top
    }

    /// Take a second look at the entry for `id`, which reaches level `l`.
    pub(crate) fn raise(&self, p: &Plan<'a, T, D>, id: u32, log: &mut Log)
        requires
            p.wf(),
            self.fits(*p),
            id < p.levels@.len(),
            !old(log).holds(),
        ensures
            !final(log).holds(),
            adds_one(old(log)@, final(log)@),
            p.raises(final(log)@.last(), id, p.levels@[id as int]),
    {
        let l = p.levels[id as usize];
        let (seen, hold) = take(&self.entry, log);
        let top = if l > seen.1 {
            (id, l)
        } else {
            seen
        };
        log.raised(hold, top);
        assert(log@.drop_last() =~= old(log)@);
    }

    /// What is shared of node `id`, as it is at one moment.
    pub(crate) fn read_node(&self, p: &Plan<'a, T, D>, id: u32, log: &mut Log) -> (r: Node)
        requires
            p.wf(),
            self.fits(*p),
            id < p.levels@.len(),
            !old(log).holds(),
        ensures
            !final(log).holds(),
            final(log)@ == old(log)@.push(Deed::Copy { id, lists: lists_of(r) }),
            node_right(*p, id as int, r),
    {
        let shard: usize = id as usize % SHARDS;
        let slot: usize = id as usize / SHARDS;
        let held = look(&self.shards[shard], log);
        let nodes = held.borrow();
        proof {
            assert(node_at(shard as nat, slot as int) == id);
            assert(node_right(*p, id as int, nodes@[slot as int]));
        }
        let r = copy_node::<T, D>(&nodes[slot], Ghost(*p), Ghost(id));
        log.copied(held, id, slot);
        r
    }
}

/// What one thread does to the store, and the log of it.
pub struct Hand<'b, 'a, T, D: Fn(&[T], &[T]) -> u32> {
    pub store: &'b Store<'a, T, D>,
    pub log: Log,
}

impl<'b, 'a, T, D: Fn(&[T], &[T]) -> u32> Web<'a, T, D> for Hand<'b, 'a, T, D> {
    /// Between deeds the thread holds no lock.
    open spec fn fits(&self, p: Plan<'a, T, D>) -> bool {
        self.store.fits(p) && !self.log.holds()
    }

    open spec fn deeds(&self) -> Seq<Deed> {
        self.log@
    }

    /// Other threads may be at work.
    open spec fn graph(&self) -> Option<Graph> {
        None
    }

    fn read_nbrs(&mut self, p: &Plan<'a, T, D>, id: u32, lev: usize, out: &mut Vec<u32>) {
        let shard: usize = id as usize % SHARDS;
        let slot: usize = id as usize / SHARDS;
        let held = look(&self.store.shards[shard], &mut self.log);
        let nodes = held.borrow();
        out.clear();
        proof {
            assert(node_at(shard as nat, slot as int) == id);
            assert(node_right(*p, id as int, nodes@[slot as int]));
        }
        if lev < nodes[slot].lists.len() {
            out.extend_from_slice(&nodes[slot].lists[lev]);
            proof {
                let node = nodes@[slot as int];
                assert(out@ =~= node.lists@[lev as int]@);
                assert(p.leads_to(id, lev as nat, node.hist@[lev as int], lists_of(node)[lev as int]));
                p.law_steps_lead_to_good_lists(id, lev as nat, node.hist@[lev as int], out@);
                p.lemma_known(id, lev as nat, node.hist@[lev as int], out@);
            }
        }
        self.log.seen(held, id, slot, lev);
    }

    fn show(
        &mut self,
        p: &Plan<'a, T, D>,
        id: u32,
        lev: usize,
        to: &Vec<u32>,
        eps: &Vec<u32>,
        next: &Vec<u32>,
        first: bool,
        Ghost(chain): Ghost<Chain>,
    ) {
        let shard: usize = id as usize % SHARDS;
        let slot: usize = id as usize / SHARDS;
        let (mut nodes, hold) = take(&self.store.shards[shard], &mut self.log);
        let ghost before = nodes;
        proof {
            reveal(Plan::step_right);
            assert(node_at(shard as nat, slot as int) == id);
            assert(node_right(*p, id as int, nodes@[slot as int]));
            let node = nodes@[slot as int];
            assert(p.leads_to(id, lev as nat, node.hist@[lev as int], lists_of(node)[lev as int]));
            p.law_steps_lead_to_good_lists(
                id,
                lev as nat,
                node.hist@[lev as int],
                lists_of(node)[lev as int],
            );
        }
        show_node(p, &mut nodes[slot], id, lev, to, eps, next, first, Ghost(chain));
        proof {
            lemma_replaced(
                Held { plan: *p, shard: shard as nat },
                before,
                nodes,
                slot as int,
            );
        }
        self.log.put(hold, nodes, id, slot, lev);
        assert(self.log@.drop_last() =~= old(self).log@);
    }

    fn link(
        &mut self,
        p: &Plan<'a, T, D>,
        nb: u32,
        id: u32,
        lev: usize,
        Ghost(chain): Ghost<Chain>,
    ) {
        let shard: usize = nb as usize % SHARDS;
        let slot: usize = nb as usize / SHARDS;
        let (mut nodes, hold) = take(&self.store.shards[shard], &mut self.log);
        let ghost before = nodes;
        proof {
            assert(node_at(shard as nat, slot as int) == nb);
            assert(node_right(*p, nb as int, nodes@[slot as int]));
            let node = nodes@[slot as int];
            assert(p.leads_to(nb, lev as nat, node.hist@[lev as int], lists_of(node)[lev as int]));
            p.law_steps_lead_to_good_lists(
                nb,
                lev as nat,
                node.hist@[lev as int],
                lists_of(node)[lev as int],
            );
        }
        link_node(p, &mut nodes[slot], nb, id, lev, Ghost(chain));
        proof {
            lemma_replaced(
                Held { plan: *p, shard: shard as nat },
                before,
                nodes,
                slot as int,
            );
        }
        self.log.put(hold, nodes, nb, slot, lev);
        assert(self.log@.drop_last() =~= old(self).log@);
    }
}

/// As many empty lists.
fn bare_lists(k: usize) -> (r: Vec<Vec<u32>>)
    ensures
        r@.len() == k,
        forall|j: int| 0 <= j < k ==> (#[trigger] r@[j])@.len() == 0,
{
    let mut r: Vec<Vec<u32>> = Vec::new();
    let mut i: usize = 0;
    while i < k
        invariant
            i <= k,
            r@.len() == i,
            forall|j: int| 0 <= j < i ==> (#[trigger] r@[j])@.len() == 0,
        decreases k - i,
    {
        r.push(Vec::new());
        i = i + 1;
    }
    r
}

/// A node that has done nothing yet.
fn bare_node<'a, T, D: Fn(&[T], &[T]) -> u32>(p: &Plan<'a, T, D>, id: u32) -> (r: Node)
    requires
        p.wf(),
        id < p.levels@.len(),
    ensures
        node_right(*p, id as int, r),
{
    let k: usize = p.levels[id as usize] as usize + 1;
    let ghost none: Seq<Seq<Step>> = Seq::new(k as nat, |lev: int| Seq::empty());
    let r = Node {
        lists: bare_lists(k),
        chose: bare_lists(k),
        linked: bare_lists(k),
        on: false,
        low: 0,
        lev: 0,
        next: Vec::new(),
        hist: Ghost(none),
        chain: Ghost(Chain { top: (0, 0), stages: Seq::empty() }),
    };
    proof {
        assert forall|lev: int| 0 <= lev < k implies p.leads_to(
            id,
            lev as nat,
            #[trigger] none[lev],
            lists_of(r)[lev],
        ) && p.grounded(none[lev]) by {
            assert(lists_of(r)[lev] =~= Seq::empty());
            reveal(Plan::grounded);
            assert(p.sourced(0, none[lev]));
        }
    }
    r
}

/// The nodes of one shard, none of which has done anything yet.
fn bare_shard<'a, T, D: Fn(&[T], &[T]) -> u32>(p: &Plan<'a, T, D>, shard: usize) -> (r: Nodes)
    requires
        p.wf(),
        shard < SHARDS,
    ensures
        (Held { plan: *p, shard: shard as nat }).inv(r),
{
    let n = p.levels.len() as u64;
    let mut r: Nodes = Vec::new();
    let mut id: u64 = shard as u64;
    while id < n
        invariant
            p.wf(),
            shard < SHARDS,
            n == p.levels@.len(),
            id == node_at(shard as nat, r@.len() as int),
            forall|k: int|
                0 <= k < r@.len() ==> node_right(
                    *p,
                    node_at(shard as nat, k),
                    #[trigger] r@[k],
                ),
        decreases n + SHARDS - id,
    {
        r.push(bare_node(p, id as u32));
        id = id + SHARDS as u64;
    }
    r
}

/// What one more element adds.
pub proof fn lemma_push(s: Seq<u32>, x: u32, y: u32)
    ensures
        s.push(x).contains(y) <==> s.contains(y) || x == y,
{
    let t = s.push(x);
    if s.contains(y) {
        let i = choose|i: int| 0 <= i < s.len() && s[i] == y;
        assert(t[i] == y);
    }
    if t.contains(y) {
        let i = choose|i: int| 0 <= i < t.len() && t[i] == y;
        if i < s.len() {
            assert(s[i] == y);
        }
    }
    assert(t[s.len() as int] == x);
}

} // verus!
