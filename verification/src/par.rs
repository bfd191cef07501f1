//! Building an index on many threads.
//!
//! The vectors and the levels are fixed before the threads start. The neighbour
//! lists stand in a store that the threads share. Whatever they do, it holds good
//! lists, so the graph that comes out is sound however they interleave. A node never
//! finds itself, and one that others link to before it shows itself on a level keeps
//! those links as far as there is room. Each node leaves marks of what it has joined;
//! one whose marks are not complete in the end is inserted once more.

use vstd::arithmetic::div_mod::lemma_add_mod_noop;
use vstd::prelude::*;

use rayon::iter::{IntoParallelIterator, ParallelIterator};

use crate::beam::Graph;
use crate::cand::{first, holds};
use crate::graph::{same_shape, sound};
use crate::growth::peopled;
use crate::guard::{lists_of, Deed, Log, Node, Nodes};
use crate::history::{has_link, linked, Chain, History};
use crate::hnsw::Hnsw;
use crate::index::entry_ok;
use crate::insertion::{walk_down, Scratch};
use crate::level::{draw, drawn, level_at, samples, MAX_LEVEL};
use crate::links::Links;
use crate::metric::{measures, Corpus};
use crate::settle::{in_or_owed, law_settled, settle, settled};
use crate::stats::{law_hash_of_levels, levels_hash};
use crate::store::{node_right, shape, shown, Hand, Plan, Store};
use crate::synth::lemma_times;
use crate::trace::flat;

verus! {

/// 64 bits that depend on the seed and the node alone.
pub open spec fn mix(seed: u64, id: u32) -> u64 {
    stir(seed.wrapping_add(0x9E37_79B9_7F4A_7C15u64.wrapping_mul((id + 1) as u64)))
}

/// The bits of a number, spread over all places.
pub open spec fn stir(a: u64) -> u64 {
    let b = (a ^ (a >> 30)).wrapping_mul(0xBF58_476D_1CE4_E5B9);
    let c = (b ^ (b >> 27)).wrapping_mul(0x94D0_49BB_1331_11EB);
    c ^ (c >> 31)
}

/// Different nodes get different bits of one seed, and different seeds give one node
/// different bits. What a seed gives the next node, another seed gives this one.
pub proof fn law_mix(seed: u64, other: u64, id: u32, next: u32)
    ensures
        mix(seed, id) == mix(seed, next) ==> id == next,
        mix(seed, id) == mix(other, id) ==> seed == other,
        id < u32::MAX ==> mix(seed, (id + 1) as u32) == mix(
            seed.wrapping_add(0x9E37_79B9_7F4A_7C15),
            id,
        ),
{
    let g = 0x9E37_79B9_7F4A_7C15u64;
    let (x, y) = ((id + 1) as u64, (next + 1) as u64);
    let (p, q) = (g.wrapping_mul(x), g.wrapping_mul(y));
    if mix(seed, id) == mix(seed, next) {
        lemma_stirred(seed.wrapping_add(p), seed.wrapping_add(q));
        lemma_plus(seed, p, q);
        lemma_turned(g, x);
        lemma_turned(g, y);
        assert((0x9E37_79B9_7F4A_7C15 * 0xf1de83e19937733d) % 0x1_0000_0000_0000_0000 == 1)
            by (nonlinear_arith);
        lemma_times(x, y, g, 0xf1de83e19937733d);
    }
    if mix(seed, id) == mix(other, id) {
        lemma_stirred(seed.wrapping_add(p), other.wrapping_add(p));
        lemma_plus(p, seed, other);
    }
    if id < u32::MAX {
        lemma_next(seed, g, x);
        assert(x + 1 == ((id + 1) as u32 + 1) as u64);
    }
}

proof fn lemma_plus(s: u64, p: u64, q: u64)
    ensures
        s.wrapping_add(p) == p.wrapping_add(s),
        s.wrapping_add(p) == s.wrapping_add(q) ==> p == q,
{
}

proof fn lemma_turned(g: u64, x: u64)
    ensures
        g.wrapping_mul(x) == x.wrapping_mul(g),
{
    assert(g * x == x * g) by (nonlinear_arith);
}

proof fn lemma_next(seed: u64, g: u64, x: u64)
    requires
        x < u64::MAX,
    ensures
        seed.wrapping_add(g.wrapping_mul((x + 1) as u64)) == seed.wrapping_add(g).wrapping_add(
            g.wrapping_mul(x),
        ),
{
    let m = 0x1_0000_0000_0000_0000int;
    let p = g.wrapping_mul(x);
    let more = g.wrapping_mul((x + 1) as u64);
    assert(g * (x + 1) == g * x + g) by (nonlinear_arith);
    assert(more == (g * (x + 1)) % m);
    assert(p == (g * x) % m);
    lemma_add_mod_noop(g * x, g as int, m);
    assert(more == p.wrapping_add(g));
}

/// Different numbers are different once stirred.
proof fn lemma_stirred(x: u64, y: u64)
    requires
        stir(x) == stir(y),
    ensures
        x == y,
{
    let b = (x ^ (x >> 30)).wrapping_mul(0xBF58_476D_1CE4_E5B9);
    let c = (b ^ (b >> 27)).wrapping_mul(0x94D0_49BB_1331_11EB);
    let d = (y ^ (y >> 30)).wrapping_mul(0xBF58_476D_1CE4_E5B9);
    let e = (d ^ (d >> 27)).wrapping_mul(0x94D0_49BB_1331_11EB);
    assert(c == e) by (bit_vector)
        requires
            c ^ (c >> 31) == e ^ (e >> 31),
    ;
    assert((0x94D0_49BB_1331_11EB * 0x319642b2d24d8ec3) % 0x1_0000_0000_0000_0000 == 1) by (nonlinear_arith);
    lemma_times(b ^ (b >> 27), d ^ (d >> 27), 0x94D0_49BB_1331_11EB, 0x319642b2d24d8ec3);
    assert(b == d) by (bit_vector)
        requires
            b ^ (b >> 27) == d ^ (d >> 27),
    ;
    assert((0xBF58_476D_1CE4_E5B9 * 0x96de1b173f119089) % 0x1_0000_0000_0000_0000 == 1) by (nonlinear_arith);
    lemma_times(x ^ (x >> 30), y ^ (y >> 30), 0xBF58_476D_1CE4_E5B9, 0x96de1b173f119089);
    assert(x == y) by (bit_vector)
        requires
            x ^ (x >> 30) == y ^ (y >> 30),
    ;
}

/// The level that node `id` reaches.
pub open spec fn node_level<L: Fn(u64) -> usize>(seed: u64, id: u32, level: L) -> nat {
    level_at(level, mix(seed, id) >> 11)
}

/// The level that node `id` reaches, whatever thread asks and in whatever order.
pub fn level_of<L: Fn(u64) -> usize>(seed: u64, id: u32, level: &L) -> (l: u8)
    requires
        samples(*level),
    ensures
        l == node_level(seed, id, *level),
        l <= MAX_LEVEL,
        drawn(*level, mix(seed, id) >> 11, l as nat),
{
    let mut z = seed.wrapping_add(0x9E37_79B9_7F4A_7C15u64.wrapping_mul(id as u64 + 1));
    z = (z ^ (z >> 30)).wrapping_mul(0xBF58_476D_1CE4_E5B9);
    z = (z ^ (z >> 27)).wrapping_mul(0x94D0_49BB_1331_11EB);
    z = z ^ (z >> 31);
    assert(z >> 11 < 0x20_0000_0000_0000) by (bit_vector);
    draw(level, z >> 11)
}

/// What the threads share: what is fixed, and the store.
struct Shared<'a, T, D: Fn(&[T], &[T]) -> u32> {
    plan: Plan<'a, T, D>,
    store: Store<'a, T, D>,
}

impl<'a, T, D: Fn(&[T], &[T]) -> u32> Shared<'a, T, D> {
    spec fn wf(&self) -> bool {
        &&& self.plan.wf()
        &&& self.store.fits(self.plan)
    }

    /// How many nodes there are.
    spec fn len(&self) -> nat {
        self.plan.levels@.len()
    }
}

/// Let node `id` join the graph that the threads share, from the entry on. What other
/// threads have done by then decides which lists are read and replaced. The rest follows
/// from those. The log tells all of it.
fn insert_one<'a, T, D: Fn(&[T], &[T]) -> u32>(
    s: &Shared<'a, T, D>,
    sc: &mut Scratch,
    id: u32,
) -> (log: Log)
    requires
        s.wf(),
        old(sc).wf(),
        id < s.len(),
    ensures
        final(sc).wf(),
        !log.holds(),
        s.plan.inserts(log@, id, old(sc).calls, final(sc).calls),
{
    let mut hand = Hand { store: &s.store, log: Log::new() };
    let top = s.store.enter(&s.plan, &mut hand.log);
    let stages = walk_down(&s.plan, &mut hand, sc, id, top);
    let ghost main = seq![Deed::Enter { top }] + flat(stages@);
    assert(hand.log@ =~= main);
    if s.plan.levels[id as usize] > 0 {
        s.store.raise(&s.plan, id, &mut hand.log);
    }
    assert(s.plan.tells(top, stages@, hand.log@, id));
    hand.log
}

/// Let every node but the first join the graph. The call is
/// `rayon::iter::ParallelIterator::for_each_init` on the range `1..n`. It is
/// taken to make what it hands to `insert_one` with `Scratch::new`, or to hand on
/// what an earlier call left, and to call it with the numbers of the range only.
/// Nothing is claimed of what the calls leave behind in the store, nor that each has
/// run: whether a node has joined is read off the marks that it has left there.
#[verifier::external_body]
fn insert_all<T: Sync, D: Fn(&[T], &[T]) -> u32 + Sync>(s: &Shared<T, D>, n: u32)
    requires
        s.wf(),
        n == s.len(),
{
    (1..n).into_par_iter().for_each_init(Scratch::new, |sc, id| {
        insert_one(s, sc, id);
    });
}

/// The lists of some nodes.
pub open spec fn graph_of(nodes: Seq<Node>) -> Graph {
    Seq::new(nodes.len(), |i: int| lists_of(nodes[i]))
}

/// The histories of some nodes.
pub open spec fn history_of(nodes: Seq<Node>) -> History {
    Seq::new(nodes.len(), |i: int| nodes[i].hist@)
}

/// The chains of some nodes.
pub open spec fn chains_of(nodes: Seq<Node>) -> Seq<Chain> {
    Seq::new(nodes.len(), |i: int| nodes[i].chain@)
}

/// What is read of every node, one after the other.
spec fn copies(nodes: Seq<Node>) -> Seq<Deed> {
    Seq::new(nodes.len(), |i: int| Deed::Copy { id: i as u32, lists: lists_of(nodes[i]) })
}

/// Gather what the store holds of every node. Each node is read once.
fn gather<'a, T, D: Fn(&[T], &[T]) -> u32>(s: &Shared<'a, T, D>, log: &mut Log) -> (nodes: Nodes)
    requires
        s.wf(),
        !old(log).holds(),
    ensures
        !final(log).holds(),
        nodes@.len() == s.len(),
        forall|i: int| 0 <= i < nodes@.len() ==> node_right(s.plan, i, #[trigger] nodes@[i]),
        final(log)@ == old(log)@ + copies(nodes@),
{
    let n = s.plan.levels.len();
    let mut nodes: Nodes = Vec::new();
    let mut i: usize = 0;
    assert(log@ =~= old(log)@ + copies(nodes@));
    while i < n
        invariant
            s.wf(),
            n == s.len(),
            i <= n,
            nodes@.len() == i,
            forall|j: int| 0 <= j < i ==> node_right(s.plan, j, #[trigger] nodes@[j]),
            log@ == old(log)@ + copies(nodes@),
            !log.holds(),
        decreases n - i,
    {
        let ghost before = nodes@;
        let node = s.store.read_node(&s.plan, i as u32, log);
        nodes.push(node);
        assert(log@ =~= old(log)@ + copies(nodes@));
        i = i + 1;
    }
    nodes
}

/// What is gathered are lists that came to be by right steps.
proof fn lemma_gathered<'a, T, D: Fn(&[T], &[T]) -> u32>(plan: Plan<'a, T, D>, nodes: Seq<Node>)
    requires
        nodes.len() == plan.levels@.len(),
        forall|i: int| 0 <= i < nodes.len() ==> node_right(plan, i, #[trigger] nodes[i]),
    ensures
        plan.led(history_of(nodes), graph_of(nodes)),
{
    let (g, hist) = (graph_of(nodes), history_of(nodes));
    assert forall|x: int| 0 <= x < g.len() implies plan.node_led(x, #[trigger] hist[x], g[x]) by {
        assert(node_right(plan, x, nodes[x]));
    }
    assert forall|x: int| 0 <= x < g.len() implies (#[trigger] g[x]).len()
        == plan.shape()[x].len() by {
        assert(node_right(plan, x, nodes[x]));
    }
}

/// The lists of some nodes as one graph.
fn link_up<'a, T, D: Fn(&[T], &[T]) -> u32>(p: &Plan<'a, T, D>, nodes: &Nodes) -> (links: Links)
    requires
        p.wf(),
        p.levels@.len() * (2 * p.m) <= usize::MAX,
        nodes@.len() == p.levels@.len(),
        forall|i: int| 0 <= i < nodes@.len() ==> node_right(*p, i, #[trigger] nodes@[i]),
    ensures
        links.wf(),
        links.m0 == 2 * p.m,
        links@ == graph_of(nodes@),
{
    let ghost m = p.m as nat;
    let n = p.levels.len();
    let mut links = Links::new(p.m * 2);
    let mut i: usize = 0;
    while i < n
        invariant
            p.wf(),
            m == p.m,
            n == p.levels@.len() == nodes@.len(),
            n * (2 * m) <= usize::MAX,
            i <= n,
            forall|j: int| 0 <= j < nodes@.len() ==> node_right(*p, j, #[trigger] nodes@[j]),
            links.wf(),
            links.m0 == 2 * m,
            links@.len() == i,
            forall|j: int| 0 <= j < i ==> #[trigger] links@[j] == lists_of(nodes@[j]),
        decreases n - i,
    {
        let l = p.levels[i];
        let ghost before = links@;
        assert((i + 1) * (2 * m) <= n * (2 * m)) by (nonlinear_arith)
            requires
                i < n,
                m >= 0,
        ;
        links.add_node(l);
        assert(node_right(*p, i as int, nodes@[i as int]));
        let mut lev: usize = 0;
        while lev <= l as usize
            invariant
                p.wf(),
                m == p.m,
                n == p.levels@.len() == nodes@.len(),
                i < n,
                l == p.levels@[i as int],
                lev <= l + 1,
                node_right(*p, i as int, nodes@[i as int]),
                links.wf(),
                links.m0 == 2 * m,
                links@.len() == i + 1,
                forall|j: int| 0 <= j < i ==> #[trigger] links@[j] == before[j],
                links@[i as int].len() == l + 1,
                forall|k: int|
                    0 <= k < lev ==> #[trigger] links@[i as int][k] == lists_of(
                        nodes@[i as int],
                    )[k],
            decreases l + 1 - lev,
        {
            proof {
                let node = nodes@[i as int];
                let list = lists_of(node)[lev as int];
                assert(p.leads_to(i as u32, lev as nat, node.hist@[lev as int], list));
                p.law_steps_lead_to_good_lists(i as u32, lev as nat, node.hist@[lev as int], list);
                assert(lev == 0 ==> first(list, (2 * m) as nat) =~= list);
            }
            links.set_nbrs(i as u32, lev, &nodes[i].lists[lev]);
            lev = lev + 1;
        }
        assert(links@[i as int] =~= lists_of(nodes@[i as int]));
        i = i + 1;
    }
    assert(links@ =~= graph_of(nodes@));
    links
}

/// What is known of the nodes that were gathered.
spec fn all_right<'a, T, D: Fn(&[T], &[T]) -> u32>(plan: Plan<'a, T, D>, nodes: Seq<Node>) -> bool {
    &&& plan.wf()
    &&& nodes.len() == plan.levels@.len()
    &&& forall|i: int| 0 <= i < nodes.len() ==> node_right(plan, i, #[trigger] nodes[i])
}

/// Whether all nodes of `to` show that they have linked back to `id` on a level.
fn all_linked<'a, T, D: Fn(&[T], &[T]) -> u32>(
    nodes: &Nodes,
    to: &Vec<u32>,
    id: u32,
    lev: usize,
    Ghost(p): Ghost<Plan<'a, T, D>>,
) -> (r: bool)
    requires
        all_right(p, nodes@),
        p.good(id, lev as nat, to@),
    ensures
        r ==> forall|k: int|
            0 <= k < to@.len() ==> linked(
                history_of(nodes@),
                #[trigger] to@[k],
                lev as nat,
                id,
            ),
{
    let ghost hist = history_of(nodes@);
    let mut k: usize = 0;
    while k < to.len()
        invariant
            all_right(p, nodes@),
            p.good(id, lev as nat, to@),
            hist == history_of(nodes@),
            k <= to@.len(),
            forall|j: int| 0 <= j < k ==> linked(hist, #[trigger] to@[j], lev as nat, id),
        decreases to@.len() - k,
    {
        let y = to[k];
        assert(to@[k as int] < p.shape().len());
        assert(node_right(p, y as int, nodes@[y as int]));
        if !holds(&nodes[y as usize].linked[lev], id) {
            return false;
        }
        proof {
            let other = nodes@[y as int];
            let back = other.linked@[lev as int]@;
            let j = choose|j: int| 0 <= j < back.len() && back[j] == id;
            assert(has_link(other.hist@[lev as int], other.linked@[lev as int]@[j]));
            assert(hist[y as int] == other.hist@);
        }
        k = k + 1;
    }
    true
}

/// The chosen nodes of a level have linked back.
spec fn backed(hist: History, node: Node, id: u32, lev: int) -> bool {
    forall|k: int|
        0 <= k < node.chose@[lev]@.len() ==> linked(
            hist,
            #[trigger] node.chose@[lev]@[k],
            lev as nat,
            id,
        )
}

/// What is known of a node that has come down to level 0, on one of its levels.
proof fn lemma_on_level<'a, T, D: Fn(&[T], &[T]) -> u32>(
    p: Plan<'a, T, D>,
    node: Node,
    id: u32,
    lev: int,
)
    requires
        node_right(p, id as int, node),
        node.on,
        node.lev == 0,
        0 <= lev <= node.low,
    ensures
        lev < node.chose@.len(),
        p.good(id, lev as nat, node.chose@[lev]@),
{
    let c = node.chain@;
    let at = c.top.1 - lev;
    assert(c.stages[c.stages.len() - 1].lev == c.top.1 - (c.stages.len() - 1));
    assert(c.stages[at].lev == lev);
    assert(shown(p, id as int, node, c, at));
    p.lemma_choice(c, id, at);
}

/// A node that has come down to level 0, and whose chosen nodes have linked back, has
/// come in.
proof fn lemma_came_in<'a, T, D: Fn(&[T], &[T]) -> u32>(
    p: Plan<'a, T, D>,
    hist: History,
    node: Node,
    id: u32,
)
    requires
        node_right(p, id as int, node),
        hist[id as int] == node.hist@,
        node.on,
        node.lev == 0,
        forall|lev: int| 0 <= lev <= node.low ==> #[trigger] backed(hist, node, id, lev),
    ensures
        p.came_in(hist, node.chain@, id),
{
    let c = node.chain@;
    assert(c.stages[c.stages.len() - 1].lev == c.top.1 - (c.stages.len() - 1));
    assert forall|j: int|
        0 <= j < c.stages.len() && (#[trigger] c.stages[j]).lev <= p.levels@[id as int] implies
        p.joined_by(hist, c, id, j) by {
        assert(c.stages[j].lev == c.top.1 - j);
        assert(shown(p, id as int, node, c, j));
        let y = c.stages[j].lev as int;
        assert(backed(hist, node, id, y));
        let to = p.choice(c.stages[j], id);
        assert forall|k: int| 0 <= k < to.len() implies linked(
            hist,
            #[trigger] to[k],
            y as nat,
            id,
        ) by {
            assert(node.chose@[y]@[k] == to[k]);
        }
    }
}

/// Whether `id` has joined every level that it had to, by its marks: it shows that it
/// has come down to level 0, and all nodes that it chose show that they have linked back.
fn has_joined<'a, T, D: Fn(&[T], &[T]) -> u32>(p: &Plan<'a, T, D>, nodes: &Nodes, id: u32) -> (r:
    bool)
    requires
        all_right(*p, nodes@),
        id < nodes@.len(),
    ensures
        r ==> p.came_in(history_of(nodes@), nodes@[id as int].chain@, id),
{
    let i = id as usize;
    assert(node_right(*p, id as int, nodes@[id as int]));
    if !nodes[i].on || nodes[i].lev != 0 {
        return false;
    }
    let low = nodes[i].low;
    let ghost hist = history_of(nodes@);
    let ghost node = nodes@[id as int];
    let mut lev: usize = 0;
    while lev <= low
        invariant
            all_right(*p, nodes@),
            i == id < nodes@.len(),
            hist == history_of(nodes@),
            node == nodes@[id as int],
            node_right(*p, id as int, node),
            node.on,
            node.lev == 0,
            low == node.low < usize::MAX,
            lev <= low + 1,
            forall|y: int| 0 <= y < lev ==> #[trigger] backed(hist, node, id, y),
        decreases low + 1 - lev,
    {
        proof {
            lemma_on_level(*p, node, id, lev as int);
        }
        if !all_linked::<T, D>(nodes, &nodes[i].chose[lev], id, lev, Ghost(*p)) {
            return false;
        }
        assert(backed(hist, node, id, lev as int));
        lev = lev + 1;
    }
    proof {
        lemma_came_in(*p, hist, node, id);
    }
    true
}

/// For each node but the first, whether it is still owed an insertion.
fn find_owed<'a, T, D: Fn(&[T], &[T]) -> u32>(
    p: &Plan<'a, T, D>,
    nodes: &Nodes,
) -> (owed: Vec<bool>)
    requires
        all_right(*p, nodes@),
    ensures
        owed@.len() == nodes@.len(),
        in_or_owed(*p, history_of(nodes@), chains_of(nodes@), owed@),
{
    let n = nodes.len();
    let mut owed: Vec<bool> = Vec::new();
    let mut i: usize = 0;
    while i < n
        invariant
            all_right(*p, nodes@),
            n == nodes@.len(),
            i <= n,
            owed@.len() == i,
            forall|id: u32|
                1 <= id < i && !owed@[id as int] ==> #[trigger] p.came_in(
                    history_of(nodes@),
                    chains_of(nodes@)[id as int],
                    id,
                ),
        decreases n - i,
    {
        let due = i > 0 && !has_joined(p, nodes, i as u32);
        assert(chains_of(nodes@)[i as int] == nodes@[i as int].chain@);
        owed.push(due);
        i = i + 1;
    }
    owed
}

/// A node that reaches the highest level: `e` itself where none reaches higher.
fn highest(levels: &Vec<u8>, e: u32) -> (r: u32)
    requires
        e < levels@.len() <= u32::MAX,
    ensures
        r < levels@.len(),
        forall|i: int| 0 <= i < levels@.len() ==> #[trigger] levels@[i] <= levels@[r as int],
        (forall|i: int| 0 <= i < levels@.len() ==> #[trigger] levels@[i] <= levels@[e as int])
            ==> r == e,
{
    let mut r = e;
    let mut i: usize = 0;
    while i < levels.len()
        invariant
            e < levels@.len() <= u32::MAX,
            i <= levels@.len(),
            r < levels@.len(),
            levels@[e as int] <= levels@[r as int],
            r == e || levels@[e as int] < levels@[r as int],
            forall|j: int| 0 <= j < i ==> #[trigger] levels@[j] <= levels@[r as int],
        decreases levels@.len() - i,
    {
        if levels[i] > levels[r as usize] {
            r = i as u32;
        }
        i = i + 1;
    }
    r
}

/// The plan of a build over the given vectors, from the given seed.
pub open spec fn planned<T, D: Fn(&[T], &[T]) -> u32, L: Fn(u64) -> usize>(
    p: Plan<T, D>,
    data: Seq<T>,
    dim: usize,
    m: usize,
    ef_construction: usize,
    seed: u64,
    dist: D,
    level: L,
) -> bool {
    &&& p.wf()
    &&& p.corpus.data@ == data
    &&& p.corpus.dim == dim
    &&& p.corpus.n == data.len() / dim as nat
    &&& *p.corpus.dist == dist
    &&& p.m == m
    &&& p.ef_construction == ef_construction
    &&& leveled(p.shape(), seed, level)
}

/// The level of every node.
fn draw_levels<L: Fn(u64) -> usize>(n: usize, seed: u64, level: &L) -> (levels: Vec<u8>)
    requires
        n <= u32::MAX,
        samples(*level),
    ensures
        levels@.len() == n,
        leveled(shape(levels@), seed, *level),
        forall|j: int|
            0 <= j < n ==> drawn(
                *level,
                mix(seed, j as u32) >> 11,
                #[trigger] levels@[j] as nat,
            ),
{
    let mut levels: Vec<u8> = Vec::new();
    let mut i: usize = 0;
    while i < n
        invariant
            n <= u32::MAX,
            i <= n,
            samples(*level),
            levels@.len() == i,
            forall|j: int|
                0 <= j < i ==> #[trigger] levels@[j] == node_level(seed, j as u32, *level),
            forall|j: int|
                0 <= j < i ==> drawn(
                    *level,
                    mix(seed, j as u32) >> 11,
                    #[trigger] levels@[j] as nat,
                ),
        decreases n - i,
    {
        levels.push(level_of(seed, i as u32, level));
        i = i + 1;
    }
    assert forall|j: int| 0 <= j < n implies (#[trigger] shape(levels@)[j]).len() == node_level(
        seed,
        j as u32,
        *level,
    ) + 1 by {
        assert(levels@[j] == node_level(seed, j as u32, *level));
    }
    levels
}

/// `h` is what a build makes of lists `g` that the threads have left, with the entry `e`:
/// these came to be by right steps, and the nodes that are still owed an insertion get it,
/// as do those that have no neighbours.
pub open spec fn finished<'a, T, D: Fn(&[T], &[T]) -> u32>(
    p: Plan<'a, T, D>,
    g: Graph,
    owed: Seq<bool>,
    e: u32,
    h: Graph,
) -> bool {
    &&& owed.len() == g.len()
    &&& exists|hist: History, chains: Seq<Chain>|
        #![trigger p.led(hist, g), in_or_owed(p, hist, chains, owed)]
        p.led(hist, g) && in_or_owed(p, hist, chains, owed)
    &&& if p.m >= 1 && p.ef_construction >= 1 && g.len() >= 2 {
        settled(p, g, owed, e, h)
    } else {
        h == g
    }
}

/// Every list of `g` came to be by right steps, which go by searches of lists that came to
/// be in the same way. Every node but the first has come in on the way: it was inserted,
/// from an entry down to level 0, and on each level that both reach it showed itself with
/// what it chose among what it found, and what it chose has linked back.
pub open spec fn all_in<'a, T, D: Fn(&[T], &[T]) -> u32>(
    p: Plan<'a, T, D>,
    g: Graph,
    hist: History,
    chains: Seq<Chain>,
) -> bool {
    &&& p.led(hist, g)
    &&& chains.len() == g.len()
    &&& p.m >= 1 && p.ef_construction >= 1 ==> forall|id: u32|
        1 <= id < g.len() ==> #[trigger] p.came_in(hist, chains[id as int], id)
}

/// `h`, with the entry `e`, is what a build by the plan `p` can come to.
pub open spec fn woven<'a, T, D: Fn(&[T], &[T]) -> u32>(
    p: Plan<'a, T, D>,
    h: Graph,
    e: u32,
) -> bool {
    &&& exists|g: Graph, owed: Seq<bool>| #[trigger] finished(p, g, owed, e, h)
    &&& exists|hist: History, chains: Seq<Chain>| #[trigger] all_in(p, h, hist, chains)
}

/// Gather what the threads have left, and finish it: the graph, its entry, and the level
/// that the entry reaches.
fn assemble<'a, T, D: Fn(&[T], &[T]) -> u32>(s: &Shared<'a, T, D>) -> (r: (Links, u32, u8))
    requires
        s.wf(),
        0 < s.len(),
        s.len() * (2 * s.plan.m) <= usize::MAX,
    ensures
        r.0.wf(),
        r.0.m0 == 2 * s.plan.m,
        sound(r.0@, s.plan.m as nat),
        same_shape(s.plan.shape(), r.0@),
        entry_ok(r.0@, r.1, r.2 as nat),
        s.plan.m >= 1 && s.plan.ef_construction >= 1 ==> peopled(r.0@),
        woven(s.plan, r.0@, r.1),
{
    let mut log = Log::new();
    let (e, _) = s.store.enter(&s.plan, &mut log);
    let nodes = gather(s, &mut log);
    let top = highest(s.plan.levels, e);
    let height = s.plan.levels[top as usize];
    let owed = find_owed(&s.plan, &nodes);
    let mut links = link_up(&s.plan, &nodes);
    let ghost g = links@;
    let ghost mut hist = history_of(nodes@);
    let ghost mut chains = chains_of(nodes@);
    proof {
        lemma_gathered(s.plan, nodes@);
        s.plan.law_led_graph_is_sound(hist, g);
    }
    if s.plan.m >= 1 && s.plan.ef_construction >= 1 && links.len() >= 2 {
        links = settle(&s.plan, links, &owed, top);
        proof {
            let more = law_settled(s.plan, g, owed@, top, links@, hist, chains);
            assert(finished(s.plan, g, owed@, top, links@));
            hist = more.0;
            chains = more.1;
        }
    } else {
        assert(finished(s.plan, g, owed@, top, links@));
    }
    proof {
        let h = links@;
        s.plan.law_led_graph_is_sound(hist, h);
        assert(all_in(s.plan, h, hist, chains));
        assert(woven(s.plan, h, top));
        assert forall|j: int| 0 <= j < h.len() implies (#[trigger] h[j]).len()
            == s.plan.levels@[j] + 1 by {
            assert(h[j].len() == s.plan.shape()[j].len());
        }
    }
    (links, top, height)
}

/// Let the nodes of a plan join one graph, on the threads of the current pool: the graph,
/// its entry, and the level that the entry reaches.
fn weave<'a, T: Sync, D: Fn(&[T], &[T]) -> u32 + Sync>(plan: Plan<'a, T, D>) -> (r: (
    Links,
    u32,
    u8,
))
    requires
        plan.wf(),
        0 < plan.levels@.len(),
        plan.levels@.len() * (2 * plan.m) <= usize::MAX,
    ensures
        r.0.wf(),
        r.0.m0 == 2 * plan.m,
        sound(r.0@, plan.m as nat),
        same_shape(plan.shape(), r.0@),
        entry_ok(r.0@, r.1, r.2 as nat),
        plan.m >= 1 && plan.ef_construction >= 1 ==> peopled(r.0@),
        woven(plan, r.0@, r.1),
{
    let n = plan.levels.len() as u32;
    let store = Store::new(&plan);
    let s = Shared { plan, store };
    insert_all(&s, n);
    assemble(&s)
}

/// Build an index over `data`, vectors of `dim` elements one after the other, on
/// the threads of the current pool.
///
/// Which neighbours the nodes end up with depends on how the threads interleave.
/// The nodes, the levels that they reach, that the graph is sound, and that no node is
/// left without neighbours do not. Nor does it that each list came to be step by step
/// from the empty one: its node showed itself with what it chose among what a search of
/// its found, or linked back to one that chose it so. The lists that these searches read
/// came to be in the same way; which of them they were is left open. And every node but
/// the first has come in: there is a whole insertion of it, from an entry down to level 0,
/// and each step of that insertion is one of those by which the lists came to be.
pub fn build<T: Copy + Sync, D: Fn(&[T], &[T]) -> u32 + Sync, L: Fn(u64) -> usize>(
    data: Vec<T>,
    dim: usize,
    m: usize,
    ef_construction: usize,
    seed: u64,
    dist: D,
    level: L,
) -> (r: Hnsw<T, D, L>)
    requires
        0 < dim <= data@.len(),
        data@.len() / dim as nat <= u32::MAX,
        2 * m <= 0xFFFF,
        (data@.len() / dim as nat) * (2 * m) <= usize::MAX,
        measures(dist),
        samples(level),
    ensures
        r.wf(),
        r@.dim == dim,
        r@.m == m,
        r@.ef_construction == ef_construction,
        r@.data == data@,
        r@.rng == 1,
        r@.graph.len() == data@.len() / dim as nat,
        leveled(r@.graph, seed, level),
        forall|i: int|
            0 <= i < r@.graph.len() ==> drawn(
                level,
                mix(seed, i as u32) >> 11,
                ((#[trigger] r@.graph[i]).len() - 1) as nat,
            ),
        m >= 1 && ef_construction >= 1 ==> peopled(r@.graph),
        exists|p: Plan<T, D>|
            planned(p, data@, dim, m, ef_construction, seed, dist, level) && #[trigger] woven(
                p,
                r@.graph,
                r@.entry,
            ),
        r.metric() == dist,
        r.sampler() == level,
        r.codes() is None,
        r.quantizer() is None,
        r.calls() == 0,
{
    let n: usize = data.len() / dim;
    proof {
        let (len, d) = (data@.len() as int, dim as int);
        assert(len / d >= 1 && (len / d) * d <= len) by (nonlinear_arith)
            requires
                0 < d <= len,
        ;
    }
    let levels = draw_levels(n, seed, &level);
    let corpus = Corpus { data: data.as_slice(), dim, n, dist: &dist };
    let plan = Plan { corpus: &corpus, m, ef_construction, levels: &levels };
    let ghost p = plan;
    let (links, top, height) = weave(plan);
    proof {
        assert forall|j: int| 0 <= j < n implies (#[trigger] links@[j]).len() == node_level(
            seed,
            j as u32,
            level,
        ) + 1 by {
            assert(links@[j].len() == p.shape()[j].len());
        }
        assert forall|j: int| 0 <= j < n implies drawn(
            level,
            mix(seed, j as u32) >> 11,
            ((#[trigger] links@[j]).len() - 1) as nat,
        ) by {
            assert(links@[j].len() == p.shape()[j].len());
            assert(drawn(level, mix(seed, j as u32) >> 11, levels@[j] as nat));
        }
        assert(planned(p, data@, dim, m, ef_construction, seed, dist, level));
        assert(woven(p, links@, top));
    }
    Hnsw::from_parts(
        dim,
        m,
        ef_construction,
        data,
        links.level0,
        links.deg0,
        links.upper,
        links.levels,
        top,
        height,
        dist,
        level,
    )
}

/// Every node reaches the level that the seed gives it.
pub open spec fn leveled<L: Fn(u64) -> usize>(g: Graph, seed: u64, level: L) -> bool {
    forall|i: int| 0 <= i < g.len() ==> (#[trigger] g[i]).len() == node_level(seed, i as u32, level)
        + 1
}

/// Two builds from one seed over equally many vectors give every node the same
/// level, and so the same hash, whatever the threads.
pub proof fn law_levels_do_not_depend_on_threads<L: Fn(u64) -> usize>(
    g: Graph,
    h: Graph,
    seed: u64,
    level: L,
)
    requires
        g.len() == h.len(),
        leveled(g, seed, level),
        leveled(h, seed, level),
    ensures
        levels_hash(g, g.len()) == levels_hash(h, h.len()),
        forall|i: int| 0 <= i < g.len() ==> (#[trigger] g[i]).len() == h[i].len(),
{
    law_hash_of_levels(g, h);
}

} // verus!
