//! One insertion, on whatever it works on: lists that threads share, or a graph that
//! nobody else changes.

use vstd::prelude::*;

use crate::beam::{coherent, lemma_bounded, lemma_expand, start, stops, Front, Oracle};
use crate::cand::{copy_of, ids, ids_of, Cand};
use crate::guard::Deed;
use crate::history::Chain;
use crate::index::sat;
use crate::links::NONE;
use crate::metric::Near;
use crate::select::select;
use crate::stages::{ends_among, law_search_among_threads_ends};
use crate::store::{is_top, Plan};
use crate::trace::{eligible, flat, follow, known, lemma_flat, outset, skipping, taken, Stage};
use crate::visited::Visited;
use crate::web::{lemma_minds, lemma_minds_all, minds_all, Web};

verus! {

/// What each thread keeps for itself: buffers, and how many distances it took.
pub struct Scratch {
    pub visited: Visited,
    pub nbrs: Vec<u32>,
    pub calls: u64,
}

impl Scratch {
    pub open spec fn wf(&self) -> bool {
        self.visited.wf()
    }

    pub fn new() -> (r: Self)
        ensures
            r.wf(),
            r.calls == 0,
    {
        Scratch { visited: Visited::new(), nbrs: Vec::new(), calls: 0 }
    }
}

/// The nodes of `list` other than `id`.
fn without(list: &[u32], id: u32) -> (r: Vec<u32>)
    ensures
        r@ == skipping(list@, id),
{
    let mut r: Vec<u32> = Vec::new();
    let mut i: usize = 0;
    assert(list@.take(0) =~= Seq::empty());
    while i < list.len()
        invariant
            i <= list@.len(),
            r@ == skipping(list@.take(i as int), id),
        decreases list@.len() - i,
    {
        let x = list[i];
        assert(list@.take(i + 1).drop_last() =~= list@.take(i as int));
        if x != id {
            r.push(x);
        }
        i = i + 1;
    }
    assert(list@.take(i as int) =~= list@);
    r
}

/// Search one layer, from the entry points `eps`, on behalf of `id`, which is
/// itself passed over, as is what marks an empty place. What is found follows from the
/// lists that were read; those depend on what other threads have done by then.
pub fn search_layer<'a, T, D: Fn(&[T], &[T]) -> u32, W: Web<'a, T, D>>(
    p: &Plan<'a, T, D>,
    w: &mut W,
    sc: &mut Scratch,
    near: &Near<'a, T, D>,
    eps: &[u32],
    ef: usize,
    lev: usize,
    id: u32,
) -> (r: (Vec<Cand>, Ghost<Seq<Deed>>))
    requires
        p.wf(),
        old(w).fits(*p),
        old(sc).wf(),
        near.valid(),
        near.reach() == p.levels@.len(),
        p.opens(eps@, lev as nat),
    ensures
        final(sc).wf(),
        final(w).fits(*p),
        final(w).deeds() == old(w).deeds() + r.1@,
        minds_all(old(w).graph(), r.1@, final(w).graph()),
        old(w).graph() is None ==> p.reads_known(r.1@),
        p.searches(eps@, r.1@, near.keys(), ef as nat, lev as nat, id),
        r.0@ == known(eps@, r.1@, near.keys(), ef as nat, id).best,
        ends_among(eps@, r.1@, lev as nat, near.keys(), ef as nat, ids(r.0@), id),
        final(sc).calls == sat(
            old(sc).calls + known(eps@, r.1@, near.keys(), ef as nat, id).visited.len(),
        ),
{
    let ghost g = p.shape();
    let ghost key = near.keys();
    let n = p.levels.len();
    let places = without(eps, NONE);
    let starts = without(&places, id);
    let ghost b0 = start(starts@, key, ef as nat);
    proof {
        p.lemma_begins(eps@, key, ef as nat, lev as nat, id);
    }
    sc.visited.begin(n);
    let (mut front, mut calls) = Front::start(&mut sc.visited, near, &starts, ef);
    let ghost mut reads: Seq<Deed> = Seq::empty();
    assert(w.deeds() =~= old(w).deeds() + reads);
    loop
        invariant
            p.wf(),
            g == p.shape(),
            key == near.keys(),
            b0 == start(outset(eps@, id), key, ef as nat),
            coherent(b0, key, ef as nat),
            forall|x: u32| #[trigger]
                b0.visited.contains(x) ==> eligible(g, id, lev as nat, x),
            n == g.len() == p.levels@.len(),
            sc.wf(),
            sc.calls == old(sc).calls,
            w.fits(*p),
            w.deeds() == old(w).deeds() + reads,
            minds_all(old(w).graph(), reads, w.graph()),
            old(w).graph() is None ==> p.reads_known(reads),
            sc.visited.room() >= n,
            calls == sc.visited@.len(),
            near.valid(),
            near.reach() == n,
            front.wf(),
            front.beam(sc.visited@) == follow(b0, reads, key, ef as nat, id),
            p.reads_right(b0, reads, key, ef as nat, lev as nat, id),
        ensures
            sc.wf(),
            sc.calls == old(sc).calls,
            w.fits(*p),
            w.deeds() == old(w).deeds() + reads,
            minds_all(old(w).graph(), reads, w.graph()),
            old(w).graph() is None ==> p.reads_known(reads),
            calls == sc.visited@.len(),
            front.beam(sc.visited@) == follow(b0, reads, key, ef as nat, id),
            p.reads_right(b0, reads, key, ef as nat, lev as nat, id),
            stops(front.beam(sc.visited@), ef as nat),
        decreases n - sc.visited@.len(), front.frontier@.len(),
    {
        let ghost b = front.beam(sc.visited@);
        proof {
            p.lemma_follow(b0, reads, key, ef as nat, lev as nat, id);
        }
        match front.next(ef) {
            None => {
                break;
            },
            Some(c) => {
                assert(b.frontier.contains(b.frontier[0]));
                assert(b.visited.contains(c));
                let ghost earlier = w.graph();
                w.read_nbrs(p, c, lev, &mut sc.nbrs);
                let list = without(&sc.nbrs, id);
                proof {
                    let d = Deed::Read { id: c, lev: lev as nat, list: sc.nbrs@ };
                    let more = reads.push(d);
                    assert(more.drop_last() =~= reads);
                    assert(w.deeds() =~= old(w).deeds() + more);
                    lemma_minds(old(w).graph(), reads, earlier, d, w.graph());
                    reads = more;
                    p.lemma_look(b, c, sc.nbrs@, key, ef as nat, lev as nat, id);
                    lemma_expand(taken(b), list@, key, ef as nat);
                }
                let more = front.expand(&mut sc.visited, near, &list, ef);
                proof {
                    lemma_bounded(sc.visited@, n as nat);
                    lemma_bounded(b.visited, n as nat);
                }
                calls = calls + more;
            },
        }
    }
    sc.calls = sc.calls.saturating_add(calls as u64);
    proof {
        law_search_among_threads_ends(*p, eps@, reads, key, ef as nat, lev as nat, id);
    }
    (front.best, Ghost(reads))
}

/// Wire `id` on level `lev`, in both directions, to what is chosen among `found`.
/// It shows itself before it asks any other node to link back.
fn wire<'a, T, D: Fn(&[T], &[T]) -> u32, W: Web<'a, T, D>>(
    p: &Plan<'a, T, D>,
    w: &mut W,
    id: u32,
    lev: usize,
    found: &Vec<Cand>,
    eps: &Vec<u32>,
    next: &Vec<u32>,
    first: bool,
    Ghost(chain): Ghost<Chain>,
) -> (writes: Ghost<Seq<Deed>>)
    requires
        p.wf(),
        old(w).fits(*p),
        id < p.levels@.len(),
        found@ == p.finds(chain.stages.last(), id).best,
        p.showing(
            id,
            lev as nat,
            p.choice(chain.stages.last(), id),
            eps@,
            next@,
            first,
            chain,
        ),
        old(w).graph() is None ==> p.stages_known(chain.stages),
    ensures
        final(w).fits(*p),
        final(w).deeds() == old(w).deeds() + writes@,
        minds_all(old(w).graph(), writes@, final(w).graph()),
        p.wires(writes@, id, lev as nat, found@),
{
    let ghost g = p.shape();
    let ghost i = chain.stages.len() - 1;
    let room = p.room_on(lev);
    proof {
        reveal(Plan::step_right);
        p.lemma_walk(chain.stages, chain.top, id, i);
        p.lemma_choice(chain, id, i);
        assert forall|k: int| 0 <= k < found@.len() implies (#[trigger] found@[k]).id
            < p.corpus.n by {
            assert(eligible(g, id, lev as nat, found@[k].id));
        }
    }
    let to = select(p.corpus, found, room);
    proof {
        assert forall|k: int| 0 <= k < to@.len() implies eligible(
            g,
            id,
            lev as nat,
            #[trigger] to@[k],
        ) by {
            assert(to@[k] < g.len());
        }
    }
    let ghost earlier = w.deeds();
    let ghost begun = w.graph();
    w.show(p, id, lev, &to, eps, next, first, Ghost(chain));
    let ghost mut writes = Seq::<Deed>::empty().push(w.deeds().last());
    proof {
        lemma_minds(begun, Seq::empty(), begun, w.deeds().last(), w.graph());
        assert(w.deeds() =~= earlier + writes);
    }
    let mut k: usize = 0;
    while k < to.len()
        invariant
            p.wf(),
            w.fits(*p),
            g == p.shape(),
            id < p.levels@.len(),
            lev < g[id as int].len(),
            k <= to@.len(),
            p.chained(chain, id),
            chain.stages.last().lev == lev,
            to@ == p.choice(chain.stages.last(), id),
            begun is None ==> p.stages_known(chain.stages),
            forall|j: int|
                0 <= j < to@.len() ==> eligible(g, id, lev as nat, #[trigger] to@[j]),
            w.deeds() == earlier + writes,
            minds_all(begun, writes, w.graph()),
            writes.len() == k + 1,
            p.shows(writes[0], id, lev as nat, to@),
            forall|j: int|
                0 <= j < k ==> p.links(#[trigger] writes[j + 1], to@[j], id, lev as nat),
        decreases to@.len() - k,
    {
        assert(eligible(g, id, lev as nat, to@[k as int]));
        let ghost before = w.deeds();
        let ghost now = w.graph();
        proof {
            reveal(Plan::step_right);
            assert(to@.contains(to@[k as int]));
        }
        w.link(p, to[k], id, lev, Ghost(chain));
        proof {
            let d = w.deeds().last();
            assert(w.deeds() =~= before.push(d));
            assert(w.deeds() =~= earlier + writes.push(d));
            lemma_minds(begun, writes, now, d, w.graph());
            writes = writes.push(d);
        }
        k = k + 1;
    }
    Ghost(writes)
}

/// Where the level below is searched from: the nearest node that was found while the
/// walk is above the level of the node, and all that were found from there on. Where
/// nothing was found, nothing changes.
fn onward(eps: &Vec<u32>, found: &Vec<Cand>, above: bool) -> (r: Vec<u32>)
    ensures
        found@.len() == 0 ==> r@ == eps@,
        found@.len() > 0 && above ==> r@ == seq![found@[0].id],
        found@.len() > 0 && !above ==> r@ == ids(found@),
{
    if found.len() == 0 {
        copy_of(eps)
    } else if above {
        let r: Vec<u32> = vec![found[0].id];
        assert(r@ =~= seq![found@[0].id]);
        r
    } else {
        ids_of(found)
    }
}

/// What the insertion of `id` does on one level, and where the level below is searched
/// from.
fn visit_level<'a, T, D: Fn(&[T], &[T]) -> u32, W: Web<'a, T, D>>(
    p: &Plan<'a, T, D>,
    w: &mut W,
    sc: &mut Scratch,
    near: &Near<'a, T, D>,
    eps: Vec<u32>,
    lev: usize,
    id: u32,
    top: (u32, u8),
    Ghost(stages): Ghost<Seq<Stage>>,
) -> (r: (Vec<u32>, Ghost<Stage>))
    requires
        p.wf(),
        old(w).fits(*p),
        old(sc).wf(),
        near.valid(),
        near.reach() == p.levels@.len(),
        near.keys() == p.keys(id),
        id < p.levels@.len(),
        is_top(p.shape(), top),
        p.descends(stages, top.0, top.1 as nat, id),
        lev == top.1 - stages.len(),
        eps@ == p.before(stages, top.0, stages.len() as int, id),
        p.reach(eps@, lev as nat),
        old(w).graph() is None ==> p.stages_known(stages),
    ensures
        final(sc).wf(),
        final(w).fits(*p),
        p.stage_right(r.1@, id),
        old(w).graph() is None ==> p.reads_known(r.1@.reads),
        r.1@.lev == lev,
        r.1@.eps == eps@,
        r.0@ == p.after(r.1@, id),
        p.reach(r.0@, lev as nat),
        final(w).deeds() == old(w).deeds() + r.1@.reads + r.1@.writes,
        minds_all(old(w).graph(), r.1@.reads + r.1@.writes, final(w).graph()),
        final(sc).calls == sat(old(sc).calls + p.finds(r.1@, id).visited.len()),
{
    let l = p.levels[id as usize] as usize;
    let ef = if lev > l {
        1
    } else {
        p.ef_construction
    };
    let ghost before = w.graph();
    let (found, reads) = search_layer(p, w, sc, near, &eps, ef, lev, id);
    proof {
        p.lemma_searches(eps@, reads@, near.keys(), ef as nat, lev as nat, id);
    }
    let ghost none: Seq<Deed> = Seq::empty();
    let ghost looked = Stage { lev: lev as nat, eps: eps@, reads: reads@, writes: none };
    let ghost mut writes = none;
    let next = onward(&eps, &found, lev > l);
    let ghost midway = w.graph();
    if lev <= l && found.len() > 0 {
        let height = top.1 as usize;
        let low = if l <= height {
            l
        } else {
            height
        };
        let ghost chain = Chain { top, stages: stages.push(looked) };
        proof {
            reveal(Plan::searched);
            reveal(Plan::step_right);
            assert(p.searched(looked, id));
            p.lemma_descends_walks(stages, top.0, top.1 as nat, id);
            p.lemma_walks(stages, looked, top.0, top.1 as nat, id);
            assert(chain.stages.last() == looked);
        }
        let wired = wire(p, w, id, lev, &found, &eps, &next, lev == low, Ghost(chain));
        proof {
            writes = wired@;
        }
    }
    let ghost stage = Stage { lev: lev as nat, eps: eps@, reads: reads@, writes };
    proof {
        reveal(Plan::stage_right);
        reveal(Plan::searched);
        lemma_minds_all(before, reads@, midway, writes, w.graph());
        assert(w.deeds() =~= old(w).deeds() + stage.reads + stage.writes);
    }
    (next, Ghost(stage))
}

/// Let node `id` join the graph: walk down from the entry `top` to its own level, then
/// join each level from there down, searching from what was found on the one above.
/// What is searched, what is found, and what is put in place follows from the lists that
/// are read and replaced on the way. The deeds tell all of it.
pub fn walk_down<'a, T, D: Fn(&[T], &[T]) -> u32, W: Web<'a, T, D>>(
    p: &Plan<'a, T, D>,
    w: &mut W,
    sc: &mut Scratch,
    id: u32,
    top: (u32, u8),
) -> (r: Ghost<Seq<Stage>>)
    requires
        p.wf(),
        old(w).fits(*p),
        old(sc).wf(),
        id < p.levels@.len(),
        is_top(p.shape(), top),
    ensures
        final(sc).wf(),
        final(w).fits(*p),
        r@.len() == top.1 + 1,
        p.descends(r@, top.0, top.1 as nat, id),
        final(w).deeds() == old(w).deeds() + flat(r@),
        minds_all(old(w).graph(), flat(r@), final(w).graph()),
        final(sc).calls == sat(old(sc).calls + p.spent(r@, id)),
{
    let near = Near { corpus: p.corpus, q: p.corpus.vec_at(id) };
    let (e, height) = top;
    let mut eps: Vec<u32> = vec![e];
    assert(eps@ =~= seq![e]);
    let mut lev = height as usize;
    let ghost mut stages: Seq<Stage> = Seq::empty();
    let ghost begun = w.deeds();
    let ghost before = w.graph();
    assert(begun + flat(stages) =~= begun);
    loop
        invariant_except_break
            stages.len() == height - lev,
            eps@ == p.before(stages, e, stages.len() as int, id),
            p.reach(eps@, lev as nat),
        invariant
            p.wf(),
            w.fits(*p),
            sc.wf(),
            top == (e, height),
            is_top(p.shape(), top),
            w.deeds() == begun + flat(stages),
            minds_all(before, flat(stages), w.graph()),
            near.valid(),
            near.reach() == p.levels@.len(),
            near.keys() == p.keys(id),
            id < p.levels@.len(),
            lev <= height,
            p.descends(stages, e, height as nat, id),
            before is None ==> p.stages_known(stages),
            sc.calls == sat(old(sc).calls + p.spent(stages, id)),
        ensures
            stages.len() == height + 1,
        decreases lev,
    {
        let ghost now = w.graph();
        let (next, stage) = visit_level(p, w, sc, &near, eps, lev, id, top, Ghost(stages));
        eps = next;
        proof {
            let s = stage@;
            lemma_flat(begun, stages, s);
            p.lemma_descends(stages, s, e, height as nat, id);
            lemma_minds_all(before, flat(stages), now, s.reads + s.writes, w.graph());
            assert(stages.push(s).drop_last() =~= stages);
            assert(flat(stages) + (s.reads + s.writes) =~= flat(stages.push(s)));
            stages = stages.push(s);
        }
        if lev == 0 {
            break;
        }
        lev = lev - 1;
    }
    Ghost(stages)
}

} // verus!
