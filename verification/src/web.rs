//! What an insertion works on: lists that it reads and replaces, whether other threads
//! do so at the same time or not.

use vstd::prelude::*;

use crate::beam::{nbrs, Graph};
use crate::cand::first;
use crate::graph::{lemma_set_list, lemma_set_sound, same_shape, set_list, sound};
use crate::guard::{adds_one, Deed};
use crate::history::{Chain, Step};
use crate::links::Links;
use crate::replay::{done, heeds, lemma_parts, quiet, replay};
use crate::store::{publish, relink, Plan};

verus! {

/// A deed does to a graph what it says, where there is a graph that nobody else changes.
pub open spec fn minds(before: Option<Graph>, d: Deed, after: Option<Graph>) -> bool {
    match before {
        Some(g) => heeds(g, d) && after == Some(done(g, d)),
        None => after is None,
    }
}

/// The same of some deeds.
pub open spec fn minds_all(before: Option<Graph>, deeds: Seq<Deed>, after: Option<Graph>) -> bool {
    match before {
        Some(g) => quiet(g, deeds) && after == Some(replay(g, deeds)),
        None => after is None,
    }
}

/// One deed more.
pub proof fn lemma_minds(
    a: Option<Graph>,
    deeds: Seq<Deed>,
    b: Option<Graph>,
    d: Deed,
    c: Option<Graph>,
)
    requires
        minds_all(a, deeds, b),
        minds(b, d, c),
    ensures
        minds_all(a, deeds.push(d), c),
{
    assert(deeds.push(d).drop_last() =~= deeds);
}

/// Deeds in two parts.
pub proof fn lemma_minds_all(
    a: Option<Graph>,
    s: Seq<Deed>,
    b: Option<Graph>,
    t: Seq<Deed>,
    c: Option<Graph>,
)
    requires
        minds_all(a, s, b),
        minds_all(b, t, c),
    ensures
        minds_all(a, s + t, c),
{
    if let Some(g) = a {
        lemma_parts(g, s, t);
    }
}

/// Lists that an insertion reads and replaces.
pub trait Web<'a, T, D: Fn(&[T], &[T]) -> u32> {
    /// They are those of the nodes of a plan, and as they should be.
    spec fn fits(&self, p: Plan<'a, T, D>) -> bool;

    /// What was done so far.
    spec fn deeds(&self) -> Seq<Deed>;

    /// The graph that they make up, where nobody else changes it.
    spec fn graph(&self) -> Option<Graph>;

    /// Copy the neighbours of `id` on level `lev`, as they are at some moment, into
    /// `out`.
    fn read_nbrs(&mut self, p: &Plan<'a, T, D>, id: u32, lev: usize, out: &mut Vec<u32>)
        requires
            p.wf(),
            old(self).fits(*p),
            id < p.levels@.len(),
        ensures
            final(self).fits(*p),
            final(self).deeds() == old(self).deeds().push(
                Deed::Read { id, lev: lev as nat, list: final(out)@ },
            ),
            lev < p.shape()[id as int].len() ==> p.good(id, lev as nat, final(out)@),
            lev >= p.shape()[id as int].len() ==> final(out)@.len() == 0,
            lev < p.shape()[id as int].len() && old(self).graph() is None ==> p.read_known(
                Deed::Read { id, lev: lev as nat, list: final(out)@ },
            ),
            minds(
                old(self).graph(),
                Deed::Read { id, lev: lev as nat, list: final(out)@ },
                final(self).graph(),
            ),
    ;

    /// Let `id` show itself on level `lev` with the nodes of `to`.
    fn show(
        &mut self,
        p: &Plan<'a, T, D>,
        id: u32,
        lev: usize,
        to: &Vec<u32>,
        eps: &Vec<u32>,
        next: &Vec<u32>,
        first: bool,
        Ghost(chain): Ghost<Chain>,
    )
        requires
            p.wf(),
            old(self).fits(*p),
            id < p.levels@.len(),
            p.showing(id, lev as nat, to@, eps@, next@, first, chain),
            old(self).graph() is None ==> p.stages_known(chain.stages),
        ensures
            final(self).fits(*p),
            adds_one(old(self).deeds(), final(self).deeds()),
            p.shows(final(self).deeds().last(), id, lev as nat, to@),
            minds(old(self).graph(), final(self).deeds().last(), final(self).graph()),
    ;

    /// Let `nb` link back to `id` on level `lev`, unless it does already.
    fn link(
        &mut self,
        p: &Plan<'a, T, D>,
        nb: u32,
        id: u32,
        lev: usize,
        Ghost(chain): Ghost<Chain>,
    )
        requires
            p.wf(),
            old(self).fits(*p),
            nb < p.levels@.len(),
            p.asking(nb, id, lev as nat, chain),
            old(self).graph() is None ==> p.stages_known(chain.stages),
        ensures
            final(self).fits(*p),
            adds_one(old(self).deeds(), final(self).deeds()),
            p.links(final(self).deeds().last(), nb, id, lev as nat),
            minds(old(self).graph(), final(self).deeds().last(), final(self).graph()),
    ;
}

/// The lists of a graph that nobody else changes.
pub struct Still {
    pub links: Links,
    pub done: Ghost<Seq<Deed>>,
}

/// A graph with the nodes of a plan, and sound.
pub open spec fn lies_on<'a, T, D: Fn(&[T], &[T]) -> u32>(g: Graph, p: Plan<'a, T, D>) -> bool {
    sound(g, p.m as nat) && same_shape(p.shape(), g)
}

impl Still {
    /// A graph to which nothing was done yet.
    pub fn new(links: Links) -> (r: Self)
        ensures
            r.links == links,
            r.done@ == Seq::<Deed>::empty(),
    {
        Still { links, done: Ghost(Seq::empty()) }
    }

    /// Put a good list in place.
    fn put<'a, T, D: Fn(&[T], &[T]) -> u32>(
        &mut self,
        p: &Plan<'a, T, D>,
        id: u32,
        lev: usize,
        list: &Vec<u32>,
    )
        requires
            p.wf(),
            old(self).links.wf(),
            old(self).links.m0 == 2 * p.m,
            lies_on(old(self).links@, *p),
            id < p.levels@.len(),
            lev < p.shape()[id as int].len(),
            p.good(id, lev as nat, list@),
        ensures
            final(self).links.wf(),
            final(self).links.m0 == 2 * p.m,
            lies_on(final(self).links@, *p),
            final(self).links@ == set_list(old(self).links@, id, lev as nat, list@),
            final(self).done@ == old(self).done@.push(
                Deed::Put {
                    id,
                    lev: lev as nat,
                    cur: nbrs(old(self).links@, id, lev as nat),
                    list: list@,
                },
            ),
    {
        let ghost g = self.links@;
        let ghost d = Deed::Put {
            id,
            lev: lev as nat,
            cur: nbrs(g, id, lev as nat),
            list: list@,
        };
        let ghost earlier = self.done@;
        proof {
            assert(g[id as int].len() == p.shape()[id as int].len());
            assert forall|k: int| 0 <= k < list@.len() implies #[trigger] list@[k] < g.len()
                && list@[k] != id && lev < g[list@[k] as int].len() by {
                assert(list@[k] < p.shape().len());
                assert(g[list@[k] as int].len() == p.shape()[list@[k] as int].len());
            }
            lemma_set_sound(g, p.m as nat, id, lev as nat, list@);
            lemma_set_list(g, id, lev as nat, list@);
        }
        self.links.set_nbrs(id, lev, list);
        assert(lev == 0 ==> first(list@, (2 * p.m) as nat) =~= list@);
        self.done = Ghost(earlier.push(d));
        proof {
            let h = self.links@;
            assert forall|i: int| 0 <= i < p.shape().len() implies (#[trigger] h[i]).len()
                == p.shape()[i].len() by {
                assert(g[i].len() == p.shape()[i].len());
            }
        }
    }
}

impl<'a, T, D: Fn(&[T], &[T]) -> u32> Web<'a, T, D> for Still {
    open spec fn fits(&self, p: Plan<'a, T, D>) -> bool {
        &&& self.links.wf()
        &&& self.links.m0 == 2 * p.m
        &&& lies_on(self.links@, p)
    }

    open spec fn deeds(&self) -> Seq<Deed> {
        self.done@
    }

    open spec fn graph(&self) -> Option<Graph> {
        Some(self.links@)
    }

    fn read_nbrs(&mut self, p: &Plan<'a, T, D>, id: u32, lev: usize, out: &mut Vec<u32>) {
        self.links.copy_nbrs(id, lev, out);
        let ghost g = self.links@;
        let ghost earlier = self.done@;
        self.done = Ghost(earlier.push(Deed::Read { id, lev: lev as nat, list: out@ }));
        proof {
            lemma_lies_on(g, *p, id, lev as nat);
        }
    }

    fn show(
        &mut self,
        p: &Plan<'a, T, D>,
        id: u32,
        lev: usize,
        to: &Vec<u32>,
        eps: &Vec<u32>,
        next: &Vec<u32>,
        first: bool,
        Ghost(chain): Ghost<Chain>,
    ) {
        let room = p.room_on(lev);
        let mut cur: Vec<u32> = Vec::new();
        self.links.copy_nbrs(id, lev, &mut cur);
        proof {
            reveal(Plan::step_right);
            lemma_lies_on(self.links@, *p, id, lev as nat);
            p.lemma_choice(chain, id, chain.stages.len() - 1);
            p.lemma_stepped(cur@, id, lev as nat, Step::Show { chain });
            assert forall|k: int| 0 <= k < to@.len() implies #[trigger] to@[k] < p.corpus.n by {
                assert(to@[k] < p.shape().len());
            }
            assert forall|k: int| 0 <= k < cur@.len() implies #[trigger] cur@[k] < p.corpus.n by {
                assert(cur@[k] < p.shape().len());
            }
        }
        let list = publish(p.corpus, &cur, id, to, room);
        self.put(p, id, lev, &list);
        assert(self.done@.drop_last() =~= old(self).done@);
    }

    fn link(
        &mut self,
        p: &Plan<'a, T, D>,
        nb: u32,
        id: u32,
        lev: usize,
        Ghost(chain): Ghost<Chain>,
    ) {
        let room = p.room_on(lev);
        let mut cur: Vec<u32> = Vec::new();
        self.links.copy_nbrs(nb, lev, &mut cur);
        proof {
            reveal(Plan::step_right);
            lemma_lies_on(self.links@, *p, nb, lev as nat);
            p.lemma_stepped(cur@, nb, lev as nat, Step::Link { from: id, chain });
            assert forall|k: int| 0 <= k < cur@.len() implies #[trigger] cur@[k] < p.corpus.n by {
                assert(cur@[k] < p.shape().len());
            }
        }
        relink(p.corpus, &mut cur, nb, id, room);
        self.put(p, nb, lev, &cur);
        assert(self.done@.drop_last() =~= old(self).done@);
    }
}

/// The lists of a sound graph with the nodes of a plan are good ones.
proof fn lemma_lies_on<'a, T, D: Fn(&[T], &[T]) -> u32>(
    g: Graph,
    p: Plan<'a, T, D>,
    id: u32,
    lev: nat,
)
    requires
        lies_on(g, p),
        id < g.len(),
    ensures
        g[id as int].len() == p.shape()[id as int].len(),
        lev < g[id as int].len() ==> p.good(id, lev, nbrs(g, id, lev)),
{
    assert(g[id as int].len() == p.shape()[id as int].len());
    if lev < g[id as int].len() {
        let list = nbrs(g, id, lev);
        assert forall|k: int| 0 <= k < list.len() implies #[trigger] list[k] < p.shape().len()
            && list[k] != id && lev < p.shape()[list[k] as int].len() by {
            assert(list[k] < g.len());
            assert(g[list[k] as int].len() == p.shape()[list[k] as int].len());
        }
    }
}

} // verus!
