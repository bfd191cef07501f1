//! The index.

use vstd::prelude::*;

use crate::answers::{
    answers, answers_twice, law_answers, law_answers_twice, law_quantized_search_answers,
    law_search_answers,
};
use crate::arrival::{law_insert_takes_in, takes_in};
use crate::beam::Oracle;
use crate::cand::first;
use crate::graph::{bare, lemma_descend, lemma_descend_absent};
use crate::index::{
    hits, insert_calls, inserted, larger, lemma_grown, reranked, sat, shortlist, shortlist_calls,
    valid, Index,
};
use crate::kmeans::averages;
use crate::level::{draw, drawn, level_at, samples};
use crate::links::{Links, NONE};
use crate::metric::{
    dist_of, from_query, lemma_row_bounds, measures, pairs, push_all, Corpus, Near,
};
use crate::pq::{
    learnt, score_of, scores, table, table_keys, tabled, trained, Pq, Table,
};
use crate::q8::{
    code_keys, codes_of, l2sq_i8, law_l2sq_not_negative, peak, rounded, rounds, sizes, Codes,
    DistI8, Q8,
};
use crate::stats::{degree_sum, graph_size, least_degree, levels_hash, orphans};
use crate::synth::{output, scramble, R};
use crate::visited::Visited;
use crate::walk::{find, finish, join_down, to_hits, walk_down};

verus! {

/// An approximate nearest neighbour index over vectors of `T`.
///
/// `dist` measures two vectors. `level` turns 53 random bits into the level that a
/// new node is to reach.
pub struct Hnsw<T, D, L> {
    dim: usize,
    m: usize,
    ef_construction: usize,
    data: Vec<T>,
    links: Links,
    entry: u32,
    max_level: u8,
    dist: D,
    level: L,
    q8: Option<(Q8, DistI8)>,
    pq: Option<Pq<T>>,
    rng: R,
    visited: Visited,
    dist_calls: u64,
}

impl<T, D, L> View for Hnsw<T, D, L> {
    type V = Index<T>;

    closed spec fn view(&self) -> Index<T> {
        Index {
            dim: self.dim as nat,
            m: self.m as nat,
            ef_construction: self.ef_construction as nat,
            data: self.data@,
            graph: self.links@,
            entry: self.entry,
            max_level: self.max_level as nat,
            rng: self.rng.0,
        }
    }
}

impl<T, D, L> Hnsw<T, D, L> {
    /// The function that measures two vectors.
    pub closed spec fn metric(&self) -> D {
        self.dist
    }

    /// The function that turns random bits into levels.
    pub closed spec fn sampler(&self) -> L {
        self.level
    }

    /// The byte codes that are attached.
    pub closed spec fn codes(&self) -> Option<(Q8, DistI8)> {
        self.q8
    }

    /// How many distances from a query were taken so far.
    pub closed spec fn calls(&self) -> u64 {
        self.dist_calls
    }

    /// The product quantizer that is attached.
    pub closed spec fn quantizer(&self) -> Option<Pq<T>> {
        self.pq
    }
}

impl<T: Copy, D: Fn(&[T], &[T]) -> u32, L: Fn(u64) -> usize> Hnsw<T, D, L> {
    /// The index is valid, and what it keeps beside its value agrees with it.
    pub closed spec fn wf(&self) -> bool {
        &&& valid(self@)
        &&& self.links.wf()
        &&& self.links.m0 == 2 * self.m
        &&& self.visited.wf()
        &&& measures(self.dist)
        &&& samples(self.level)
        &&& self.q8 matches Some(p) ==> p.0.dim == self.dim
        &&& self.pq matches Some(p) ==> p.wf() && p.dim == self.dim
    }

    /// The buffers of the graph agree with each other, whatever they hold.
    pub closed spec fn shaped(&self) -> bool {
        self.links.wf() && self.links.m0 == 2 * self.m
    }

    /// What a well-formed index is: a valid value, with functions that measure and
    /// sample as they should.
    pub proof fn law_wf(&self)
        requires
            self.wf(),
        ensures
            self.shaped(),
            valid(self@),
            measures(self.metric()),
            samples(self.sampler()),
    {
    }

    /// An index without vectors.
    pub fn new(
        dim: usize,
        m: usize,
        ef_construction: usize,
        seed: u64,
        dist: D,
        level: L,
    ) -> (r: Self)
        requires
            2 * m <= 0xFFFF,
            measures(dist),
            samples(level),
        ensures
            r.wf(),
            r@ == (Index {
                dim: dim as nat,
                m: m as nat,
                ef_construction: ef_construction as nat,
                data: Seq::<T>::empty(),
                graph: Seq::<Seq<Seq<u32>>>::empty(),
                entry: NONE,
                max_level: 0,
                rng: seed | 1,
            }),
            r.metric() == dist,
            r.sampler() == level,
            r.codes() is None,
            r.quantizer() is None,
            r.calls() == 0,
    {
        let r = Hnsw {
            dim,
            m,
            ef_construction,
            data: Vec::new(),
            links: Links::new(m * 2),
            entry: NONE,
            max_level: 0,
            dist,
            level,
            q8: None,
            pq: None,
            rng: R(seed | 1),
            visited: Visited::new(),
            dist_calls: 0,
        };
        proof {
            assert(0 * dim == 0);
        }
        r
    }

    /// Insert a vector, and return its id.
    pub fn insert(&mut self, v: &[T]) -> (id: u32)
        requires
            old(self).wf(),
            v@.len() == old(self)@.dim,
            old(self)@.graph.len() < u32::MAX,
            (old(self)@.graph.len() + 1) * (2 * old(self)@.m) <= usize::MAX,
        ensures
            final(self).wf(),
            id == old(self)@.graph.len(),
            final(self)@ == inserted(old(self)@, old(self).metric(), old(self).sampler(), v@),
            takes_in(
                old(self)@,
                final(self)@,
                v@,
                level_at(old(self).sampler(), output(scramble(old(self)@.rng)) >> 11),
                from_query(old(self).metric(), old(self)@.data + v@, old(self)@.dim, v@),
                pairs(old(self).metric(), old(self)@.data + v@, old(self)@.dim),
            ),
            drawn(
                old(self).sampler(),
                output(scramble(old(self)@.rng)) >> 11,
                (final(self)@.graph[id as int].len() - 1) as nat,
            ),
            final(self).metric() == old(self).metric(),
            final(self).sampler() == old(self).sampler(),
            final(self).codes() == old(self).codes(),
            final(self).quantizer() == old(self).quantizer(),
            final(self).calls() == sat(
                old(self).calls() + insert_calls(
                    old(self)@,
                    old(self).metric(),
                    old(self).sampler(),
                    v@,
                ),
            ),
    {
        let ghost ix = self@;
        let ghost n = ix.graph.len();
        proof {
            law_insert_takes_in(ix, self.dist, self.level, v@);
        }
        let id = self.links.len() as u32;
        push_all(&mut self.data, v);
        let u = self.rng.next() >> 11;
        let ghost z = output(self.rng.0);
        assert(z >> 11 < 0x20_0000_0000_0000) by (bit_vector);
        let l = draw(&self.level, u);
        self.links.add_node(l);
        let ghost g = self.links@;
        proof {
            assert(g =~= ix.graph.push(bare(l as nat)));
            assert((n + 1) * self.dim == n * self.dim + self.dim) by (nonlinear_arith);
            lemma_grown(ix.graph, ix.m, l as nat);
        }
        if self.entry == NONE {
            self.entry = id;
            self.max_level = l;
            assert(self@ =~= inserted(ix, old(self).dist, old(self).level, v@));
            return id;
        }
        let top = self.max_level as usize;
        let low = if (l as usize) < top {
            l as usize
        } else {
            top
        };
        let corpus = Corpus {
            data: self.data.as_slice(),
            dim: self.dim,
            n: self.links.len(),
            dist: &self.dist,
        };
        let near = Near { corpus: &corpus, q: v };
        proof {
            assert(g[ix.entry as int] == ix.graph[ix.entry as int]);
            lemma_descend(g, ix.m, near.keys(), ix.entry, top as nat, l as nat);
            lemma_descend_absent(g, ix.m, near.keys(), ix.entry, top as nat, l as nat, id);
        }
        let mut calls = self.dist_calls;
        let e = walk_down(
            &self.links,
            &mut self.visited,
            &mut calls,
            &near,
            self.entry,
            top,
            l as usize,
            Ghost(ix.m),
        );
        join_down(
            &mut self.links,
            &mut self.visited,
            &mut calls,
            &near,
            id,
            low,
            self.m,
            self.ef_construction,
            e,
        );
        self.dist_calls = calls;
        if l > self.max_level {
            self.max_level = l;
            self.entry = id;
        }
        proof {
            assert(self@ =~= inserted(ix, old(self).dist, old(self).level, v@));
            let h = self.links@;
            assert forall|i: int| 0 <= i < h.len() implies (#[trigger] h[i]).len() <= self@.max_level
                + 1 by {
                assert(h[i].len() == g[i].len());
                if i < n {
                    assert(ix.graph[i].len() <= ix.max_level + 1);
                }
            }
            assert(h[self.entry as int].len() == g[self.entry as int].len());
        }
        id
    }

    /// The `k` nodes nearest to `q` that a beam of width `ef`, or `k` where that
    /// is more, comes upon, nearest first.
    pub fn search(&mut self, q: &[T], k: usize, ef: usize) -> (r: Vec<(u32, u32)>)
        requires
            old(self).wf(),
            q@.len() == old(self)@.dim,
        ensures
            final(self).wf(),
            final(self)@ == old(self)@,
            final(self).metric() == old(self).metric(),
            final(self).sampler() == old(self).sampler(),
            final(self).codes() == old(self).codes(),
            final(self).quantizer() == old(self).quantizer(),
            old(self)@.graph.len() == 0 ==> r@.len() == 0 && final(self).calls()
                == old(self).calls(),
            old(self)@.graph.len() > 0 ==> {
                let ix = old(self)@;
                let key = from_query(old(self).metric(), ix.data, ix.dim, q@);
                let width = larger(ef as nat, k as nat);
                &&& r@ == hits(first(shortlist(ix, key, width), k as nat))
                &&& answers(
                    ix,
                    key,
                    k as nat,
                    if ef < k {
                        k as nat
                    } else {
                        ef as nat
                    },
                    r@,
                )
                &&& r@.len() <= k
                &&& forall|i: int|
                    0 <= i < r@.len() ==> (#[trigger] r@[i]).0 < ix.graph.len() && r@[i].1
                        == dist_of(
                        old(self).metric(),
                        q@,
                        ix.data.subrange(r@[i].0 * ix.dim, (r@[i].0 + 1) * ix.dim),
                    )
                &&& forall|i: int, j: int|
                    0 <= i < j < r@.len() ==> (#[trigger] r@[i]).0 != (#[trigger] r@[j]).0
                        && r@[i].1 <= r@[j].1
                &&& final(self).calls() == sat(
                    old(self).calls() + shortlist_calls(ix, key, width),
                )
            },
    {
        if self.entry == NONE {
            return Vec::new();
        }
        let corpus = Corpus {
            data: self.data.as_slice(),
            dim: self.dim,
            n: self.links.len(),
            dist: &self.dist,
        };
        let near = Near { corpus: &corpus, q };
        let width = if ef < k {
            k
        } else {
            ef
        };
        let short = find(
            &self.links,
            &mut self.visited,
            &mut self.dist_calls,
            &near,
            self.entry,
            self.max_level as usize,
            width,
            Ghost(self.m as nat),
        );
        let r = to_hits(&short, k);
        proof {
            let ix = self@;
            let key = from_query(self.dist, ix.data, ix.dim, q@);
            law_search_answers(ix, key, k as nat, width as nat);
            law_answers(ix, key, k as nat, width as nat, r@);
        }
        r
    }

    /// Take over a graph that was made elsewhere.
    pub fn from_parts(
        dim: usize,
        m: usize,
        ef_construction: usize,
        data: Vec<T>,
        level0: Vec<u32>,
        deg0: Vec<u16>,
        upper: Vec<Vec<Vec<u32>>>,
        levels: Vec<u8>,
        entry: u32,
        max_level: u8,
        dist: D,
        level: L,
    ) -> (r: Self)
        requires
            2 * m <= usize::MAX,
        ensures
            ({
                let parts = Links { m0: (2 * m) as usize, level0, deg0, upper, levels };
                &&& r@ == (Index {
                    dim: dim as nat,
                    m: m as nat,
                    ef_construction: ef_construction as nat,
                    data: data@,
                    graph: parts@,
                    entry,
                    max_level: max_level as nat,
                    rng: 1,
                })
                &&& r@.graph.len() == levels@.len()
                &&& forall|i: int|
                    0 <= i < levels@.len() ==> (#[trigger] r@.graph[i]).len() == levels@[i] + 1
                        && r@.graph[i][0] == level0@.subrange(
                        i * (2 * m),
                        i * (2 * m) + deg0@[i],
                    )
                &&& forall|i: int, lev: int|
                    0 <= i < levels@.len() && 1 <= lev <= levels@[i]
                        ==> #[trigger] r@.graph[i][lev] == upper@[i]@[lev - 1]@
                &&& parts.wf() ==> r.shaped()
                &&& parts.wf() && valid(r@) && measures(dist) && samples(level) ==> r.wf()
            }),
            r.metric() == dist,
            r.sampler() == level,
            r.codes() is None,
            r.quantizer() is None,
            r.calls() == 0,
    {
        Hnsw {
            dim,
            m,
            ef_construction,
            data,
            links: Links { m0: m * 2, level0, deg0, upper, levels },
            entry,
            max_level,
            dist,
            level,
            q8: None,
            pq: None,
            rng: R(1),
            visited: Visited::new(),
            dist_calls: 0,
        }
    }

    /// How many level 0 neighbours there are, the smallest number that a node
    /// has, and how many nodes have none.
    pub fn degree_stats(&self) -> (r: (u64, u16, usize))
        requires
            self.shaped(),
            self@.graph.len() <= u32::MAX,
        ensures
            r.0 == degree_sum(self@.graph, self@.graph.len()),
            least_degree(self@.graph, r.1 as nat),
            r.2 == orphans(self@.graph, self@.graph.len()),
    {
        self.links.degrees()
    }

    /// Attach a byte code for every vector. `size` gives the size of an element, and
    /// `unit` scales an element by the largest size of all and rounds it.
    pub fn quantize<Z: Fn(T) -> u32, U: Fn(T, u32) -> i32>(
        &mut self,
        size: &Z,
        unit: &U,
        kernel: DistI8,
    )
        requires
            old(self).wf(),
            sizes(*size),
            rounds(*unit),
        ensures
            final(self).wf(),
            final(self)@ == old(self)@,
            final(self).metric() == old(self).metric(),
            final(self).sampler() == old(self).sampler(),
            final(self).calls() == old(self).calls(),
            final(self).quantizer() == old(self).quantizer(),
            final(self).codes() matches Some(p) && {
                &&& p.0.peak == peak(*size, old(self)@.data)
                &&& p.0.codes@ == codes_of(*unit, p.0.peak, old(self)@.data)
                &&& rounded(*unit, p.0.peak, old(self)@.data, p.0.codes@)
                &&& forall|i: int, z: u32|
                    0 <= i < old(self)@.data.len() && #[trigger] call_ensures(
                        *size,
                        (old(self)@.data[i],),
                        z,
                    ) ==> z <= p.0.peak
                &&& p.0.peak == 0 || exists|i: int|
                    0 <= i < old(self)@.data.len() && call_ensures(
                        *size,
                        (#[trigger] old(self)@.data[i],),
                        p.0.peak,
                    )
                &&& p.0.dim == old(self)@.dim
                &&& p.1 == kernel
            },
    {
        let q = Q8::from_f32(&self.data, self.dim, size, unit);
        self.q8 = Some((q, kernel));
    }

    /// The bytes that the byte codes take.
    pub fn q8_bytes(&self) -> (r: usize)
        ensures
            r == match self.codes() {
                Some(p) => p.0.codes@.len(),
                None => 0,
            },
    {
        match &self.q8 {
            Some(p) => p.0.bytes(),
            None => 0,
        }
    }

    /// The peak that the byte codes are in units of.
    pub fn q8_peak(&self) -> (r: Option<u32>)
        ensures
            r == match self.codes() {
                Some(p) => Some(p.0.peak),
                None => None,
            },
    {
        match &self.q8 {
            Some(p) => Some(p.0.peak),
            None => None,
        }
    }

    /// The bytes that the vectors take, four for each element.
    pub fn f32_bytes(&self) -> (r: usize)
        requires
            self@.data.len() * 4 <= usize::MAX,
        ensures
            r == self@.data.len() * 4,
    {
        self.data.len() * 4
    }

    /// The bytes that the graph takes.
    pub fn graph_bytes(&self) -> (r: usize)
        requires
            self.shaped(),
            graph_size(self@.graph, 2 * self@.m) <= usize::MAX,
        ensures
            r == graph_size(self@.graph, 2 * self@.m),
    {
        self.links.bytes()
    }

    /// The hash of the levels that the nodes reach.
    pub fn levels_fingerprint(&self) -> (r: u64)
        ensures
            r == levels_hash(self@.graph, self@.graph.len()),
    {
        self.links.fingerprint()
    }

    /// Search by the byte codes. Where `rerank` is above one, the best
    /// `k * rerank` are put in the order of their true distances before the best
    /// `k` are returned; else the distances are those of the codes.
    pub fn search_q8<U: Fn(T, u32) -> i32>(
        &mut self,
        q: &[T],
        k: usize,
        ef: usize,
        rerank: usize,
        unit: &U,
    ) -> (r: Vec<(u32, u32)>)
        requires
            old(self).wf(),
            rounds(*unit),
            old(self)@.graph.len() > 0 ==> (old(self).codes() matches Some(p) ==> {
                &&& p.0.covers(old(self)@.graph.len())
                &&& p.0.fits(codes_of(*unit, p.0.peak, q@), old(self)@.graph.len())
                &&& q@.len() <= old(self)@.dim
                &&& rerank > 1 ==> q@.len() == old(self)@.dim
                &&& k * rerank <= usize::MAX
            }),
        ensures
            final(self).wf(),
            final(self)@ == old(self)@,
            final(self).metric() == old(self).metric(),
            final(self).sampler() == old(self).sampler(),
            final(self).codes() == old(self).codes(),
            final(self).quantizer() == old(self).quantizer(),
            old(self)@.graph.len() == 0 || old(self).codes() is None ==> r@.len() == 0
                && final(self).calls() == old(self).calls(),
            old(self)@.graph.len() > 0 ==> (old(self).codes() matches Some(p) ==> {
                let ix = old(self)@;
                let near = code_keys(p.0, codes_of(*unit, p.0.peak, q@));
                let exact = from_query(old(self).metric(), ix.data, ix.dim, q@);
                let width = larger(ef as nat, (k * rerank) as nat);
                let wide = if ef < k * rerank {
                    (k * rerank) as nat
                } else {
                    ef as nat
                };
                &&& r@ == hits(
                    reranked(shortlist(ix, near, width), exact, k as nat, rerank as nat),
                )
                &&& if rerank <= 1 {
                    &&& answers(ix, near, k as nat, wide, r@)
                    &&& exists|qc: Seq<i8>| #[trigger]
                        rounded(*unit, p.0.peak, q@, qc) && forall|i: int|
                            0 <= i < r@.len() ==> (#[trigger] r@[i]).1 == l2sq_i8(
                                qc,
                                p.0.codes@.subrange(
                                    r@[i].0 * p.0.dim,
                                    (r@[i].0 + 1) * p.0.dim,
                                ),
                            )
                } else {
                    &&& answers_twice(ix, near, exact, k as nat, (k * rerank) as nat, wide, r@)
                    &&& forall|i: int|
                        0 <= i < r@.len() ==> (#[trigger] r@[i]).1 == dist_of(
                            old(self).metric(),
                            q@,
                            ix.data.subrange(r@[i].0 * ix.dim, (r@[i].0 + 1) * ix.dim),
                        )
                }
                &&& forall|i: int, j: int|
                    0 <= i < j < r@.len() ==> (#[trigger] r@[i]).0 != (#[trigger] r@[j]).0
                        && r@[i].1 <= r@[j].1
                &&& final(self).calls() == sat(
                    old(self).calls() + shortlist_calls(ix, near, width),
                )
            }),
    {
        if self.entry == NONE {
            return Vec::new();
        }
        let n = self.links.len();
        let (code, kernel) = match &self.q8 {
            Some(p) => (&p.0, p.1),
            None => return Vec::new(),
        };
        let qc = code.encode(q, unit);
        let near = Codes { q8: code, kernel, qc: qc.as_slice(), n };
        let width = if ef < k * rerank {
            k * rerank
        } else {
            ef
        };
        let short = find(
            &self.links,
            &mut self.visited,
            &mut self.dist_calls,
            &near,
            self.entry,
            self.max_level as usize,
            width,
            Ghost(self.m as nat),
        );
        let corpus = Corpus { data: self.data.as_slice(), dim: self.dim, n, dist: &self.dist };
        let ghost goal = near.keys();
        let r = finish(short, &Near { corpus: &corpus, q }, k, rerank);
        proof {
            let exact = from_query(self.dist, self.data@, self.dim as nat, q@);
            law_quantized_search_answers(
                self@,
                goal,
                exact,
                k as nat,
                rerank as nat,
                width as nat,
            );
            if rerank <= 1 {
                law_answers(self@, goal, k as nat, width as nat, r@);
                assert(rounded(*unit, code.peak, q@, qc@));
                assert forall|i: int| 0 <= i < r@.len() implies (#[trigger] r@[i]).1 == l2sq_i8(
                    qc@,
                    code.codes@.subrange(r@[i].0 * code.dim, (r@[i].0 + 1) * code.dim),
                ) by {
                    assert(code.fits(qc@, n as nat));
                    assert(l2sq_i8(qc@, code.code(r@[i].0 as int)) <= i32::MAX);
                    law_l2sq_not_negative(qc@, code.code(r@[i].0 as int));
                }
            } else {
                law_answers_twice(
                    self@,
                    goal,
                    exact,
                    k as nat,
                    (k * rerank) as nat,
                    width as nat,
                    r@,
                );
            }
        }
        r
    }

    /// Train a product quantizer with `m` subspaces on the vectors, and attach it.
    pub fn train_pq<S: Fn(&[T], &[T]) -> u32 + Sync, M: Fn(&[T], &[usize]) -> Vec<T> + Sync>(
        &mut self,
        m: usize,
        iters: usize,
        max_train: usize,
        seed: u64,
        l2sq: &S,
        mean: &M,
    ) where T: Send + Sync
        requires
            old(self).wf(),
            measures(*l2sq),
            averages(*mean, old(self)@.dim / m as nat),
            m > 0,
            old(self)@.dim > 0,
            old(self)@.dim % m as nat == 0,
            old(self)@.graph.len() > 0,
            max_train > 0,
        ensures
            final(self).wf(),
            final(self)@ == old(self)@,
            final(self).metric() == old(self).metric(),
            final(self).sampler() == old(self).sampler(),
            final(self).calls() == old(self).calls(),
            final(self).codes() == old(self).codes(),
            final(self).quantizer() matches Some(p) && trained(
                p,
                *l2sq,
                *mean,
                old(self)@.data,
                old(self)@.dim,
                m as nat,
                iters as nat,
                max_train as nat,
                seed,
            ) && learnt(
                p,
                *l2sq,
                *mean,
                old(self)@.data,
                old(self)@.dim,
                m as nat,
                iters as nat,
                max_train as nat,
                seed,
            ),
    {
        proof {
            lemma_row_bounds(self@.dim, self@.graph.len(), 0, self@.data.len());
        }
        let p = Pq::train(&self.data, self.dim, m, iters, max_train, seed, l2sq, mean);
        self.pq = Some(p);
    }

    /// The bytes that the codes of the quantizer take.
    pub fn pq_bytes(&self) -> (r: usize)
        ensures
            r == match self.quantizer() {
                Some(p) => p.codes@.len(),
                None => 0,
            },
    {
        match &self.pq {
            Some(p) => p.bytes(),
            None => 0,
        }
    }

    /// The bytes that the codebooks take.
    pub fn pq_codebook_bytes(&self) -> (r: usize)
        requires
            self.quantizer() matches Some(p) ==> p.centroids@.len() * 4 <= usize::MAX,
        ensures
            r == match self.quantizer() {
                Some(p) => p.centroids@.len() * 4,
                None => 0,
            },
    {
        match &self.pq {
            Some(p) => p.codebook_bytes(),
            None => 0,
        }
    }

    /// The bytes that the table of one query takes.
    pub fn pq_lut_bytes(&self) -> (r: usize)
        requires
            self.quantizer() matches Some(p) ==> (p.m * p.ksub) * 4 <= usize::MAX,
        ensures
            r == match self.quantizer() {
                Some(p) => (p.m * p.ksub) * 4,
                None => 0,
            },
    {
        match &self.pq {
            Some(p) => p.lut_bytes(),
            None => 0,
        }
    }

    /// Search by the codes of the quantizer, with `rerank` as in `search_q8`.
    /// `l2sq` fills the table of the query, and `adc` adds up a code's entries.
    pub fn search_pq<K, S: Fn(&[T], &[T]) -> K, A: Fn(&[K], &[u8], usize) -> u32>(
        &mut self,
        q: &[T],
        k: usize,
        ef: usize,
        rerank: usize,
        l2sq: &S,
        adc: &A,
    ) -> (r: Vec<(u32, u32)>)
        requires
            old(self).wf(),
            measures(*l2sq),
            scores(*adc),
            old(self)@.graph.len() > 0 ==> (old(self).quantizer() matches Some(p) ==> {
                &&& old(self)@.graph.len() <= p.n
                &&& old(self)@.dim <= q@.len()
                &&& rerank > 1 ==> q@.len() == old(self)@.dim
                &&& k * rerank <= usize::MAX
            }),
        ensures
            final(self).wf(),
            final(self)@ == old(self)@,
            final(self).metric() == old(self).metric(),
            final(self).sampler() == old(self).sampler(),
            final(self).codes() == old(self).codes(),
            final(self).quantizer() == old(self).quantizer(),
            old(self)@.graph.len() == 0 || old(self).quantizer() is None ==> r@.len() == 0
                && final(self).calls() == old(self).calls(),
            old(self)@.graph.len() > 0 ==> (old(self).quantizer() matches Some(p) ==> {
                let ix = old(self)@;
                let near = table_keys(p, *adc, table(p, *l2sq, q@));
                let exact = from_query(old(self).metric(), ix.data, ix.dim, q@);
                let width = larger(ef as nat, (k * rerank) as nat);
                let wide = if ef < k * rerank {
                    (k * rerank) as nat
                } else {
                    ef as nat
                };
                &&& r@ == hits(
                    reranked(shortlist(ix, near, width), exact, k as nat, rerank as nat),
                )
                &&& if rerank <= 1 {
                    &&& answers(ix, near, k as nat, wide, r@)
                    &&& exists|t: Seq<K>| #[trigger]
                        tabled(p, *l2sq, q@, t) && forall|i: int|
                            0 <= i < r@.len() ==> (#[trigger] r@[i]).1 == score_of(
                                *adc,
                                t,
                                p.codes@.subrange(r@[i].0 * p.m, (r@[i].0 + 1) * p.m),
                                p.ksub,
                            )
                } else {
                    &&& answers_twice(ix, near, exact, k as nat, (k * rerank) as nat, wide, r@)
                    &&& forall|i: int|
                        0 <= i < r@.len() ==> (#[trigger] r@[i]).1 == dist_of(
                            old(self).metric(),
                            q@,
                            ix.data.subrange(r@[i].0 * ix.dim, (r@[i].0 + 1) * ix.dim),
                        )
                }
                &&& forall|i: int, j: int|
                    0 <= i < j < r@.len() ==> (#[trigger] r@[i]).0 != (#[trigger] r@[j]).0
                        && r@[i].1 <= r@[j].1
                &&& final(self).calls() == sat(
                    old(self).calls() + shortlist_calls(ix, near, width),
                )
            }),
    {
        if self.entry == NONE {
            return Vec::new();
        }
        let n = self.links.len();
        let pq = match &self.pq {
            Some(p) => p,
            None => return Vec::new(),
        };
        let lut = pq.lut(q, l2sq);
        let near = Table { pq, lut: lut.as_slice(), adc, n };
        let width = if ef < k * rerank {
            k * rerank
        } else {
            ef
        };
        let short = find(
            &self.links,
            &mut self.visited,
            &mut self.dist_calls,
            &near,
            self.entry,
            self.max_level as usize,
            width,
            Ghost(self.m as nat),
        );
        let corpus = Corpus { data: self.data.as_slice(), dim: self.dim, n, dist: &self.dist };
        let ghost goal = near.keys();
        let r = finish(short, &Near { corpus: &corpus, q }, k, rerank);
        proof {
            let exact = from_query(self.dist, self.data@, self.dim as nat, q@);
            law_quantized_search_answers(
                self@,
                goal,
                exact,
                k as nat,
                rerank as nat,
                width as nat,
            );
            if rerank <= 1 {
                law_answers(self@, goal, k as nat, width as nat, r@);
                assert(tabled(*pq, *l2sq, q@, lut@));
            } else {
                law_answers_twice(
                    self@,
                    goal,
                    exact,
                    k as nat,
                    (k * rerank) as nat,
                    width as nat,
                    r@,
                );
            }
        }
        r
    }

    /// How many vectors the index holds.
    pub fn len(&self) -> (r: usize)
        ensures
            r == self@.graph.len(),
    {
        self.links.len()
    }

    /// The highest level that a node reaches.
    pub fn max_level(&self) -> (r: u8)
        ensures
            r == self@.max_level,
    {
        self.max_level
    }

    /// How many distances from a query were taken since the count was last reset.
    pub fn dist_calls(&self) -> (r: u64)
        ensures
            r == self.calls(),
    {
        self.dist_calls
    }

    /// Start counting anew.
    pub fn reset_dist_calls(&mut self)
        ensures
            old(self).wf() ==> final(self).wf(),
            final(self).calls() == 0,
            final(self)@ == old(self)@,
            final(self).metric() == old(self).metric(),
            final(self).sampler() == old(self).sampler(),
            final(self).codes() == old(self).codes(),
            final(self).quantizer() == old(self).quantizer(),
    {
        self.dist_calls = 0;
    }
}

} // verus!
