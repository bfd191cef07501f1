//! Walking a graph, and wiring new nodes into it.

use vstd::prelude::*;

use crate::beam::{cand_of, layer, nbrs, search_layer, Oracle};
use crate::cand::{first, ids_of, sort_cands, Cand};
use crate::graph::{
    absent, backlink, cap, connect, descend, descend_calls, good_list, join, join_calls,
    lemma_backlink, lemma_connect, lemma_connect_absent, lemma_descend, lemma_layer_absent,
    lemma_layer_tall, lemma_link_back, lemma_set_list, lemma_sound_edges, link_back, pool_of,
    same_shape, set_list, sound,
};
use crate::index::{hits, reranked, rescored, sat};
use crate::links::Links;
use crate::metric::{Corpus, Near};
use crate::select::select;
use crate::visited::Visited;
use crate::wiring::{law_backlink_makes_room, made_room};

verus! {

/// Walk down from `e` through the levels `top` to `bottom + 1`.
pub(crate) fn walk_down<O: Oracle>(
    links: &Links,
    vis: &mut Visited,
    calls: &mut u64,
    o: &O,
    e: u32,
    top: usize,
    bottom: usize,
    Ghost(m): Ghost<nat>,
) -> (r: u32)
    requires
        links.wf(),
        sound(links@, m),
        old(vis).wf(),
        o.valid(),
        links@.len() <= o.reach(),
        e < links@.len(),
        top < links@[e as int].len(),
    ensures
        final(vis).wf(),
        r == descend(links@, o.keys(), e, top as nat, bottom as nat),
        *final(calls) == sat(
            *old(calls) + descend_calls(links@, o.keys(), e, top as nat, bottom as nat),
        ),
{
    let ghost g = links@;
    let ghost key = o.keys();
    let ghost goal = descend(g, key, e, top as nat, bottom as nat);
    let ghost total = *old(calls) + descend_calls(g, key, e, top as nat, bottom as nat);
    let mut cur = e;
    let mut lev = top;
    while lev > bottom
        invariant
            links.wf(),
            g == links@,
            key == o.keys(),
            sound(g, m),
            vis.wf(),
            o.valid(),
            g.len() <= o.reach(),
            cur < g.len(),
            lev < g[cur as int].len(),
            descend(g, key, cur, lev as nat, bottom as nat) == goal,
            sat(*calls + descend_calls(g, key, cur, lev as nat, bottom as nat)) == sat(total),
        decreases lev,
    {
        let ghost eps = seq![cur];
        proof {
            lemma_sound_edges(g, m, lev as nat);
            lemma_layer_tall(g, m, lev as nat, key, eps, 1);
        }
        let start: Vec<u32> = vec![cur];
        assert(start@ =~= eps);
        let (r, more) = search_layer(links, vis, o, &start, 1, lev);
        *calls = calls.saturating_add(more as u64);
        cur = r[0].id;
        lev = lev - 1;
    }
    cur
}

/// The nodes of `list` as candidates, by their distance from `base`.
pub(crate) fn pool_around<T, D: Fn(&[T], &[T]) -> u32>(
    corpus: &Corpus<T, D>,
    base: u32,
    list: &Vec<u32>,
) -> (pool: Vec<Cand>)
    requires
        corpus.wf(),
        base < corpus.n,
        forall|k: int| 0 <= k < list@.len() ==> #[trigger] list@[k] < corpus.n,
    ensures
        pool@ == pool_of(base, list@, corpus.pairs()),
        forall|k: int| 0 <= k < pool@.len() ==> (#[trigger] pool@[k]).id < corpus.n,
{
    let ghost pair = corpus.pairs();
    let mut pool: Vec<Cand> = Vec::new();
    let mut i: usize = 0;
    while i < list.len()
        invariant
            corpus.wf(),
            pair == corpus.pairs(),
            base < corpus.n,
            i <= list@.len(),
            forall|k: int| 0 <= k < list@.len() ==> #[trigger] list@[k] < corpus.n,
            pool@.len() == i,
            forall|k: int|
                0 <= k < i ==> #[trigger] pool@[k] == (Cand {
                    d: pair(base, list@[k]),
                    id: list@[k],
                }),
        decreases list@.len() - i,
    {
        let x = list[i];
        pool.push(Cand { d: corpus.between(base, x), id: x });
        i = i + 1;
    }
    assert(pool@ =~= pool_of(base, list@, pair));
    pool
}

/// Let `nb`, whose list is `cur`, link back to `id`.
pub(crate) fn link_one<T, D: Fn(&[T], &[T]) -> u32>(
    corpus: &Corpus<T, D>,
    cur: &mut Vec<u32>,
    nb: u32,
    id: u32,
    room: usize,
)
    requires
        corpus.wf(),
        nb < corpus.n,
        id < corpus.n,
        forall|k: int| 0 <= k < old(cur)@.len() ==> #[trigger] old(cur)@[k] < corpus.n,
    ensures
        final(cur)@ == backlink(old(cur)@, nb, id, room as nat, corpus.pairs()),
        old(cur)@.no_duplicates() && !old(cur)@.contains(id) ==> made_room(
            old(cur)@,
            final(cur)@,
            nb,
            id,
            room as nat,
            corpus.pairs(),
        ),
{
    proof {
        if cur@.no_duplicates() && !cur@.contains(id) {
            law_backlink_makes_room(cur@, nb, id, room as nat, corpus.pairs());
        }
    }
    let len = cur.len();
    cur.push(id);
    if len >= room {
        let pool = pool_around(corpus, nb, cur);
        *cur = select(corpus, &pool, room);
    }
}

/// Wire `id` on level `lev`, in both directions, to what is chosen among
/// `found`.
pub(crate) fn wire<T, D: Fn(&[T], &[T]) -> u32>(
    links: &mut Links,
    corpus: &Corpus<T, D>,
    id: u32,
    lev: usize,
    m: usize,
    found: &Vec<Cand>,
    Ghost(key): Ghost<spec_fn(u32) -> u32>,
)
    requires
        old(links).wf(),
        old(links).m0 == 2 * m,
        corpus.wf(),
        corpus.n == old(links)@.len(),
        sound(old(links)@, m as nat),
        absent(old(links)@, id, lev as nat),
        id < old(links)@.len(),
        lev < old(links)@[id as int].len(),
        found@.no_duplicates(),
        forall|c: Cand| #[trigger]
            found@.contains(c) ==> c == cand_of(key, c.id) && c.id < old(links)@.len() && c.id != id
                && lev < old(links)@[c.id as int].len(),
    ensures
        final(links).wf(),
        final(links).m0 == old(links).m0,
        final(links)@ == connect(old(links)@, found@, id, lev as nat, m as nat, corpus.pairs()),
{
    let ghost g = links@;
    let ghost pair = corpus.pairs();
    let ghost room_spec = cap(m as nat, lev as nat);
    let room: usize = if lev == 0 {
        2 * m
    } else {
        m
    };
    proof {
        lemma_connect(g, found@, id, lev as nat, m as nat, key, pair);
        assert forall|i: int| 0 <= i < found@.len() implies (#[trigger] found@[i]).id < corpus.n by {
            assert(found@.contains(found@[i]));
        }
    }
    let to = select(corpus, found, room);
    links.set_nbrs(id, lev, &to);
    let ghost s = set_list(g, id, lev as nat, to@);
    assert(links@ == s);
    let mut cur: Vec<u32> = Vec::new();
    let mut i: usize = 0;
    proof {
        assert(to@.take(0) =~= Seq::empty());
        assert forall|k: int| 0 <= k < to@.len() implies #[trigger] to@[k] < g.len() && to@[k] != id
            && lev < g[to@[k] as int].len() by {
            assert(found@.contains(cand_of(key, to@[k])));
        }
    }
    while i < to.len()
        invariant
            links.wf(),
            links.m0 == 2 * m,
            links.m0 == old(links).m0,
            corpus.wf(),
            corpus.n == g.len() == s.len(),
            pair == corpus.pairs(),
            room == cap(m as nat, lev as nat),
            s == set_list(g, id, lev as nat, to@),
            sound(g, m as nat),
            sound(s, m as nat),
            absent(g, id, lev as nat),
            id < g.len(),
            lev < g[id as int].len(),
            to@.no_duplicates(),
            forall|k: int|
                0 <= k < to@.len() ==> #[trigger] to@[k] < g.len() && to@[k] != id && lev
                    < g[to@[k] as int].len(),
            i <= to@.len(),
            links@ == link_back(s, to@.take(i as int), id, lev as nat, m as nat, pair),
        decreases to@.len() - i,
    {
        let nb = to[i];
        let ghost done = to@.take(i as int);
        let ghost h = links@;
        proof {
            lemma_set_list(g, id, lev as nat, to@);
            assert forall|k: int| 0 <= k < to@.len() implies #[trigger] to@[k] < s.len() && to@[k]
                != id && lev < s[to@[k] as int].len() && !nbrs(s, to@[k], lev as nat).contains(id) by {
                assert(s[to@[k] as int].len() == g[to@[k] as int].len());
                let list = nbrs(g, to@[k], lev as nat);
                if list.contains(id) {
                    let j = choose|j: int| 0 <= j < list.len() && list[j] == id;
                    assert(nbrs(g, to@[k], lev as nat)[j] != id);
                }
            }
            assert(s[id as int].len() == g[id as int].len());
            assert forall|k: int| 0 <= k < done.len() implies #[trigger] done[k] < s.len() && done[k]
                != id && lev < s[done[k] as int].len() && !nbrs(s, done[k], lev as nat).contains(id) by {
                assert(done[k] == to@[k]);
            }
            lemma_link_back(s, done, id, lev as nat, m as nat, pair);
            assert(h[nb as int].len() == s[nb as int].len());
            assert(!done.contains(nb)) by {
                if done.contains(nb) {
                    let k = choose|k: int| 0 <= k < done.len() && done[k] == nb;
                    assert(to@[k] == to@[i as int]);
                }
            }
            assert(good_list(h, m as nat, nb, lev as nat, nbrs(h, nb, lev as nat)));
            lemma_backlink(
                h,
                m as nat,
                nb,
                id,
                lev as nat,
                nbrs(h, nb, lev as nat),
                pair,
            );
            assert(to@.take(i + 1).drop_last() =~= done);
            assert(to@.take(i + 1).last() == nb);
        }
        links.copy_nbrs(nb, lev, &mut cur);
        link_one(corpus, &mut cur, nb, id, room);
        links.set_nbrs(nb, lev, &cur);
        i = i + 1;
    }
    assert(to@.take(i as int) =~= to@);
}

/// Let `id` join the levels from `low` down, starting at `e`.
pub(crate) fn join_down<T, D: Fn(&[T], &[T]) -> u32>(
    links: &mut Links,
    vis: &mut Visited,
    calls: &mut u64,
    near: &Near<T, D>,
    id: u32,
    low: usize,
    m: usize,
    ef: usize,
    e: u32,
)
    requires
        old(links).wf(),
        old(links).m0 == 2 * m,
        old(vis).wf(),
        near.valid(),
        near.corpus.n == old(links)@.len(),
        sound(old(links)@, m as nat),
        absent(old(links)@, id, low as nat),
        id < old(links)@.len(),
        low < old(links)@[id as int].len(),
        e < old(links)@.len(),
        e != id,
        low < old(links)@[e as int].len(),
    ensures
        final(links).wf(),
        final(links).m0 == old(links).m0,
        final(vis).wf(),
        sound(final(links)@, m as nat),
        same_shape(old(links)@, final(links)@),
        final(links)@ == join(
            old(links)@,
            id,
            low as nat,
            m as nat,
            ef as nat,
            seq![e],
            near.keys(),
            near.corpus.pairs(),
        ),
        *final(calls) == sat(
            *old(calls) + join_calls(
                old(links)@,
                id,
                low as nat,
                m as nat,
                ef as nat,
                seq![e],
                near.keys(),
                near.corpus.pairs(),
            ),
        ),
{
    let ghost key = near.keys();
    let ghost pair = near.corpus.pairs();
    let ghost g0 = links@;
    let ghost goal = join(g0, id, low as nat, m as nat, ef as nat, seq![e], key, pair);
    let ghost total = *calls + join_calls(
        g0,
        id,
        low as nat,
        m as nat,
        ef as nat,
        seq![e],
        key,
        pair,
    );
    let mut ep: Vec<u32> = vec![e];
    assert(ep@ =~= seq![e]);
    let mut lev: usize = low;
    loop
        invariant_except_break
            links.wf(),
            links.m0 == 2 * m,
            vis.wf(),
            near.valid(),
            near.corpus.n == links@.len(),
            key == near.keys(),
            pair == near.corpus.pairs(),
            sound(links@, m as nat),
            same_shape(g0, links@),
            absent(links@, id, lev as nat),
            id < links@.len(),
            lev < links@[id as int].len(),
            forall|i: int|
                0 <= i < ep@.len() ==> #[trigger] ep@[i] < links@.len() && ep@[i] != id && lev
                    < links@[ep@[i] as int].len(),
            join(links@, id, lev as nat, m as nat, ef as nat, ep@, key, pair) == goal,
            sat(
                *calls + join_calls(links@, id, lev as nat, m as nat, ef as nat, ep@, key, pair),
            ) == sat(total),
        ensures
            links.wf(),
            links.m0 == 2 * m,
            vis.wf(),
            sound(links@, m as nat),
            same_shape(g0, links@),
            links@ == goal,
            *calls == sat(total),
        decreases lev,
    {
        let ghost g = links@;
        let ghost b = layer(g, lev as nat, key, ep@, ef as nat);
        proof {
            lemma_sound_edges(g, m as nat, lev as nat);
            lemma_layer_tall(g, m as nat, lev as nat, key, ep@, ef as nat);
            lemma_layer_absent(g, m as nat, lev as nat, key, ep@, ef as nat, id);
        }
        let (found, more) = search_layer(links, vis, near, &ep, ef, lev);
        *calls = calls.saturating_add(more as u64);
        proof {
            assert forall|c: Cand| #[trigger] found@.contains(c) implies c == cand_of(key, c.id)
                && c.id < g.len() && c.id != id && lev < g[c.id as int].len() by {
                let i = choose|i: int| 0 <= i < found@.len() && found@[i] == c;
                assert(b.best[i].id != id);
            }
            lemma_connect(g, found@, id, lev as nat, m as nat, key, pair);
        }
        wire(links, near.corpus, id, lev, m, &found, Ghost(key));
        if lev == 0 {
            break;
        }
        ep = ids_of(&found);
        proof {
            lemma_connect_absent(g, links@, id, lev as nat);
            assert forall|k: int| 0 <= k < ep@.len() implies #[trigger] ep@[k] < links@.len() && ep@[k]
                != id && lev - 1 < links@[ep@[k] as int].len() by {
                assert(found@.contains(found@[k]));
                assert(links@[ep@[k] as int].len() == g[ep@[k] as int].len());
            }
            assert(links@[id as int].len() == g[id as int].len());
        }
        lev = lev - 1;
    }
}

/// Search the whole graph from `entry`.
pub(crate) fn find<O: Oracle>(
    links: &Links,
    vis: &mut Visited,
    calls: &mut u64,
    o: &O,
    entry: u32,
    top: usize,
    ef: usize,
    Ghost(m): Ghost<nat>,
) -> (r: Vec<Cand>)
    requires
        links.wf(),
        sound(links@, m),
        old(vis).wf(),
        o.valid(),
        links@.len() <= o.reach(),
        entry < links@.len(),
        top < links@[entry as int].len(),
    ensures
        final(vis).wf(),
        ({
            let e = descend(links@, o.keys(), entry, top as nat, 0);
            let b = layer(links@, 0, o.keys(), seq![e], ef as nat);
            &&& r@ == b.best
            &&& *final(calls) == sat(
                *old(calls) + (descend_calls(links@, o.keys(), entry, top as nat, 0)
                    + b.visited.len()),
            )
            &&& forall|i: int| 0 <= i < r@.len() ==> (#[trigger] r@[i]).id < links@.len()
        }),
{
    let e = walk_down(links, vis, calls, o, entry, top, 0, Ghost(m));
    proof {
        lemma_descend(links@, m, o.keys(), entry, top as nat, 0);
        lemma_sound_edges(links@, m, 0);
        lemma_layer_tall(links@, m, 0, o.keys(), seq![e], ef as nat);
    }
    let start: Vec<u32> = vec![e];
    assert(start@ =~= seq![e]);
    let (r, more) = search_layer(links, vis, o, &start, ef, 0);
    *calls = calls.saturating_add(more as u64);
    r
}

/// The first `k` of `v` as pairs of id and distance.
pub(crate) fn to_hits(v: &Vec<Cand>, k: usize) -> (r: Vec<(u32, u32)>)
    ensures
        r@ == hits(first(v@, k as nat)),
        r@.len() == if v@.len() < k {
            v@.len()
        } else {
            k as nat
        },
        forall|i: int| 0 <= i < r@.len() ==> #[trigger] r@[i] == (v@[i].id, v@[i].d),
{
    let mut r: Vec<(u32, u32)> = Vec::new();
    let mut i: usize = 0;
    while i < v.len() && i < k
        invariant
            i <= v@.len(),
            i <= k,
            r@.len() == i,
            forall|j: int| 0 <= j < i ==> #[trigger] r@[j] == (v@[j].id, v@[j].d),
        decreases v@.len() - i,
    {
        r.push((v[i].id, v[i].d));
        i = i + 1;
    }
    assert(r@ =~= hits(first(v@, k as nat)));
    r
}

/// The best `k` of a shortlist, see `reranked`.
pub(crate) fn finish<O: Oracle>(short: Vec<Cand>, exact: &O, k: usize, rerank: usize) -> (r: Vec<(u32, u32)>)
    requires
        rerank > 1 ==> exact.valid() && k * rerank <= usize::MAX,
        rerank > 1 ==> forall|i: int|
            0 <= i < short@.len() ==> (#[trigger] short@[i]).id < exact.reach(),
    ensures
        r@ == hits(reranked(short@, exact.keys(), k as nat, rerank as nat)),
        rerank <= 1 ==> r@.len() == (if short@.len() < k {
            short@.len()
        } else {
            k as nat
        }) && forall|i: int|
            0 <= i < r@.len() ==> #[trigger] r@[i] == (short@[i].id, short@[i].d),
{
    if rerank <= 1 {
        return to_hits(&short, k);
    }
    let ghost key = exact.keys();
    let take: usize = k * rerank;
    let mut pool: Vec<Cand> = Vec::new();
    let mut i: usize = 0;
    while i < short.len() && i < take
        invariant
            exact.valid(),
            key == exact.keys(),
            forall|j: int| 0 <= j < short@.len() ==> (#[trigger] short@[j]).id < exact.reach(),
            i <= short@.len(),
            i <= take,
            pool@.len() == i,
            forall|j: int| 0 <= j < i ==> #[trigger] pool@[j] == cand_of(key, short@[j].id),
        decreases short@.len() - i,
    {
        let id = short[i].id;
        pool.push(Cand { d: exact.key(id), id });
        i = i + 1;
    }
    assert(pool@ =~= rescored(first(short@, take as nat), key));
    to_hits(&sort_cands(&pool), k)
}

} // verus!
