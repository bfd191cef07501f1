//! What an insertion does on one level while others are at work, told of the lists that it
//! read and of the lists that it changed.

use vstd::prelude::*;

use crate::answers::listed_or_no_nearer;
use crate::beam::{
    cand_of, coherent, expand, lemma_expand, lemma_expand_coherent, lemma_first,
    lemma_seed_coherent, lemma_start, lemma_start_coherent, lemma_take_coherent, offer, start,
    worst, Beam,
};
use crate::cand::{ids, ins, lemma_ins, precedes};
use crate::guard::Deed;
use crate::history::{Chain, Step};
use crate::links::NONE;
use crate::store::Plan;
use crate::trace::{eligible, follow, known, lemma_skipping, outset, skipping, taken};
use crate::wiring::{
    ahead, among, either, law_choice_is_spread_out, law_published_keeps_both,
    law_relinked_makes_room, made_room, spread_out, toward,
};

verus! {

/// Node `x` was read on level `lev`, and all that its list named but `id` is on `s`, or `s`
/// is full and has nothing that is farther.
pub open spec fn read_through(
    reads: Seq<Deed>,
    lev: nat,
    x: u32,
    key: spec_fn(u32) -> u32,
    width: nat,
    s: Seq<u32>,
    id: u32,
) -> bool {
    exists|r: int|
        0 <= r < reads.len() && match #[trigger] reads[r] {
            Deed::Read { id: y, lev: l, list } => {
                &&& y == x
                &&& l == lev
                &&& forall|k: int|
                    0 <= k < list.len() && list[k] != id ==> listed_or_no_nearer(
                        key,
                        width,
                        s,
                        #[trigger] list[k],
                    )
            },
            _ => false,
        }
}

/// `s` is where a search on behalf of `id` ends that starts from `eps` and has read these
/// lists: nearest first, each once, and never `id`. Whatever it started from, and whatever
/// it read of a node of `s`, is on `s` too, or `s` is full and has nothing that is farther.
pub open spec fn ends_among(
    eps: Seq<u32>,
    reads: Seq<Deed>,
    lev: nat,
    key: spec_fn(u32) -> u32,
    width: nat,
    s: Seq<u32>,
    id: u32,
) -> bool {
    &&& s.len() <= width
    &&& !s.contains(id)
    &&& forall|i: int, j: int|
        0 <= i < j < s.len() ==> ahead(key, #[trigger] s[i], #[trigger] s[j])
    &&& forall|k: int|
        0 <= k < eps.len() && eps[k] != NONE && eps[k] != id ==> listed_or_no_nearer(
            key,
            width,
            s,
            #[trigger] eps[k],
        )
    &&& forall|i: int|
        0 <= i < s.len() ==> read_through(reads, lev, #[trigger] s[i], key, width, s, id)
}

/// Each node that was met, but those of `but`, is still to be looked at, or was turned away
/// by a full beam.
spec fn pending(b: Beam, key: spec_fn(u32) -> u32, ef: nat, but: Set<u32>) -> bool {
    forall|x: u32| #[trigger]
        b.visited.contains(x) && !but.contains(x) ==> {
            ||| b.frontier.contains(cand_of(key, x))
            ||| b.best.len() >= ef && !b.best.contains(cand_of(key, x))
        }
}

proof fn lemma_offer_pending(
    b: Beam,
    key: spec_fn(u32) -> u32,
    ef: nat,
    but: Set<u32>,
    x: u32,
)
    requires
        coherent(b, key, ef),
        pending(b, key, ef, but),
        !b.visited.contains(x),
    ensures
        pending(offer(b, cand_of(key, x), ef), key, ef, but),
{
    let c = cand_of(key, x);
    let r = offer(b, c, ef);
    lemma_ins(b.frontier, c);
    lemma_ins(b.best, c);
    assert(!b.best.contains(c));
    if b.best.len() < ef || c.d < worst(b.best) {
        lemma_first(ins(b.best, c), ef);
    }
    assert forall|y: u32| #[trigger] r.visited.contains(y) && !but.contains(y) implies {
        ||| r.frontier.contains(cand_of(key, y))
        ||| r.best.len() >= ef && !r.best.contains(cand_of(key, y))
    } by {
        let d = cand_of(key, y);
        if y != x {
            assert(b.visited.contains(y));
            if b.frontier.contains(d) {
                assert(ins(b.frontier, c).contains(d));
            } else {
                assert(!b.best.contains(d));
                assert(!ins(b.best, c).contains(d));
            }
        } else {
            assert(ins(b.frontier, c).contains(c));
        }
    }
}

proof fn lemma_expand_pending(
    b: Beam,
    list: Seq<u32>,
    key: spec_fn(u32) -> u32,
    ef: nat,
    but: Set<u32>,
)
    requires
        coherent(b, key, ef),
        pending(b, key, ef, but),
    ensures
        pending(expand(b, list, key, ef), key, ef, but),
    decreases list.len(),
{
    if list.len() > 0 {
        let t = list.drop_last();
        lemma_expand_pending(b, t, key, ef, but);
        lemma_expand_coherent(b, t, key, ef);
        let p = expand(b, t, key, ef);
        if !p.visited.contains(list.last()) {
            lemma_offer_pending(p, key, ef, but, list.last());
        }
    }
}

/// The nodes whose lists were read.
spec fn readers(reads: Seq<Deed>) -> Set<u32> {
    Set::new(
        |x: u32|
            exists|r: int|
                0 <= r < reads.len() && match #[trigger] reads[r] {
                    Deed::Read { id: y, .. } => y == x,
                    _ => false,
                },
    )
}

/// What was read was met, and who was met was read, is still to be looked at, or was turned
/// away.
proof fn lemma_follow_pending<'a, T, D: Fn(&[T], &[T]) -> u32>(
    plan: Plan<'a, T, D>,
    b: Beam,
    reads: Seq<Deed>,
    key: spec_fn(u32) -> u32,
    ef: nat,
    lev: nat,
    id: u32,
)
    requires
        plan.reads_right(b, reads, key, ef, lev, id),
        coherent(b, key, ef),
        pending(b, key, ef, Set::empty()),
        forall|x: u32| #[trigger]
            b.visited.contains(x) ==> eligible(plan.shape(), id, lev, x),
    ensures
        ({
            let r = follow(b, reads, key, ef, id);
            &&& coherent(r, key, ef)
            &&& pending(r, key, ef, readers(reads))
            &&& forall|i: int|
                0 <= i < reads.len() ==> match #[trigger] reads[i] {
                    Deed::Read { lev: l, list, .. } => l == lev && forall|k: int|
                        0 <= k < list.len() && list[k] != id ==> r.visited.contains(
                            #[trigger] list[k],
                        ),
                    _ => false,
                }
        }),
    decreases reads.len(),
{
    plan.lemma_follow(b, reads, key, ef, lev, id);
    if reads.len() > 0 {
        let t = reads.drop_last();
        let p = follow(b, t, key, ef, id);
        lemma_follow_pending(plan, b, t, key, ef, lev, id);
        if let Deed::Read { id: x, lev: l, list } = reads.last() {
            let r = follow(b, reads, key, ef, id);
            let but = readers(reads);
            let q = taken(p);
            let s = skipping(list, id);
            assert(reads[reads.len() - 1] == reads.last());
            assert(but.contains(x));
            lemma_take_coherent(p, key, ef);
            assert forall|y: u32| #[trigger] q.visited.contains(y) && !but.contains(y) implies {
                ||| q.frontier.contains(cand_of(key, y))
                ||| q.best.len() >= ef && !q.best.contains(cand_of(key, y))
            } by {
                if readers(t).contains(y) {
                    let i = choose|i: int|
                        0 <= i < t.len() && match #[trigger] t[i] {
                            Deed::Read { id: z, .. } => z == y,
                            _ => false,
                        };
                    assert(reads[i] == t[i]);
                }
                let d = cand_of(key, y);
                if p.frontier.contains(d) {
                    let k = choose|k: int| 0 <= k < p.frontier.len() && p.frontier[k] == d;
                    assert(k != 0);
                    assert(q.frontier[k - 1] == d);
                }
            }
            lemma_expand_pending(q, s, key, ef, but);
            lemma_expand(q, s, key, ef);
            lemma_skipping(list, id);
            assert forall|i: int| 0 <= i < reads.len() implies match #[trigger] reads[i] {
                Deed::Read { lev: l, list, .. } => l == lev && forall|k: int|
                    0 <= k < list.len() && list[k] != id ==> r.visited.contains(#[trigger] list[k]),
                _ => false,
            } by {
                if i < t.len() {
                    assert(t[i] == reads[i]);
                    if let Deed::Read { list: other, .. } = t[i] {
                        assert forall|k: int| 0 <= k < other.len() && other[k] != id implies
                            r.visited.contains(#[trigger] other[k]) by {
                            assert(p.visited.contains(other[k]));
                            assert(q.visited.contains(other[k]));
                        }
                    }
                } else {
                    assert forall|k: int| 0 <= k < list.len() && list[k] != id implies
                        r.visited.contains(#[trigger] list[k]) by {
                        assert(list.contains(list[k]));
                        assert(s.contains(list[k]));
                    }
                }
            }
        }
    }
}

/// Where the search of a level ends while others are at work.
pub proof fn law_search_among_threads_ends<'a, T, D: Fn(&[T], &[T]) -> u32>(
    plan: Plan<'a, T, D>,
    eps: Seq<u32>,
    reads: Seq<Deed>,
    key: spec_fn(u32) -> u32,
    ef: nat,
    lev: nat,
    id: u32,
)
    requires
        plan.searches(eps, reads, key, ef, lev, id),
        plan.opens(eps, lev),
    ensures
        ends_among(eps, reads, lev, key, ef, ids(known(eps, reads, key, ef, id).best), id),
{
    let from = outset(eps, id);
    let b0 = start(from, key, ef);
    let b = known(eps, reads, key, ef, id);
    let s = ids(b.best);
    plan.lemma_searches(eps, reads, key, ef, lev, id);
    plan.lemma_begins(eps, key, ef, lev, id);
    lemma_start(from, key, ef);
    lemma_start_coherent(from, key, ef);
    lemma_seed_coherent(from, key);
    lemma_follow_pending(plan, b0, reads, key, ef, lev, id);
    assert forall|i: int| 0 <= i < s.len() implies b.best[i] == cand_of(key, #[trigger] s[i])
        && s[i] != id by {
        assert(b.best.contains(b.best[i]));
        assert(eligible(plan.shape(), id, lev, b.best[i].id));
    }
    assert forall|i: int, j: int| 0 <= i < j < s.len() implies ahead(
        key,
        #[trigger] s[i],
        #[trigger] s[j],
    ) by {
        assert(precedes(b.best[i], b.best[j]));
        assert(b.best[i] != b.best[j]);
    }
    assert forall|y: u32| #[trigger] b.visited.contains(y) implies listed_or_no_nearer(
        key,
        ef,
        s,
        y,
    ) by {
        if b.best.contains(cand_of(key, y)) {
            let i = choose|i: int| 0 <= i < b.best.len() && b.best[i] == cand_of(key, y);
            assert(s[i] == y);
        } else {
            assert forall|j: int| 0 <= j < s.len() implies key(#[trigger] s[j]) <= key(y) by {
                assert(b.best[j].d <= key(y));
            }
        }
    }
    assert forall|i: int| 0 <= i < s.len() implies read_through(
        reads,
        lev,
        #[trigger] s[i],
        key,
        ef,
        s,
        id,
    ) by {
        let c = b.best[i];
        assert(b.best.contains(c));
        assert(b.visited.contains(c.id));
        if b.frontier.contains(c) {
            let k = choose|k: int| 0 <= k < b.frontier.len() && b.frontier[k] == c;
            assert(precedes(b.frontier[0], b.frontier[k]));
            assert(precedes(b.best[i], b.best[b.best.len() - 1]));
        }
        assert(readers(reads).contains(c.id));
        let r = choose|r: int|
            0 <= r < reads.len() && match #[trigger] reads[r] {
                Deed::Read { id: y, .. } => y == c.id,
                _ => false,
            };
        if let Deed::Read { list, .. } = reads[r] {
            assert forall|k: int| 0 <= k < list.len() && list[k] != id implies listed_or_no_nearer(
                key,
                ef,
                s,
                #[trigger] list[k],
            ) by {
                assert(b.visited.contains(list[k]));
            }
        }
    }
}

/// The searches of an insertion, from its entry on: one for each level down from there,
/// with a width of one above the level that the node reaches and `ef_construction` from
/// there on. Each starts from the nearest that the one above found, or from all of them
/// once the node's level is reached, and ends among what it read.
pub proof fn law_walk_among_threads<'a, T, D: Fn(&[T], &[T]) -> u32>(
    plan: Plan<'a, T, D>,
    c: Chain,
    id: u32,
    i: int,
)
    requires
        plan.chained(c, id),
        0 <= i < c.stages.len(),
    ensures
        ({
            let p = c.stages[i];
            let l = plan.levels@[id as int];
            let found = ids(plan.finds(p, id).best);
            &&& p.lev == c.top.1 - i
            &&& ends_among(
                p.eps,
                p.reads,
                p.lev,
                plan.keys(id),
                if p.lev > l {
                    1
                } else {
                    plan.ef_construction as nat
                },
                found,
                id,
            )
            &&& i == 0 ==> p.eps.len() == 1 && p.eps[0] == c.top.0
            &&& i + 1 < c.stages.len() && found.len() > 0 ==> c.stages[i + 1].eps == if p.lev > l {
                found.take(1)
            } else {
                found
            }
        }),
{
    let p = c.stages[i];
    let l = plan.levels@[id as int] as nat;
    plan.lemma_walk(c.stages, c.top, id, i);
    assert(plan.searched(p, id));
    reveal(Plan::searched);
    law_search_among_threads_ends(
        plan,
        p.eps,
        p.reads,
        plan.keys(id),
        plan.width(p.lev, l),
        p.lev,
        id,
    );
    assert(p.eps == plan.before(c.stages, c.top.0, i, id));
    if i + 1 < c.stages.len() {
        let q = c.stages[i + 1];
        let best = plan.finds(p, id).best;
        assert(q.eps == plan.before(c.stages, c.top.0, i + 1, id));
        if best.len() > 0 {
            assert(seq![best[0].id] =~= ids(best).take(1));
        }
    }
}

/// What an insertion chooses on a level is spread out around its node.
pub proof fn law_choice_among_threads<'a, T, D: Fn(&[T], &[T]) -> u32>(
    plan: Plan<'a, T, D>,
    c: Chain,
    id: u32,
    i: int,
)
    requires
        plan.chained(c, id),
        0 <= i < c.stages.len(),
    ensures
        spread_out(
            plan.choice(c.stages[i], id),
            among(plan.finds(c.stages[i], id).best, plan.keys(id)),
            plan.keys(id),
            if c.stages[i].lev == 0 {
                2 * plan.m as nat
            } else {
                plan.m as nat
            },
            plan.corpus.pairs(),
        ),
{
    let p = c.stages[i];
    plan.lemma_walk(c.stages, c.top, id, i);
    law_choice_is_spread_out(
        plan.finds(p, id).best,
        plan.room(p.lev),
        plan.corpus.pairs(),
        plan.keys(id),
    );
}

/// What a step makes of a list. One that asks for a place on it gets it as in a back link,
/// once only. A node that shows itself keeps who has linked back to it before.
pub proof fn law_step_makes_room<'a, T, D: Fn(&[T], &[T]) -> u32>(
    plan: Plan<'a, T, D>,
    cur: Seq<u32>,
    id: u32,
    lev: nat,
    s: Step,
)
    requires
        plan.good(id, lev, cur),
        plan.step_right(id, lev, s),
    ensures
        ({
            let r = plan.stepped(cur, id, lev, s);
            let room = if lev == 0 {
                2 * plan.m as nat
            } else {
                plan.m as nat
            };
            let pair = plan.corpus.pairs();
            match s {
                Step::Link { from, .. } => if cur.contains(from) {
                    r == cur
                } else {
                    made_room(cur, r, id, from, room, pair)
                },
                Step::Show { chain } => {
                    let to = plan.choice(chain.stages.last(), id);
                    let both = either(to, cur);
                    ||| r.len() <= room && r.no_duplicates() && forall|y: u32| #[trigger]
                        r.contains(y) <==> both.contains(y)
                    ||| room < both.len() && spread_out(r, both, toward(id, pair), room, pair)
                },
            }
        }),
{
    reveal(Plan::step_right);
    let room = plan.room(lev);
    let pair = plan.corpus.pairs();
    match s {
        Step::Link { from, .. } => {
            law_relinked_makes_room(cur, id, from, room, pair);
        },
        Step::Show { chain } => {
            let i = chain.stages.len() - 1;
            plan.lemma_choice(chain, id, i);
            law_published_keeps_both(plan.choice(chain.stages[i], id), cur, id, room, pair);
        },
    }
}

} // verus!
