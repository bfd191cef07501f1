//! What neighbours a node ends up with, told by distances alone.

use vstd::prelude::*;

use crate::cand::{lemma_sort, precedes, sort, Cand};
use crate::graph::{backlink, pool_of};
use crate::select::{
    behind_all, chosen, hidden, keep, law_chosen_are_diverse, lemma_chosen, lemma_keep,
};
use crate::store::{joined, lemma_joined, published, relinked};

verus! {

/// `x` is nearer than `y`, or as near and has the lower id.
pub open spec fn ahead(near: spec_fn(u32) -> u32, x: u32, y: u32) -> bool {
    near(x) < near(y) || near(x) == near(y) && x < y
}

/// `list` holds nodes of `pool` that are spread out around a node: nearest first by
/// `near`, each once, and each nearer to that node than to any before it. A node of the
/// pool is left out only where one of the list is ahead of it and as near to it as that
/// node is, or where the list is full and all of it is ahead.
pub open spec fn spread_out(
    list: Seq<u32>,
    pool: Set<u32>,
    near: spec_fn(u32) -> u32,
    room: nat,
    pair: spec_fn(u32, u32) -> u32,
) -> bool {
    &&& list.len() <= room
    &&& forall|i: int| 0 <= i < list.len() ==> pool.contains(#[trigger] list[i])
    &&& forall|i: int, j: int|
        0 <= i < j < list.len() ==> ahead(near, #[trigger] list[i], #[trigger] list[j]) && pair(
            list[j],
            list[i],
        ) > near(list[j])
    &&& forall|y: u32| #[trigger]
        pool.contains(y) && !list.contains(y) ==> {
            ||| exists|i: int|
                0 <= i < list.len() && ahead(near, #[trigger] list[i], y) && pair(y, list[i])
                    <= near(y)
            ||| list.len() == room && forall|i: int|
                0 <= i < list.len() ==> ahead(near, #[trigger] list[i], y)
        }
}

/// How far each node is from `nb`.
pub open spec fn toward(nb: u32, pair: spec_fn(u32, u32) -> u32) -> spec_fn(u32) -> u32 {
    |y: u32| pair(nb, y)
}

/// The nodes of two lists.
pub open spec fn either(a: Seq<u32>, b: Seq<u32>) -> Set<u32> {
    Set::new(|y: u32| a.contains(y) || b.contains(y))
}

/// The nodes of some candidates.
pub open spec fn among(pool: Seq<Cand>, key: spec_fn(u32) -> u32) -> Set<u32> {
    Set::new(|y: u32| pool.contains(Cand { d: key(y), id: y }))
}

/// What is chosen from a pool is spread out.
pub proof fn law_choice_is_spread_out(
    pool: Seq<Cand>,
    room: nat,
    pair: spec_fn(u32, u32) -> u32,
    key: spec_fn(u32) -> u32,
)
    requires
        pool.no_duplicates(),
        forall|c: Cand| #[trigger] pool.contains(c) ==> c.d == key(c.id),
    ensures
        spread_out(chosen(pool, room, pair), among(pool, key), key, room, pair),
        room > 0 && pool.len() > 0 ==> chosen(pool, room, pair).len() > 0,
{
    let k = keep(sort(pool), room, pair);
    let r = chosen(pool, room, pair);
    let all = among(pool, key);
    lemma_sort(pool);
    lemma_keep(sort(pool), room, pair);
    lemma_chosen(pool, room, pair, key);
    law_chosen_are_diverse(pool, room, pair);
    assert forall|i: int| 0 <= i < r.len() implies #[trigger] r[i] == k[i].id && k[i].d == key(
        r[i],
    ) && all.contains(r[i]) by {
        assert(k.contains(k[i]));
        assert(sort(pool).contains(k[i]));
        assert(pool.contains(k[i]));
        assert(k[i] == Cand { d: key(r[i]), id: r[i] });
    }
    assert forall|i: int, j: int| 0 <= i < j < r.len() implies ahead(
        key,
        #[trigger] r[i],
        #[trigger] r[j],
    ) && pair(r[j], r[i]) > key(r[j]) by {
        assert(precedes(k[i], k[j]));
        assert(pair(k[j].id, k[i].id) > k[j].d);
        assert(r[i] != r[j]);
    }
    assert forall|y: u32| #[trigger] all.contains(y) && !r.contains(y) implies {
        ||| exists|i: int|
            0 <= i < r.len() && ahead(key, #[trigger] r[i], y) && pair(y, r[i]) <= key(y)
        ||| r.len() == room && forall|i: int|
            0 <= i < r.len() ==> ahead(key, #[trigger] r[i], y)
    } by {
        let c = Cand { d: key(y), id: y };
        assert(pool.contains(c));
        if k.contains(c) {
            let i = choose|i: int| 0 <= i < k.len() && k[i] == c;
            assert(r[i] == y);
        }
        if hidden(k, c, pair) {
            let i = choose|i: int|
                0 <= i < k.len() && precedes(#[trigger] k[i], c) && pair(c.id, k[i].id) <= c.d;
            assert(r[i] == k[i].id);
            assert(r[i] != y);
            assert(ahead(key, r[i], y));
        } else {
            assert(behind_all(k, c));
            assert forall|i: int| 0 <= i < r.len() implies ahead(key, #[trigger] r[i], y) by {
                assert(precedes(k[i], c));
                assert(r[i] != y);
            }
        }
    }
}

/// There is only one list that is spread out over a pool.
pub proof fn law_spread_out_is_unique(
    a: Seq<u32>,
    b: Seq<u32>,
    pool: Set<u32>,
    near: spec_fn(u32) -> u32,
    room: nat,
    pair: spec_fn(u32, u32) -> u32,
)
    requires
        spread_out(a, pool, near, room, pair),
        spread_out(b, pool, near, room, pair),
    ensures
        a == b,
{
    if a.len() <= b.len() {
        lemma_same_start(a, b, pool, near, room, pair, a.len());
        lemma_same_end(a, b, pool, near, room, pair);
    } else {
        lemma_same_start(b, a, pool, near, room, pair, b.len());
        lemma_same_end(b, a, pool, near, room, pair);
    }
}

proof fn lemma_same_end(
    a: Seq<u32>,
    b: Seq<u32>,
    pool: Set<u32>,
    near: spec_fn(u32) -> u32,
    room: nat,
    pair: spec_fn(u32, u32) -> u32,
)
    requires
        spread_out(a, pool, near, room, pair),
        spread_out(b, pool, near, room, pair),
        a.len() <= b.len(),
        forall|i: int| 0 <= i < a.len() ==> #[trigger] a[i] == b[i],
    ensures
        a == b,
{
    if a.len() < b.len() {
        let y = b[a.len() as int];
        assert(pool.contains(y));
        assert(!a.contains(y)) by {
            if a.contains(y) {
                let i = choose|i: int| 0 <= i < a.len() && a[i] == y;
                assert(ahead(near, b[i], b[a.len() as int]));
            }
        }
        let i = choose|i: int|
            0 <= i < a.len() && ahead(near, #[trigger] a[i], y) && pair(y, a[i]) <= near(y);
        assert(pair(b[a.len() as int], b[i]) > near(b[a.len() as int]));
    }
    assert(a =~= b);
}

proof fn lemma_same_start(
    a: Seq<u32>,
    b: Seq<u32>,
    pool: Set<u32>,
    near: spec_fn(u32) -> u32,
    room: nat,
    pair: spec_fn(u32, u32) -> u32,
    n: nat,
)
    requires
        spread_out(a, pool, near, room, pair),
        spread_out(b, pool, near, room, pair),
        n <= a.len() <= b.len(),
    ensures
        forall|i: int| 0 <= i < n ==> #[trigger] a[i] == b[i],
    decreases n,
{
    if n > 0 {
        lemma_same_start(a, b, pool, near, room, pair, (n - 1) as nat);
        let k = n - 1;
        let (x, y) = (a[k], b[k]);
        if x != y {
            if ahead(near, x, y) {
                lemma_not_passed_over(a, b, pool, near, room, pair, k);
            } else {
                lemma_not_passed_over(b, a, pool, near, room, pair, k);
            }
        }
    }
}

/// Where two lists agree up to place `k`, none has a node there that is ahead of the
/// other's.
proof fn lemma_not_passed_over(
    a: Seq<u32>,
    b: Seq<u32>,
    pool: Set<u32>,
    near: spec_fn(u32) -> u32,
    room: nat,
    pair: spec_fn(u32, u32) -> u32,
    k: int,
)
    requires
        spread_out(a, pool, near, room, pair),
        spread_out(b, pool, near, room, pair),
        0 <= k < a.len(),
        k < b.len(),
        forall|i: int| 0 <= i < k ==> #[trigger] a[i] == b[i],
    ensures
        !ahead(near, a[k], b[k]),
{
    let x = a[k];
    assert(pool.contains(x));
    if ahead(near, a[k], b[k]) {
        assert(!b.contains(x)) by {
            if b.contains(x) {
                let i = choose|i: int| 0 <= i < b.len() && b[i] == x;
                if i < k {
                    assert(ahead(near, a[i], a[k]));
                } else if i > k {
                    assert(ahead(near, b[k], b[i]));
                }
            }
        }
        if exists|i: int|
            0 <= i < b.len() && ahead(near, #[trigger] b[i], x) && pair(x, b[i]) <= near(x) {
            let i = choose|i: int|
                0 <= i < b.len() && ahead(near, #[trigger] b[i], x) && pair(x, b[i]) <= near(x);
            if i < k {
                assert(a[i] == b[i]);
                assert(pair(a[k], a[i]) > near(a[k]));
            } else if i > k {
                assert(ahead(near, b[k], b[i]));
            }
        } else {
            assert(ahead(near, b[k], x));
        }
    }
}

/// `new` is the list `old` of node `nb` once `id` has asked for a place on it: `id` stands
/// behind the others while there is room, and where there is not, the list is spread out
/// over old and new alike.
pub open spec fn made_room(
    old_list: Seq<u32>,
    new_list: Seq<u32>,
    nb: u32,
    id: u32,
    room: nat,
    pair: spec_fn(u32, u32) -> u32,
) -> bool {
    if old_list.len() < room {
        &&& new_list.len() == old_list.len() + 1
        &&& new_list[old_list.len() as int] == id
        &&& forall|i: int| 0 <= i < old_list.len() ==> #[trigger] new_list[i] == old_list[i]
    } else {
        spread_out(
            new_list,
            either(old_list, seq![id]),
            toward(nb, pair),
            room,
            pair,
        )
    }
}

/// One that asks for a place gets it where there is room, and where it is nearer than all
/// that stand on the list; then it comes first.
pub proof fn law_nearer_gets_in(
    cur: Seq<u32>,
    r: Seq<u32>,
    nb: u32,
    id: u32,
    room: nat,
    pair: spec_fn(u32, u32) -> u32,
)
    requires
        made_room(cur, r, nb, id, room, pair),
        room > 0,
        cur.len() < room || forall|k: int|
            0 <= k < cur.len() ==> pair(nb, id) < pair(nb, #[trigger] cur[k]),
    ensures
        r.contains(id),
        cur.len() >= room ==> r[0] == id,
{
    if cur.len() < room {
        assert(r[cur.len() as int] == id);
    } else {
        let key = toward(nb, pair);
        let both = either(cur, seq![id]);
        assert(seq![id][0] == id);
        assert(both.contains(id));
        assert forall|i: int| 0 <= i < r.len() implies !ahead(key, #[trigger] r[i], id) by {
            if r[i] != id {
                assert(both.contains(r[i]));
                let j = choose|j: int| 0 <= j < cur.len() && cur[j] == r[i];
                assert(pair(nb, id) < pair(nb, cur[j]));
            }
        }
        if !r.contains(id) {
            if r.len() > 0 {
                assert(!ahead(key, r[0], id));
            }
        }
        let i = choose|i: int| 0 <= i < r.len() && r[i] == id;
        if i > 0 {
            assert(ahead(key, r[0], r[i]));
        }
    }
}

/// A back link makes room for the new node, and where the list was full and the new node
/// is nearer than all that stood on it, the new node comes first.
pub proof fn law_backlink_makes_room(
    cur: Seq<u32>,
    nb: u32,
    id: u32,
    room: nat,
    pair: spec_fn(u32, u32) -> u32,
)
    requires
        cur.no_duplicates(),
        !cur.contains(id),
    ensures
        made_room(cur, backlink(cur, nb, id, room, pair), nb, id, room, pair),
        room > 0 && (cur.len() < room || forall|k: int|
            0 <= k < cur.len() ==> pair(nb, id) < pair(nb, #[trigger] cur[k])) ==> backlink(
            cur,
            nb,
            id,
            room,
            pair,
        ).contains(id),
        room > 0 && cur.len() >= room && (forall|k: int|
            0 <= k < cur.len() ==> pair(nb, id) < pair(nb, #[trigger] cur[k])) ==> backlink(
            cur,
            nb,
            id,
            room,
            pair,
        )[0] == id,
{
    let r = backlink(cur, nb, id, room, pair);
    if cur.len() >= room {
        let key = toward(nb, pair);
        let both = either(cur, seq![id]);
        let all = cur.push(id);
        let pool = pool_of(nb, all, pair);
        assert(seq![id][0] == id);
        assert forall|i: int, j: int| 0 <= i < pool.len() && 0 <= j < pool.len() && i != j implies
            pool[i] != pool[j] by {
            if i < cur.len() {
                assert(cur.contains(cur[i]));
            }
            if j < cur.len() {
                assert(cur.contains(cur[j]));
            }
        }
        law_choice_is_spread_out(pool, room, pair, key);
        assert forall|y: u32| #[trigger] among(pool, key).contains(y) <==> both.contains(y) by {
            lemma_in_pool(nb, all, pair, y);
            if cur.contains(y) {
                let i = choose|i: int| 0 <= i < cur.len() && cur[i] == y;
                assert(all[i] == y);
            }
            assert(all[cur.len() as int] == id);
            if all.contains(y) && y != id {
                let i = choose|i: int| 0 <= i < all.len() && all[i] == y;
                assert(cur[i] == y);
            }
        }
        assert(among(pool, key) =~= both);
    }
    assert(made_room(cur, r, nb, id, room, pair));
    if room > 0 && (cur.len() < room || forall|k: int|
        0 <= k < cur.len() ==> pair(nb, id) < pair(nb, #[trigger] cur[k])) {
        law_nearer_gets_in(cur, r, nb, id, room, pair);
    }
}

/// What is in the pool around a node.
proof fn lemma_in_pool(nb: u32, all: Seq<u32>, pair: spec_fn(u32, u32) -> u32, y: u32)
    ensures
        among(pool_of(nb, all, pair), toward(nb, pair)).contains(y) <==> all.contains(y),
{
    let pool = pool_of(nb, all, pair);
    let c = Cand { d: pair(nb, y), id: y };
    if all.contains(y) {
        let i = choose|i: int| 0 <= i < all.len() && all[i] == y;
        assert(pool[i] == c);
    }
    if pool.contains(c) {
        let i = choose|i: int| 0 <= i < pool.len() && pool[i] == c;
        assert(all[i] == y);
    }
}

/// A node that asks for a place on a list of the shared graph gets it as in a back link,
/// and once only.
pub proof fn law_relinked_makes_room(
    cur: Seq<u32>,
    nb: u32,
    id: u32,
    room: nat,
    pair: spec_fn(u32, u32) -> u32,
)
    requires
        cur.no_duplicates(),
    ensures
        cur.contains(id) ==> relinked(cur, nb, id, room, pair) == cur,
        !cur.contains(id) ==> made_room(
            cur,
            relinked(cur, nb, id, room, pair),
            nb,
            id,
            room,
            pair,
        ),
{
    if !cur.contains(id) {
        law_backlink_makes_room(cur, nb, id, room, pair);
    }
}

/// A node shows itself with what it chose and with who has linked back to it before: with
/// all of them, those that it chose first and in order, where there is room, and else
/// spread out over all of them.
pub proof fn law_published_keeps_both(
    to: Seq<u32>,
    cur: Seq<u32>,
    id: u32,
    room: nat,
    pair: spec_fn(u32, u32) -> u32,
)
    requires
        to.no_duplicates(),
        cur.no_duplicates(),
    ensures
        ({
            let r = published(to, cur, id, room, pair);
            let both = either(to, cur);
            ||| {
                &&& r.len() <= room
                &&& r.len() >= to.len()
                &&& r.no_duplicates()
                &&& forall|i: int| 0 <= i < to.len() ==> #[trigger] r[i] == to[i]
                &&& forall|y: u32| #[trigger] r.contains(y) <==> both.contains(y)
            }
            ||| room < both.len() && spread_out(
                r,
                both,
                toward(id, pair),
                room,
                pair,
            )
        }),
{
    let all = joined(to, cur);
    let key = toward(id, pair);
    let both = either(to, cur);
    lemma_joined(to, cur);
    lemma_joined_order(to, cur);
    assert(all.to_set() =~= both) by {
        assert forall|y: u32| #[trigger] all.to_set().contains(y) <==> both.contains(y) by {
            assert(all.contains(y) <==> to.contains(y) || cur.contains(y));
        }
    }
    all.unique_seq_to_set();
    if all.len() > room {
        let pool = pool_of(id, all, pair);
        assert forall|i: int, j: int| 0 <= i < pool.len() && 0 <= j < pool.len() && i != j implies
            pool[i] != pool[j] by {
            assert(all[i] != all[j]);
        }
        law_choice_is_spread_out(pool, room, pair, key);
        assert forall|y: u32| #[trigger] among(pool, key).contains(y) <==> both.contains(y) by {
            lemma_in_pool(id, all, pair, y);
            assert(all.contains(y) <==> to.contains(y) || cur.contains(y));
        }
        assert(among(pool, key) =~= both);
    }
}

proof fn lemma_joined_order(to: Seq<u32>, cur: Seq<u32>)
    ensures
        joined(to, cur).len() >= to.len(),
        forall|i: int| 0 <= i < to.len() ==> #[trigger] joined(to, cur)[i] == to[i],
    decreases cur.len(),
{
    if cur.len() > 0 {
        lemma_joined_order(to, cur.drop_last());
    }
}

} // verus!
