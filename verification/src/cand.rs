//! Candidates, and sorted lists of them.
//!
//! A distance is a `u32` key: a smaller key is a nearer vector, and `FAR` is the
//! key of an infinite distance. Squared distances of floating-point vectors map
//! to keys through their bit patterns, integer distances are their own keys.

use vstd::prelude::*;

verus! {

/// The key of an infinite distance. No key is greater.
pub const FAR: u32 = 0xFFFF_FFFF;

/// A node together with its distance from whatever is being searched for.
#[derive(Clone, Copy, Debug, PartialEq, Eq, Structural)]
pub struct Cand {
    pub d: u32,
    pub id: u32,
}

/// `a` may stand before `b` in a sorted list: nearer first, and by id where the
/// distances agree.
pub open spec fn precedes(a: Cand, b: Cand) -> bool {
    a.d < b.d || (a.d == b.d && a.id <= b.id)
}

pub open spec fn sorted(s: Seq<Cand>) -> bool {
    forall|i: int, j: int| 0 <= i <= j < s.len() ==> precedes(#[trigger] s[i], #[trigger] s[j])
}

/// The sorted list `s` with `c` put in its place.
pub open spec fn ins(s: Seq<Cand>, c: Cand) -> Seq<Cand>
    decreases s.len(),
{
    if s.len() == 0 || precedes(s.last(), c) {
        s.push(c)
    } else {
        ins(s.drop_last(), c).push(s.last())
    }
}

/// The candidates of `s` in sorted order.
pub open spec fn sort(s: Seq<Cand>) -> Seq<Cand>
    decreases s.len(),
{
    if s.len() == 0 {
        s
    } else {
        ins(sort(s.drop_last()), s.last())
    }
}

/// The ids of a list of candidates, in the same order.
pub open spec fn ids(s: Seq<Cand>) -> Seq<u32> {
    Seq::new(s.len(), |i: int| s[i].id)
}

/// The first `k` of `s`, or all of `s` when it is shorter.
pub open spec fn first<A>(s: Seq<A>, k: nat) -> Seq<A> {
    if s.len() <= k {
        s
    } else {
        s.take(k as int)
    }
}

pub proof fn lemma_ins_at(s: Seq<Cand>, c: Cand, pos: int)
    requires
        0 <= pos <= s.len(),
        forall|i: int| 0 <= i < pos ==> precedes(#[trigger] s[i], c),
        forall|i: int| pos <= i < s.len() ==> !precedes(#[trigger] s[i], c),
    ensures
        ins(s, c) == s.insert(pos, c),
    decreases s.len(),
{
    if pos == s.len() {
        assert(s.insert(pos, c) =~= s.push(c));
        if s.len() > 0 {
            assert(precedes(s[s.len() - 1], c));
        }
    } else {
        assert(!precedes(s[s.len() - 1], c));
        lemma_ins_at(s.drop_last(), c, pos);
        assert(s.insert(pos, c) =~= s.drop_last().insert(pos, c).push(s.last()));
    }
}

/// Putting a candidate in its place adds that one candidate and keeps the list
/// sorted.
pub proof fn lemma_ins(s: Seq<Cand>, c: Cand)
    ensures
        ins(s, c).len() == s.len() + 1,
        ins(s, c).to_multiset() =~= s.to_multiset().insert(c),
        forall|x: Cand|
            #![trigger ins(s, c).contains(x)]
            #![trigger s.contains(x)]
            ins(s, c).contains(x) <==> (s.contains(x) || x == c),
        sorted(s) ==> sorted(ins(s, c)),
        s.no_duplicates() && !s.contains(c) ==> ins(s, c).no_duplicates(),
    decreases s.len(),
{
    broadcast use vstd::seq_lib::group_to_multiset_ensures;

    let r = ins(s, c);
    if s.len() == 0 || precedes(s.last(), c) {
        assert(r == s.push(c));
        assert forall|x: Cand| r.contains(x) <==> (s.contains(x) || x == c) by {
            if s.contains(x) {
                let i = choose|i: int| 0 <= i < s.len() && s[i] == x;
                assert(r[i] == x);
            }
            if x == c {
                assert(r[s.len() as int] == x);
            }
        }
    } else {
        let t = s.drop_last();
        lemma_ins(t, c);
        assert(s =~= t.push(s.last()));
        assert(r == ins(t, c).push(s.last()));
        assert forall|x: Cand| r.contains(x) <==> (s.contains(x) || x == c) by {
            if s.contains(x) && x != s.last() {
                let i = choose|i: int| 0 <= i < s.len() && s[i] == x;
                assert(t[i] == x);
                assert(t.contains(x));
            }
            if t.contains(x) {
                let i = choose|i: int| 0 <= i < t.len() && t[i] == x;
                assert(s[i] == x);
            }
            if ins(t, c).contains(x) {
                let i = choose|i: int| 0 <= i < ins(t, c).len() && ins(t, c)[i] == x;
                assert(r[i] == x);
            }
            if x == s.last() {
                assert(r[r.len() - 1] == x);
                assert(s[s.len() - 1] == x);
            }
        }
        if s.no_duplicates() && !s.contains(c) {
            assert(!t.contains(c)) by {
                if t.contains(c) {
                    let i = choose|i: int| 0 <= i < t.len() && t[i] == c;
                    assert(s[i] == c);
                }
            }
            assert(!ins(t, c).contains(s.last())) by {
                if t.contains(s.last()) {
                    let i = choose|i: int| 0 <= i < t.len() && t[i] == s.last();
                    assert(s[i] == s[s.len() - 1]);
                }
                assert(s[s.len() - 1] == s.last());
            }
            assert forall|i: int, j: int| 0 <= i < r.len() && 0 <= j < r.len() && i != j implies r[i]
                != r[j] by {
                if i < r.len() - 1 {
                    assert(ins(t, c).contains(ins(t, c)[i]));
                }
                if j < r.len() - 1 {
                    assert(ins(t, c).contains(ins(t, c)[j]));
                }
            }
        }
        if sorted(s) {
            assert forall|i: int, j: int| 0 <= i <= j < r.len() implies precedes(
                #[trigger] r[i],
                #[trigger] r[j],
            ) by {
                if j == r.len() - 1 && i < j {
                    assert(ins(t, c).contains(ins(t, c)[i]));
                    if t.contains(r[i]) {
                        let k = choose|k: int| 0 <= k < t.len() && t[k] == r[i];
                        assert(precedes(s[k], s[s.len() - 1]));
                    }
                }
            }
        }
    }
}

/// Sorting keeps exactly the candidates that were there, in order.
pub proof fn lemma_sort(s: Seq<Cand>)
    ensures
        sorted(sort(s)),
        sort(s).len() == s.len(),
        sort(s).to_multiset() =~= s.to_multiset(),
        forall|x: Cand|
            #![trigger sort(s).contains(x)]
            #![trigger s.contains(x)]
            sort(s).contains(x) <==> s.contains(x),
        s.no_duplicates() ==> sort(s).no_duplicates(),
    decreases s.len(),
{
    broadcast use vstd::seq_lib::group_to_multiset_ensures;

    if s.len() > 0 {
        let t = s.drop_last();
        lemma_sort(t);
        lemma_ins(sort(t), s.last());
        assert(s =~= t.push(s.last()));
        assert forall|x: Cand| sort(s).contains(x) <==> s.contains(x) by {
            if s.contains(x) && x != s.last() {
                let i = choose|i: int| 0 <= i < s.len() && s[i] == x;
                assert(t[i] == x);
            }
            if t.contains(x) {
                let i = choose|i: int| 0 <= i < t.len() && t[i] == x;
                assert(s[i] == x);
            }
            if x == s.last() {
                assert(s[s.len() - 1] == x);
            }
        }
        if s.no_duplicates() {
            assert(!t.contains(s.last())) by {
                if t.contains(s.last()) {
                    let i = choose|i: int| 0 <= i < t.len() && t[i] == s.last();
                    assert(s[i] == s[s.len() - 1]);
                }
            }
        }
    }
}

/// A sorted list without duplicates is determined by what it holds.
pub proof fn lemma_same_sorted(s: Seq<Cand>, t: Seq<Cand>)
    requires
        sorted(s),
        sorted(t),
        s.no_duplicates(),
        t.no_duplicates(),
        forall|c: Cand| #[trigger] s.contains(c) <==> t.contains(c),
    ensures
        s == t,
    decreases s.len(),
{
    if s.len() == 0 {
        if t.len() > 0 {
            assert(t.contains(t[0]));
            assert(s.contains(t[0]));
        }
        assert(s =~= t);
    } else {
        let a = s.last();
        assert(s.contains(s[s.len() - 1]));
        assert(t.contains(a));
        let b = t.last();
        assert(t.contains(t[t.len() - 1]));
        assert(s.contains(b));
        let i = choose|i: int| 0 <= i < s.len() && s[i] == b;
        let j = choose|j: int| 0 <= j < t.len() && t[j] == a;
        assert(precedes(s[i], s[s.len() - 1]));
        assert(precedes(t[j], t[t.len() - 1]));
        assert(a == b);
        let (u, v) = (s.drop_last(), t.drop_last());
        assert forall|c: Cand| #[trigger] u.contains(c) <==> v.contains(c) by {
            if u.contains(c) {
                let x = choose|x: int| 0 <= x < u.len() && u[x] == c;
                assert(s[x] == c && s[x] != s[s.len() - 1]);
                assert(s.contains(c));
                let y = choose|y: int| 0 <= y < t.len() && t[y] == c;
                assert(v[y] == c);
                assert(v.contains(c));
            }
            if v.contains(c) {
                let y = choose|y: int| 0 <= y < v.len() && v[y] == c;
                assert(t[y] == c && t[y] != t[t.len() - 1]);
                assert(t.contains(c));
                assert(s.contains(c));
                let x = choose|x: int| 0 <= x < s.len() && s[x] == c;
                assert(u[x] == c);
            }
        }
        lemma_same_sorted(u, v);
        assert(s =~= u.push(a));
        assert(t =~= v.push(b));
    }
}

/// The first `k` of a list that `c` is put into depend on its first `k` alone.
pub proof fn lemma_first_ins(s: Seq<Cand>, c: Cand, k: nat)
    requires
        sorted(s),
    ensures
        first(ins(first(s, k), c), k) == first(ins(s, c), k),
{
    if s.len() > k {
        let t = s.take(k as int);
        let pos = lemma_place(s, c);
        lemma_ins_at(s, c, pos);
        if pos <= k {
            assert forall|i: int| 0 <= i < pos implies precedes(#[trigger] t[i], c) by {
                assert(t[i] == s[i]);
            }
            assert forall|i: int| pos <= i < t.len() implies !precedes(#[trigger] t[i], c) by {
                assert(t[i] == s[i]);
            }
            lemma_ins_at(t, c, pos);
            assert(t.insert(pos, c).take(k as int) =~= s.insert(pos, c).take(k as int));
        } else {
            assert forall|i: int| 0 <= i < k implies precedes(#[trigger] t[i], c) by {
                assert(t[i] == s[i]);
            }
            lemma_ins_at(t, c, k as int);
            assert(t.insert(k as int, c).take(k as int) =~= s.insert(pos, c).take(k as int));
        }
    }
}

/// The place of `c` in a sorted list.
proof fn lemma_place(s: Seq<Cand>, c: Cand) -> (pos: int)
    requires
        sorted(s),
    ensures
        0 <= pos <= s.len(),
        forall|i: int| 0 <= i < pos ==> precedes(#[trigger] s[i], c),
        forall|i: int| pos <= i < s.len() ==> !precedes(#[trigger] s[i], c),
    decreases s.len(),
{
    if s.len() == 0 {
        0
    } else if precedes(s.last(), c) {
        assert forall|i: int| 0 <= i < s.len() implies precedes(#[trigger] s[i], c) by {
            assert(precedes(s[i], s[s.len() - 1]));
        }
        s.len() as int
    } else {
        let t = s.drop_last();
        let pos = lemma_place(t, c);
        assert forall|i: int| 0 <= i < pos implies precedes(#[trigger] s[i], c) by {
            assert(precedes(t[i], c));
        }
        assert forall|i: int| pos <= i < s.len() implies !precedes(#[trigger] s[i], c) by {
            if i < t.len() {
                assert(!precedes(t[i], c));
            }
        }
        pos
    }
}

/// Put `c` in its place in the sorted list `v`.
pub fn insert_sorted(v: &mut Vec<Cand>, c: Cand)
    requires
        sorted(old(v)@),
    ensures
        final(v)@ == ins(old(v)@, c),
        sorted(final(v)@),
{
    let ghost s = v@;
    let mut lo: usize = 0;
    let mut hi: usize = v.len();
    while lo < hi
        invariant
            v@ == s,
            sorted(s),
            lo <= hi <= s.len(),
            forall|i: int| 0 <= i < lo ==> precedes(#[trigger] s[i], c),
            forall|i: int| hi <= i < s.len() ==> !precedes(#[trigger] s[i], c),
        decreases hi - lo,
    {
        let mid: usize = lo + (hi - lo) / 2;
        let x = v[mid];
        if x.d < c.d || (x.d == c.d && x.id <= c.id) {
            assert forall|i: int| 0 <= i < mid + 1 implies precedes(#[trigger] s[i], c) by {
                assert(precedes(s[i], s[mid as int]));
            }
            lo = mid + 1;
        } else {
            assert forall|i: int| mid <= i < s.len() implies !precedes(#[trigger] s[i], c) by {
                assert(precedes(s[mid as int], s[i]));
            }
            hi = mid;
        }
    }
    proof {
        lemma_ins_at(s, c, lo as int);
        lemma_ins(s, c);
    }
    v.insert(lo, c);
}

/// The candidates of `v` in sorted order.
pub fn sort_cands(v: &Vec<Cand>) -> (r: Vec<Cand>)
    ensures
        r@ == sort(v@),
        sorted(r@),
        r@.to_multiset() == v@.to_multiset(),
{
    let mut r: Vec<Cand> = Vec::with_capacity(v.len());
    let mut i: usize = 0;
    proof {
        assert(v@.take(0) =~= Seq::empty());
    }
    while i < v.len()
        invariant
            i <= v@.len(),
            r@ == sort(v@.take(i as int)),
            sorted(r@),
        decreases v@.len() - i,
    {
        assert(v@.take(i + 1).drop_last() =~= v@.take(i as int));
        insert_sorted(&mut r, v[i]);
        i = i + 1;
    }
    proof {
        assert(v@.take(i as int) =~= v@);
        lemma_sort(v@);
    }
    r
}

/// The ids of a list of candidates, in the same order.
pub(crate) fn ids_of(found: &Vec<Cand>) -> (r: Vec<u32>)
    ensures
        r@ == ids(found@),
{
    let mut r: Vec<u32> = Vec::new();
    let mut i: usize = 0;
    while i < found.len()
        invariant
            i <= found@.len(),
            r@.len() == i,
            forall|j: int| 0 <= j < i ==> #[trigger] r@[j] == found@[j].id,
        decreases found@.len() - i,
    {
        r.push(found[i].id);
        i = i + 1;
    }
    assert(r@ =~= ids(found@));
    r
}

/// Whether `id` stands on a list.
pub(crate) fn holds(list: &Vec<u32>, id: u32) -> (r: bool)
    ensures
        r == list@.contains(id),
{
    let mut i: usize = 0;
    while i < list.len()
        invariant
            i <= list@.len(),
            forall|j: int| 0 <= j < i ==> #[trigger] list@[j] != id,
        decreases list@.len() - i,
    {
        if list[i] == id {
            assert(list@[i as int] == id);
            return true;
        }
        i = i + 1;
    }
    false
}

/// A copy of a list.
pub(crate) fn copy_of(list: &Vec<u32>) -> (r: Vec<u32>)
    ensures
        r@ == list@,
{
    let mut r: Vec<u32> = Vec::new();
    r.extend_from_slice(list);
    assert(r@ =~= list@);
    r
}

/// Whether two lists hold the same.
pub(crate) fn same(a: &Vec<u32>, b: &Vec<u32>) -> (r: bool)
    ensures
        r == (a@ == b@),
{
    if a.len() != b.len() {
        return false;
    }
    let mut i: usize = 0;
    while i < a.len()
        invariant
            i <= a@.len() == b@.len(),
            forall|j: int| 0 <= j < i ==> #[trigger] a@[j] == b@[j],
        decreases a@.len() - i,
    {
        if a[i] != b[i] {
            return false;
        }
        i = i + 1;
    }
    assert(a@ =~= b@);
    true
}

} // verus!
