//! The points that the training of a codebook starts with: random training rows, no
//! row twice as long as there are enough.

use vstd::arithmetic::div_mod::lemma_fundamental_div_mod_converse;
use vstd::prelude::*;
use vstd::set_lib::{lemma_int_range, lemma_len_subset, set_int_range};

use crate::metric::{holds_rows, lemma_row_bounds, push_all, row, row_of};
use crate::synth::{output, scramble, state_after, R};

verus! {

/// The training row that the state `s` of the stream picks.
pub open spec fn pick(s: u64, nt: nat) -> nat {
    (output(s) as usize) as nat % nt
}

/// The row `k` places behind row `i` of `nt` rows, the first following the last.
pub open spec fn behind(i: int, k: int, nt: nat) -> int {
    if i + k < nt {
        i + k
    } else {
        i + k - nt
    }
}

/// The first row, from `k` places behind row `i` on, that is not taken.
pub open spec fn untaken(taken: Seq<int>, i: int, nt: nat, k: int) -> int
    decreases nt - k,
{
    let r = behind(i, k, nt);
    if k >= nt || !taken.contains(r) {
        r
    } else {
        untaken(taken, i, nt, k + 1)
    }
}

/// The rows that training starts with, the first `c` of `ksub`, and the state of the
/// stream after them. A row that is drawn again is passed over for the next one that
/// was not, unless there are fewer rows than are asked for.
pub open spec fn picks(nt: nat, ksub: nat, c: nat, s: u64) -> (Seq<int>, u64)
    decreases c,
{
    if c == 0 {
        (Seq::empty(), s)
    } else {
        let p = picks(nt, ksub, (c - 1) as nat, s);
        let t = scramble(p.1);
        let i = pick(t, nt) as int;
        let r = if ksub <= nt {
            untaken(p.0, i, nt, 0)
        } else {
            i
        };
        (p.0.push(r), t)
    }
}

/// The given rows of `train`, one after the other.
pub open spec fn rows_at<T>(train: Seq<T>, dsub: nat, is: Seq<int>) -> Seq<T>
    decreases is.len(),
{
    if is.len() == 0 {
        Seq::empty()
    } else {
        rows_at(train, dsub, is.drop_last()) + row(train, dsub, is.last())
    }
}

/// What lies behind a row is a row, and every row does.
proof fn lemma_untaken(taken: Seq<int>, i: int, nt: nat, k: int)
    requires
        0 <= i < nt,
        0 <= k <= nt,
        taken.len() < nt,
        forall|j: int| 0 <= j < k ==> taken.contains(#[trigger] behind(i, j, nt)),
    ensures
        0 <= untaken(taken, i, nt, k) < nt,
        !taken.contains(untaken(taken, i, nt, k)),
    decreases nt - k,
{
    let r = behind(i, k, nt);
    if k == nt {
        let all = set_int_range(0, nt as int);
        assert forall|x: int| all.contains(x) implies taken.to_set().contains(x) by {
            let j = if x >= i {
                x - i
            } else {
                x - i + nt
            };
            assert(behind(i, j, nt) == x);
            assert(taken.contains(x));
        }
        lemma_int_range(0, nt as int);
        vstd::seq_lib::seq_to_set_is_finite(taken);
        lemma_len_subset(all, taken.to_set());
        taken.lemma_cardinality_of_set();
    } else if taken.contains(r) {
        lemma_untaken(taken, i, nt, k + 1);
    }
}

/// Where there are as many training rows as are asked for, no row is picked twice.
pub proof fn law_picks_are_distinct(nt: nat, ksub: nat, c: nat, s: u64)
    requires
        nt > 0,
        c <= ksub,
    ensures
        picks(nt, ksub, c, s).0.len() == c,
        forall|i: int| 0 <= i < c ==> 0 <= #[trigger] picks(nt, ksub, c, s).0[i] < nt,
        ksub <= nt ==> picks(nt, ksub, c, s).0.no_duplicates(),
    decreases c,
{
    if c > 0 {
        law_picks_are_distinct(nt, ksub, (c - 1) as nat, s);
        let p = picks(nt, ksub, (c - 1) as nat, s);
        let r = picks(nt, ksub, c, s).0;
        let i = pick(scramble(p.1), nt) as int;
        assert(0 <= i < nt);
        if ksub <= nt {
            lemma_untaken(p.0, i, nt, 0);
            let x = r.last();
            assert forall|a: int, b: int| 0 <= a < r.len() && 0 <= b < r.len() && a != b implies r[a]
                != r[b] by {
                if a < p.0.len() {
                    assert(p.0.contains(p.0[a]));
                }
                if b < p.0.len() {
                    assert(p.0.contains(p.0[b]));
                }
            }
        }
        assert forall|j: int| 0 <= j < c implies 0 <= #[trigger] r[j] < nt by {
            if j < c - 1 {
                assert(r[j] == p.0[j]);
            }
        }
    }
}

/// `r` is the row that is picked where row `i` is drawn and the rows `taken` were picked
/// before: the first row from `i` on, going round, that is not among them.
pub open spec fn passed_over(taken: Seq<int>, i: int, nt: nat, r: int) -> bool {
    exists|k: int|
        {
            &&& 0 <= k < nt
            &&& r == (i + k) % nt as int
            &&& !taken.contains(#[trigger] ((i + k) % nt as int))
            &&& forall|x: int| 0 <= x < k ==> taken.contains(#[trigger] ((i + x) % nt as int))
        }
}

/// The picks follow the stream from state `s`: pick `c` is the row that number `c` of the
/// stream draws, and where there are enough rows the first from there on that was not
/// picked before.
pub open spec fn follows_stream(from: Seq<int>, nt: nat, ksub: nat, s: u64) -> bool {
    forall|c: int|
        0 <= c < from.len() ==> {
            let i = (output(state_after(s, (c + 1) as nat)) as usize) as int % nt as int;
            if ksub <= nt {
                passed_over(from.take(c), i, nt, #[trigger] from[c])
            } else {
                from[c] == i
            }
        }
}

/// The rows that training starts with follow the stream.
pub proof fn law_picks_follow_stream(nt: nat, ksub: nat, c: nat, s: u64)
    requires
        nt > 0,
        c <= ksub,
    ensures
        picks(nt, ksub, c, s).1 == state_after(s, c),
        follows_stream(picks(nt, ksub, c, s).0, nt, ksub, s),
    decreases c,
{
    if c > 0 {
        let p = picks(nt, ksub, (c - 1) as nat, s);
        let r = picks(nt, ksub, c, s).0;
        law_picks_follow_stream(nt, ksub, (c - 1) as nat, s);
        law_picks_are_distinct(nt, ksub, (c - 1) as nat, s);
        law_picks_are_distinct(nt, ksub, c, s);
        let t = scramble(p.1);
        let i = pick(t, nt) as int;
        assert(t == state_after(s, c));
        if ksub <= nt {
            lemma_passed_over(p.0, i, nt, 0);
        }
        assert forall|x: int| 0 <= x < r.len() implies {
            let i = (output(state_after(s, (x + 1) as nat)) as usize) as int % nt as int;
            if ksub <= nt {
                passed_over(r.take(x), i, nt, #[trigger] r[x])
            } else {
                r[x] == i
            }
        } by {
            if x < p.0.len() {
                assert(r.take(x) =~= p.0.take(x));
                assert(r[x] == p.0[x]);
            } else {
                assert(r.take(x) =~= p.0);
            }
        }
    }
}

proof fn lemma_passed_over(taken: Seq<int>, i: int, nt: nat, k: int)
    requires
        0 <= i < nt,
        0 <= k <= nt,
        taken.len() < nt,
        forall|j: int| 0 <= j < k ==> taken.contains(#[trigger] behind(i, j, nt)),
    ensures
        passed_over(taken, i, nt, untaken(taken, i, nt, k)),
    decreases nt - k,
{
    lemma_untaken(taken, i, nt, k);
    let r = behind(i, k, nt);
    assert forall|j: int| 0 <= j < nt implies #[trigger] behind(i, j, nt) == (i + j) % nt as int by {
        let m = nt as int;
        if i + j < m {
            lemma_fundamental_div_mod_converse(i + j, m, 0, i + j);
        } else {
            assert(i + j == 1 * m + (i + j - m));
            lemma_fundamental_div_mod_converse(i + j, m, 1, i + j - m);
        }
    }
    if k < nt {
        if taken.contains(r) {
            lemma_passed_over(taken, i, nt, k + 1);
        } else {
            assert(!taken.contains((i + k) % nt as int));
            assert forall|x: int| 0 <= x < k implies taken.contains(#[trigger] ((i + x) % nt as int)) by {
                assert(taken.contains(behind(i, x, nt)));
            }
        }
    } else {
        lemma_all_taken(taken, i, nt);
    }
}

/// Fewer rows than there are cannot be all of them.
proof fn lemma_all_taken(taken: Seq<int>, i: int, nt: nat)
    requires
        0 <= i < nt,
        taken.len() < nt,
    ensures
        exists|j: int| 0 <= j < nt && !taken.contains(#[trigger] behind(i, j, nt)),
{
    if forall|j: int| 0 <= j < nt ==> taken.contains(#[trigger] behind(i, j, nt)) {
        lemma_untaken(taken, i, nt, nt as int);
        assert(untaken(taken, i, nt, nt as int) == behind(i, nt as int, nt));
        assert(behind(i, nt as int, nt) == behind(i, 0, nt));
    }
}

/// Row `c` of some rows put one after the other is the `c`th of them.
pub proof fn lemma_rows_at<T>(train: Seq<T>, dsub: nat, nt: nat, is: Seq<int>, c: int)
    requires
        holds_rows(train, dsub, nt),
        forall|i: int| 0 <= i < is.len() ==> 0 <= #[trigger] is[i] < nt,
        0 <= c < is.len(),
    ensures
        rows_at(train, dsub, is).len() == is.len() * dsub,
        row(rows_at(train, dsub, is), dsub, c) == row(train, dsub, is[c]),
    decreases is.len(),
{
    let t = is.drop_last();
    let last = row(train, dsub, is.last());
    assert(is.last() == is[is.len() - 1]);
    lemma_row_bounds(dsub, nt, is.last(), train.len());
    assert forall|i: int| 0 <= i < t.len() implies 0 <= #[trigger] t[i] < nt by {
        assert(t[i] == is[i]);
    }
    let p = rows_at(train, dsub, t);
    assert(is.len() * dsub == t.len() * dsub + dsub) by (nonlinear_arith)
        requires
            is.len() == t.len() + 1,
    ;
    if t.len() > 0 {
        lemma_rows_at(train, dsub, nt, t, if c < t.len() {
            c
        } else {
            0
        });
    } else {
        assert(0 * dsub == 0) by (nonlinear_arith);
    }
    if c < t.len() {
        lemma_row_bounds(dsub, t.len(), c, p.len());
        assert(row(rows_at(train, dsub, is), dsub, c) =~= row(p, dsub, c));
    } else {
        assert((c + 1) * dsub == c * dsub + dsub) by (nonlinear_arith);
        assert(row(rows_at(train, dsub, is), dsub, c) =~= last);
    }
}

/// Append row `i` of `train` to `out`.
pub(crate) fn push_row<T: Copy>(out: &mut Vec<T>, train: &[T], dsub: usize, i: usize)
    requires
        (i + 1) * dsub <= train@.len(),
    ensures
        final(out)@ == old(out)@ + row(train@, dsub as nat, i as int),
        final(out)@.len() == old(out)@.len() + dsub,
{
    let v = row_of(train, dsub, i);
    push_all(out, v);
}

/// A random training row, and the stream moved on.
pub(crate) fn random_row(r: &mut R, nt: usize) -> (i: usize)
    requires
        nt > 0,
    ensures
        final(r).0 == scramble(old(r).0),
        i == pick(final(r).0, nt as nat),
        i < nt,
{
    let z = r.next();
    (z as usize) % nt
}

/// The first row from `i` on that is not marked.
fn unmarked(marks: &Vec<bool>, i: usize, Ghost(taken): Ghost<Seq<int>>) -> (r: usize)
    requires
        i < marks@.len(),
        taken.len() < marks@.len(),
        forall|j: int| 0 <= j < marks@.len() ==> #[trigger] marks@[j] == taken.contains(j),
    ensures
        r == untaken(taken, i as int, marks@.len(), 0),
        r < marks@.len(),
{
    let ghost nt = marks@.len();
    let n = marks.len();
    let mut r = i;
    let ghost mut k: int = 0;
    proof {
        lemma_untaken(taken, i as int, nt, 0);
    }
    while marks[r]
        invariant
            n == nt == marks@.len(),
            i < nt,
            taken.len() < nt,
            forall|j: int| 0 <= j < nt ==> #[trigger] marks@[j] == taken.contains(j),
            0 <= k <= nt,
            r == behind(i as int, k, nt),
            r < nt,
            untaken(taken, i as int, nt, k) == untaken(taken, i as int, nt, 0),
            forall|j: int| 0 <= j < k ==> taken.contains(#[trigger] behind(i as int, j, nt)),
        decreases nt - k,
    {
        proof {
            assert(taken.contains(r as int));
            lemma_untaken(taken, i as int, nt, k);
            k = k + 1;
        }
        r = if r + 1 < n {
            r + 1
        } else {
            0
        };
    }
    r
}

/// The rows that training starts with, one after the other.
pub(crate) fn seed_rows<T: Copy>(
    r: &mut R,
    train: &[T],
    nt: usize,
    dsub: usize,
    ksub: usize,
) -> (cent: Vec<T>)
    requires
        nt > 0,
        holds_rows(train@, dsub as nat, nt as nat),
    ensures
        final(r).0 == picks(nt as nat, ksub as nat, ksub as nat, old(r).0).1,
        cent@ == rows_at(
            train@,
            dsub as nat,
            picks(nt as nat, ksub as nat, ksub as nat, old(r).0).0,
        ),
        cent@.len() == ksub * dsub,
{
    let ghost d = dsub as nat;
    let ghost n = nt as nat;
    let ghost k = ksub as nat;
    let ghost s = r.0;
    let mut marks: Vec<bool> = Vec::new();
    let mut i: usize = 0;
    while i < nt
        invariant
            i <= nt,
            marks@.len() == i,
            forall|j: int| 0 <= j < i ==> !#[trigger] marks@[j],
        decreases nt - i,
    {
        marks.push(false);
        i = i + 1;
    }
    let mut cent: Vec<T> = Vec::new();
    let mut c: usize = 0;
    while c < ksub
        invariant
            c <= ksub,
            nt > 0,
            d == dsub,
            n == nt,
            k == ksub,
            holds_rows(train@, d, n),
            r.0 == picks(n, k, c as nat, s).1,
            cent@ == rows_at(train@, d, picks(n, k, c as nat, s).0),
            cent@.len() == c * dsub,
            marks@.len() == nt,
            ksub <= nt ==> forall|j: int|
                0 <= j < nt ==> #[trigger] marks@[j] == picks(n, k, c as nat, s).0.contains(j),
        decreases ksub - c,
    {
        let ghost taken = picks(n, k, c as nat, s).0;
        proof {
            law_picks_are_distinct(n, k, c as nat, s);
        }
        let mut i = random_row(r, nt);
        if ksub <= nt {
            i = unmarked(&marks, i, Ghost(taken));
            let ghost before = marks@;
            marks[i] = true;
            proof {
                let more = taken.push(i as int);
                assert forall|j: int| 0 <= j < nt implies #[trigger] marks@[j] == more.contains(j) by {
                    assert(before[j] == taken.contains(j));
                    if taken.contains(j) {
                        let x = choose|x: int| 0 <= x < taken.len() && taken[x] == j;
                        assert(more[x] == j);
                    }
                    assert(more[taken.len() as int] == i);
                    if j != i && more.contains(j) {
                        let x = choose|x: int| 0 <= x < more.len() && more[x] == j;
                        assert(taken[x] == j);
                    }
                }
            }
        }
        proof {
            let more = picks(n, k, (c + 1) as nat, s).0;
            assert(more == taken.push(i as int));
            assert(more.drop_last() =~= taken);
            lemma_row_bounds(d, n, i as int, train@.len());
            assert((c + 1) * dsub == c * dsub + dsub) by (nonlinear_arith);
        }
        push_row(&mut cent, train, dsub, i);
        c = c + 1;
    }
    cent
}

} // verus!
