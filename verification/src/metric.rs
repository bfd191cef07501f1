//! Distance functions over slices.
//!
//! An index is generic in the element type of its vectors and in the function
//! that measures two of them, so that the graph never looks inside a vector.

use vstd::prelude::*;

use crate::beam::Oracle;

verus! {

/// `f` measures any two vectors of one length, and the result depends on what
/// the vectors hold and on nothing else.
pub open spec fn measures<T, K, D: Fn(&[T], &[T]) -> K>(f: D) -> bool {
    &&& forall|a: &[T], b: &[T]|
        a@.len() == b@.len() ==> #[trigger] call_requires(f, (a, b))
    &&& forall|a: &[T], b: &[T], r1: K, r2: K|
        #[trigger] call_ensures(f, (a, b), r1) && #[trigger] call_ensures(f, (a, b), r2) ==> r1
            == r2
}

/// The distance of the vectors `a` and `b` under `f`.
pub open spec fn dist_of<T, K, D: Fn(&[T], &[T]) -> K>(f: D, a: Seq<T>, b: Seq<T>) -> K {
    choose|r: K| measured(f, a, b, r)
}

/// `f` can return `r` for vectors that hold `a` and `b`.
pub open spec fn measured<T, K, D: Fn(&[T], &[T]) -> K>(
    f: D,
    a: Seq<T>,
    b: Seq<T>,
    r: K,
) -> bool {
    exists|x: &[T], y: &[T]| x@ == a && y@ == b && #[trigger] call_ensures(f, (x, y), r)
}

/// Measure two vectors.
pub fn measure<T, K, D: Fn(&[T], &[T]) -> K>(f: &D, a: &[T], b: &[T]) -> (r: K)
    requires
        measures(*f),
        a@.len() == b@.len(),
    ensures
        r == dist_of(*f, a@, b@),
{
    let r = f(a, b);
    proof {
        assert(measured(*f, a@, b@, r));
        let s = dist_of(*f, a@, b@);
        assert(measured(*f, a@, b@, s));
        let (x, y) = choose|x: &[T], y: &[T]|
            x@ == a@ && y@ == b@ && #[trigger] call_ensures(*f, (x, y), s);
        assert(x =~= a);
        assert(y =~= b);
    }
    r
}

/// Row `i` of a corpus of rows of `dim` elements each.
pub open spec fn row<T>(data: Seq<T>, dim: nat, i: int) -> Seq<T> {
    data.subrange(i * dim, (i + 1) * dim)
}

/// The rows `0..n` lie inside the corpus.
pub open spec fn holds_rows<T>(data: Seq<T>, dim: nat, n: nat) -> bool {
    n * dim <= data.len()
}

/// Where row `i` of `n` rows lies.
pub proof fn lemma_row_bounds(dim: nat, n: nat, i: int, len: nat)
    requires
        0 <= i < n,
        n * dim <= len,
    ensures
        0 <= i * dim <= (i + 1) * dim <= len,
        (i + 1) * dim - i * dim == dim,
{
    assert(0 <= i * dim <= (i + 1) * dim <= n * dim && (i + 1) * dim == i * dim + dim)
        by (nonlinear_arith)
        requires
            0 <= i < n,
            dim >= 0,
    ;
}

/// Row `i` of `data`.
pub fn row_of<T>(data: &[T], dim: usize, i: usize) -> (r: &[T])
    requires
        (i + 1) * dim <= data@.len(),
    ensures
        r@ == row(data@, dim as nat, i as int),
        r@.len() == dim,
{
    proof {
        lemma_row_bounds(dim as nat, (i + 1) as nat, i as int, data@.len());
        assert(data.len() == data@.len());
    }
    let s: usize = i * dim;
    &data[s..s + dim]
}

/// Append the elements of `v` to `out`.
pub(crate) fn push_all<T: Copy>(out: &mut Vec<T>, v: &[T])
    ensures
        final(out)@ == old(out)@ + v@,
{
    let ghost prior = out@;
    let mut j: usize = 0;
    while j < v.len()
        invariant
            j <= v@.len(),
            out@ == prior + v@.take(j as int),
        decreases v@.len() - j,
    {
        assert(v@.take(j + 1) =~= v@.take(j as int).push(v@[j as int]));
        out.push(v[j]);
        j = j + 1;
    }
    assert(v@.take(j as int) =~= v@);
}

/// The distance of any two rows.
pub open spec fn pairs<T, D: Fn(&[T], &[T]) -> u32>(
    f: D,
    data: Seq<T>,
    dim: nat,
) -> spec_fn(u32, u32) -> u32 {
    |a: u32, b: u32| dist_of(f, row(data, dim, a as int), row(data, dim, b as int))
}

/// The distance of any row from `q`.
pub open spec fn from_query<T, D: Fn(&[T], &[T]) -> u32>(
    f: D,
    data: Seq<T>,
    dim: nat,
    q: Seq<T>,
) -> spec_fn(u32) -> u32 {
    |id: u32| dist_of(f, q, row(data, dim, id as int))
}

/// What `f` returns for two vectors is their distance.
pub proof fn law_dist_of<T, K, D: Fn(&[T], &[T]) -> K>(f: D, a: &[T], b: &[T], r: K)
    requires
        measures(f),
        call_ensures(f, (a, b), r),
    ensures
        dist_of(f, a@, b@) == r,
{
    assert(measured(f, a@, b@, r));
    let s = choose|s: K| measured(f, a@, b@, s);
    assert(measured(f, a@, b@, s));
    let (x, y) = choose|x: &[T], y: &[T]|
        x@ == a@ && y@ == b@ && #[trigger] call_ensures(f, (x, y), s);
    assert(x =~= a);
    assert(y =~= b);
}

/// A distance is that of the elements that lie in place `id` of the buffer, `dim` for
/// each row.
pub proof fn law_rows_are_measured<T, D: Fn(&[T], &[T]) -> u32>(
    f: D,
    data: Seq<T>,
    dim: nat,
    q: Seq<T>,
    a: u32,
    b: u32,
)
    ensures
        from_query(f, data, dim, q)(a) == dist_of(
            f,
            q,
            data.subrange(a * dim, a * dim + dim),
        ),
        pairs(f, data, dim)(a, b) == dist_of(
            f,
            data.subrange(a * dim, a * dim + dim),
            data.subrange(b * dim, b * dim + dim),
        ),
{
    assert((a + 1) * dim == a * dim + dim && (b + 1) * dim == b * dim + dim) by (nonlinear_arith);
}

/// Element `j` of row `i` is element `i * dim + j` of the buffer.
pub proof fn law_row<T>(data: Seq<T>, dim: nat, i: int, j: int)
    requires
        0 <= i,
        0 <= j < dim,
        (i + 1) * dim <= data.len(),
    ensures
        row(data, dim, i).len() == dim,
        row(data, dim, i)[j] == data[i * dim + j],
{
    assert((i + 1) * dim == i * dim + dim && i * dim >= 0) by (nonlinear_arith)
        requires
            0 <= i,
            0 <= dim,
    ;
}

/// The first `n` rows of a buffer, and the function that measures them.
pub struct Corpus<'a, T, D: Fn(&[T], &[T]) -> u32> {
    pub data: &'a [T],
    pub dim: usize,
    pub n: usize,
    pub dist: &'a D,
}

impl<'a, T, D: Fn(&[T], &[T]) -> u32> Corpus<'a, T, D> {
    pub open spec fn wf(&self) -> bool {
        &&& measures(*self.dist)
        &&& holds_rows(self.data@, self.dim as nat, self.n as nat)
    }

    /// The distance of any two rows.
    pub open spec fn pairs(&self) -> spec_fn(u32, u32) -> u32 {
        pairs(*self.dist, self.data@, self.dim as nat)
    }

    /// Row `id`.
    pub fn vec_at(&self, id: u32) -> (r: &'a [T])
        requires
            self.wf(),
            id < self.n,
        ensures
            r@ == row(self.data@, self.dim as nat, id as int),
            r@.len() == self.dim,
    {
        proof {
            lemma_row_bounds(self.dim as nat, self.n as nat, id as int, self.data@.len());
        }
        row_of(self.data, self.dim, id as usize)
    }

    /// The distance of the rows `a` and `b`.
    pub fn between(&self, a: u32, b: u32) -> (r: u32)
        requires
            self.wf(),
            a < self.n,
            b < self.n,
        ensures
            r == (self.pairs())(a, b),
    {
        measure(self.dist, self.vec_at(a), self.vec_at(b))
    }
}

/// The distances of the rows of a corpus from a query.
pub struct Near<'a, T, D: Fn(&[T], &[T]) -> u32> {
    pub corpus: &'a Corpus<'a, T, D>,
    pub q: &'a [T],
}

impl<'a, T, D: Fn(&[T], &[T]) -> u32> Oracle for Near<'a, T, D> {
    open spec fn valid(&self) -> bool {
        self.corpus.wf() && self.q@.len() == self.corpus.dim
    }

    open spec fn reach(&self) -> nat {
        self.corpus.n as nat
    }

    open spec fn keys(&self) -> spec_fn(u32) -> u32 {
        from_query(*self.corpus.dist, self.corpus.data@, self.corpus.dim as nat, self.q@)
    }

    fn key(&self, id: u32) -> (r: u32) {
        measure(self.corpus.dist, self.q, self.corpus.vec_at(id))
    }
}

} // verus!
