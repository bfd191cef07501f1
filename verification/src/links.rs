//! The neighbour lists of the graph.
//!
//! Level 0 lies in one flat buffer with room for `m0` neighbours per node; the
//! levels above, which few nodes reach, are lists of lists.

use vstd::prelude::*;

use crate::beam::{nbrs, Graph};
use crate::cand::first;

verus! {

/// Marks an empty place in the flat buffer, and the entry of an empty index.
pub const NONE: u32 = 0xFFFF_FFFF;

pub struct Links {
    pub m0: usize,
    pub level0: Vec<u32>,
    pub deg0: Vec<u16>,
    pub upper: Vec<Vec<Vec<u32>>>,
    pub levels: Vec<u8>,
}

impl View for Links {
    type V = Graph;

    open spec fn view(&self) -> Graph {
        Seq::new(self.levels@.len(), |i: int| self.lists(i))
    }
}

impl Links {
    /// The lists of node `i`, level 0 first.
    pub open spec fn lists(&self, i: int) -> Seq<Seq<u32>> {
        Seq::new(
            (self.levels@[i] + 1) as nat,
            |lev: int|
                if lev == 0 {
                    self.flat(i)
                } else {
                    self.upper@[i]@[lev - 1]@
                },
        )
    }

    /// The level 0 list of node `i`.
    pub open spec fn flat(&self, i: int) -> Seq<u32> {
        self.level0@.subrange(i * self.m0, i * self.m0 + self.deg0@[i])
    }

    /// The buffers agree in how many nodes there are, how high each node
    /// reaches and how long each list is.
    pub open spec fn wf(&self) -> bool {
        let n = self.levels@.len();
        &&& self.m0 <= 0xFFFF
        &&& self.level0@.len() == n * self.m0
        &&& self.deg0@.len() == n
        &&& self.upper@.len() == n
        &&& forall|i: int| 0 <= i < n ==> #[trigger] self.deg0@[i] <= self.m0
        &&& forall|i: int| 0 <= i < n ==> #[trigger] self.upper@[i]@.len() == self.levels@[i]
    }

    /// A graph without nodes.
    pub fn new(m0: usize) -> (r: Self)
        requires
            m0 <= 0xFFFF,
        ensures
            r.wf(),
            r.m0 == m0,
            r@ == Seq::<Seq<Seq<u32>>>::empty(),
    {
        let r = Links {
            m0,
            level0: Vec::new(),
            deg0: Vec::new(),
            upper: Vec::new(),
            levels: Vec::new(),
        };
        assert(r@ =~= Seq::<Seq<Seq<u32>>>::empty());
        r
    }

    proof fn lemma_place(&self, i: int)
        requires
            self.wf(),
            0 <= i < self.levels@.len(),
        ensures
            0 <= i * self.m0 <= i * self.m0 + self.deg0@[i] <= (i + 1) * self.m0
                <= self.level0@.len(),
            (i + 1) * self.m0 == i * self.m0 + self.m0,
    {
        let n = self.levels@.len() as int;
        let m0 = self.m0 as int;
        assert(0 <= i * m0 && (i + 1) * m0 <= n * m0 && (i + 1) * m0 == i * m0 + m0)
            by (nonlinear_arith)
            requires
                0 <= i < n,
                0 <= m0,
        ;
        assert(self.deg0@[i] <= self.m0);
    }

    /// The degree is the length of the level 0 list.
    pub proof fn lemma_degree(&self, i: int)
        requires
            self.wf(),
            0 <= i < self.levels@.len(),
        ensures
            self@[i][0].len() == self.deg0@[i],
    {
        self.lemma_place(i);
        assert(self@[i] == self.lists(i));
    }

    /// Add a node that reaches level `l` and has no neighbours.
    pub fn add_node(&mut self, l: u8)
        requires
            old(self).wf(),
            (old(self)@.len() + 1) * old(self).m0 <= usize::MAX,
        ensures
            final(self).wf(),
            final(self).m0 == old(self).m0,
            final(self)@ == old(self)@.push(Seq::new((l + 1) as nat, |lev: int| Seq::empty())),
    {
        let ghost n = self.levels@.len();
        let ghost prior = *self;
        assert((n + 1) * self.m0 == n * self.m0 + self.m0) by (nonlinear_arith);
        self.levels.push(l);
        let full: usize = self.level0.len() + self.m0;
        self.level0.resize(full, NONE);
        assert(self.m0 == 0 ==> self.level0@ =~= prior.level0@);
        self.deg0.push(0);
        let mut lists: Vec<Vec<u32>> = Vec::new();
        let mut i: u8 = 0;
        while i < l
            invariant
                i <= l,
                lists@.len() == i,
                forall|j: int| 0 <= j < i ==> #[trigger] lists@[j]@ == Seq::<u32>::empty(),
            decreases l - i,
        {
            lists.push(Vec::new());
            i = i + 1;
        }
        self.upper.push(lists);
        proof {
            let fresh = Seq::new((l + 1) as nat, |lev: int| Seq::<u32>::empty());
            assert forall|j: int| 0 <= j < n implies self.lists(j) == prior.lists(j) by {
                prior.lemma_place(j);
                assert(self.level0@.subrange(0, prior.level0@.len() as int) =~= prior.level0@);
                assert forall|k: int| 0 <= k < prior.level0@.len() implies self.level0@[k]
                    == prior.level0@[k] by {
                    assert(self.level0@.subrange(0, prior.level0@.len() as int)[k]
                        == self.level0@[k]);
                }
                assert(self.flat(j) =~= prior.flat(j));
                assert(self.lists(j) =~= prior.lists(j));
            }
            assert(self.flat(n as int) =~= Seq::empty());
            assert(self.lists(n as int) =~= fresh);
            assert(self@ =~= prior@.push(fresh));
        }
    }

    /// How many nodes there are.
    pub fn len(&self) -> (r: usize)
        ensures
            r == self@.len(),
    {
        self.levels.len()
    }

    /// Copy the neighbours of `id` on level `lev` into `out`.
    pub fn copy_nbrs(&self, id: u32, lev: usize, out: &mut Vec<u32>)
        requires
            self.wf(),
            id < self@.len(),
        ensures
            final(out)@ == nbrs(self@, id, lev as nat),
    {
        out.clear();
        let i = id as usize;
        proof {
            assert(self@[i as int] == self.lists(i as int));
        }
        if lev == 0 {
            proof {
                self.lemma_place(i as int);
                assert(self.level0.len() == self.level0@.len());
            }
            let s: usize = i * self.m0;
            let e: usize = s + self.deg0[i] as usize;
            out.extend_from_slice(&self.level0[s..e]);
            assert(out@ =~= self.flat(i as int));
        } else if lev <= self.levels[i] as usize {
            out.extend_from_slice(&self.upper[i][lev - 1]);
            assert(out@ =~= self.upper@[i as int]@[lev - 1]@);
        }
        assert(out@ =~= nbrs(self@, id, lev as nat));
    }

    /// Replace the neighbours of `id` on level `lev`. On level 0 at most `m0`
    /// are kept, the first ones.
    pub fn set_nbrs(&mut self, id: u32, lev: usize, list: &[u32])
        requires
            old(self).wf(),
            id < old(self)@.len(),
            lev < old(self)@[id as int].len(),
        ensures
            final(self).wf(),
            final(self).m0 == old(self).m0,
            final(self)@ == old(self)@.update(
                id as int,
                old(self)@[id as int].update(
                    lev as int,
                    if lev == 0 {
                        first(list@, old(self).m0 as nat)
                    } else {
                        list@
                    },
                ),
            ),
    {
        let i = id as usize;
        let ghost prior = *self;
        let ghost gi = i as int;
        if lev == 0 {
            proof {
                self.lemma_place(gi);
                assert(self.level0.len() == self.level0@.len());
            }
            let s: usize = i * self.m0;
            let mut k: usize = list.len();
            if k > self.m0 {
                k = self.m0;
            }
            let mut j: usize = 0;
            while j < k
                invariant
                    j <= k <= list@.len(),
                    s == gi * prior.m0,
                    s + k <= self.level0@.len() == prior.level0@.len(),
                    self.level0.len() == self.level0@.len(),
                    self.deg0 == prior.deg0,
                    self.upper == prior.upper,
                    self.levels == prior.levels,
                    self.m0 == prior.m0,
                    forall|x: int| 0 <= x < j ==> self.level0@[s + x] == #[trigger] list@[x],
                    forall|x: int|
                        0 <= x < s || s + k <= x < prior.level0@.len() ==> #[trigger] self.level0@[x]
                            == prior.level0@[x],
                decreases k - j,
            {
                let x = list[j];
                self.level0[s + j] = x;
                j = j + 1;
            }
            self.deg0[i] = k as u16;
            proof {
                assert(self.wf());
                assert forall|y: int| 0 <= y < self.levels@.len() && y != gi implies self.lists(y)
                    == prior.lists(y) by {
                    prior.lemma_place(y);
                    prior.lemma_place(gi);
                    let m0 = self.m0 as int;
                    assert(y < gi ==> (y + 1) * m0 <= gi * m0) by (nonlinear_arith)
                        requires
                            m0 >= 0,
                    ;
                    assert(gi < y ==> (gi + 1) * m0 <= y * m0) by (nonlinear_arith)
                        requires
                            m0 >= 0,
                    ;
                    assert(self.flat(y) =~= prior.flat(y));
                    assert(self.lists(y) =~= prior.lists(y));
                }
                assert(self.flat(gi) =~= first(list@, self.m0 as nat));
            }
        } else {
            let copy = vstd::slice::slice_to_vec(list);
            self.upper[i][lev - 1] = copy;
            assert forall|y: int| 0 <= y < self.levels@.len() && y != gi implies self.lists(y)
                == prior.lists(y) by {
                assert(self.flat(y) =~= prior.flat(y));
                assert(self.lists(y) =~= prior.lists(y));
            }
        }
        proof {
            let new = if lev == 0 {
                first(list@, prior.m0 as nat)
            } else {
                list@
            };
            assert(self.lists(gi) =~= prior.lists(gi).update(lev as int, new));
            assert(self@ =~= prior@.update(gi, prior@[gi].update(lev as int, new)));
        }
    }
}

} // verus!
