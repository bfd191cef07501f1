//! Figures about a graph.

use vstd::prelude::*;

use crate::beam::Graph;
use crate::links::Links;
use crate::synth::lemma_times;

verus! {

/// How many neighbours the nodes below `n` have on level 0, all together.
pub open spec fn degree_sum(g: Graph, n: nat) -> nat
    decreases n,
{
    if n == 0 {
        0
    } else {
        degree_sum(g, (n - 1) as nat) + g[n - 1][0].len()
    }
}

/// How many of the nodes below `n` have no neighbour on level 0.
pub open spec fn orphans(g: Graph, n: nat) -> nat
    decreases n,
{
    if n == 0 {
        0
    } else {
        orphans(g, (n - 1) as nat) + if g[n - 1][0].len() == 0 {
            1nat
        } else {
            0nat
        }
    }
}

/// `d` is the smallest number of neighbours on level 0, zero where there is no
/// node.
pub open spec fn least_degree(g: Graph, d: nat) -> bool {
    &&& g.len() == 0 ==> d == 0
    &&& g.len() > 0 ==> exists|i: int| 0 <= i < g.len() && (#[trigger] g[i])[0].len() == d
    &&& forall|i: int| 0 <= i < g.len() ==> d <= (#[trigger] g[i])[0].len()
}

/// How long the lists from level 1 up to level `k - 1` are, all together.
pub open spec fn upper_sum(lists: Seq<Seq<u32>>, k: nat) -> nat
    decreases k,
{
    if k <= 1 {
        0
    } else {
        upper_sum(lists, (k - 1) as nat) + lists[k - 1].len()
    }
}

/// How long the lists above level 0 of the nodes below `n` are, all together.
pub open spec fn upper_edges(g: Graph, n: nat) -> nat
    decreases n,
{
    if n == 0 {
        0
    } else {
        upper_edges(g, (n - 1) as nat) + upper_sum(g[n - 1], g[n - 1].len())
    }
}

/// The bytes of a graph with room for `m0` neighbours per node on level 0: four
/// for each place and each neighbour above level 0, two for each degree.
pub open spec fn graph_size(g: Graph, m0: nat) -> nat {
    (g.len() * m0) * 4 + g.len() * 2 + upper_edges(g, g.len()) * 4
}

/// The hash of the levels that the nodes below `n` reach.
pub open spec fn levels_hash(g: Graph, n: nat) -> u64
    decreases n,
{
    if n == 0 {
        1469598103934665603
    } else {
        (levels_hash(g, (n - 1) as nat) ^ ((g[n - 1].len() - 1) as u64)).wrapping_mul(1099511628211)
    }
}

/// The figures of a graph in two parts are the sums of theirs.
pub proof fn law_figures_add_up(g: Graph, h: Graph, m0: nat)
    ensures
        degree_sum(g + h, (g + h).len()) == degree_sum(g, g.len()) + degree_sum(h, h.len()),
        orphans(g + h, (g + h).len()) == orphans(g, g.len()) + orphans(h, h.len()),
        graph_size(g + h, m0) == graph_size(g, m0) + graph_size(h, m0),
{
    lemma_figures(g, h, h.len());
    let (a, b) = (g.len() as int, h.len() as int);
    assert((a + b) * m0 == a * m0 + b * m0) by (nonlinear_arith);
}

proof fn lemma_figures(g: Graph, h: Graph, n: nat)
    requires
        n <= h.len(),
    ensures
        degree_sum(g + h, g.len() + n) == degree_sum(g, g.len()) + degree_sum(h, n),
        orphans(g + h, g.len() + n) == orphans(g, g.len()) + orphans(h, n),
        upper_edges(g + h, g.len() + n) == upper_edges(g, g.len()) + upper_edges(h, n),
    decreases n,
{
    if n > 0 {
        lemma_figures(g, h, (n - 1) as nat);
        assert((g + h)[g.len() + n - 1] == h[n - 1]);
    } else {
        lemma_figures_of_part(g, h, g.len());
    }
}

proof fn lemma_figures_of_part(g: Graph, h: Graph, n: nat)
    requires
        n <= g.len(),
    ensures
        degree_sum(g + h, n) == degree_sum(g, n),
        orphans(g + h, n) == orphans(g, n),
        upper_edges(g + h, n) == upper_edges(g, n),
    decreases n,
{
    if n > 0 {
        lemma_figures_of_part(g, h, (n - 1) as nat);
        assert((g + h)[n - 1] == g[n - 1]);
    }
}

/// The figures of a graph of one node that has the lists `lists` and reaches one level
/// more where `more` is put above them: its neighbours on level 0, whether there are none,
/// and four bytes for each place on level 0 and each neighbour above, with two for the
/// degree.
pub proof fn law_figures_of_one(lists: Seq<Seq<u32>>, more: Seq<u32>, m0: nat)
    requires
        lists.len() > 0,
    ensures
        degree_sum(seq![lists], 1) == lists[0].len(),
        orphans(seq![lists], 1) == if lists[0].len() == 0 {
            1nat
        } else {
            0nat
        },
        lists.len() == 1 ==> graph_size(seq![lists], m0) == 4 * m0 + 2,
        graph_size(seq![lists.push(more)], m0) == graph_size(seq![lists], m0) + 4 * more.len(),
{
    let (a, b) = (seq![lists], seq![lists.push(more)]);
    assert(degree_sum(a, 0) == 0 && orphans(a, 0) == 0);
    assert(upper_edges(a, 0) == 0 && upper_edges(b, 0) == 0);
    assert(upper_edges(a, 1) == upper_sum(lists, lists.len()));
    assert(upper_edges(b, 1) == upper_sum(lists.push(more), lists.len() + 1));
    lemma_upper_part(lists, more, lists.len());
    assert(1 * m0 == m0) by (nonlinear_arith);
}

proof fn lemma_upper_part(lists: Seq<Seq<u32>>, more: Seq<u32>, k: nat)
    requires
        k <= lists.len(),
    ensures
        upper_sum(lists.push(more), k) == upper_sum(lists, k),
    decreases k,
{
    if k > 1 {
        lemma_upper_part(lists, more, (k - 1) as nat);
    }
}

/// Two graphs whose nodes reach the same levels have one hash.
pub proof fn law_hash_of_levels(g: Graph, h: Graph)
    requires
        g.len() == h.len(),
        forall|i: int| 0 <= i < g.len() ==> (#[trigger] g[i]).len() == h[i].len(),
    ensures
        levels_hash(g, g.len()) == levels_hash(h, h.len()),
{
    lemma_hash(g, h, g.len());
}

proof fn lemma_hash(g: Graph, h: Graph, n: nat)
    requires
        n <= g.len() == h.len(),
        forall|i: int| 0 <= i < g.len() ==> (#[trigger] g[i]).len() == h[i].len(),
    ensures
        levels_hash(g, n) == levels_hash(h, n),
    decreases n,
{
    if n > 0 {
        lemma_hash(g, h, (n - 1) as nat);
        assert(g[n - 1].len() == h[n - 1].len());
    }
}

/// Two graphs that differ in how high exactly one node reaches have different hashes.
pub proof fn law_hash_tells_levels_apart(g: Graph, h: Graph, i: int)
    requires
        g.len() == h.len(),
        0 <= i < g.len(),
        1 <= g[i].len() <= u64::MAX,
        1 <= h[i].len() <= u64::MAX,
        g[i].len() != h[i].len(),
        forall|j: int| 0 <= j < g.len() && j != i ==> (#[trigger] g[j]).len() == h[j].len(),
    ensures
        levels_hash(g, g.len()) != levels_hash(h, h.len()),
{
    lemma_hash_differs(g, h, i, g.len());
}

proof fn lemma_hash_differs(g: Graph, h: Graph, i: int, n: nat)
    requires
        n <= g.len() == h.len(),
        0 <= i < g.len(),
        1 <= g[i].len() <= u64::MAX,
        1 <= h[i].len() <= u64::MAX,
        g[i].len() != h[i].len(),
        forall|j: int| 0 <= j < g.len() && j != i ==> (#[trigger] g[j]).len() == h[j].len(),
    ensures
        i < n ==> levels_hash(g, n) != levels_hash(h, n),
        i >= n ==> levels_hash(g, n) == levels_hash(h, n),
    decreases n,
{
    if n > 0 {
        lemma_hash_differs(g, h, i, (n - 1) as nat);
        let (a, b) = (levels_hash(g, (n - 1) as nat), levels_hash(h, (n - 1) as nat));
        let (x, y) = ((g[n - 1].len() - 1) as u64, (h[n - 1].len() - 1) as u64);
        if i != n - 1 {
            assert(g[n - 1].len() == h[n - 1].len());
        }
        if i < n {
            let (u, v) = (a ^ x, b ^ y);
            assert(a == b && x != y ==> a ^ x != b ^ y) by (bit_vector);
            assert(a != b && x == y ==> a ^ x != b ^ y) by (bit_vector);
            assert((1099511628211 * 0xce965057aff6957b) % 0x1_0000_0000_0000_0000 == 1) by (nonlinear_arith);
            if levels_hash(g, n) == levels_hash(h, n) {
                lemma_times(u, v, 1099511628211, 0xce965057aff6957b);
            }
        }
    }
}

/// No node is an orphan exactly where every node has a neighbour.
pub proof fn law_no_orphans(g: Graph)
    ensures
        orphans(g, g.len()) == 0 <==> forall|i: int|
            0 <= i < g.len() ==> (#[trigger] g[i])[0].len() > 0,
{
    lemma_orphans(g, g.len());
}

proof fn lemma_orphans(g: Graph, n: nat)
    requires
        n <= g.len(),
    ensures
        orphans(g, n) == 0 <==> forall|i: int| 0 <= i < n ==> (#[trigger] g[i])[0].len() > 0,
        orphans(g, n) <= n,
    decreases n,
{
    if n > 0 {
        lemma_orphans(g, (n - 1) as nat);
        if orphans(g, n) != 0 {
            if g[n - 1][0].len() != 0 {
                let i = choose|i: int| 0 <= i < n - 1 && (#[trigger] g[i])[0].len() == 0;
                assert(g[i][0].len() == 0);
            }
        }
    }
}

proof fn lemma_upper_sum(lists: Seq<Seq<u32>>, a: nat, b: nat)
    requires
        a <= b,
    ensures
        upper_sum(lists, a) <= upper_sum(lists, b),
    decreases b,
{
    if a < b {
        lemma_upper_sum(lists, a, (b - 1) as nat);
    }
}

proof fn lemma_upper_edges(g: Graph, a: nat, b: nat)
    requires
        a <= b,
    ensures
        upper_edges(g, a) <= upper_edges(g, b),
    decreases b,
{
    if a < b {
        lemma_upper_edges(g, a, (b - 1) as nat);
    }
}

impl Links {
    /// How many level 0 neighbours there are, the smallest number that a node
    /// has, and how many nodes have none.
    pub fn degrees(&self) -> (r: (u64, u16, usize))
        requires
            self.wf(),
            self@.len() <= u32::MAX,
        ensures
            r.0 == degree_sum(self@, self@.len()),
            least_degree(self@, r.1 as nat),
            r.2 == orphans(self@, self@.len()),
    {
        let n = self.deg0.len();
        let mut sum: u64 = 0;
        let mut least: u16 = 0;
        let mut none: usize = 0;
        let mut i: usize = 0;
        while i < n
            invariant
                self.wf(),
                n == self.deg0@.len() == self@.len(),
                n <= u32::MAX,
                i <= n,
                sum == degree_sum(self@, i as nat),
                sum <= i * 0xFFFF,
                none == orphans(self@, i as nat),
                none <= i,
                i == 0 ==> least == 0,
                i > 0 ==> exists|j: int| 0 <= j < i && (#[trigger] self@[j])[0].len() == least,
                forall|j: int| 0 <= j < i ==> least <= (#[trigger] self@[j])[0].len(),
            decreases n - i,
        {
            let d = self.deg0[i];
            proof {
                assert(self@[i as int] == self.lists(i as int));
                self.lemma_degree(i as int);
                assert(self@[i as int][0].len() == d);
            }
            sum = sum + d as u64;
            if i == 0 || d < least {
                least = d;
            }
            if d == 0 {
                none = none + 1;
            }
            i = i + 1;
        }
        (sum, least, none)
    }

    /// The bytes that the graph takes.
    pub fn bytes(&self) -> (r: usize)
        requires
            self.wf(),
            graph_size(self@, self.m0 as nat) <= usize::MAX,
        ensures
            r == graph_size(self@, self.m0 as nat),
    {
        let n = self.upper.len();
        let mut above: usize = 0;
        let mut i: usize = 0;
        while i < n
            invariant
                self.wf(),
                n == self.upper@.len() == self@.len(),
                upper_edges(self@, n as nat) * 4 <= usize::MAX,
                i <= n,
                above == upper_edges(self@, i as nat) * 4,
            decreases n - i,
        {
            let ghost lists = self@[i as int];
            let k = self.upper[i].len();
            let base = above;
            proof {
                lemma_upper_edges(self@, (i + 1) as nat, n as nat);
                assert(lists == self.lists(i as int));
                assert(k == self.levels@[i as int]);
            }
            let mut lev: usize = 0;
            while lev < k
                invariant
                    self.wf(),
                    n == self.upper@.len() == self@.len(),
                    i < n,
                    lists == self@[i as int],
                    lists == self.lists(i as int),
                    k == self.upper@[i as int]@.len(),
                    k == self.levels@[i as int],
                    base == upper_edges(self@, i as nat) * 4,
                    upper_edges(self@, (i + 1) as nat) * 4 <= usize::MAX,
                    lev <= k,
                    above == base + upper_sum(lists, (lev + 1) as nat) * 4,
                decreases k - lev,
            {
                proof {
                    lemma_upper_sum(lists, (lev + 2) as nat, lists.len());
                    assert(lists[lev + 1] == self.upper@[i as int]@[lev as int]@);
                }
                above = above + self.upper[i][lev].len() * 4;
                lev = lev + 1;
            }
            i = i + 1;
        }
        self.level0.len() * 4 + self.deg0.len() * 2 + above
    }

    /// The hash of the levels.
    pub fn fingerprint(&self) -> (r: u64)
        ensures
            r == levels_hash(self@, self@.len()),
    {
        let mut h: u64 = 1469598103934665603;
        let mut i: usize = 0;
        while i < self.levels.len()
            invariant
                i <= self.levels@.len(),
                h == levels_hash(self@, i as nat),
            decreases self.levels@.len() - i,
        {
            proof {
                assert(self@[i as int] == self.lists(i as int));
            }
            h = (h ^ (self.levels[i] as u64)).wrapping_mul(1099511628211);
            i = i + 1;
        }
        h
    }
}

} // verus!
