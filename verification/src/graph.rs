//! The graph view that both traversal algorithms read: a dense, 0-based
//! node index space of size `node_bound`, a presence flag for each index
//! (indices need not be packed), an adjacency row per index, and a stored
//! in-degree per index. An undirected graph is represented by keeping the
//! adjacency symmetric (each undirected edge appears in both rows).

use vstd::prelude::*;

verus! {

/// The error values that a traversal can report to its caller.
#[derive(Debug, Clone, Copy, PartialEq, Eq)]
pub enum GraphError {
    /// A supplied node (a search root, or a member of a starting frontier)
    /// is not present in the graph.
    NodeNotFound,
    /// An edge references a node index outside the declared node bound,
    /// discovered during traversal.
    InvalidEdge,
    /// An operation observed that the graph view no longer matches the
    /// state it was started from.
    InvalidState,
}

/// A graph over dense node indices `0 .. node_bound`.
pub struct Graph {
    /// `present[n]` says whether index `n` is an actual node.
    pub present: Vec<bool>,
    /// `adj[n]` lists the targets of the edges leaving `n`, in insertion order.
    pub adj: Vec<Vec<usize>>,
    /// `in_deg[n]` counts the edges whose target is `n`.
    pub in_deg: Vec<usize>,
}

impl Graph {
    /// The declared node bound: every node index lies below it.
    pub open spec fn bound(self) -> nat {
        self.adj@.len()
    }

    /// The adjacency row of node `u`, as a sequence of target indices.
    pub open spec fn row(self, u: int) -> Seq<usize> {
        self.adj@[u]@
    }

    /// Basic shape: the three tables all cover exactly `0 .. bound()`.
    pub open spec fn wf(self) -> bool {
        self.present@.len() == self.bound() && self.in_deg@.len() == self.bound()
    }

    /// Every edge target lies below the node bound; a graph that violates
    /// this makes a traversal report `GraphError::InvalidEdge`.
    pub open spec fn wf_edges(self) -> bool {
        self.wf() && forall|u: int, k: int|
            0 <= u < self.bound() && 0 <= k < self.row(u).len() ==> (#[trigger] self.row(u)[k])
                < self.bound()
    }

    /// There is an edge from `a` to `b`.
    pub open spec fn has_dir_edge(self, a: usize, b: usize) -> bool {
        a < self.bound() && self.row(a as int).contains(b)
    }

    /// Node `n` is present in the graph.
    pub open spec fn spec_present(self, n: usize) -> bool {
        n < self.bound() && self.present@[n as int]
    }

    /// Every adjacency row has a length a machine word can hold, as any
    /// row kept in a vector does.
    pub open spec fn rows_fit(self) -> bool {
        forall|u: int| 0 <= u < self.bound() ==> (#[trigger] self.row(u)).len() <= usize::MAX
    }

    /// A graph's rows always fit: each is the view of a vector.
    pub proof fn lemma_rows_fit(self)
        ensures
            self.rows_fit(),
    {
        assert forall|u: int| 0 <= u < self.bound() implies (#[trigger] self.row(u)).len()
            <= usize::MAX by {
            let v = self.adj@[u];
            vstd::std_specs::vec::axiom_spec_len(&v);
        }
    }

    /// An empty graph with `node_bound` unoccupied node slots.
    pub fn new(node_bound: usize) -> (g: Graph)
        ensures
            g.wf(),
            g.bound() == node_bound,
            forall|j: int| 0 <= j < node_bound ==> !g.present@[j],
            forall|j: int| 0 <= j < node_bound ==> (#[trigger] g.row(j)).len() == 0,
            forall|j: int| 0 <= j < node_bound ==> g.in_deg@[j] == 0,
    {
        let mut present: Vec<bool> = Vec::new();
        let mut adj: Vec<Vec<usize>> = Vec::new();
        let mut in_deg: Vec<usize> = Vec::new();
        let mut i: usize = 0;
        while i < node_bound
            invariant
                i <= node_bound,
                present@.len() == i,
                adj@.len() == i,
                in_deg@.len() == i,
                forall|j: int| 0 <= j < i ==> !present@[j],
                forall|j: int| 0 <= j < i ==> (#[trigger] adj@[j])@.len() == 0,
                forall|j: int| 0 <= j < i ==> in_deg@[j] == 0,
            decreases node_bound - i,
        {
            present.push(false);
            adj.push(Vec::new());
            in_deg.push(0);
            i = i + 1;
        }
        Graph { present, adj, in_deg }
    }

    /// Mark index `n` as a present node.
    pub fn add_node(&mut self, n: usize)
        requires
            old(self).wf(),
            n < old(self).bound(),
        ensures
            final(self).wf(),
            final(self).bound() == old(self).bound(),
            final(self).present@ == old(self).present@.update(n as int, true),
            final(self).adj@ == old(self).adj@,
            final(self).in_deg@ == old(self).in_deg@,
    {
        self.present.set(n, true);
    }

    /// Record a directed edge from `u` to `v`. An undirected edge is two
    /// calls, one in each direction.
    pub fn add_edge(&mut self, u: usize, v: usize)
        requires
            old(self).wf(),
            u < old(self).bound(),
            v < old(self).bound(),
            old(self).in_deg@[v as int] < usize::MAX,
        ensures
            final(self).wf(),
            final(self).bound() == old(self).bound(),
            final(self).present@ == old(self).present@,
            final(self).row(u as int) == old(self).row(u as int).push(v),
            forall|j: int|
                0 <= j < old(self).bound() && j != u ==> final(self).row(j) == old(self).row(j),
            final(self).in_deg@ == old(self).in_deg@.update(
                v as int,
                (old(self).in_deg@[v as int] + 1) as usize,
            ),
    {
        self.adj[u].push(v);
        let d: usize = self.in_deg[v];
        self.in_deg.set(v, d + 1);
    }

    /// The declared upper bound on node indices.
    pub fn node_bound(&self) -> (r: usize)
        ensures
            r == self.bound(),
    {
        self.adj.len()
    }

    /// How many indices below the bound are present nodes.
    pub fn node_count(&self) -> (r: usize)
        requires
            self.wf(),
        ensures
            r == count_if(self.present@, |b: bool| b),
    {
        let n: usize = self.present.len();
        let mut c: usize = 0;
        let mut i: usize = 0;
        while i < n
            invariant
                i <= n,
                n == self.present@.len(),
                c <= i,
                c == count_if(self.present@.subrange(0, i as int), |b: bool| b),
            decreases n - i,
        {
            proof {
                assert(self.present@.subrange(0, i + 1).drop_last() =~= self.present@.subrange(
                    0,
                    i as int,
                ));
                assert(self.present@.subrange(0, i + 1).last() == self.present@[i as int]);
            }
            if self.present[i] {
                c = c + 1;
            }
            i = i + 1;
        }
        proof {
            assert(self.present@.subrange(0, n as int) =~= self.present@);
        }
        c
    }

    /// The present node indices in the graph's native iteration order,
    /// which for this view is ascending index order.
    pub fn node_identifiers(&self) -> (r: Vec<usize>)
        requires
            self.wf(),
        ensures
            r@ == present_ids(*self, self.bound() as int),
            forall|j: int|
                0 <= j < r@.len() ==> (#[trigger] r@[j]) < self.bound() && self.present@[r@[j] as int],
            forall|n: int|
                0 <= n < self.bound() && self.present@[n] ==> exists|j: int|
                    0 <= j < r@.len() && r@[j] == n,
            forall|j1: int, j2: int| 0 <= j1 < j2 < r@.len() ==> r@[j1] < r@[j2],
    {
        let n: usize = self.present.len();
        let mut r: Vec<usize> = Vec::new();
        let mut i: usize = 0;
        while i < n
            invariant
                i <= n,
                n == self.present@.len(),
                self.wf(),
                r@ == present_ids(*self, i as int),
                forall|j: int|
                    0 <= j < r@.len() ==> (#[trigger] r@[j]) < i && self.present@[r@[j] as int],
                forall|m: int|
                    0 <= m < i && self.present@[m] ==> exists|j: int|
                        0 <= j < r@.len() && r@[j] == m,
                forall|j1: int, j2: int| 0 <= j1 < j2 < r@.len() ==> r@[j1] < r@[j2],
            decreases n - i,
        {
            if self.present[i] {
                let ghost r0 = r@;
                r.push(i);
                proof {
                    assert(r@ =~= r0 + seq![i]);
                    assert forall|m: int| 0 <= m < i + 1 && self.present@[m] implies exists|j: int|
                        0 <= j < r@.len() && r@[j] == m by {
                        if m < i {
                            let j = choose|j: int| 0 <= j < r0.len() && r0[j] == m;
                            assert(r@[j] == m);
                        } else {
                            assert(r@[r@.len() - 1] == m);
                        }
                    }
                }
            } else {
                proof {
                    assert(r@ + Seq::<usize>::empty() =~= r@);
                }
            }
            i = i + 1;
        }
        r
    }
}

/// The present node indices of `g` below `i`, in ascending order: the
/// graph view's native node-iteration order.
pub open spec fn present_ids(g: Graph, i: int) -> Seq<usize>
    decreases i,
{
    if i <= 0 {
        Seq::empty()
    } else {
        present_ids(g, i - 1) + (if 0 <= i - 1 < g.present@.len() && g.present@[i - 1] {
            seq![(i - 1) as usize]
        } else {
            Seq::empty()
        })
    }
}

/// How many elements of `s` satisfy `f`.
pub open spec fn count_if<T>(s: Seq<T>, f: spec_fn(T) -> bool) -> nat
    decreases s.len(),
{
    if s.len() == 0 {
        0
    } else {
        count_if(s.drop_last(), f) + (if f(s.last()) {
            1nat
        } else {
            0nat
        })
    }
}

/// Overwriting an element that satisfies `f` with one that does not lowers
/// the count by exactly one.
pub proof fn lemma_count_if_update_out<T>(s: Seq<T>, f: spec_fn(T) -> bool, i: int, v: T)
    requires
        0 <= i < s.len(),
        f(s[i]),
        !f(v),
    ensures
        count_if(s.update(i, v), f) + 1 == count_if(s, f),
    decreases s.len(),
{
    let t = s.update(i, v);
    if i == s.len() - 1 {
        assert(t.drop_last() =~= s.drop_last());
    } else {
        assert(t.drop_last() =~= s.drop_last().update(i, v));
        lemma_count_if_update_out(s.drop_last(), f, i, v);
        assert(t.last() == s.last());
    }
}

/// Overwriting an element that does not satisfy `f` with another that does
/// not satisfy it leaves the count unchanged.
pub proof fn lemma_count_if_update_keep<T>(s: Seq<T>, f: spec_fn(T) -> bool, i: int, v: T)
    requires
        0 <= i < s.len(),
        !f(s[i]),
        !f(v),
    ensures
        count_if(s.update(i, v), f) == count_if(s, f),
    decreases s.len(),
{
    let t = s.update(i, v);
    if i == s.len() - 1 {
        assert(t.drop_last() =~= s.drop_last());
    } else {
        assert(t.drop_last() =~= s.drop_last().update(i, v));
        lemma_count_if_update_keep(s.drop_last(), f, i, v);
        assert(t.last() == s.last());
    }
}

} // verus!
