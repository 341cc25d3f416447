//! Lazy layer enumeration of a directed acyclic graph: a pull-based
//! cursor that, given a starting frontier, yields each subsequent
//! topological generation on demand. Residual predecessor counts are kept
//! across calls; a node moves into the next layer the moment its count
//! reaches zero. The cursor never re-emits the starting frontier itself.

use vstd::prelude::*;

use crate::graph::Graph;
use crate::graph::GraphError;

verus! {

/// Discharge one edge into `s`: a node with no residual entry starts at
/// its in-degree less the edge just discharged; one with an entry loses
/// one. A count that reaches zero moves the node into the next layer and
/// drops its entry.
pub open spec fn discharge(
    g: Graph,
    counts: Seq<Option<usize>>,
    next: Seq<usize>,
    s: usize,
) -> (Seq<Option<usize>>, Seq<usize>) {
    let c = match counts[s as int] {
        Option::None => sat_dec(g.in_deg@[s as int]),
        Option::Some(c0) => sat_dec(c0),
    };
    if c == 0 {
        (counts.update(s as int, Option::None), next.push(s))
    } else {
        (counts.update(s as int, Option::Some(c)), next)
    }
}

/// One less, stopping at zero.
pub open spec fn sat_dec(c: usize) -> usize {
    if c == 0 {
        0
    } else {
        (c - 1) as usize
    }
}

/// Discharge the outgoing edges of `u` from position `k` on, in row order.
pub open spec fn scan_row(
    g: Graph,
    counts: Seq<Option<usize>>,
    next: Seq<usize>,
    u: usize,
    k: int,
) -> (Seq<Option<usize>>, Seq<usize>)
    decreases g.row(u as int).len() - k,
{
    if k < 0 || k >= g.row(u as int).len() {
        (counts, next)
    } else {
        let st = discharge(g, counts, next, g.row(u as int)[k]);
        scan_row(g, st.0, st.1, u, k + 1)
    }
}

/// Discharge the outgoing edges of every frontier node from position `i`
/// on, in frontier order.
pub open spec fn scan_layer(
    g: Graph,
    counts: Seq<Option<usize>>,
    next: Seq<usize>,
    cur: Seq<usize>,
    i: int,
) -> (Seq<Option<usize>>, Seq<usize>)
    decreases cur.len() - i,
{
    if i < 0 || i >= cur.len() {
        (counts, next)
    } else {
        let st = scan_row(g, counts, next, cur[i], 0);
        scan_layer(g, st.0, st.1, cur, i + 1)
    }
}

/// The residual counts and the layer that one `advance` of the cursor
/// produces from the given counts and frontier.
pub open spec fn next_layer_spec(g: Graph, counts: Seq<Option<usize>>, cur: Seq<usize>) -> (
    Seq<Option<usize>>,
    Seq<usize>,
) {
    scan_layer(g, counts, Seq::<usize>::empty(), cur, 0)
}

/// An exhausted cursor is terminal: from an empty frontier the peeling
/// step yields an empty layer again and leaves the residual counts alone.
pub proof fn lemma_exhausted_terminal(g: Graph, counts: Seq<Option<usize>>)
    ensures
        next_layer_spec(g, counts, Seq::<usize>::empty()).0 == counts,
        next_layer_spec(g, counts, Seq::<usize>::empty()).1 == Seq::<usize>::empty(),
{
}

proof fn lemma_scan_row_sources(
    g: Graph,
    counts: Seq<Option<usize>>,
    next: Seq<usize>,
    u: usize,
    k: int,
    x: usize,
)
    requires
        scan_row(g, counts, next, u, k).1.contains(x),
    ensures
        next.contains(x) || exists|k2: int|
            k <= k2 < g.row(u as int).len() && g.row(u as int)[k2] == x,
    decreases g.row(u as int).len() - k,
{
    if !(k < 0 || k >= g.row(u as int).len()) {
        let st = discharge(g, counts, next, g.row(u as int)[k]);
        lemma_scan_row_sources(g, st.0, st.1, u, k + 1, x);
        if st.1.contains(x) && !next.contains(x) {
            let idx = choose|idx: int| 0 <= idx < st.1.len() && st.1[idx] == x;
            if idx < next.len() {
                assert(next[idx] == x);
            } else {
                assert(g.row(u as int)[k] == x);
            }
        }
    }
}

proof fn lemma_scan_layer_sources(
    g: Graph,
    counts: Seq<Option<usize>>,
    next: Seq<usize>,
    cur: Seq<usize>,
    i: int,
    x: usize,
)
    requires
        scan_layer(g, counts, next, cur, i).1.contains(x),
    ensures
        next.contains(x) || exists|i2: int, k: int|
            i <= i2 < cur.len() && 0 <= k < g.row(cur[i2] as int).len() && g.row(cur[i2] as int)[k]
                == x,
    decreases cur.len() - i,
{
    if !(i < 0 || i >= cur.len()) {
        let st = scan_row(g, counts, next, cur[i], 0);
        lemma_scan_layer_sources(g, st.0, st.1, cur, i + 1, x);
        if st.1.contains(x) && !next.contains(x) {
            lemma_scan_row_sources(g, counts, next, cur[i], 0, x);
        }
    }
}

/// A yielded node is always the target of an edge that leaves the
/// frontier which was scanned: layers hold successors of the previous
/// generation only, never strangers.
pub proof fn lemma_layer_from_frontier(
    g: Graph,
    counts: Seq<Option<usize>>,
    cur: Seq<usize>,
    x: usize,
)
    requires
        next_layer_spec(g, counts, cur).1.contains(x),
    ensures
        exists|i: int, k: int|
            0 <= i < cur.len() && 0 <= k < g.row(cur[i] as int).len() && g.row(cur[i] as int)[k]
                == x,
{
    lemma_scan_layer_sources(g, counts, Seq::<usize>::empty(), cur, 0, x);
}

proof fn lemma_scan_row_untouched(
    g: Graph,
    counts: Seq<Option<usize>>,
    next: Seq<usize>,
    u: usize,
    k: int,
    x: usize,
)
    requires
        g.wf_edges(),
        u < g.bound(),
        counts.len() == g.bound(),
        x < counts.len(),
        forall|k2: int| k <= k2 < g.row(u as int).len() ==> (#[trigger] g.row(u as int)[k2]) != x,
    ensures
        scan_row(g, counts, next, u, k).0[x as int] == counts[x as int],
        scan_row(g, counts, next, u, k).0.len() == counts.len(),
    decreases g.row(u as int).len() - k,
{
    if !(k < 0 || k >= g.row(u as int).len()) {
        let s = g.row(u as int)[k];
        let st = discharge(g, counts, next, s);
        assert(s < g.bound());
        assert(s != x);
        assert(st.0[x as int] == counts[x as int]);
        lemma_scan_row_untouched(g, st.0, st.1, u, k + 1, x);
    }
}

proof fn lemma_scan_layer_untouched(
    g: Graph,
    counts: Seq<Option<usize>>,
    next: Seq<usize>,
    cur: Seq<usize>,
    i: int,
    x: usize,
)
    requires
        g.wf_edges(),
        counts.len() == g.bound(),
        x < counts.len(),
        forall|i2: int| 0 <= i2 < cur.len() ==> (#[trigger] cur[i2]) < g.bound(),
        forall|i2: int, k: int|
            i <= i2 < cur.len() && 0 <= k < g.row(cur[i2] as int).len() ==> (#[trigger] g.row(
                cur[i2] as int,
            )[k]) != x,
    ensures
        scan_layer(g, counts, next, cur, i).0[x as int] == counts[x as int],
        scan_layer(g, counts, next, cur, i).0.len() == counts.len(),
    decreases cur.len() - i,
{
    if !(i < 0 || i >= cur.len()) {
        let st = scan_row(g, counts, next, cur[i], 0);
        lemma_scan_row_untouched(g, counts, next, cur[i], 0, x);
        lemma_scan_layer_untouched(g, st.0, st.1, cur, i + 1, x);
    }
}

/// A node that no edge of the frontier targets comes through one advance
/// with its residual count untouched: peeling one generation disturbs
/// only the frontier's successors.
pub proof fn lemma_untouched_node_keeps_count(
    g: Graph,
    counts: Seq<Option<usize>>,
    cur: Seq<usize>,
    x: usize,
)
    requires
        g.wf_edges(),
        counts.len() == g.bound(),
        x < counts.len(),
        forall|i: int| 0 <= i < cur.len() ==> (#[trigger] cur[i]) < g.bound(),
        forall|i: int, k: int|
            0 <= i < cur.len() && 0 <= k < g.row(cur[i] as int).len() ==> (#[trigger] g.row(
                cur[i] as int,
            )[k]) != x,
    ensures
        next_layer_spec(g, counts, cur).0[x as int] == counts[x as int],
{
    lemma_scan_layer_untouched(g, counts, Seq::<usize>::empty(), cur, 0, x);
}

/// Some edge leaving the frontier `cur` ends at or above the node bound:
/// scanning `cur` is guaranteed to meet that edge.
pub open spec fn frontier_dangling(g: Graph, cur: Seq<usize>) -> bool {
    exists|i: int, k: int|
        0 <= i < cur.len() && 0 <= k < g.row(cur[i] as int).len() && (#[trigger] g.row(
            cur[i] as int,
        )[k]) >= g.bound()
}

/// A pull-based cursor over the layers of a directed graph. State is the
/// current frontier plus the residual predecessor counts of the nodes
/// that are partially discharged; both persist between calls.
pub struct LayerIter {
    /// The node bound of the graph the cursor was built from; the graph
    /// handed to `advance` must still have it.
    pub bound: usize,
    /// The frontier whose successors the next `advance` discharges.
    pub cur_layer: Vec<usize>,
    /// `counts[n]` is the number of incoming edges of `n` not yet
    /// discharged, or `None` for a node not reached (or already emitted).
    pub counts: Vec<Option<usize>>,
}

impl LayerIter {
    /// The cursor's tables are sized to its graph and the frontier lies
    /// below the bound.
    pub open spec fn wf(self) -> bool {
        self.counts@.len() == self.bound && forall|j: int|
            0 <= j < self.cur_layer@.len() ==> (#[trigger] self.cur_layer@[j]) < self.bound
    }

    /// Compute the next generation and move the cursor onto it.
    ///
    /// Every node of the current frontier discharges its outgoing edges
    /// in order; each target's residual count starts at its in-degree
    /// less one and falls by one per further edge, and a target whose
    /// count reaches zero joins the next layer. A non-empty layer is
    /// returned and becomes the new frontier; an empty one is the
    /// exhausted signal, and the cursor then stays exhausted. A changed
    /// node bound is reported as `InvalidState`; an adjacency entry at or
    /// above the bound is reported as `InvalidEdge` exactly when an edge
    /// of the current frontier carries one, so an exhausted cursor never
    /// fails that way.
    pub fn advance(&mut self, dag: &Graph) -> (r: Result<Option<Vec<usize>>, GraphError>)
        requires
            old(self).wf(),
            dag.wf(),
        ensures
            match r {
                Result::Ok(opt) => {
                    &&& final(self).wf()
                    &&& final(self).bound == old(self).bound
                    &&& dag.bound() == old(self).bound
                    &&& final(self).counts@ == next_layer_spec(
                        *dag,
                        old(self).counts@,
                        old(self).cur_layer@,
                    ).0
                    &&& final(self).cur_layer@ == next_layer_spec(
                        *dag,
                        old(self).counts@,
                        old(self).cur_layer@,
                    ).1
                    &&& match opt {
                        Option::Some(l) => l@ == final(self).cur_layer@ && l@.len() > 0,
                        Option::None => final(self).cur_layer@.len() == 0,
                    }
                    &&& !frontier_dangling(*dag, old(self).cur_layer@)
                },
                Result::Err(e) => match e {
                    GraphError::InvalidState => dag.bound() != old(self).bound,
                    GraphError::InvalidEdge => dag.bound() == old(self).bound
                        && frontier_dangling(*dag, old(self).cur_layer@),
                    GraphError::NodeNotFound => false,
                },
            },
            dag.bound() == old(self).bound && !frontier_dangling(*dag, old(self).cur_layer@)
                ==> r is Ok,
    {
        if dag.node_bound() != self.bound {
            return Result::Err(GraphError::InvalidState);
        }
        let ghost counts0 = self.counts@;
        let ghost cur = self.cur_layer@;
        let mut next_layer: Vec<usize> = Vec::new();
        let n: usize = self.cur_layer.len();
        let mut i: usize = 0;
        while i < n
            invariant
                dag.wf(),
                self.bound == old(self).bound,
                self.bound == dag.bound(),
                cur == old(self).cur_layer@,
                counts0 == old(self).counts@,
                self.cur_layer@ == cur,
                n == cur.len(),
                i <= n,
                self.counts@.len() == dag.bound(),
                forall|j: int| 0 <= j < cur.len() ==> (#[trigger] cur[j]) < dag.bound(),
                forall|j: int|
                    0 <= j < next_layer@.len() ==> (#[trigger] next_layer@[j]) < dag.bound(),
                forall|i2: int, k2: int|
                    0 <= i2 < i && 0 <= k2 < dag.row(cur[i2] as int).len() ==> (#[trigger] dag.row(
                        cur[i2] as int,
                    )[k2]) < dag.bound(),
                scan_layer(*dag, counts0, Seq::<usize>::empty(), cur, 0) == scan_layer(
                    *dag,
                    self.counts@,
                    next_layer@,
                    cur,
                    i as int,
                ),
            decreases n - i,
        {
            let u: usize = self.cur_layer[i];
            let row_len: usize = dag.adj[u].len();
            let mut k: usize = 0;
            while k < row_len
                invariant
                    dag.wf(),
                    self.bound == old(self).bound,
                    self.bound == dag.bound(),
                    cur == old(self).cur_layer@,
                    counts0 == old(self).counts@,
                    self.cur_layer@ == cur,
                    n == cur.len(),
                    i < n,
                    u == cur[i as int],
                    u < dag.bound(),
                    row_len == dag.row(u as int).len(),
                    k <= row_len,
                    self.counts@.len() == dag.bound(),
                    forall|j: int| 0 <= j < cur.len() ==> (#[trigger] cur[j]) < dag.bound(),
                    forall|j: int|
                        0 <= j < next_layer@.len() ==> (#[trigger] next_layer@[j]) < dag.bound(),
                    forall|i2: int, k2: int|
                        0 <= i2 < i && 0 <= k2 < dag.row(cur[i2] as int).len() ==> (
                        #[trigger] dag.row(cur[i2] as int)[k2]) < dag.bound(),
                    forall|k2: int|
                        0 <= k2 < k ==> (#[trigger] dag.row(u as int)[k2]) < dag.bound(),
                    scan_layer(*dag, counts0, Seq::<usize>::empty(), cur, 0) == scan_layer(
                        *dag,
                        scan_row(*dag, self.counts@, next_layer@, u, k as int).0,
                        scan_row(*dag, self.counts@, next_layer@, u, k as int).1,
                        cur,
                        i + 1,
                    ),
                decreases row_len - k,
            {
                let s: usize = dag.adj[u][k];
                proof {
                    assert(dag.row(u as int)[k as int] == s);
                }
                if s >= self.bound {
                    proof {
                        assert(frontier_dangling(*dag, cur)) by {
                            assert(dag.row(cur[i as int] as int)[k as int] >= dag.bound());
                        }
                    }
                    return Result::Err(GraphError::InvalidEdge);
                }
                let ghost c_pre = self.counts@;
                let ghost n_pre = next_layer@;
                let cnew: usize = match self.counts[s] {
                    Option::None => {
                        let d: usize = dag.in_deg[s];
                        if d == 0 {
                            0
                        } else {
                            d - 1
                        }
                    },
                    Option::Some(c0) => {
                        if c0 == 0 {
                            0
                        } else {
                            c0 - 1
                        }
                    },
                };
                if cnew == 0 {
                    self.counts.set(s, Option::None);
                    next_layer.push(s);
                } else {
                    self.counts.set(s, Option::Some(cnew));
                }
                proof {
                    assert(discharge(*dag, c_pre, n_pre, s) == (self.counts@, next_layer@));
                    assert(scan_row(*dag, c_pre, n_pre, u, k as int) == scan_row(
                        *dag,
                        self.counts@,
                        next_layer@,
                        u,
                        k + 1,
                    ));
                }
                k = k + 1;
            }
            proof {
                assert(scan_row(*dag, self.counts@, next_layer@, u, row_len as int) == (
                self.counts@,
                next_layer@,
                ));
            }
            i = i + 1;
        }
        proof {
            assert(scan_layer(*dag, self.counts@, next_layer@, cur, n as int) == (
            self.counts@,
            next_layer@,
            ));
        }
        if next_layer.len() == 0 {
            self.cur_layer = next_layer;
            Result::Ok(Option::None)
        } else {
            let out = copy_ids(&next_layer);
            self.cur_layer = next_layer;
            Result::Ok(Option::Some(out))
        }
    }
}

/// Build a cursor whose first `advance` discharges the edges leaving
/// `first_layer`. A member of `first_layer` that is not a present node of
/// the graph is reported as `NodeNotFound`; the frontier itself is never
/// yielded.
pub fn lazy_layers(dag: &Graph, first_layer: Vec<usize>) -> (r: Result<LayerIter, GraphError>)
    requires
        dag.wf(),
    ensures
        match r {
            Result::Ok(it) => {
                &&& it.wf()
                &&& it.bound == dag.bound()
                &&& it.cur_layer@ == first_layer@
                &&& forall|j: int| 0 <= j < it.counts@.len() ==> (#[trigger] it.counts@[j]) is None
                &&& forall|j: int|
                    0 <= j < first_layer@.len() ==> dag.spec_present(#[trigger] first_layer@[j])
            },
            Result::Err(e) => e == GraphError::NodeNotFound && exists|j: int|
                0 <= j < first_layer@.len() && !dag.spec_present(#[trigger] first_layer@[j]),
        },
        (forall|j: int| 0 <= j < first_layer@.len() ==> dag.spec_present(#[trigger] first_layer@[j]))
            ==> r is Ok,
{
    let n: usize = first_layer.len();
    let mut i: usize = 0;
    while i < n
        invariant
            dag.wf(),
            n == first_layer@.len(),
            i <= n,
            forall|j: int| 0 <= j < i ==> dag.spec_present(#[trigger] first_layer@[j]),
        decreases n - i,
    {
        let node: usize = first_layer[i];
        if node >= dag.node_bound() {
            return Result::Err(GraphError::NodeNotFound);
        }
        if !dag.present[node] {
            return Result::Err(GraphError::NodeNotFound);
        }
        i = i + 1;
    }
    let bound: usize = dag.node_bound();
    let mut counts: Vec<Option<usize>> = Vec::new();
    let mut j: usize = 0;
    while j < bound
        invariant
            j <= bound,
            counts@.len() == j,
            forall|m: int| 0 <= m < j ==> (#[trigger] counts@[m]) is None,
        decreases bound - j,
    {
        counts.push(Option::None);
        j = j + 1;
    }
    Result::Ok(LayerIter { bound, cur_layer: first_layer, counts })
}

/// Copy a vector of node indices.
fn copy_ids(v: &Vec<usize>) -> (r: Vec<usize>)
    ensures
        r@ == v@,
{
    let n: usize = v.len();
    let mut r: Vec<usize> = Vec::new();
    let mut i: usize = 0;
    while i < n
        invariant
            i <= n,
            n == v@.len(),
            r@ == v@.subrange(0, i as int),
        decreases n - i,
    {
        r.push(v[i]);
        proof {
            assert(r@ =~= v@.subrange(0, i + 1));
        }
        i = i + 1;
    }
    proof {
        assert(v@.subrange(0, n as int) =~= v@);
    }
    r
}

} // verus!
