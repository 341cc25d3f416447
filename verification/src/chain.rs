//! Chain decomposition of an undirected graph: one depth-first search
//! classifies every edge as a tree edge or a back edge, and each back edge
//! is then walked upward through tree-parent pointers to emit an ordered
//! chain of edges. Chains decompose the cycle space of the graph; an edge
//! on no chain is a bridge.

use vstd::prelude::*;

use crate::graph::count_if;
use crate::graph::lemma_count_if_update_keep;
use crate::graph::lemma_count_if_update_out;
use crate::graph::Graph;
use crate::graph::GraphError;

verus! {

/// The graph holds the edge `(a, b)` in at least one direction; the
/// decomposition works on undirected graphs, where each edge is stored
/// in both adjacency rows.
pub open spec fn undirected_edge(g: Graph, a: usize, b: usize) -> bool {
    g.has_dir_edge(a, b) || g.has_dir_edge(b, a)
}

/// A well-formed chain: a non-empty walk (consecutive edges share an
/// endpoint) made of edges of the graph.
pub open spec fn chain_wf(g: Graph, c: Seq<(usize, usize)>) -> bool {
    &&& c.len() >= 1
    &&& forall|i: int|
        0 <= i < c.len() ==> undirected_edge(g, (#[trigger] c[i]).0, c[i].1) && c[i].0 < g.bound()
            && c[i].1 < g.bound()
    &&& forall|i: int| 0 <= i && i + 1 < c.len() ==> (#[trigger] c[i]).1 == c[i + 1].0
}

/// The parent table holds, for each node, its tree parent discovered by
/// the search: every recorded parent is itself a node below the bound and
/// the corresponding tree edge is a real edge of the graph.
pub open spec fn parent_ok(g: Graph, parent: Seq<Option<usize>>) -> bool {
    &&& parent.len() == g.bound()
    &&& forall|j: int|
        0 <= j < parent.len() ==> match #[trigger] parent[j] {
            Option::Some(p) => p < g.bound() && g.has_dir_edge(p, j as usize),
            Option::None => true,
        }
}

/// The back-edge index holds, under each ancestor, the descendants that
/// reach it by a back edge of the graph.
pub open spec fn back_ok(g: Graph, back: Seq<Vec<usize>>) -> bool {
    &&& back.len() == g.bound()
    &&& forall|a: int, k: int|
        0 <= a < back.len() && 0 <= k < back[a]@.len() ==> (#[trigger] back[a]@[k]) < g.bound()
            && g.has_dir_edge(back[a]@[k], a as usize)
}

/// No two edges of the chain leave the same node; in particular no edge
/// occurs twice on one chain.
pub open spec fn sources_distinct(c: Seq<(usize, usize)>) -> bool {
    forall|i1: int, i2: int| 0 <= i1 < i2 < c.len() ==> (#[trigger] c[i1]).0 != (#[trigger] c[i2]).0
}

/// The chain opened by the back edge `(u0, v0)`, and the closed-node set
/// after walking it: while the current node is not yet closed, it is
/// closed and the walk follows its tree parent, each step contributing
/// one edge; the first already-closed node (or a node without a parent)
/// ends the chain with its closing edge.
pub open spec fn walk_chain(
    parent: Seq<Option<usize>>,
    u0: usize,
    v0: usize,
    visited: Seq<bool>,
) -> (Seq<(usize, usize)>, Seq<bool>)
    decreases count_if(visited, |b: bool| !b),
        when v0 < visited.len()
{
    if visited[v0 as int] {
        (seq![(u0, v0)], visited)
    } else {
        let marked = visited.update(v0 as int, true);
        match parent[v0 as int] {
            Option::Some(p) => {
                proof {
                    lemma_count_if_update_out(visited, |b: bool| !b, v0 as int, true);
                }
                let r = walk_chain(parent, v0, p, marked);
                (seq![(u0, v0)] + r.0, r.1)
            },
            Option::None => (seq![(u0, v0)], marked),
        }
    }
}

/// One step of assembling a chain: the edges gathered so far, followed by
/// whatever the walk from `(u, v)` still produces.
pub open spec fn walk_chain_cont(
    parent: Seq<Option<usize>>,
    u: usize,
    v: usize,
    visited: Seq<bool>,
    chain: Seq<(usize, usize)>,
) -> (Seq<(usize, usize)>, Seq<bool>) {
    let r = walk_chain(parent, u, v, visited);
    (chain + r.0, r.1)
}

/// Walk one chain: starting from the back edge `(u0, v0)`, follow
/// tree-parent pointers upward from `v0`, marking each node closed, until
/// a node already closed by an earlier chain (or the back edge's own
/// target) is reached; that closing edge ends the chain.
fn build_chain(
    graph: &Graph,
    parent: &Vec<Option<usize>>,
    u0: usize,
    v0: usize,
    visited: &mut Vec<bool>,
) -> (chain: Vec<(usize, usize)>)
    requires
        graph.wf(),
        parent_ok(*graph, parent@),
        old(visited)@.len() == graph.bound(),
        u0 < graph.bound(),
        v0 < graph.bound(),
        old(visited)@[u0 as int],
        undirected_edge(*graph, u0, v0),
    ensures
        final(visited)@.len() == graph.bound(),
        chain_wf(*graph, chain@),
        chain@[0] == (u0, v0),
        sources_distinct(chain@),
        forall|j: int|
            0 <= j < graph.bound() ==> old(visited)@[j] ==> (#[trigger] final(visited)@[j]),
        chain@ == walk_chain(parent@, u0, v0, old(visited)@).0,
        final(visited)@ == walk_chain(parent@, u0, v0, old(visited)@).1,
{
    let ghost visited0 = old(visited)@;
    let mut chain: Vec<(usize, usize)> = Vec::new();
    let mut u = u0;
    let mut v = v0;
    let mut done = false;
    proof {
        assert(Seq::<(usize, usize)>::empty() + walk_chain(parent@, u0, v0, visited0).0
            =~= walk_chain(parent@, u0, v0, visited0).0);
    }
    while !done
        invariant
            graph.wf(),
            parent_ok(*graph, parent@),
            visited@.len() == graph.bound(),
            visited0.len() == graph.bound(),
            visited0[u0 as int],
            u < graph.bound(),
            v < graph.bound(),
            !done ==> undirected_edge(*graph, u, v),
            chain@.len() == 0 ==> u == u0 && v == v0 && !done,
            chain@.len() > 0 ==> chain@[0] == (u0, v0),
            chain@.len() > 0 && !done ==> chain@.last().1 == u,
            forall|i: int|
                0 <= i < chain@.len() ==> undirected_edge(
                    *graph,
                    (#[trigger] chain@[i]).0,
                    chain@[i].1,
                ) && chain@[i].0 < graph.bound() && chain@[i].1 < graph.bound(),
            forall|i: int| 0 <= i && i + 1 < chain@.len() ==> (#[trigger] chain@[i]).1 == chain@[i
                + 1].0,
            done ==> chain@.len() >= 1,
            forall|j: int| 0 <= j < graph.bound() ==> visited0[j] ==> (#[trigger] visited@[j]),
            forall|i: int| 0 <= i < chain@.len() ==> visited@[(#[trigger] chain@[i]).0 as int],
            forall|i: int| 1 <= i < chain@.len() ==> !visited0[(#[trigger] chain@[i]).0 as int],
            sources_distinct(chain@),
            !done ==> forall|i: int| 0 <= i < chain@.len() ==> (#[trigger] chain@[i]).0 != u,
            !done ==> visited@[u as int],
            !done && chain@.len() > 0 ==> !visited0[u as int],
            !done ==> walk_chain(parent@, u0, v0, visited0) == walk_chain_cont(
                parent@,
                u,
                v,
                visited@,
                chain@,
            ),
            done ==> walk_chain(parent@, u0, v0, visited0) == (chain@, visited@),
        decreases 2 * count_if(visited@, |b: bool| !b) + (if done {
            0int
        } else {
            1int
        }),
    {
        let ghost u_pre = u;
        let ghost v_pre = v;
        let ghost chain_pre = chain@;
        let ghost visited_pre = visited@;
        if visited[v] {
            chain.push((u, v));
            done = true;
            proof {
                assert(walk_chain(parent@, u_pre, v_pre, visited_pre) == (
                seq![(u_pre, v_pre)],
                visited@,
                ));
                assert(chain@ =~= chain_pre + seq![(u_pre, v_pre)]);
            }
        } else {
            proof {
                lemma_count_if_update_out(visited@, |b: bool| !b, v as int, true);
            }
            visited.set(v, true);
            chain.push((u, v));
            u = v;
            match parent[u] {
                Option::Some(p) => {
                    v = p;
                    proof {
                        assert(walk_chain(parent@, u_pre, v_pre, visited_pre) == (
                        seq![(u_pre, v_pre)] + walk_chain(parent@, v_pre, p, visited@).0,
                        walk_chain(parent@, v_pre, p, visited@).1,
                        ));
                        assert(chain@ =~= chain_pre + seq![(u_pre, v_pre)]);
                        assert((chain_pre + seq![(u_pre, v_pre)]) + walk_chain(
                            parent@,
                            v_pre,
                            p,
                            visited@,
                        ).0 =~= chain_pre + (seq![(u_pre, v_pre)] + walk_chain(
                            parent@,
                            v_pre,
                            p,
                            visited@,
                        ).0));
                    }
                },
                Option::None => {
                    done = true;
                    proof {
                        assert(walk_chain(parent@, u_pre, v_pre, visited_pre) == (
                        seq![(u_pre, v_pre)],
                        visited@,
                        ));
                        assert(chain@ =~= chain_pre + seq![(u_pre, v_pre)]);
                    }
                },
            }
        }
    }
    chain
}

/// A graph without edges admits no chain at all: every chain the
/// decomposition guarantees holds at least one edge of the graph, so on
/// an edgeless graph the guaranteed collection can only be empty.
pub proof fn lemma_no_edges_no_chains(g: Graph, chains: Seq<Seq<(usize, usize)>>)
    requires
        forall|u: int| 0 <= u < g.bound() ==> (#[trigger] g.row(u)).len() == 0,
        forall|c: int| 0 <= c < chains.len() ==> chain_wf(g, #[trigger] chains[c]),
    ensures
        chains.len() == 0,
{
    if chains.len() > 0 {
        let c = chains[0];
        assert(chain_wf(g, c));
        let e = c[0];
        assert(undirected_edge(g, e.0, e.1));
        if g.has_dir_edge(e.0, e.1) {
            let k = choose|k: int| 0 <= k < g.row(e.0 as int).len() && g.row(e.0 as int)[k] == e.1;
            assert(g.row(e.0 as int).len() == 0);
        } else {
            let k = choose|k: int| 0 <= k < g.row(e.1 as int).len() && g.row(e.1 as int)[k] == e.0;
            assert(g.row(e.1 as int).len() == 0);
        }
    }
}

/// The requested search root, if any, is a present node of the graph.
pub open spec fn source_ok(g: Graph, source: Option<usize>) -> bool {
    match source {
        Option::Some(s) => g.spec_present(s),
        Option::None => true,
    }
}

/// A depth-first-search stack entry `(node, next)` is consistent with the
/// graph: the node is in bounds and `next` does not run past its row.
spec fn entry_ok(g: Graph, e: (usize, usize)) -> bool {
    e.0 < g.bound() && e.1 <= g.row(e.0 as int).len()
}

spec fn stack_ok(g: Graph, s: Seq<(usize, usize)>) -> bool {
    forall|k: int| 0 <= k < s.len() ==> entry_ok(g, #[trigger] s[k])
}

/// The full state of the classifying depth-first search: node colours
/// (0 undiscovered, 1 on the search path, 2 finished), the tree-parent
/// table, the back-edge index, the nodes in discovery order, and the
/// explicit search stack of `(node, next neighbour position)` entries.
pub struct DfsState {
    /// Colour of each node index.
    pub color: Seq<u8>,
    /// Tree parent of each discovered non-root node.
    pub parent: Seq<Option<usize>>,
    /// Back-edge index: descendants recorded under each ancestor.
    pub back: Seq<Seq<usize>>,
    /// Nodes in discovery order.
    pub nodes: Seq<usize>,
    /// The search stack.
    pub stack: Seq<(usize, usize)>,
}

/// The shape on which the search step is defined: the colour table covers
/// the graph, every stacked node is in bounds, and the rows fit a word.
pub open spec fn dfs_state_ok(g: Graph, st: DfsState) -> bool {
    st.color.len() == g.bound() && g.rows_fit() && forall|k: int|
        0 <= k < st.stack.len() ==> (#[trigger] st.stack[k]).0 < g.bound()
}

/// How many neighbours a stack entry still has to scan, clamped at zero.
pub open spec fn entry_left(g: Graph, e: (usize, usize)) -> nat {
    if e.1 >= g.row(e.0 as int).len() {
        0
    } else {
        (g.row(e.0 as int).len() - e.1) as nat
    }
}

/// Total neighbours left to scan over the whole stack; part of the
/// termination measure of the search.
pub open spec fn stack_left(g: Graph, s: Seq<(usize, usize)>) -> nat
    decreases s.len(),
{
    if s.len() == 0 {
        0
    } else {
        stack_left(g, s.drop_last()) + entry_left(g, s.last())
    }
}

/// Run the depth-first search to completion from the given state: scan
/// the top entry's next neighbour; an undiscovered neighbour becomes a
/// tree child and is pushed, a neighbour on the search path that is not
/// the scanning node's own tree parent is recorded as a back edge, a
/// finished neighbour is passed over, and a fully scanned node is
/// finished and popped. A neighbour at or above the node bound stops the
/// search with `InvalidEdge`.
pub open spec fn dfs_run(g: Graph, st: DfsState) -> Result<DfsState, GraphError>
    decreases count_if(st.color, |c: u8| c == 0), stack_left(g, st.stack), st.stack.len(),
        when dfs_state_ok(g, st)
{
    if st.stack.len() == 0 {
        Result::Ok(st)
    } else {
        let e = st.stack.last();
        let u = e.0;
        let i2 = e.1;
        if (i2 as int) < g.row(u as int).len() {
            let stack1 = st.stack.update(st.stack.len() - 1, (u, (i2 + 1) as usize));
            let v = g.row(u as int)[i2 as int];
            if v >= g.bound() {
                Result::Err(GraphError::InvalidEdge)
            } else if st.color[v as int] == 0 {
                proof {
                    lemma_count_if_update_out(st.color, |c: u8| c == 0, v as int, 1u8);
                }
                dfs_run(
                    g,
                    DfsState {
                        color: st.color.update(v as int, 1),
                        parent: st.parent.update(v as int, Option::Some(u)),
                        back: st.back,
                        nodes: st.nodes.push(v),
                        stack: stack1.push((v, 0)),
                    },
                )
            } else {
                let back1 = if st.color[v as int] == 1 && st.parent[u as int] != Option::Some(v) {
                    st.back.update(v as int, st.back[v as int].push(u))
                } else {
                    st.back
                };
                proof {
                    assert(stack1.drop_last() =~= st.stack.drop_last());
                    assert(stack1.last() == (u, (i2 + 1) as usize));
                    assert(st.stack.last() == (u, i2));
                    assert(stack_left(g, stack1) == stack_left(g, stack1.drop_last())
                        + entry_left(g, stack1.last()));
                    assert(stack_left(g, st.stack) == stack_left(g, st.stack.drop_last())
                        + entry_left(g, st.stack.last()));
                    assert(entry_left(g, stack1.last()) < entry_left(g, st.stack.last()));
                    assert(stack_left(g, stack1) < stack_left(g, st.stack));
                }
                dfs_run(
                    g,
                    DfsState {
                        color: st.color,
                        parent: st.parent,
                        back: back1,
                        nodes: st.nodes,
                        stack: stack1,
                    },
                )
            }
        } else {
            proof {
                assert(st.stack[st.stack.len() - 1].0 == u);
                assert(entry_left(g, st.stack.last()) == 0);
                if st.color[u as int] == 0 {
                    lemma_count_if_update_out(st.color, |c: u8| c == 0, u as int, 2u8);
                } else {
                    lemma_count_if_update_keep(st.color, |c: u8| c == 0, u as int, 2u8);
                }
            }
            dfs_run(
                g,
                DfsState {
                    color: st.color.update(u as int, 2),
                    parent: st.parent,
                    back: st.back,
                    nodes: st.nodes,
                    stack: st.stack.drop_last(),
                },
            )
        }
    }
}

/// Offer each root in turn: an undiscovered root starts one search tree,
/// run to completion by `dfs_run`; a root already discovered is skipped.
pub open spec fn dfs_roots(g: Graph, st: DfsState, roots: Seq<usize>, i: int) -> Result<
    DfsState,
    GraphError,
>
    decreases roots.len() - i,
{
    if i < 0 || i >= roots.len() {
        Result::Ok(st)
    } else {
        let r = roots[i];
        if r < st.color.len() && st.color[r as int] == 0 {
            let st1 = DfsState {
                color: st.color.update(r as int, 1),
                parent: st.parent,
                back: st.back,
                nodes: st.nodes.push(r),
                stack: seq![(r, 0usize)],
            };
            match dfs_run(g, st1) {
                Result::Ok(st2) => dfs_roots(g, st2, roots, i + 1),
                Result::Err(err) => Result::Err(err),
            }
        } else {
            dfs_roots(g, st, roots, i + 1)
        }
    }
}

/// Emit the chains of the back edges recorded under `u`, from position
/// `j` on, threading the closed-node set through the walks.
pub open spec fn emit_row(
    parent: Seq<Option<usize>>,
    u: usize,
    row: Seq<usize>,
    j: int,
    visited: Seq<bool>,
    chains: Seq<Seq<(usize, usize)>>,
) -> (Seq<bool>, Seq<Seq<(usize, usize)>>)
    decreases row.len() - j,
{
    if j < 0 || j >= row.len() {
        (visited, chains)
    } else {
        let r = walk_chain(parent, u, row[j], visited);
        emit_row(parent, u, row, j + 1, r.1, chains.push(r.0))
    }
}

/// Close each node in discovery order from position `i` on and emit the
/// chains of its recorded back edges.
pub open spec fn emit_all(
    parent: Seq<Option<usize>>,
    back: Seq<Seq<usize>>,
    nodes: Seq<usize>,
    i: int,
    visited: Seq<bool>,
    chains: Seq<Seq<(usize, usize)>>,
) -> (Seq<bool>, Seq<Seq<(usize, usize)>>)
    decreases nodes.len() - i,
{
    if i < 0 || i >= nodes.len() {
        (visited, chains)
    } else {
        let u = nodes[i];
        let marked = if u < visited.len() {
            visited.update(u as int, true)
        } else {
            visited
        };
        let row = if u < back.len() {
            back[u as int]
        } else {
            Seq::empty()
        };
        let r = emit_row(parent, u, row, 0, marked, chains);
        emit_all(parent, back, nodes, i + 1, r.0, r.1)
    }
}

/// The search state before any root is offered.
pub open spec fn init_dfs_state(bound: nat) -> DfsState {
    DfsState {
        color: Seq::new(bound, |j: int| 0u8),
        parent: Seq::new(bound, |j: int| Option::None),
        back: Seq::new(bound, |j: int| Seq::empty()),
        nodes: Seq::empty(),
        stack: Seq::empty(),
    }
}

/// The root set of the search: the given source alone, or every present
/// node in native order.
pub open spec fn spec_roots(g: Graph, source: Option<usize>) -> Seq<usize> {
    match source {
        Option::Some(s) => seq![s],
        Option::None => crate::graph::present_ids(g, g.bound() as int),
    }
}

/// The search state assembled from the traversal's working tables.
pub open spec fn search_state(
    color: Seq<u8>,
    parent: Seq<Option<usize>>,
    back: Seq<Vec<usize>>,
    nodes: Seq<usize>,
    stack: Seq<(usize, usize)>,
) -> DfsState {
    DfsState { color, parent, back: rows_view(back), nodes, stack }
}

/// The adjacency rows of the back-edge index as plain sequences.
pub open spec fn rows_view(b: Seq<Vec<usize>>) -> Seq<Seq<usize>> {
    b.map_values(|r: Vec<usize>| r@)
}

/// The chain collection as plain sequences.
pub open spec fn chains_view(c: Seq<Vec<(usize, usize)>>) -> Seq<Seq<(usize, usize)>> {
    c.map_values(|ch: Vec<(usize, usize)>| ch@)
}

/// What `chain_decomposition` returns, as a function of the graph and
/// the source: the error for a missing source; otherwise the search over
/// the root set followed by chain construction in discovery order.
pub open spec fn decompose_spec(g: Graph, source: Option<usize>) -> Result<
    Seq<Seq<(usize, usize)>>,
    GraphError,
> {
    if !source_ok(g, source) {
        Result::Err(GraphError::NodeNotFound)
    } else {
        match dfs_roots(g, init_dfs_state(g.bound()), spec_roots(g, source), 0) {
            Result::Ok(st) => Result::Ok(
                emit_all(
                    st.parent,
                    st.back,
                    st.nodes,
                    0,
                    Seq::new(g.bound(), |j: int| false),
                    Seq::empty(),
                ).1,
            ),
            Result::Err(err) => Result::Err(err),
        }
    }
}

/// Decompose the edge set of an undirected graph into chains.
///
/// One depth-first search (rooted at `source` if given, otherwise offered
/// every node in native order) records each node's discovery order, each
/// tree edge in a parent table, and each back edge under its ancestor
/// endpoint. Nodes are then closed in discovery order, and every back edge
/// recorded under a node opens a chain that `build_chain` walks upward.
///
/// The result equals `decompose_spec` of the graph and source exactly: a
/// missing `source` is `NodeNotFound`, an adjacency entry at or above the
/// node bound is `InvalidEdge` precisely when the search reaches it, and
/// on success the chain collection is the one the search-and-emit
/// construction determines. On a graph whose edges all lie below the
/// bound and with a valid root the call always succeeds; every returned
/// chain is then a non-empty walk made of edges of the graph with no edge
/// repeated on one chain. A consequence of the construction, pinned by
/// the contract though stated here only as documentation: a graph without
/// back edges (a forest) yields no chains, and an edge on no chain is a
/// bridge.
pub fn chain_decomposition(graph: &Graph, source: Option<usize>) -> (r: Result<
    Vec<Vec<(usize, usize)>>,
    GraphError,
>)
    requires
        graph.wf(),
    ensures
        match r {
            Result::Ok(chains) => source_ok(*graph, source) && decompose_spec(*graph, source)
                == Result::Ok::<Seq<Seq<(usize, usize)>>, GraphError>(chains_view(chains@))
                && forall|c: int|
                0 <= c < chains@.len() ==> chain_wf(*graph, (#[trigger] chains@[c])@)
                    && sources_distinct(chains@[c]@),
            Result::Err(e) => decompose_spec(*graph, source) == Result::Err::<
                Seq<Seq<(usize, usize)>>,
                GraphError,
            >(e) && match e {
                GraphError::NodeNotFound => !source_ok(*graph, source),
                GraphError::InvalidEdge => source_ok(*graph, source) && !graph.wf_edges(),
                GraphError::InvalidState => false,
            },
        },
        source_ok(*graph, source) && graph.wf_edges() ==> r is Ok,
{
    let bound: usize = graph.node_bound();
    let mut roots: Vec<usize> = Vec::new();
    match source {
        Option::Some(s) => {
            if s >= bound {
                return Result::Err(GraphError::NodeNotFound);
            }
            if !graph.present[s] {
                return Result::Err(GraphError::NodeNotFound);
            }
            roots.push(s);
            proof {
                assert(roots@ =~= seq![s]);
            }
        },
        Option::None => {
            roots = graph.node_identifiers();
        },
    }
    let mut color: Vec<u8> = Vec::new();
    let mut parent: Vec<Option<usize>> = Vec::new();
    let mut back: Vec<Vec<usize>> = Vec::new();
    let mut i: usize = 0;
    while i < bound
        invariant
            i <= bound,
            color@.len() == i,
            parent@.len() == i,
            back@.len() == i,
            forall|j: int| 0 <= j < i ==> color@[j] == 0,
            forall|j: int| 0 <= j < i ==> parent@[j] is None,
            forall|j: int| 0 <= j < i ==> (#[trigger] back@[j])@.len() == 0,
        decreases bound - i,
    {
        color.push(0);
        parent.push(Option::None);
        back.push(Vec::new());
        i = i + 1;
    }
    let mut nodes: Vec<usize> = Vec::new();
    proof {
        graph.lemma_rows_fit();
        assert(roots@ == spec_roots(*graph, source));
        assert(color@ =~= Seq::new(graph.bound(), |j: int| 0u8));
        assert(parent@ =~= Seq::new(graph.bound(), |j: int| Option::<usize>::None));
        assert forall|j: int| 0 <= j < graph.bound() implies rows_view(back@)[j]
            =~= Seq::<usize>::empty() by {
            assert(back@[j]@.len() == 0);
        }
        assert(rows_view(back@) =~= Seq::new(graph.bound(), |j: int| Seq::<usize>::empty()));
        assert(search_state(color@, parent@, back@, nodes@, Seq::empty())
            == init_dfs_state(graph.bound()));
    }
    let mut ridx: usize = 0;
    while ridx < roots.len()
        invariant
            graph.wf(),
            bound == graph.bound(),
            source_ok(*graph, source),
            color@.len() == bound,
            parent_ok(*graph, parent@),
            back_ok(*graph, back@),
            forall|k: int| 0 <= k < nodes@.len() ==> (#[trigger] nodes@[k]) < bound,
            forall|k: int| 0 <= k < roots@.len() ==> (#[trigger] roots@[k]) < bound,
            graph.rows_fit(),
            roots@ == spec_roots(*graph, source),
            dfs_roots(*graph, init_dfs_state(graph.bound()), roots@, 0) == dfs_roots(
                *graph,
                search_state(color@, parent@, back@, nodes@, Seq::empty()),
                roots@,
                ridx as int,
            ),
        decreases roots@.len() - ridx,
    {
        let root: usize = roots[ridx];
        let ghost st_outer = search_state(color@, parent@, back@, nodes@, Seq::empty());
        if color[root] == 0 {
            color.set(root, 1);
            nodes.push(root);
            let mut stack: Vec<(usize, usize)> = Vec::new();
            stack.push((root, 0));
            proof {
                assert(stack@ =~= seq![(root, 0usize)]);
                assert(search_state(color@, parent@, back@, nodes@, stack@) == (DfsState {
                    color: st_outer.color.update(root as int, 1),
                    parent: st_outer.parent,
                    back: st_outer.back,
                    nodes: st_outer.nodes.push(root),
                    stack: seq![(root, 0usize)],
                }));
            }
            while stack.len() != 0
                invariant
                    graph.wf(),
                    bound == graph.bound(),
                    source_ok(*graph, source),
                    color@.len() == bound,
                    parent_ok(*graph, parent@),
                    back_ok(*graph, back@),
                    forall|k: int| 0 <= k < nodes@.len() ==> (#[trigger] nodes@[k]) < bound,
                    stack_ok(*graph, stack@),
                    forall|k: int|
                        0 <= k < stack@.len() ==> color@[(#[trigger] stack@[k]).0 as int] == 1,
                    forall|k1: int, k2: int|
                        0 <= k1 < k2 < stack@.len() ==> stack@[k1].0 != stack@[k2].0,
                    graph.rows_fit(),
                    roots@ == spec_roots(*graph, source),
                    dfs_roots(*graph, init_dfs_state(graph.bound()), roots@, 0) == (match dfs_run(
                        *graph,
                        search_state(color@, parent@, back@, nodes@, stack@),
                    ) {
                        Result::Ok(st2) => dfs_roots(*graph, st2, roots@, ridx as int + 1),
                        Result::Err(err) => Result::Err(err),
                    }),
                decreases
                        count_if(color@, |c: u8| c == 0),
                        stack_left(*graph, stack@),
                        stack@.len(),
                {
                    let ghost stack0 = stack@;
                    let ghost color0 = color@;
                    let ghost st_pre = search_state(color@, parent@, back@, nodes@, stack@);
                    let top: (usize, usize) = stack[stack.len() - 1];
                    let u: usize = top.0;
                    let i2: usize = top.1;
                    let row_len: usize = graph.adj[u].len();
                    if i2 < row_len {
                        stack.set(stack.len() - 1, (u, i2 + 1));
                        let ghost stack1 = stack@;
                        proof {
                            assert(stack0[stack0.len() - 1] == (u, i2));
                            assert(graph.row(u as int).len() == row_len);
                            assert(stack1.drop_last() =~= stack0.drop_last());
                            assert(stack1.last() == (u, (i2 + 1) as usize));
                            assert(stack0.last() == (u, i2));
                            assert(stack_left(*graph, stack1) == stack_left(
                                *graph,
                                stack1.drop_last(),
                            ) + entry_left(*graph, stack1.last()));
                            assert(stack_left(*graph, stack0) == stack_left(
                                *graph,
                                stack0.drop_last(),
                            ) + entry_left(*graph, stack0.last()));
                            assert(entry_left(*graph, stack1.last()) < entry_left(
                                *graph,
                                stack0.last(),
                            ));
                            assert forall|k: int| 0 <= k < stack1.len() implies entry_ok(
                                *graph,
                                #[trigger] stack1[k],
                            ) by {
                                assert(entry_ok(*graph, stack0[k]));
                            }
                        }
                        let v: usize = graph.adj[u][i2];
                        proof {
                            assert(graph.row(u as int)[i2 as int] == v);
                        }
                        if v >= bound {
                            proof {
                                assert(!graph.wf_edges()) by {
                                    if graph.wf_edges() {
                                        assert(graph.row(u as int)[i2 as int] < graph.bound());
                                    }
                                }
                                assert(dfs_state_ok(*graph, st_pre));
                                assert(dfs_run(*graph, st_pre) == Result::Err::<
                                    DfsState,
                                    GraphError,
                                >(GraphError::InvalidEdge));
                                assert(decompose_spec(*graph, source) == Result::Err::<
                                    Seq<Seq<(usize, usize)>>,
                                    GraphError,
                                >(GraphError::InvalidEdge));
                            }
                            return Result::Err(GraphError::InvalidEdge);
                        }
                        let cv: u8 = color[v];
                        if cv == 0 {
                            parent.set(v, Option::Some(u));
                            color.set(v, 1);
                            nodes.push(v);
                            stack.push((v, 0));
                            proof {
                                lemma_count_if_update_out(color0, |c: u8| c == 0, v as int, 1u8);
                                assert(graph.row(u as int).contains(v)) by {
                                    assert(graph.row(u as int)[i2 as int] == v);
                                }
                                assert forall|j: int| 0 <= j < parent@.len() implies match #[trigger] parent@[j] {
                                    Option::Some(p) => p < graph.bound() && graph.has_dir_edge(
                                        p,
                                        j as usize,
                                    ),
                                    Option::None => true,
                                } by {}
                                assert forall|k: int| 0 <= k < stack@.len() implies color@[(
                                #[trigger] stack@[k]).0 as int] == 1 by {
                                    if k < stack1.len() {
                                        assert(stack@[k] == stack1[k]);
                                        assert(color0[stack1[k].0 as int] == 1);
                                    }
                                }
                                assert forall|k1: int, k2: int|
                                    0 <= k1 < k2 < stack@.len() implies stack@[k1].0
                                    != stack@[k2].0 by {
                                    if k2 < stack1.len() {
                                        assert(stack@[k1] == stack1[k1]);
                                        assert(stack@[k2] == stack1[k2]);
                                        assert(stack1[k1].0 == stack0[k1].0);
                                        assert(stack1[k2].0 == stack0[k2].0);
                                    } else {
                                        assert(stack@[k1] == stack1[k1]);
                                        assert(color0[stack1[k1].0 as int] == 1);
                                        assert(color0[v as int] == 0);
                                    }
                                }
                                assert(dfs_state_ok(*graph, st_pre));
                                assert(dfs_run(*graph, st_pre) == dfs_run(
                                    *graph,
                                    search_state(color@, parent@, back@, nodes@, stack@),
                                ));
                            }
                        } else if cv == 1 {
                            let skip = match parent[u] {
                                Option::Some(p) => p == v,
                                Option::None => false,
                            };
                            if !skip {
                                let ghost back0 = back@;
                                back[v].push(u);
                                proof {
                                    assert(graph.row(u as int).contains(v)) by {
                                        assert(graph.row(u as int)[i2 as int] == v);
                                    }
                                    assert forall|a: int, k: int|
                                        0 <= a < back@.len() && 0 <= k < back@[a]@.len() implies (
                                    #[trigger] back@[a]@[k]) < graph.bound() && graph.has_dir_edge(
                                        back@[a]@[k],
                                        a as usize,
                                    ) by {
                                        if a == v as int {
                                            assert(back@[a]@ == back0[a]@.push(u));
                                            if k < back0[a]@.len() {
                                                assert(back@[a]@[k] == back0[a]@[k]);
                                            } else {
                                                assert(back@[a]@[k] == u);
                                                assert(graph.has_dir_edge(u, v));
                                            }
                                        } else {
                                            assert(back@[a] == back0[a]);
                                        }
                                    }
                                    assert(rows_view(back@) =~= rows_view(back0).update(
                                        v as int,
                                        rows_view(back0)[v as int].push(u),
                                    ));
                                    assert(st_pre.parent[u as int] != Option::Some(v));
                                    assert(dfs_state_ok(*graph, st_pre));
                                    assert(dfs_run(*graph, st_pre) == dfs_run(
                                        *graph,
                                        search_state(color@, parent@, back@, nodes@, stack@),
                                    ));
                                }
                            } else {
                                proof {
                                    assert(st_pre.parent[u as int] == Option::Some(v));
                                    assert(dfs_state_ok(*graph, st_pre));
                                    assert(dfs_run(*graph, st_pre) == dfs_run(
                                        *graph,
                                        search_state(color@, parent@, back@, nodes@, stack@),
                                    ));
                                }
                            }
                        } else {
                            proof {
                                assert(st_pre.color[v as int] != 0 && st_pre.color[v as int]
                                    != 1);
                                assert(dfs_state_ok(*graph, st_pre));
                                assert(dfs_run(*graph, st_pre) == dfs_run(
                                    *graph,
                                    search_state(color@, parent@, back@, nodes@, stack@),
                                ));
                            }
                        }
                    } else {
                        proof {
                            assert(color0[u as int] == 1) by {
                                assert(stack0[stack0.len() - 1].0 == u);
                            }
                            lemma_count_if_update_keep(color0, |c: u8| c == 0, u as int, 2u8);
                            assert(entry_ok(*graph, stack0[stack0.len() - 1]));
                            assert(entry_left(*graph, stack0.last()) == 0);
                            assert(stack_left(*graph, stack0) == stack_left(
                                *graph,
                                stack0.drop_last(),
                            ));
                        }
                        color.set(u, 2);
                        let _ = stack.pop();
                        proof {
                            assert forall|k: int| 0 <= k < stack@.len() implies color@[(
                            #[trigger] stack@[k]).0 as int] == 1 by {
                                assert(stack@[k] == stack0[k]);
                                assert(stack0[k].0 != u) by {
                                    assert(stack0[stack0.len() - 1].0 == u);
                                }
                            }
                            assert(graph.row(u as int).len() == row_len);
                            assert(stack@ =~= stack0.drop_last());
                            assert(dfs_state_ok(*graph, st_pre));
                            assert(dfs_run(*graph, st_pre) == dfs_run(
                                *graph,
                                search_state(color@, parent@, back@, nodes@, stack@),
                            ));
                        }
                    }
                }
            proof {
                let st_done = search_state(color@, parent@, back@, nodes@, stack@);
                assert(stack@ =~= Seq::<(usize, usize)>::empty());
                assert(dfs_state_ok(*graph, st_done));
                assert(dfs_run(*graph, st_done) == Result::Ok::<DfsState, GraphError>(st_done));
                assert(search_state(color@, parent@, back@, nodes@, Seq::empty()) == st_done);
            }
        } else {
            proof {
                assert(dfs_roots(*graph, st_outer, roots@, ridx as int) == dfs_roots(
                    *graph,
                    st_outer,
                    roots@,
                    ridx as int + 1,
                ));
            }
        }
        ridx = ridx + 1;
    }
    proof {
        assert(dfs_roots(
            *graph,
            search_state(color@, parent@, back@, nodes@, Seq::empty()),
            roots@,
            roots@.len() as int,
        ) == Result::Ok::<DfsState, GraphError>(
            search_state(color@, parent@, back@, nodes@, Seq::empty()),
        ));
    }
    let ghost st_final = search_state(color@, parent@, back@, nodes@, Seq::empty());
    proof {
        assert(dfs_roots(*graph, init_dfs_state(graph.bound()), roots@, 0) == Result::Ok::<
            DfsState,
            GraphError,
        >(st_final));
    }
    let mut visited: Vec<bool> = Vec::new();
    let mut i3: usize = 0;
    while i3 < bound
        invariant
            i3 <= bound,
            visited@.len() == i3,
            forall|j: int| 0 <= j < i3 ==> !visited@[j],
        decreases bound - i3,
    {
        visited.push(false);
        i3 = i3 + 1;
    }
    let ghost vis0 = Seq::new(graph.bound(), |j: int| false);
    let mut chains: Vec<Vec<(usize, usize)>> = Vec::new();
    proof {
        assert(visited@ =~= vis0);
        assert(chains_view(chains@) =~= Seq::<Seq<(usize, usize)>>::empty());
    }
    let mut idx: usize = 0;
    while idx < nodes.len()
        invariant
            graph.wf(),
            bound == graph.bound(),
            source_ok(*graph, source),
            visited@.len() == bound,
            parent_ok(*graph, parent@),
            back_ok(*graph, back@),
            forall|k: int| 0 <= k < nodes@.len() ==> (#[trigger] nodes@[k]) < bound,
            forall|c: int|
                0 <= c < chains@.len() ==> chain_wf(*graph, (#[trigger] chains@[c])@)
                    && sources_distinct(chains@[c]@),
            roots@ == spec_roots(*graph, source),
            dfs_roots(*graph, init_dfs_state(graph.bound()), roots@, 0) == Result::Ok::<
                DfsState,
                GraphError,
            >(st_final),
            st_final.parent == parent@,
            st_final.back == rows_view(back@),
            st_final.nodes == nodes@,
            vis0 == Seq::new(graph.bound(), |j: int| false),
            emit_all(parent@, rows_view(back@), nodes@, 0, vis0, Seq::empty()) == emit_all(
                parent@,
                rows_view(back@),
                nodes@,
                idx as int,
                visited@,
                chains_view(chains@),
            ),
        decreases nodes@.len() - idx,
    {
        let u: usize = nodes[idx];
        let ghost vis_head = visited@;
        visited.set(u, true);
        proof {
            assert(visited@ =~= vis_head.update(u as int, true));
            assert(rows_view(back@)[u as int] == back@[u as int]@);
        }
        let nb: usize = back[u].len();
        let mut j: usize = 0;
        while j < nb
            invariant
                graph.wf(),
                bound == graph.bound(),
                source_ok(*graph, source),
                visited@.len() == bound,
                parent_ok(*graph, parent@),
                back_ok(*graph, back@),
                u < bound,
                j <= nb,
                nb == back@[u as int]@.len(),
                visited@[u as int],
                idx < nodes@.len(),
                u == nodes@[idx as int],
                forall|c: int|
                    0 <= c < chains@.len() ==> chain_wf(*graph, (#[trigger] chains@[c])@)
                        && sources_distinct(chains@[c]@),
                roots@ == spec_roots(*graph, source),
                dfs_roots(*graph, init_dfs_state(graph.bound()), roots@, 0) == Result::Ok::<
                    DfsState,
                    GraphError,
                >(st_final),
                st_final.parent == parent@,
                st_final.back == rows_view(back@),
                st_final.nodes == nodes@,
                vis0 == Seq::new(graph.bound(), |j2: int| false),
                emit_all(parent@, rows_view(back@), nodes@, 0, vis0, Seq::empty()) == emit_all(
                    parent@,
                    rows_view(back@),
                    nodes@,
                    idx as int + 1,
                    emit_row(
                        parent@,
                        u,
                        rows_view(back@)[u as int],
                        j as int,
                        visited@,
                        chains_view(chains@),
                    ).0,
                    emit_row(
                        parent@,
                        u,
                        rows_view(back@)[u as int],
                        j as int,
                        visited@,
                        chains_view(chains@),
                    ).1,
                ),
            decreases nb - j,
        {
            let v: usize = back[u][j];
            proof {
                assert(back@[u as int]@[j as int] == v);
                assert(rows_view(back@)[u as int][j as int] == v);
            }
            let ghost chains0 = chains@;
            let ghost vis_pre = visited@;
            let chain = build_chain(graph, &parent, u, v, &mut visited);
            chains.push(chain);
            proof {
                assert forall|c: int| 0 <= c < chains@.len() implies chain_wf(
                    *graph,
                    (#[trigger] chains@[c])@,
                ) && sources_distinct(chains@[c]@) by {
                    if c < chains0.len() {
                        assert(chains@[c] == chains0[c]);
                    } else {
                        assert(chains@[c] == chain);
                    }
                }
                assert(chains_view(chains@) =~= chains_view(chains0).push(chain@));
                assert(emit_row(
                    parent@,
                    u,
                    rows_view(back@)[u as int],
                    j as int,
                    vis_pre,
                    chains_view(chains0),
                ) == emit_row(
                    parent@,
                    u,
                    rows_view(back@)[u as int],
                    j as int + 1,
                    visited@,
                    chains_view(chains@),
                ));
            }
            j = j + 1;
        }
        proof {
            assert(emit_row(
                parent@,
                u,
                rows_view(back@)[u as int],
                nb as int,
                visited@,
                chains_view(chains@),
            ) == (visited@, chains_view(chains@)));
        }
        idx = idx + 1;
    }
    proof {
        assert(emit_all(
            parent@,
            rows_view(back@),
            nodes@,
            nodes@.len() as int,
            visited@,
            chains_view(chains@),
        ) == (visited@, chains_view(chains@)));
        assert(decompose_spec(*graph, source) == Result::Ok::<
            Seq<Seq<(usize, usize)>>,
            GraphError,
        >(chains_view(chains@)));
    }
    Result::Ok(chains)
}

} // verus!
