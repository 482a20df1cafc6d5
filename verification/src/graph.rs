//! Directed graph stored as an adjacency list, with validated edge insertion
//! and a breadth-first reachability query.

use crate::reachability::count_true;
use crate::reachability::lemma_closed_unreachable;
use crate::reachability::lemma_count_true_le_len;
use crate::reachability::lemma_count_true_set;
use crate::reachability::lemma_reachable_self;
use crate::reachability::lemma_reachable_step;
use crate::reachability::reachable;
use vstd::prelude::*;

verus! {

/// `x` waits in the pending part of the traversal queue, at or after `head`.
spec fn in_frontier(q: Seq<usize>, head: int, x: usize) -> bool {
    exists|k: int| head <= k < q.len() && q[k] == x
}

proof fn lemma_frontier_after_push(q: Seq<usize>, head: int, x: usize, w: usize)
    requires
        0 <= head <= q.len(),
        in_frontier(q, head, x) || x == w,
    ensures
        in_frontier(q.push(w), head, x),
{
    if in_frontier(q, head, x) {
        let k = choose|k: int| head <= k < q.len() && q[k] == x;
        assert(q.push(w)[k] == x);
    } else {
        assert(q.push(w)[q.len() as int] == x);
    }
}

proof fn lemma_frontier_advance(q: Seq<usize>, head: int, x: usize)
    requires
        in_frontier(q, head, x),
        0 <= head < q.len(),
    ensures
        x == q[head] || in_frontier(q, head + 1, x),
{
    let k = choose|k: int| head <= k < q.len() && q[k] == x;
    if k != head {
        assert(head + 1 <= k < q.len() && q[k] == x);
    }
}

/// Errors returned by graph operations.
#[derive(Debug, Clone, Copy, PartialEq, Eq, Structural)]
pub enum GraphError {
    InvalidNode(usize),
    EdgeExists(usize, usize),
    NoPath(usize, usize),
}

/// Total number of neighbor entries over all per-node lists.
pub open spec fn total_edges(adj: Seq<Seq<usize>>) -> int
    decreases adj.len(),
{
    if adj.len() == 0 {
        0
    } else {
        total_edges(adj.drop_last()) + adj.last().len()
    }
}

proof fn lemma_total_edges_all_empty(adj: Seq<Seq<usize>>)
    requires
        forall|i: int| 0 <= i < adj.len() ==> adj[i].len() == 0,
    ensures
        total_edges(adj) == 0,
    decreases adj.len(),
{
    if adj.len() > 0 {
        lemma_total_edges_all_empty(adj.drop_last());
    }
}

proof fn lemma_total_edges_update(adj: Seq<Seq<usize>>, i: int, l: Seq<usize>)
    requires
        0 <= i < adj.len(),
    ensures
        total_edges(adj.update(i, l)) == total_edges(adj) - adj[i].len() + l.len(),
    decreases adj.len(),
{
    if i == adj.len() - 1 {
        assert(adj.update(i, l).drop_last() =~= adj.drop_last());
        assert(adj.update(i, l).last() == l);
    } else {
        lemma_total_edges_update(adj.drop_last(), i, l);
        assert(adj.update(i, l).drop_last() =~= adj.drop_last().update(i, l));
        assert(adj.update(i, l).last() == adj.last());
    }
}

/// Directed graph over nodes `0 .. node_count`: a per-node list of outgoing
/// neighbors, with a node count fixed at construction and a derived edge
/// counter.
#[derive(Debug, Clone)]
pub struct Graph {
    adjacency_list: Vec<Vec<usize>>,
    node_count: usize,
    edge_count: usize,
}

impl Graph {
    /// The adjacency list, as a sequence of neighbor sequences.
    pub closed spec fn adj(&self) -> Seq<Seq<usize>> {
        self.adjacency_list@.map_values(|l: Vec<usize>| l@)
    }

    /// The number of nodes.
    pub closed spec fn nodes(&self) -> nat {
        self.node_count as nat
    }

    /// The number of edges inserted so far.
    pub closed spec fn edges(&self) -> nat {
        self.edge_count as nat
    }

    /// The edge `from -> to` is present and both endpoints are in range.
    pub open spec fn spec_has_edge(&self, from: usize, to: usize) -> bool {
        from < self.nodes() && to < self.nodes() && self.adj()[from as int].contains(to)
    }

    /// Structural invariant: the adjacency list has one entry per node, every
    /// stored neighbor is in range, no list repeats a neighbor, and the edge
    /// counter equals the number of stored neighbor entries.
    pub open spec fn wf(&self) -> bool {
        &&& self.adj().len() == self.nodes()
        &&& forall|i: int, j: int|
            0 <= i < self.adj().len() && 0 <= j < self.adj()[i].len()
                ==> self.adj()[i][j] < self.nodes()
        &&& forall|i: int| 0 <= i < self.adj().len() ==> (#[trigger] self.adj()[i]).no_duplicates()
        &&& self.edges() as int == total_edges(self.adj())
    }

    /// Creates a graph with `nodes` nodes and no edges.
    pub fn new(nodes: usize) -> (g: Graph)
        ensures
            g.wf(),
            g.nodes() == nodes,
            g.edges() == 0,
            forall|i: int| 0 <= i < nodes ==> g.adj()[i] == Seq::<usize>::empty(),
    {
        let mut adjacency_list: Vec<Vec<usize>> = Vec::with_capacity(nodes);
        let mut i: usize = 0;
        while i < nodes
            invariant
                i <= nodes,
                adjacency_list@.len() == i,
                forall|k: int| 0 <= k < i ==> (#[trigger] adjacency_list@[k])@ == Seq::<usize>::empty(),
            decreases nodes - i,
        {
            adjacency_list.push(Vec::with_capacity(nodes));
            i = i + 1;
        }
        let g = Graph { adjacency_list, node_count: nodes, edge_count: 0 };
        proof {
            assert(forall|k: int| 0 <= k < nodes ==> g.adj()[k] == Seq::<usize>::empty());
            lemma_total_edges_all_empty(g.adj());
        }
        g
    }

    /// Returns the number of nodes in the graph.
    pub fn node_count(&self) -> (n: usize)
        ensures
            n == self.nodes(),
    {
        self.node_count
    }

    /// Returns the number of edges in the graph.
    pub fn edge_count(&self) -> (n: usize)
        ensures
            n == self.edges(),
    {
        self.edge_count
    }

    /// Adds the directed edge `src -> dest`.
    ///
    /// Fails with `InvalidNode` carrying the larger index if either endpoint
    /// is out of range, with `EdgeExists` if the edge is already present;
    /// otherwise appends `dest` to `src`'s neighbor list and counts the edge.
    /// The node check strictly precedes the duplicate check.
    pub fn add_edge(&mut self, src: usize, dest: usize) -> (r: Result<(), GraphError>)
        requires
            old(self).wf(),
            old(self).edges() < usize::MAX,
        ensures
            final(self).wf(),
            final(self).nodes() == old(self).nodes(),
            src >= old(self).nodes() || dest >= old(self).nodes() ==> {
                &&& r == Err::<(), GraphError>(
                    GraphError::InvalidNode(if src >= dest { src } else { dest }),
                )
                &&& *final(self) == *old(self)
            },
            src < old(self).nodes() && dest < old(self).nodes() && old(self).adj()[
                src as int
            ].contains(dest) ==> {
                &&& r == Err::<(), GraphError>(GraphError::EdgeExists(src, dest))
                &&& *final(self) == *old(self)
            },
            src < old(self).nodes() && dest < old(self).nodes() && !old(self).adj()[
                src as int
            ].contains(dest) ==> {
                &&& r == Ok::<(), GraphError>(())
                &&& final(self).adj() == old(self).adj().update(
                    src as int,
                    old(self).adj()[src as int].push(dest),
                )
                &&& final(self).edges() == old(self).edges() + 1
                &&& final(self).spec_has_edge(src, dest)
            },
    {
        if src >= self.node_count || dest >= self.node_count {
            let worst: usize = if src >= dest {
                src
            } else {
                dest
            };
            return Err(GraphError::InvalidNode(worst));
        }
        if vec_contains(&self.adjacency_list[src], dest) {
            return Err(GraphError::EdgeExists(src, dest));
        }
        let ghost old_adj = self.adj();
        let list = &mut self.adjacency_list[src];
        list.push(dest);
        self.edge_count = self.edge_count + 1;
        proof {
            assert(self.adj() =~= old_adj.update(src as int, old_adj[src as int].push(dest)));
            assert(self.adj()[src as int][old_adj[src as int].len() as int] == dest);
            assert(self.adj()[src as int].contains(dest));
            lemma_total_edges_update(
                old_adj,
                src as int,
                old_adj[src as int].push(dest),
            );
        }
        Ok(())
    }

    /// Tells whether some directed path (of zero or more edges) leads from
    /// `src` to `dest`, by breadth-first traversal.
    ///
    /// Fails with `InvalidNode` carrying the larger index if either endpoint
    /// is out of range. `src == dest` counts as reachable even without a
    /// self-loop.
    #[verifier::loop_isolation(false)]
    pub fn has_path(&self, src: usize, dest: usize) -> (r: Result<bool, GraphError>)
        requires
            self.wf(),
        ensures
            src >= self.nodes() || dest >= self.nodes() ==> r == Err::<bool, GraphError>(
                GraphError::InvalidNode(if src >= dest { src } else { dest }),
            ),
            src < self.nodes() && dest < self.nodes() ==> r == Ok::<bool, GraphError>(
                reachable(self.adj(), src, dest),
            ),
    {
        if src >= self.node_count || dest >= self.node_count {
            let worst: usize = if src >= dest {
                src
            } else {
                dest
            };
            return Err(GraphError::InvalidNode(worst));
        }
        let n = self.node_count;
        let mut visited: Vec<bool> = Vec::with_capacity(n);
        let mut i: usize = 0;
        while i < n
            invariant
                i <= n,
                visited@.len() == i,
                forall|k: int| 0 <= k < i ==> !visited@[k],
            decreases n - i,
        {
            visited.push(false);
            i = i + 1;
        }
        let mut queue: Vec<usize> = Vec::new();
        let mut head: usize = 0;
        queue.push(src);
        proof {
            lemma_reachable_self(self.adj(), src);
            lemma_count_true_le_len(visited@);
            assert(queue@[0] == src);
        }
        while head < queue.len()
            invariant
                visited@.len() == n,
                head <= queue@.len(),
                count_true(visited@) <= n,
                forall|k: int| 0 <= k < queue@.len() ==> (#[trigger] queue@[k]) < n,
                forall|k: int|
                    head <= k < queue@.len() ==> reachable(self.adj(), src, #[trigger] queue@[k]),
                forall|v: int| 0 <= v < n && visited@[v] ==> v != dest,
                visited@[src as int] || in_frontier(queue@, head as int, src),
                forall|v: int, j: int|
                    0 <= v < n && visited@[v] && 0 <= j < self.adj()[v].len()
                        ==> visited@[#[trigger] self.adj()[v][j] as int] || in_frontier(
                        queue@,
                        head as int,
                        self.adj()[v][j],
                    ),
            decreases n - count_true(visited@), queue@.len() - head,
        {
            let ghost q0 = queue@;
            let ghost h0 = head as int;
            let ghost vis0 = visited@;
            let node = queue[head];
            head = head + 1;
            if node == dest {
                return Ok(true);
            }
            if visited[node] {
                proof {
                    if !vis0[src as int] {
                        lemma_frontier_advance(q0, h0, src);
                    }
                    assert forall|v: int, j: int|
                        0 <= v < n && visited@[v] && 0 <= j < self.adj()[v].len() implies visited@[
                        #[trigger] self.adj()[v][j] as int
                    ] || in_frontier(queue@, head as int, self.adj()[v][j]) by {
                        let w2 = self.adj()[v][j];
                        if !visited@[w2 as int] {
                            lemma_frontier_advance(q0, h0, w2);
                        }
                    }
                }
            } else {
                visited[node] = true;
                proof {
                    lemma_count_true_set(vis0, node as int);
                    lemma_count_true_le_len(visited@);
                    if !vis0[src as int] {
                        lemma_frontier_advance(q0, h0, src);
                    }
                    assert forall|v: int, j: int|
                        0 <= v < n && visited@[v] && 0 <= j < self.adj()[v].len() && v
                        != node as int implies visited@[#[trigger] self.adj()[v][j] as int]
                        || in_frontier(queue@, head as int, self.adj()[v][j]) by {
                        let w2 = self.adj()[v][j];
                        if !visited@[w2 as int] {
                            lemma_frontier_advance(q0, h0, w2);
                        }
                    }
                }
                let neighbors = &self.adjacency_list[node];
                let mut j: usize = 0;
                while j < neighbors.len()
                    invariant
                        j <= neighbors@.len(),
                        neighbors@ == self.adjacency_list@[node as int]@,
                        head <= queue@.len(),
                        forall|k: int| 0 <= k < queue@.len() ==> (#[trigger] queue@[k]) < n,
                        forall|k: int|
                            head <= k < queue@.len() ==> reachable(
                                self.adj(),
                                src,
                                #[trigger] queue@[k],
                            ),
                        visited@[src as int] || in_frontier(queue@, head as int, src),
                        forall|v: int, jj: int|
                            0 <= v < n && visited@[v] && 0 <= jj < self.adj()[v].len() && (v
                                != node as int || jj < j) ==> visited@[
                                #[trigger] self.adj()[v][jj] as int
                            ] || in_frontier(queue@, head as int, self.adj()[v][jj]),
                    decreases neighbors@.len() - j,
                {
                    let w = neighbors[j];
                    let ghost qa = queue@;
                    proof {
                        assert(self.adj()[node as int][j as int] == w);
                        assert(self.adj()[node as int].contains(w));
                        lemma_reachable_step(self.adj(), src, node, w);
                    }
                    queue.push(w);
                    proof {
                        assert(queue@ == qa.push(w));
                        if !visited@[src as int] {
                            lemma_frontier_after_push(qa, head as int, src, w);
                        }
                        assert forall|v: int, jj: int|
                            0 <= v < n && visited@[v] && 0 <= jj < self.adj()[v].len() && (v
                                != node as int || jj < j + 1) implies visited@[
                            #[trigger] self.adj()[v][jj] as int
                        ] || in_frontier(queue@, head as int, self.adj()[v][jj]) by {
                            let w2 = self.adj()[v][jj];
                            if !visited@[w2 as int] {
                                lemma_frontier_after_push(qa, head as int, w2, w);
                            }
                        }
                    }
                    j = j + 1;
                }
            }
        }
        proof {
            assert(visited@[src as int]);
            lemma_closed_unreachable(self.adj(), visited@, src, dest);
        }
        Ok(false)
    }

    /// Tells whether the edge `from -> to` is present. Out-of-range indices
    /// and absent pairs both yield `false`; this query never fails.
    pub fn has_edge(&self, from: usize, to: usize) -> (r: bool)
        requires
            self.wf(),
        ensures
            r == self.spec_has_edge(from, to),
    {
        if from >= self.node_count || to >= self.node_count {
            return false;
        }
        vec_contains(&self.adjacency_list[from], to)
    }
}

/// After a successful insertion of `src -> dest`, exactly that pair is newly
/// present: every other pair is an edge of the new graph just when it was one
/// of the old.
pub proof fn lemma_has_edge_after_add_edge(g: Graph, g2: Graph, src: usize, dest: usize)
    requires
        g.wf(),
        src < g.nodes(),
        dest < g.nodes(),
        g2.nodes() == g.nodes(),
        g2.adj() == g.adj().update(src as int, g.adj()[src as int].push(dest)),
    ensures
        forall|a: usize, b: usize|
            #[trigger] g2.spec_has_edge(a, b) <==> g.spec_has_edge(a, b) || (a == src && b
                == dest),
{
    assert forall|a: usize, b: usize|
        #[trigger] g2.spec_has_edge(a, b) <==> g.spec_has_edge(a, b) || (a == src && b
            == dest) by {
        if a < g.nodes() && b < g.nodes() {
            if a == src {
                let l = g.adj()[a as int];
                assert(g2.adj()[a as int] == l.push(dest));
                if b == dest {
                    assert(l.push(dest)[l.len() as int] == dest);
                    assert(g2.spec_has_edge(a, b));
                } else {
                    if g.spec_has_edge(a, b) {
                        let j = choose|j: int| 0 <= j < l.len() && l[j] == b;
                        assert(l.push(dest)[j] == b);
                    }
                    if g2.spec_has_edge(a, b) {
                        let j = choose|j: int|
                            0 <= j < l.push(dest).len() && l.push(dest)[j] == b;
                        assert(j < l.len() && l[j] == b);
                    }
                }
            } else {
                assert(g2.adj()[a as int] == g.adj()[a as int]);
            }
        }
    }
}

/// Linear scan for a value in a neighbor list.
fn vec_contains(list: &Vec<usize>, x: usize) -> (r: bool)
    ensures
        r == list@.contains(x),
{
    let mut k: usize = 0;
    while k < list.len()
        invariant
            k <= list@.len(),
            forall|m: int| 0 <= m < k ==> list@[m] != x,
        decreases list@.len() - k,
    {
        if list[k] == x {
            assert(list@[k as int] == x);
            return true;
        }
        k = k + 1;
    }
    false
}

} // verus!
