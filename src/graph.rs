use vstd::prelude::*;

verus! {

/// A vertex identifier, dense in `0..n`.
pub type Vertex = usize;

/// An edge length or an accumulated path length, in whole distance units.
pub type Distance = u64;

/// A directed edge `(from, to, length)`.
pub type WeightedEdge = (Vertex, Vertex, Distance);

/// For each vertex, its neighbours with the length of the edge to each.
pub type AdjacencyList = Vec<Vec<(Vertex, Distance)>>;

/// A flat edge list over the vertices `0..n`.
pub struct WeightedGraph {
    pub edges: Vec<WeightedEdge>,
    pub n: usize,
}

impl WeightedGraph {
    /// Every edge joins two vertices below `n`.
    pub open spec fn well_formed(&self) -> bool {
        forall|i: int| 0 <= i < self.edges@.len() ==> {
            &&& (#[trigger] self.edges@[i]).0 < self.n
            &&& self.edges@[i].1 < self.n
        }
    }
}

/// The neighbour entries that the edges list for vertex `u`, in edge order.
pub open spec fn out_edges(edges: Seq<WeightedEdge>, u: int) -> Seq<(Vertex, Distance)>
    decreases edges.len(),
{
    if edges.len() == 0 {
        Seq::empty()
    } else {
        let e = edges.last();
        let rest = out_edges(edges.drop_last(), u);
        if e.0 as int == u {
            rest.push((e.1, e.2))
        } else {
            rest
        }
    }
}

/// An adjacency list is well formed over `n` vertices when it has one entry per
/// vertex and every neighbour it names is a vertex.
pub open spec fn adjacency_well_formed(adj: Seq<Seq<(Vertex, Distance)>>) -> bool {
    forall|u: int, j: int|
        0 <= u < adj.len() && 0 <= j < adj[u].len() ==> (#[trigger] adj[u][j]).0 < adj.len()
}

/// The view of an adjacency list as a sequence of neighbour sequences.
pub open spec fn adjacency_view(adj: &AdjacencyList) -> Seq<Seq<(Vertex, Distance)>> {
    adj@.map_values(|row: Vec<(Vertex, Distance)>| row@)
}

/// Builds the adjacency list of `graph`: vertex `u`'s row lists `(v, length)`
/// for each edge `(u, v, length)`, in the order of the edges, duplicates kept.
pub fn create_adjacency_list(graph: &WeightedGraph) -> (adjacency_list: AdjacencyList)
    requires
        graph.well_formed(),
    ensures
        adjacency_list@.len() == graph.n,
        forall|u: int| 0 <= u < graph.n ==> #[trigger] adjacency_list@[u]@ == out_edges(graph.edges@, u),
        adjacency_well_formed(adjacency_view(&adjacency_list)),
{
    let mut adjacency_list: AdjacencyList = Vec::new();
    let mut k: usize = 0;
    while k < graph.n
        invariant
            k <= graph.n,
            adjacency_list@.len() == k,
            forall|u: int| 0 <= u < k ==> #[trigger] adjacency_list@[u]@ == Seq::<(Vertex, Distance)>::empty(),
        decreases graph.n - k,
    {
        adjacency_list.push(Vec::new());
        k = k + 1;
    }
    let mut i: usize = 0;
    while i < graph.edges.len()
        invariant
            graph.well_formed(),
            i <= graph.edges@.len(),
            adjacency_list@.len() == graph.n,
            forall|u: int| 0 <= u < graph.n ==> #[trigger] adjacency_list@[u]@ == out_edges(graph.edges@.subrange(0, i as int), u),
        decreases graph.edges@.len() - i,
    {
        let (u, v, length) = graph.edges[i];
        let ghost before = adjacency_list@;
        let mut row: Vec<(Vertex, Distance)> = Vec::new();
        std::mem::swap(&mut row, &mut adjacency_list[u]);
        row.push((v, length));
        adjacency_list.set(u, row);
        proof {
            let es = graph.edges@.subrange(0, i as int + 1);
            assert(es.drop_last() =~= graph.edges@.subrange(0, i as int));
            assert forall|x: int| 0 <= x < graph.n implies #[trigger] adjacency_list@[x]@ == out_edges(es, x) by {
                assert(out_edges(es, x) == if x == u as int {
                    out_edges(es.drop_last(), x).push((v, length))
                } else {
                    out_edges(es.drop_last(), x)
                });
                if x != u as int {
                    assert(adjacency_list@[x] == before[x]);
                }
            }
        }
        i = i + 1;
    }
    assert(graph.edges@.subrange(0, graph.edges@.len() as int) =~= graph.edges@);
    proof {
        assert forall|u: int, j: int|
            0 <= u < graph.n && 0 <= j < adjacency_view(&adjacency_list)[u].len() implies
            (#[trigger] adjacency_view(&adjacency_list)[u][j]).0 < graph.n by {
            lemma_out_edges_in_range(graph.edges@, graph.n, u, j);
        }
    }
    adjacency_list
}

/// Every neighbour listed for a vertex is an endpoint of some edge, so it lies
/// below the vertex count when the edges do.
pub proof fn lemma_out_edges_in_range(edges: Seq<WeightedEdge>, n: usize, u: int, j: int)
    requires
        forall|i: int| 0 <= i < edges.len() ==> (#[trigger] edges[i]).1 < n,
        0 <= j < out_edges(edges, u).len(),
    ensures
        out_edges(edges, u)[j].0 < n,
    decreases edges.len(),
{
    if edges.len() > 0 {
        let rest = out_edges(edges.drop_last(), u);
        if j < rest.len() {
            assert forall|i: int| 0 <= i < edges.drop_last().len() implies (#[trigger] edges.drop_last()[i]).1 < n by {
                assert(edges.drop_last()[i] == edges[i]);
            }
            lemma_out_edges_in_range(edges.drop_last(), n, u, j);
        } else {
            assert(edges[edges.len() - 1].1 < n);
        }
    }
}

/// Both directions of every undirected edge, in input order: `(u, v, w)`
/// gives `(u, v, w)` and then `(v, u, w)`.
pub open spec fn symmetric_edges(undirected: Seq<WeightedEdge>) -> Seq<WeightedEdge>
    decreases undirected.len(),
{
    if undirected.len() == 0 {
        Seq::empty()
    } else {
        let e = undirected.last();
        symmetric_edges(undirected.drop_last()).push((e.0, e.1, e.2)).push((e.1, e.0, e.2))
    }
}

/// The largest vertex named by the first `len` edges, 0 when there are none.
pub open spec fn max_vertex(undirected: Seq<WeightedEdge>, len: int) -> Vertex
    decreases len,
{
    if len <= 0 {
        0
    } else {
        let e = undirected[len - 1];
        let m = max_vertex(undirected, len - 1);
        let m1 = if e.0 > m { e.0 } else { m };
        if e.1 > m1 { e.1 } else { m1 }
    }
}

/// Builds the graph of a list of undirected edges: each edge is stored in both
/// directions, and the vertex count is one more than the largest vertex named
/// (1 when there are no edges).
pub fn build_weighted_graph(undirected: &Vec<WeightedEdge>) -> (graph: WeightedGraph)
    requires
        forall|i: int| 0 <= i < undirected@.len() ==> {
            &&& (#[trigger] undirected@[i]).0 < usize::MAX
            &&& undirected@[i].1 < usize::MAX
        },
    ensures
        graph.edges@ == symmetric_edges(undirected@),
        graph.n == max_vertex(undirected@, undirected@.len() as int) + 1,
        graph.well_formed(),
{
    let mut edges: Vec<WeightedEdge> = Vec::new();
    let mut max_id: Vertex = 0;
    let mut i: usize = 0;
    while i < undirected.len()
        invariant
            forall|x: int| 0 <= x < undirected@.len() ==> {
                &&& (#[trigger] undirected@[x]).0 < usize::MAX
                &&& undirected@[x].1 < usize::MAX
            },
            i <= undirected@.len(),
            edges@ == symmetric_edges(undirected@.subrange(0, i as int)),
            max_id == max_vertex(undirected@, i as int),
            max_id < usize::MAX,
            forall|x: int| 0 <= x < edges@.len() ==> {
                &&& (#[trigger] edges@[x]).0 <= max_id
                &&& edges@[x].1 <= max_id
            },
        decreases undirected@.len() - i,
    {
        let (u, v, w) = undirected[i];
        assert(undirected@.subrange(0, i as int + 1).drop_last() =~= undirected@.subrange(0, i as int));
        edges.push((u, v, w));
        edges.push((v, u, w));
        if u > max_id {
            max_id = u;
        }
        if v > max_id {
            max_id = v;
        }
        i = i + 1;
    }
    assert(undirected@.subrange(0, undirected@.len() as int) =~= undirected@);
    WeightedGraph { edges, n: max_id + 1 }
}

} // verus!
