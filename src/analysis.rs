use vstd::prelude::*;
use crate::graph::{AdjacencyList, Distance, Vertex, adjacency_view, adjacency_well_formed};
use crate::search::{bounded_search, search_outcome, weights_fit};
use crate::stats::{DegreeStat, lemma_count_excludes, lemma_empty_total, stat_at, stat_for_degree};

verus! {

/// The statistics of source `s` at hop count `k`, over the final snapshot of
/// the search from `s`.
pub open spec fn degree_stat(adj: Seq<Seq<(Vertex, Distance)>>, max_degree: usize, s: Vertex, k: usize) -> DegreeStat {
    let out = search_outcome(adj, max_degree, s);
    stat_at(out.dist, out.hops, k)
}

/// The table is `max_degree` rows of one entry per vertex, entry `[k][s]`
/// being the statistics of source `s` at hop count `k + 1`.
pub open spec fn is_degree_table(table: Seq<Seq<DegreeStat>>, adj: Seq<Seq<(Vertex, Distance)>>, max_degree: usize) -> bool {
    &&& table.len() == max_degree
    &&& forall|k: int| 0 <= k < max_degree ==> (#[trigger] table[k]).len() == adj.len()
    &&& forall|k: int, s: int|
        0 <= k < max_degree && 0 <= s < adj.len() ==> #[trigger] table[k][s] == degree_stat(
            adj,
            max_degree,
            s as Vertex,
            (k + 1) as usize,
        )
}

/// The view of a table as nested sequences.
pub open spec fn table_view(table: &Vec<Vec<DegreeStat>>) -> Seq<Seq<DegreeStat>> {
    table@.map_values(|row: Vec<DegreeStat>| row@)
}

/// Runs the bounded search from every vertex in turn and tabulates, for each
/// hop count `1..=max_degree` and each source, how many vertices were recorded
/// at exactly that hop count and the sum of their distances. No source counts
/// itself, and an entry that reaches nothing sums to 0.
pub fn analyze_by_degrees_of_separation(graph: &AdjacencyList, max_degree: usize) -> (results: Vec<Vec<DegreeStat>>)
    requires
        adjacency_well_formed(adjacency_view(graph)),
        weights_fit(adjacency_view(graph), max_degree),
    ensures
        is_degree_table(table_view(&results), adjacency_view(graph), max_degree),
        forall|k: int, s: int|
            0 <= k < max_degree && 0 <= s < graph@.len() ==> {
                &&& (#[trigger] results@[k]@[s]).reachable_count < graph@.len()
                &&& results@[k]@[s].reachable_count == 0 ==> results@[k]@[s].total_distance == 0
            },
{
    let ghost adj = adjacency_view(graph);
    let n = graph.len();
    let mut results: Vec<Vec<DegreeStat>> = Vec::new();
    let mut k: usize = 0;
    while k < max_degree
        invariant
            k <= max_degree,
            results@.len() == k,
            forall|x: int| 0 <= x < k ==> (#[trigger] results@[x])@.len() == 0,
        decreases max_degree - k,
    {
        results.push(Vec::new());
        k = k + 1;
    }
    let mut start: usize = 0;
    while start < n
        invariant
            adj == adjacency_view(graph),
            adjacency_well_formed(adj),
            weights_fit(adj, max_degree),
            n == graph@.len(),
            start <= n,
            results@.len() == max_degree,
            forall|x: int| 0 <= x < max_degree ==> (#[trigger] results@[x])@.len() == start,
            forall|x: int, s: int|
                0 <= x < max_degree && 0 <= s < start ==> {
                    &&& #[trigger] results@[x]@[s] == degree_stat(adj, max_degree, s as Vertex, (x + 1) as usize)
                    &&& results@[x]@[s].reachable_count < n
                    &&& results@[x]@[s].reachable_count == 0 ==> results@[x]@[s].total_distance == 0
                },
        decreases n - start,
    {
        let (distances, degrees) = bounded_search(graph, start, max_degree);
        let mut x: usize = 0;
        while x < max_degree
            invariant
                n == graph@.len(),
                start < n,
                x <= max_degree,
                distances@ == search_outcome(adj, max_degree, start).dist,
                degrees@ == search_outcome(adj, max_degree, start).hops,
                distances@.len() == n,
                degrees@.len() == n,
                degrees@[start as int] == Some(0usize),
                results@.len() == max_degree,
                forall|y: int| 0 <= y < x ==> (#[trigger] results@[y])@.len() == start + 1,
                forall|y: int| x <= y < max_degree ==> (#[trigger] results@[y])@.len() == start,
                forall|y: int, s: int|
                    0 <= y < max_degree && 0 <= s < start + 1 && (s < start || y < x) ==> {
                        &&& #[trigger] results@[y]@[s] == degree_stat(adj, max_degree, s as Vertex, (y + 1) as usize)
                        &&& results@[y]@[s].reachable_count < n
                        &&& results@[y]@[s].reachable_count == 0 ==> results@[y]@[s].total_distance == 0
                    },
            decreases max_degree - x,
        {
            let stat = stat_for_degree(&distances, &degrees, x + 1);
            proof {
                lemma_count_excludes(degrees@, (x + 1) as usize, start as int);
                assert(degrees@.subrange(0, n as int) =~= degrees@);
                if stat.reachable_count == 0 {
                    lemma_empty_total(distances@, degrees@, (x + 1) as usize, n as int);
                }
            }
            let ghost before = results@;
            let mut row: Vec<DegreeStat> = Vec::new();
            std::mem::swap(&mut row, &mut results[x]);
            row.push(stat);
            results.set(x, row);
            assert forall|y: int, s: int|
                0 <= y < max_degree && 0 <= s < start + 1 && (s < start || y < x + 1) implies {
                    &&& #[trigger] results@[y]@[s] == degree_stat(adj, max_degree, s as Vertex, (y + 1) as usize)
                    &&& results@[y]@[s].reachable_count < n
                    &&& results@[y]@[s].reachable_count == 0 ==> results@[y]@[s].total_distance == 0
                } by {
                if y != x as int {
                    assert(results@[y] == before[y]);
                }
            }
            x = x + 1;
        }
        start = start + 1;
    }
    assert(is_degree_table(table_view(&results), adj, max_degree));
    results
}

/// The aggregated table is determined by the graph and the hop bound: any two
/// tables that meet the aggregator's contract for the same graph and bound are
/// equal, so running the search and aggregation again yields the same table.
pub proof fn lemma_degree_table_deterministic(
    adj: Seq<Seq<(Vertex, Distance)>>,
    max_degree: usize,
    t1: Seq<Seq<DegreeStat>>,
    t2: Seq<Seq<DegreeStat>>,
)
    requires
        is_degree_table(t1, adj, max_degree),
        is_degree_table(t2, adj, max_degree),
    ensures
        t1 == t2,
{
    assert forall|k: int| 0 <= k < t1.len() implies #[trigger] t1[k] == t2[k] by {
        assert(t1[k] =~= t2[k]);
    }
    assert(t1 =~= t2);
}

} // verus!
