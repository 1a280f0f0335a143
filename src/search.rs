use vstd::prelude::*;
use crate::graph::{AdjacencyList, Distance, Vertex, adjacency_view, adjacency_well_formed};

verus! {

/// An entry of the search frontier: a vertex, the distance at which it was
/// reached, and the number of hops of that path.
#[derive(Clone, Copy, Debug, PartialEq, Eq, Structural)]
pub struct State {
    pub distance: Distance,
    pub vertex: Vertex,
    pub steps: usize,
}

/// A snapshot of one search: the best distance and its hop count recorded
/// for each vertex, and the frontier.
pub struct SearchSnapshot {
    pub dist: Seq<Option<Distance>>,
    pub hops: Seq<Option<usize>>,
    pub queue: Seq<State>,
}

/// The position of the first entry of least distance in a non-empty frontier.
pub open spec fn first_min_index(q: Seq<State>) -> int
    decreases q.len(),
{
    if q.len() <= 1 {
        0
    } else {
        let m = first_min_index(q.drop_last());
        if q.last().distance < q[m].distance {
            q.len() - 1
        } else {
            m
        }
    }
}

/// Relaxes one edge `(w, length)` out of the frontier entry `from`: when the
/// path through it stays within `max_degree` hops and is strictly shorter than
/// what `w` has, `w` takes its distance and hop count and joins the frontier.
pub open spec fn relax_edge(st: SearchSnapshot, from: State, edge: (Vertex, Distance), max_degree: usize) -> SearchSnapshot {
    let w = edge.0 as int;
    let nd = from.distance + edge.1;
    let ns = from.steps + 1;
    if ns <= max_degree && (st.dist[w].is_none() || nd < st.dist[w].unwrap()) {
        SearchSnapshot {
            dist: st.dist.update(w, Some(nd as Distance)),
            hops: st.hops.update(w, Some(ns as usize)),
            queue: st.queue.push(State { distance: nd as Distance, vertex: edge.0, steps: ns as usize }),
        }
    } else {
        st
    }
}

/// Relaxes the first `j` edges of `row` in order.
pub open spec fn relax_prefix(st: SearchSnapshot, from: State, row: Seq<(Vertex, Distance)>, j: int, max_degree: usize) -> SearchSnapshot
    decreases j,
{
    if j <= 0 {
        st
    } else {
        relax_edge(relax_prefix(st, from, row, j - 1, max_degree), from, row[j - 1], max_degree)
    }
}

/// One round of the search: take the first closest frontier entry out and,
/// unless it is past the hop bound, relax every edge out of its vertex.
pub open spec fn search_step(adj: Seq<Seq<(Vertex, Distance)>>, max_degree: usize, st: SearchSnapshot) -> SearchSnapshot {
    if st.queue.len() == 0 {
        st
    } else {
        let top = st.queue[first_min_index(st.queue)];
        let rest = SearchSnapshot { dist: st.dist, hops: st.hops, queue: st.queue.remove(first_min_index(st.queue)) };
        if top.steps > max_degree {
            rest
        } else {
            let row = adj[top.vertex as int];
            relax_prefix(rest, top, row, row.len() as int, max_degree)
        }
    }
}

/// The snapshot before any round: only `source` known, at distance 0 and 0 hops.
pub open spec fn initial_snapshot(n: nat, source: Vertex) -> SearchSnapshot {
    SearchSnapshot {
        dist: Seq::new(n, |i: int| None::<Distance>).update(source as int, Some(0u64)),
        hops: Seq::new(n, |i: int| None::<usize>).update(source as int, Some(0usize)),
        queue: seq![State { distance: 0, vertex: source, steps: 0 }],
    }
}

/// The snapshot after `rounds` rounds.
pub open spec fn search_after(adj: Seq<Seq<(Vertex, Distance)>>, max_degree: usize, source: Vertex, rounds: nat) -> SearchSnapshot
    decreases rounds,
{
    if rounds == 0 {
        initial_snapshot(adj.len(), source)
    } else {
        search_step(adj, max_degree, search_after(adj, max_degree, source, (rounds - 1) as nat))
    }
}

/// The search has run to an empty frontier after `rounds` rounds.
pub open spec fn search_done(adj: Seq<Seq<(Vertex, Distance)>>, max_degree: usize, source: Vertex, rounds: nat) -> bool {
    search_after(adj, max_degree, source, rounds).queue.len() == 0
}

/// The final snapshot of the search from `source`: the one at which the
/// frontier runs empty.
pub open spec fn search_outcome(adj: Seq<Seq<(Vertex, Distance)>>, max_degree: usize, source: Vertex) -> SearchSnapshot {
    let rounds = choose|rounds: nat| search_done(adj, max_degree, source, rounds);
    search_after(adj, max_degree, source, rounds)
}

/// Once the frontier is empty, further rounds change nothing.
pub proof fn lemma_done_stays(adj: Seq<Seq<(Vertex, Distance)>>, max_degree: usize, source: Vertex, r1: nat, r: nat)
    requires
        search_done(adj, max_degree, source, r1),
        r1 <= r,
    ensures
        search_after(adj, max_degree, source, r) == search_after(adj, max_degree, source, r1),
    decreases r,
{
    if r > r1 {
        lemma_done_stays(adj, max_degree, source, r1, (r - 1) as nat);
    }
}

/// The final snapshot does not depend on which finishing round is taken.
pub proof fn lemma_outcome_unique(adj: Seq<Seq<(Vertex, Distance)>>, max_degree: usize, source: Vertex, r1: nat, r2: nat)
    requires
        search_done(adj, max_degree, source, r1),
        search_done(adj, max_degree, source, r2),
    ensures
        search_after(adj, max_degree, source, r1) == search_after(adj, max_degree, source, r2),
{
    if r1 <= r2 {
        lemma_done_stays(adj, max_degree, source, r1, r2);
    } else {
        lemma_done_stays(adj, max_degree, source, r2, r1);
    }
}

/// Every edge length, taken `max_degree` times, fits in a distance: no path
/// of at most `max_degree` hops can overflow.
pub open spec fn weights_fit(adj: Seq<Seq<(Vertex, Distance)>>, max_degree: usize) -> bool {
    forall|u: int, j: int|
        0 <= u < adj.len() && 0 <= j < adj[u].len() ==> (#[trigger] adj[u][j]).1 * max_degree
            <= u64::MAX
}

/// What holds of every snapshot of a search from `source` over `n` vertices:
/// a distance is recorded exactly where a hop count is, every hop count is
/// within the bound, and every distance is at most its hops times the share
/// `u64::MAX / max_degree` of one hop; the source stays at 0 with 0 hops.
pub open spec fn snapshot_ok(st: SearchSnapshot, n: nat, max_degree: usize, source: Vertex) -> bool {
    &&& st.dist.len() == n
    &&& st.hops.len() == n
    &&& source < n
    &&& st.dist[source as int] == Some(0u64)
    &&& st.hops[source as int] == Some(0usize)
    &&& forall|w: int| 0 <= w < n ==> (#[trigger] st.dist[w]).is_some() == st.hops[w].is_some()
    &&& forall|w: int|
        0 <= w < n && (#[trigger] st.hops[w]).is_some() ==> {
            &&& st.hops[w].unwrap() <= max_degree
            &&& st.dist[w].unwrap() * max_degree <= st.hops[w].unwrap() * u64::MAX
        }
    &&& forall|i: int|
        0 <= i < st.queue.len() ==> {
            &&& (#[trigger] st.queue[i]).vertex < n
            &&& st.queue[i].steps <= max_degree
            &&& st.queue[i].distance * max_degree <= st.queue[i].steps * u64::MAX
        }
}

/// Some walk of exactly `hops` edges leads from `source` to `w` with total
/// length `d`.
pub open spec fn walk_of(adj: Seq<Seq<(Vertex, Distance)>>, source: Vertex, w: Vertex, hops: nat, d: int) -> bool
    decreases hops,
{
    if hops == 0 {
        w == source && d == 0
    } else {
        exists|u: int, j: int|
            0 <= u < adj.len() && 0 <= j < adj[u].len() && (#[trigger] adj[u][j]).0 == w && walk_of(
                adj,
                source,
                u as Vertex,
                (hops - 1) as nat,
                d - adj[u][j].1,
            )
    }
}

/// Every recorded distance and every frontier entry is the length of a walk
/// from `source` with the recorded number of edges.
pub open spec fn snapshot_sound(adj: Seq<Seq<(Vertex, Distance)>>, source: Vertex, st: SearchSnapshot) -> bool {
    &&& forall|w: int|
        0 <= w < st.hops.len() && (#[trigger] st.hops[w]).is_some() ==> walk_of(
            adj,
            source,
            w as Vertex,
            st.hops[w].unwrap() as nat,
            st.dist[w].unwrap() as int,
        )
    &&& forall|i: int|
        0 <= i < st.queue.len() ==> walk_of(
            adj,
            source,
            (#[trigger] st.queue[i]).vertex,
            st.queue[i].steps as nat,
            st.queue[i].distance as int,
        )
}

/// The edge `e` cannot improve its far end through a path of length `d`: the
/// far end already has a distance of at most `d` plus the edge's length.
pub open spec fn edge_relaxed(dist: Seq<Option<Distance>>, d: Distance, e: (Vertex, Distance)) -> bool {
    dist[e.0 as int].is_some() && dist[e.0 as int].unwrap() <= d + e.1
}

/// No edge out of `v` can improve its far end through `v`'s record.
pub open spec fn edges_relaxed(adj: Seq<Seq<(Vertex, Distance)>>, dist: Seq<Option<Distance>>, v: int) -> bool {
    forall|j: int| 0 <= j < adj[v].len() ==> edge_relaxed(dist, dist[v].unwrap(), #[trigger] adj[v][j])
}

/// The frontier holds an entry for `v` at its record.
pub open spec fn pending(st: SearchSnapshot, v: int) -> bool {
    exists|i: int|
        0 <= i < st.queue.len() && #[trigger] st.queue[i] == (State {
            distance: st.dist[v].unwrap(),
            vertex: v as Vertex,
            steps: st.hops[v].unwrap(),
        })
}

/// Every vertex recorded below the hop bound is still waiting in the frontier
/// at its record, or has had all its edges relaxed.
pub open spec fn snapshot_settling(adj: Seq<Seq<(Vertex, Distance)>>, max_degree: usize, st: SearchSnapshot) -> bool {
    forall|v: int|
        0 <= v < st.hops.len() && (#[trigger] st.hops[v]).is_some() && st.hops[v].unwrap() < max_degree
            ==> pending(st, v) || edges_relaxed(adj, st.dist, v)
}

/// `v` is the vertex whose frontier entry `top` is being expanded, its record
/// is still that entry, and its first `j` edges are relaxed.
pub open spec fn expanding(st: SearchSnapshot, v: int, top: State, row: Seq<(Vertex, Distance)>, j: int) -> bool {
    &&& v == top.vertex as int
    &&& st.dist[v] == Some(top.distance)
    &&& st.hops[v] == Some(top.steps)
    &&& forall|k: int| 0 <= k < j ==> edge_relaxed(st.dist, top.distance, #[trigger] row[k])
}

/// Relaxation survives any change that only lowers or adds distances.
proof fn lemma_relaxed_mono(d1: Seq<Option<Distance>>, d2: Seq<Option<Distance>>, d: Distance, e: (Vertex, Distance))
    requires
        edge_relaxed(d1, d, e),
        d1.len() == d2.len(),
        forall|x: int| 0 <= x < d1.len() && (#[trigger] d1[x]).is_some() ==> d2[x].is_some() && d2[x].unwrap() <= d1[x].unwrap(),
        e.0 < d1.len(),
    ensures
        edge_relaxed(d2, d, e),
{
    assert(d1[e.0 as int].is_some());
}

/// How far a vertex's record can still fall: one more than any distance while
/// it is unreached, its distance after.
pub open spec fn slack(d: Option<Distance>) -> int {
    match d {
        Some(x) => x as int,
        None => u64::MAX + 1,
    }
}

/// The sum of the slack of every vertex: each improvement lowers it.
pub open spec fn total_slack(dist: Seq<Option<Distance>>) -> int
    decreases dist.len(),
{
    if dist.len() == 0 {
        0
    } else {
        total_slack(dist.drop_last()) + slack(dist.last())
    }
}

proof fn lemma_total_slack_nonneg(dist: Seq<Option<Distance>>)
    ensures
        total_slack(dist) >= 0,
    decreases dist.len(),
{
    if dist.len() > 0 {
        lemma_total_slack_nonneg(dist.drop_last());
    }
}

proof fn lemma_total_slack_update(dist: Seq<Option<Distance>>, w: int, v: Option<Distance>)
    requires
        0 <= w < dist.len(),
    ensures
        total_slack(dist.update(w, v)) == total_slack(dist) - slack(dist[w]) + slack(v),
    decreases dist.len(),
{
    let u = dist.update(w, v);
    if w < dist.len() - 1 {
        assert(u.drop_last() =~= dist.drop_last().update(w, v));
        lemma_total_slack_update(dist.drop_last(), w, v);
    } else {
        assert(u.drop_last() =~= dist.drop_last());
    }
}

proof fn lemma_step_bound(d: int, len: int, h: int, m: int)
    requires
        0 <= d,
        0 <= len,
        0 <= h,
        h + 1 <= m,
        d * m <= h * u64::MAX,
        len * m <= u64::MAX,
    ensures
        (d + len) * m <= (h + 1) * u64::MAX,
        d + len <= u64::MAX,
{
    assert((d + len) * m <= (h + 1) * u64::MAX) by (nonlinear_arith)
        requires d * m <= h * u64::MAX, len * m <= u64::MAX;
    assert((h + 1) * u64::MAX <= m * u64::MAX) by (nonlinear_arith)
        requires h + 1 <= m;
    assert(d + len <= u64::MAX) by (nonlinear_arith)
        requires (d + len) * m <= m * u64::MAX, m >= 1, d + len >= 0;
}

/// The snapshot that three vectors of a running search hold.
pub open spec fn snapshot_of(distances: &Vec<Option<Distance>>, degrees: &Vec<Option<usize>>, pq: &Vec<State>) -> SearchSnapshot {
    SearchSnapshot { dist: distances@, hops: degrees@, queue: pq@ }
}

/// Searches from `source` for shortest paths of at most `max_degree` hops,
/// always extending the first closest frontier entry and recording, for each
/// vertex, the shortest distance found and the hop count of that path. The
/// result is the final snapshot of that process; the source is at distance 0
/// with 0 hops, and no hop count exceeds `max_degree`.
pub fn bounded_search(graph: &AdjacencyList, source: Vertex, max_degree: usize) -> (r: (Vec<Option<Distance>>, Vec<Option<usize>>))
    requires
        adjacency_well_formed(adjacency_view(graph)),
        weights_fit(adjacency_view(graph), max_degree),
        source < graph@.len(),
    ensures
        r.0@ == search_outcome(adjacency_view(graph), max_degree, source).dist,
        r.1@ == search_outcome(adjacency_view(graph), max_degree, source).hops,
        r.0@.len() == graph@.len(),
        r.1@.len() == graph@.len(),
        r.1@[source as int] == Some(0usize),
        forall|w: int| 0 <= w < r.1@.len() && (#[trigger] r.1@[w]).is_some() ==> r.1@[w].unwrap() <= max_degree,
        forall|v: int|
            0 <= v < r.1@.len() && (#[trigger] r.1@[v]).is_some() && r.1@[v].unwrap() < max_degree
                ==> edges_relaxed(adjacency_view(graph), r.0@, v),
        forall|w: int|
            0 <= w < r.1@.len() && (#[trigger] r.1@[w]).is_some() ==> r.0@[w].is_some() && walk_of(
                adjacency_view(graph),
                source,
                w as Vertex,
                r.1@[w].unwrap() as nat,
                r.0@[w].unwrap() as int,
            ),
{
    let ghost adj = adjacency_view(graph);
    let n = graph.len();
    let mut distances: Vec<Option<Distance>> = Vec::new();
    let mut degrees: Vec<Option<usize>> = Vec::new();
    let mut k: usize = 0;
    while k < n
        invariant
            k <= n,
            distances@ == Seq::new(k as nat, |i: int| None::<Distance>),
            degrees@ == Seq::new(k as nat, |i: int| None::<usize>),
        decreases n - k,
    {
        distances.push(None);
        degrees.push(None);
        k = k + 1;
        assert(distances@ =~= Seq::new(k as nat, |i: int| None::<Distance>));
        assert(degrees@ =~= Seq::new(k as nat, |i: int| None::<usize>));
    }
    distances.set(source, Some(0));
    degrees.set(source, Some(0));
    let mut pq: Vec<State> = Vec::new();
    pq.push(State { distance: 0, vertex: source, steps: 0 });
    let ghost mut rounds: nat = 0;
    assert(pq@ =~= seq![State { distance: 0, vertex: source, steps: 0 }]);
    assert(snapshot_of(&distances, &degrees, &pq) == search_after(adj, max_degree, source, 0));
    assert forall|w: int| 0 <= w < n implies (#[trigger] distances@[w]).is_some() == degrees@[w].is_some() by {
        if w != source as int {
            assert(distances@[w] == None::<Distance>);
            assert(degrees@[w] == None::<usize>);
        }
    }
    assert forall|w: int| 0 <= w < n && (#[trigger] degrees@[w]).is_some() implies walk_of(
        adj,
        source,
        w as Vertex,
        degrees@[w].unwrap() as nat,
        distances@[w].unwrap() as int,
    ) by {
        if w != source as int {
            assert(degrees@[w] == None::<usize>);
        } else {
            assert(distances@[w] == Some(0u64));
            assert(degrees@[w] == Some(0usize));
        }
    }
    assert forall|w: int| 0 <= w < n && (#[trigger] degrees@[w]).is_some() implies {
        &&& degrees@[w].unwrap() <= max_degree
        &&& distances@[w].unwrap() * max_degree <= degrees@[w].unwrap() * u64::MAX
    } by {
        if w != source as int {
            assert(degrees@[w] == None::<usize>);
        } else {
            assert(distances@[w] == Some(0u64));
            assert(degrees@[w] == Some(0usize));
            assert(0 * max_degree <= 0 * u64::MAX) by (nonlinear_arith);
        }
    }
    assert forall|v: int|
        0 <= v < degrees@.len() && (#[trigger] degrees@[v]).is_some() && degrees@[v].unwrap() < max_degree
            implies pending(snapshot_of(&distances, &degrees, &pq), v) || edges_relaxed(adj, distances@, v) by {
        if v != source as int {
            assert(degrees@[v] == None::<usize>);
        } else {
            let st = snapshot_of(&distances, &degrees, &pq);
            assert(st.queue[0] == State { distance: st.dist[v].unwrap(), vertex: v as Vertex, steps: st.hops[v].unwrap() });
        }
    }
    while pq.len() > 0
        invariant
            adj == adjacency_view(graph),
            adjacency_well_formed(adj),
            weights_fit(adj, max_degree),
            n == graph@.len(),
            snapshot_of(&distances, &degrees, &pq) == search_after(adj, max_degree, source, rounds),
            snapshot_ok(snapshot_of(&distances, &degrees, &pq), n as nat, max_degree, source),
            snapshot_sound(adj, source, snapshot_of(&distances, &degrees, &pq)),
            snapshot_settling(adj, max_degree, snapshot_of(&distances, &degrees, &pq)),
        decreases total_slack(distances@) + pq@.len(),
    {
        let ghost before = snapshot_of(&distances, &degrees, &pq);
        let mut best: usize = 0;
        let mut i: usize = 1;
        while i < pq.len()
            invariant
                1 <= i <= pq@.len(),
                best < i,
                best == first_min_index(pq@.subrange(0, i as int)),
            decreases pq@.len() - i,
        {
            assert(pq@.subrange(0, i as int + 1).drop_last() =~= pq@.subrange(0, i as int));
            if pq[i].distance < pq[best].distance {
                best = i;
            }
            i = i + 1;
        }
        assert(pq@.subrange(0, pq@.len() as int) =~= pq@);
        proof { lemma_total_slack_nonneg(distances@); }
        let top = pq.remove(best);
        let ghost rest = snapshot_of(&distances, &degrees, &pq);
        assert(rest == SearchSnapshot { dist: before.dist, hops: before.hops, queue: before.queue.remove(best as int) });
        assert forall|i: int| 0 <= i < rest.queue.len() implies {
            &&& (#[trigger] rest.queue[i]).vertex < n
            &&& rest.queue[i].steps <= max_degree
            &&& rest.queue[i].distance * max_degree <= rest.queue[i].steps * u64::MAX
        } by {
            if i < best { assert(rest.queue[i] == before.queue[i]); } else { assert(rest.queue[i] == before.queue[i + 1]); }
        }
        assert forall|i: int| 0 <= i < rest.queue.len() implies walk_of(
            adj,
            source,
            (#[trigger] rest.queue[i]).vertex,
            rest.queue[i].steps as nat,
            rest.queue[i].distance as int,
        ) by {
            if i < best { assert(rest.queue[i] == before.queue[i]); } else { assert(rest.queue[i] == before.queue[i + 1]); }
        }
        assert(before.queue[best as int] == top);
        assert forall|v: int|
            0 <= v < rest.hops.len() && (#[trigger] rest.hops[v]).is_some() && rest.hops[v].unwrap() < max_degree
                implies pending(rest, v) || edges_relaxed(adj, rest.dist, v) || expanding(rest, v, top, adj[top.vertex as int], 0) by {
            if pending(before, v) {
                let i = choose|i: int|
                    0 <= i < before.queue.len() && #[trigger] before.queue[i] == (State {
                        distance: before.dist[v].unwrap(),
                        vertex: v as Vertex,
                        steps: before.hops[v].unwrap(),
                    });
                if i < best {
                    assert(rest.queue[i] == before.queue[i]);
                } else if i > best {
                    assert(rest.queue[i - 1] == before.queue[i]);
                } else {
                    assert(before.dist[v].is_some());
                }
            }
        }
        if top.steps <= max_degree {
            let row = &graph[top.vertex];
            assert(adj[top.vertex as int] == row@);
            let mut j: usize = 0;
            while j < row.len()
                invariant
                    adj == adjacency_view(graph),
                    adjacency_well_formed(adj),
                    weights_fit(adj, max_degree),
                    n == graph@.len(),
                    top.vertex < n,
                    top.steps <= max_degree,
                    top.distance * max_degree <= top.steps * u64::MAX,
                    adj[top.vertex as int] == row@,
                    j <= row@.len(),
                    snapshot_of(&distances, &degrees, &pq) == relax_prefix(rest, top, row@, j as int, max_degree),
                    snapshot_ok(snapshot_of(&distances, &degrees, &pq), n as nat, max_degree, source),
                    snapshot_sound(adj, source, snapshot_of(&distances, &degrees, &pq)),
                    walk_of(adj, source, top.vertex, top.steps as nat, top.distance as int),
                    forall|v: int|
                        0 <= v < degrees@.len() && (#[trigger] degrees@[v]).is_some() && degrees@[v].unwrap() < max_degree
                            ==> pending(snapshot_of(&distances, &degrees, &pq), v) || edges_relaxed(adj, distances@, v)
                            || expanding(snapshot_of(&distances, &degrees, &pq), v, top, row@, j as int),
                    total_slack(distances@) + pq@.len() <= total_slack(rest.dist) + rest.queue.len(),
                decreases row@.len() - j,
            {
                let (w, length) = row[j];
                assert(adj[top.vertex as int][j as int] == (w, length));
                let ghost cur = snapshot_of(&distances, &degrees, &pq);
                if top.steps < max_degree {
                    proof { lemma_step_bound(top.distance as int, length as int, top.steps as int, max_degree as int); }
                    let next_dist = top.distance + length;
                    let next_steps = top.steps + 1;
                    let improves = match distances[w] {
                        None => true,
                        Some(d) => next_dist < d,
                    };
                    if improves {
                        let ghost prev = snapshot_of(&distances, &degrees, &pq);
                        proof { lemma_total_slack_update(distances@, w as int, Some(next_dist)); }
                        distances.set(w, Some(next_dist));
                        degrees.set(w, Some(next_steps));
                        pq.push(State { distance: next_dist, vertex: w, steps: next_steps });
                        assert(snapshot_of(&distances, &degrees, &pq) == relax_edge(prev, top, (w, length), max_degree));
                        assert(walk_of(adj, source, w, next_steps as nat, next_dist as int)) by {
                            let u = top.vertex as int;
                            assert(adj[u][j as int].0 == w);
                            assert(next_dist as int - adj[u][j as int].1 == top.distance as int);
                            assert(walk_of(adj, source, u as Vertex, (next_steps - 1) as nat, next_dist as int - adj[u][j as int].1));
                        }
                        assert forall|x: int| 0 <= x < degrees@.len() && (#[trigger] degrees@[x]).is_some() implies walk_of(
                            adj,
                            source,
                            x as Vertex,
                            degrees@[x].unwrap() as nat,
                            distances@[x].unwrap() as int,
                        ) by {
                            if x != w as int {
                                assert(degrees@[x] == prev.hops[x]);
                                assert(distances@[x] == prev.dist[x]);
                            }
                        }
                        assert forall|x: int| 0 <= x < pq@.len() implies walk_of(
                            adj,
                            source,
                            (#[trigger] pq@[x]).vertex,
                            pq@[x].steps as nat,
                            pq@[x].distance as int,
                        ) by {
                            if x < pq@.len() - 1 {
                                assert(pq@[x] == prev.queue[x]);
                            }
                        }
                        assert(distances@[source as int] == Some(0u64));
                        assert forall|x: int| 0 <= x < prev.dist.len() && (#[trigger] prev.dist[x]).is_some() implies
                            distances@[x].is_some() && distances@[x].unwrap() <= prev.dist[x].unwrap() by {}
                        assert forall|v: int|
                            0 <= v < degrees@.len() && (#[trigger] degrees@[v]).is_some() && degrees@[v].unwrap() < max_degree
                                implies pending(snapshot_of(&distances, &degrees, &pq), v) || edges_relaxed(adj, distances@, v)
                                || expanding(snapshot_of(&distances, &degrees, &pq), v, top, row@, j + 1) by {
                            let now = snapshot_of(&distances, &degrees, &pq);
                            if v == w as int {
                                assert(now.queue[now.queue.len() - 1] == State { distance: now.dist[v].unwrap(), vertex: v as Vertex, steps: now.hops[v].unwrap() });
                            } else if pending(prev, v) {
                                let i = choose|i: int|
                                    0 <= i < prev.queue.len() && #[trigger] prev.queue[i] == (State {
                                        distance: prev.dist[v].unwrap(),
                                        vertex: v as Vertex,
                                        steps: prev.hops[v].unwrap(),
                                    });
                                assert(now.queue[i] == prev.queue[i]);
                            } else if edges_relaxed(adj, prev.dist, v) {
                                assert forall|k: int| 0 <= k < adj[v].len() implies edge_relaxed(distances@, distances@[v].unwrap(), #[trigger] adj[v][k]) by {
                                    lemma_relaxed_mono(prev.dist, distances@, prev.dist[v].unwrap(), adj[v][k]);
                                }
                            } else {
                                assert forall|k: int| 0 <= k < j + 1 implies edge_relaxed(distances@, top.distance, #[trigger] row@[k]) by {
                                    if k < j {
                                        assert(adj[top.vertex as int][k] == row@[k]);
                                        lemma_relaxed_mono(prev.dist, distances@, top.distance, row@[k]);
                                    }
                                }
                            }
                        }
                    } else {
                        assert forall|v: int|
                            0 <= v < degrees@.len() && (#[trigger] degrees@[v]).is_some() && degrees@[v].unwrap() < max_degree
                                implies pending(cur, v) || edges_relaxed(adj, distances@, v)
                                || expanding(cur, v, top, row@, j + 1) by {
                            if expanding(cur, v, top, row@, j as int) {
                                assert forall|k: int| 0 <= k < j + 1 implies edge_relaxed(distances@, top.distance, #[trigger] row@[k]) by {
                                    if k == j {
                                        assert(row@[k] == (w, length));
                                    }
                                }
                            }
                        }
                    }
                }
                j = j + 1;
            }
        }
        assert(snapshot_settling(adj, max_degree, snapshot_of(&distances, &degrees, &pq))) by {
            let now = snapshot_of(&distances, &degrees, &pq);
            assert forall|v: int|
                0 <= v < now.hops.len() && (#[trigger] now.hops[v]).is_some() && now.hops[v].unwrap() < max_degree
                    implies pending(now, v) || edges_relaxed(adj, now.dist, v) by {
                if top.steps <= max_degree {
                    if !pending(now, v) && !edges_relaxed(adj, now.dist, v) {
                        assert(expanding(now, v, top, adj[top.vertex as int], adj[top.vertex as int].len() as int));
                        assert forall|k: int| 0 <= k < adj[v].len() implies edge_relaxed(now.dist, now.dist[v].unwrap(), #[trigger] adj[v][k]) by {}
                    }
                }
            }
        }
        proof {
            rounds = rounds + 1;
            lemma_total_slack_nonneg(distances@);
        }
    }
    proof {
        assert(search_done(adj, max_degree, source, rounds));
        lemma_outcome_unique(adj, max_degree, source, rounds, choose|r: nat| search_done(adj, max_degree, source, r));
    }
    (distances, degrees)
}

} // verus!
