use vstd::prelude::*;
use petgraph::graphmap::DiGraphMap;
use std::collections::HashMap;
use crate::graph::{graph_edges, graph_nodes, out_edges, node_count};
use crate::ordering::MinScored;
use crate::walk::{INFINITE, sat_add, capped, cost_add, is_walk, is_simple_walk, walk_between, walk_cost, lemma_walk_cost_push, lemma_walk_cost_nonneg};

verus! {

broadcast use vstd::std_specs::hash::group_hash_axioms;

/// Index of the first entry of `queue` with the least score.
fn min_index(queue: &Vec<MinScored<i32, u64>>) -> (k: usize)
    requires
        queue@.len() > 0,
    ensures
        k < queue@.len(),
        forall|j: int| 0 <= j < queue@.len() ==> queue@[k as int].1 <= #[trigger] queue@[j].1,
{
    let mut k: usize = 0;
    let mut j: usize = 1;
    while j < queue.len()
        invariant
            0 < j <= queue@.len(),
            k < j,
            forall|i: int| 0 <= i < j ==> queue@[k as int].1 <= #[trigger] queue@[i].1,
        decreases queue@.len() - j,
    {
        match queue[j].cmp(&queue[k]) {
            std::cmp::Ordering::Greater => {
                k = j;
            },
            _ => {},
        }
        j = j + 1;
    }
    k
}

/// The rank of `v` in the order in which nodes were settled; nodes not settled yet come last.
spec fn settle_key(fin: Set<i32>, rank: Map<i32, nat>, v: i32) -> nat {
    if fin.contains(v) {
        rank[v]
    } else {
        fin.len()
    }
}

/// The state that the search keeps consistent: settled nodes, best known distances and the
/// predecessor of each reached node but the start.
spec fn tables_ok(
    edges: Map<(i32, i32), u64>,
    start: i32,
    dist: Map<i32, u64>,
    pred: Map<i32, i32>,
    fin: Set<i32>,
    rank: Map<i32, nat>,
) -> bool {
    &&& dist.contains_key(start)
    &&& dist[start] == 0
    &&& !pred.contains_key(start)
    &&& fin.finite()
    &&& fin.subset_of(dist.dom())
    &&& rank.dom() == fin
    &&& forall|v: i32| #[trigger] fin.contains(v) ==> rank[v] < fin.len()
    &&& forall|v: i32| #[trigger] dist.contains_key(v) ==> v == start || pred.contains_key(v)
    &&& forall|v: i32|
        #[trigger] pred.contains_key(v) ==> {
            &&& dist.contains_key(v)
            &&& fin.contains(pred[v])
            &&& edges.contains_key((pred[v], v))
            &&& dist[v] == sat_add(dist[pred[v]], edges[(pred[v], v)])
            &&& rank[pred[v]] < settle_key(fin, rank, v)
        }
}

/// What a search reports for `goal`: the least cost of a walk from `start` to it, with a path
/// of that cost that visits no node twice; or `None` where every such walk costs `INFINITE`
/// or more.
pub open spec fn shortest_result(
    edges: Map<(i32, i32), u64>,
    start: i32,
    goal: i32,
    res: Option<(u64, Vec<i32>)>,
) -> bool {
    match res {
        Some((d, p)) => {
            &&& d < INFINITE
            &&& is_simple_walk(edges, p@, start, goal)
            &&& walk_cost(edges, p@) == d
            &&& forall|q: Seq<i32>| #[trigger] walk_between(edges, q, start, goal) ==> d <= walk_cost(edges, q)
        },
        None => forall|q: Seq<i32>|
            #[trigger] walk_between(edges, q, start, goal) ==> walk_cost(edges, q) >= INFINITE,
    }
}

/// What a search reports for a goal does not depend on the other goals it was asked for: two
/// reports for the same goal and start both find a path or both do not, at the same distance.
pub proof fn lemma_goal_set_keeps_distance(
    edges: Map<(i32, i32), u64>,
    start: i32,
    goal: i32,
    a: Option<(u64, Vec<i32>)>,
    b: Option<(u64, Vec<i32>)>,
)
    requires
        shortest_result(edges, start, goal, a),
        shortest_result(edges, start, goal, b),
    ensures
        a is Some <==> b is Some,
        a is Some ==> a->Some_0.0 == b->Some_0.0,
{
    if let Some((d1, p1)) = a {
        assert(walk_between(edges, p1@, start, goal));
        if let Some((d2, p2)) = b {
            assert(walk_between(edges, p2@, start, goal));
        }
    }
    if let Some((d2, p2)) = b {
        assert(walk_between(edges, p2@, start, goal));
    }
}

/// A goal other than the start that no edge enters is reported unreachable.
pub proof fn lemma_unenterable_goal_unreachable(
    edges: Map<(i32, i32), u64>,
    start: i32,
    goal: i32,
    res: Option<(u64, Vec<i32>)>,
)
    requires
        shortest_result(edges, start, goal, res),
        goal != start,
        forall|u: i32| !edges.contains_key((u, goal)),
    ensures
        res is None,
{
    if let Some((d, p)) = res {
        assert(p@.len() >= 2);
        assert(edges.contains_key((p@[p@.len() - 2], p@[p@.len() - 2 + 1])));
    }
}

/// Every edge out of a settled node has been relaxed.
spec fn relaxed(edges: Map<(i32, i32), u64>, dist: Map<i32, u64>, fin: Set<i32>) -> bool {
    forall|u: i32, w: i32|
        fin.contains(u) && #[trigger] edges.contains_key((u, w)) ==> dist.contains_key(w)
            && dist[w] <= sat_add(dist[u], edges[(u, w)])
}

/// Every reached node that is not settled waits in the queue with its best distance.
spec fn queued(dist: Map<i32, u64>, fin: Set<i32>, queue: Seq<MinScored<i32, u64>>) -> bool {
    forall|v: i32|
        #[trigger] dist.contains_key(v) && !fin.contains(v) ==> exists|i: int|
            0 <= i < queue.len() && (#[trigger] queue[i]).0 == v && queue[i].1 == dist[v]
}

/// No walk reaches a settled node for less than its distance.
spec fn settled_optimal(edges: Map<(i32, i32), u64>, start: i32, dist: Map<i32, u64>, fin: Set<i32>) -> bool {
    forall|u: i32, q: Seq<i32>|
        fin.contains(u) && #[trigger] walk_between(edges, q, start, u) ==> dist[u] <= capped(
            walk_cost(edges, q),
        )
}

/// A walk from the start to a node not settled yet costs at least some entry of the queue.
proof fn lemma_frontier(
    edges: Map<(i32, i32), u64>,
    start: i32,
    dist: Map<i32, u64>,
    fin: Set<i32>,
    queue: Seq<MinScored<i32, u64>>,
    q: Seq<i32>,
)
    requires
        walk_between(edges, q, start, q.last()),
        !fin.contains(q.last()),
        dist.contains_key(start),
        dist[start] == 0,
        relaxed(edges, dist, fin),
        queued(dist, fin, queue),
        settled_optimal(edges, start, dist, fin),
    ensures
        exists|i: int| 0 <= i < queue.len() && queue[i].1 <= capped(walk_cost(edges, q)),
    decreases q.len(),
{
    lemma_walk_cost_nonneg(edges, q);
    if q.len() == 1 {
        assert(dist.contains_key(start) && !fin.contains(start));
        let i = choose|i: int| 0 <= i < queue.len() && (#[trigger] queue[i]).0 == start && queue[i].1 == dist[start];
    } else {
        let dl = q.drop_last();
        let u = dl.last();
        let v = q.last();
        assert(dl.push(v) =~= q);
        lemma_walk_cost_push(edges, dl, v);
        lemma_walk_cost_nonneg(edges, dl);
        assert(edges.contains_key((q[q.len() - 2], q[q.len() - 2 + 1])));
        assert(walk_between(edges, dl, start, u)) by {
            assert forall|i: int| 0 <= i < dl.len() - 1 implies #[trigger] edges.contains_key((dl[i], dl[i + 1])) by {
                assert(edges.contains_key((q[i], q[i + 1])));
            }
        }
        if !fin.contains(u) {
            lemma_frontier(edges, start, dist, fin, queue, dl);
        } else {
            assert(edges.contains_key((u, v)));
            assert(dist[u] <= capped(walk_cost(edges, dl)));
            assert(dist.contains_key(v) && !fin.contains(v));
            let i = choose|i: int| 0 <= i < queue.len() && (#[trigger] queue[i]).0 == v && queue[i].1 == dist[v];
        }
    }
}

/// Queue entries name reached nodes at no less than their distance and no less than the last
/// settled distance, settled nodes only at more, and one node never twice at the same score.
spec fn queue_ok(dist: Map<i32, u64>, fin: Set<i32>, last: u64, queue: Seq<MinScored<i32, u64>>) -> bool {
    &&& forall|i: int|
        0 <= i < queue.len() ==> {
            &&& dist.contains_key((#[trigger] queue[i]).0)
            &&& queue[i].1 >= dist[queue[i].0]
            &&& queue[i].1 >= last
            &&& fin.contains(queue[i].0) ==> queue[i].1 > dist[queue[i].0]
        }
    &&& forall|i: int, j: int|
        0 <= i < j < queue.len() && (#[trigger] queue[i]).0 == (#[trigger] queue[j]).0 ==> queue[i].1
            != queue[j].1
    &&& forall|v: i32| #[trigger] fin.contains(v) ==> dist[v] <= last
}

/// Relaxes every edge out of `current`, the node settled last, at distance `current_score`.
fn relax_edges(
    graph: &DiGraphMap<i32, u64>,
    start: i32,
    current: i32,
    current_score: u64,
    scores: &mut HashMap<i32, u64>,
    predecessors: &mut HashMap<i32, i32>,
    next_nodes: &mut Vec<MinScored<i32, u64>>,
    Ghost(universe): Ghost<Set<i32>>,
    Ghost(fin): Ghost<Set<i32>>,
    Ghost(rank): Ghost<Map<i32, nat>>,
    Ghost(last): Ghost<u64>,
)
    requires
        universe == graph_nodes(*graph).to_set().insert(start),
        tables_ok(graph_edges(*graph), start, old(scores)@, old(predecessors)@, fin, rank),
        old(scores)@.dom().subset_of(universe),
        queue_ok(old(scores)@, fin, last, old(next_nodes)@),
        settled_optimal(graph_edges(*graph), start, old(scores)@, fin),
        queued(old(scores)@, fin, old(next_nodes)@),
        relaxed(graph_edges(*graph), old(scores)@, fin.remove(current)),
        fin.contains(current),
        old(scores)@[current] == current_score,
        current_score == last,
    ensures
        tables_ok(graph_edges(*graph), start, final(scores)@, final(predecessors)@, fin, rank),
        final(scores)@.dom().subset_of(universe),
        queue_ok(final(scores)@, fin, last, final(next_nodes)@),
        settled_optimal(graph_edges(*graph), start, final(scores)@, fin),
        queued(final(scores)@, fin, final(next_nodes)@),
        relaxed(graph_edges(*graph), final(scores)@, fin),
{
    let ghost edges = graph_edges(*graph);
    let edges_out = out_edges(graph, current);
    let mut e: usize = 0;
    while e < edges_out.len()
        invariant
            e <= edges_out@.len(),
            edges == graph_edges(*graph),
            universe == graph_nodes(*graph).to_set().insert(start),
            settled_optimal(edges, start, scores@, fin),
            queued(scores@, fin, next_nodes@),
            relaxed(edges, scores@, fin.remove(current)),
            forall|i: int| 0 <= i < e ==> scores@.contains_key(#[trigger] edges_out@[i].0)
                && scores@[edges_out@[i].0] <= sat_add(current_score, edges_out@[i].1),
            forall|i: int, j: int| 0 <= i < j < edges_out@.len() ==> edges_out@[i].0 != edges_out@[j].0,
            forall|b: i32| edges.contains_key((current, b)) ==> exists|i: int|
                0 <= i < edges_out@.len() && #[trigger] edges_out@[i].0 == b,
            tables_ok(edges, start, scores@, predecessors@, fin, rank),
            scores@.dom().subset_of(universe),
            fin.contains(current),
            scores@[current] == current_score,
            current_score == last,
            forall|i: int|
                0 <= i < edges_out@.len() ==> edges.contains_key((current, #[trigger] edges_out@[i].0))
                    && edges[(current, edges_out@[i].0)] == edges_out@[i].1
                    && graph_nodes(*graph).contains(edges_out@[i].0),
            forall|i: int|
                0 <= i < next_nodes@.len() ==> {
                    &&& scores@.contains_key((#[trigger] next_nodes@[i]).0)
                    &&& next_nodes@[i].1 >= scores@[next_nodes@[i].0]
                    &&& next_nodes@[i].1 >= last
                    &&& fin.contains(next_nodes@[i].0) ==> next_nodes@[i].1 > scores@[next_nodes@[i].0]
                },
            forall|i: int, j: int|
                0 <= i < j < next_nodes@.len() && (#[trigger] next_nodes@[i]).0 == (#[trigger] next_nodes@[j]).0
                    ==> next_nodes@[i].1 != next_nodes@[j].1,
            forall|v: i32| #[trigger] fin.contains(v) ==> scores@[v] <= last,
        decreases edges_out@.len() - e,
    {
        let (target, cost) = edges_out[e];
        let score_from_current = cost_add(current_score, cost);
        let better = match scores.get(&target) {
            Some(s) => score_from_current < *s,
            None => true,
        };
        if better {
            let ghost old_scores = scores@;
            let ghost old_preds = predecessors@;
            let ghost old_queue = next_nodes@;
            proof {
                assert(graph_nodes(*graph).to_set().contains(target));
                if fin.contains(target) {
                    assert(scores@[target] <= last);
                }
                assert(!fin.contains(target));
                assert(target != start);
            }
            scores.insert(target, score_from_current);
            predecessors.insert(target, current);
            next_nodes.push(MinScored(target, score_from_current));
            proof {
                assert(scores@.dom().subset_of(universe));
                assert forall|v: i32| #[trigger] scores@.contains_key(v) implies v == start
                    || predecessors@.contains_key(v) by {
                    if v != target {
                        assert(old_scores.contains_key(v));
                    }
                }
                assert forall|v: i32| #[trigger] predecessors@.contains_key(v) implies {
                    &&& scores@.contains_key(v)
                    &&& fin.contains(predecessors@[v])
                    &&& edges.contains_key((predecessors@[v], v))
                    &&& scores@[v] == sat_add(scores@[predecessors@[v]], edges[(predecessors@[v], v)])
                    &&& rank[predecessors@[v]] < settle_key(fin, rank, v)
                } by {
                    if v != target {
                        assert(old_preds.contains_key(v));
                        assert(fin.contains(old_preds[v]));
                        assert(old_preds[v] != target);
                    } else {
                        assert(edges.contains_key((current, edges_out@[e as int].0)));
                    }
                }
                assert forall|i: int|
                    0 <= i < next_nodes@.len() implies {
                        &&& scores@.contains_key((#[trigger] next_nodes@[i]).0)
                        &&& next_nodes@[i].1 >= scores@[next_nodes@[i].0]
                        &&& next_nodes@[i].1 >= last
                        &&& fin.contains(next_nodes@[i].0) ==> next_nodes@[i].1 > scores@[next_nodes@[i].0]
                    } by {
                    if i < old_queue.len() {
                        assert(next_nodes@[i] == old_queue[i]);
                    }
                }
                assert forall|i: int, j: int|
                    0 <= i < j < next_nodes@.len() && (#[trigger] next_nodes@[i]).0 == (#[trigger] next_nodes@[j]).0
                        implies next_nodes@[i].1 != next_nodes@[j].1 by {
                    if j == old_queue.len() {
                        assert(next_nodes@[i] == old_queue[i]);
                        assert(old_scores.contains_key(target));
                    } else {
                        assert(next_nodes@[i] == old_queue[i]);
                        assert(next_nodes@[j] == old_queue[j]);
                    }
                }
                assert forall|v: i32| #[trigger] fin.contains(v) implies scores@[v] <= last by {
                    assert(v != target);
                }
                assert forall|v: i32| #[trigger] scores@.contains_key(v) && !fin.contains(v) implies exists|i: int|
                    0 <= i < next_nodes@.len() && (#[trigger] next_nodes@[i]).0 == v && next_nodes@[i].1 == scores@[v] by {
                    if v == target {
                        assert(next_nodes@[old_queue.len() as int].0 == target);
                    } else {
                        assert(old_scores.contains_key(v));
                        let w = choose|w: int| 0 <= w < old_queue.len() && (#[trigger] old_queue[w]).0 == v
                            && old_queue[w].1 == old_scores[v];
                        assert(next_nodes@[w] == old_queue[w]);
                    }
                }
            }
        }
        e = e + 1;
    }
    proof {
        assert forall|u: i32, w: i32|
            fin.contains(u) && #[trigger] edges.contains_key((u, w)) implies scores@.contains_key(w)
                && scores@[w] <= sat_add(scores@[u], edges[(u, w)]) by {
            if u == current {
                let i = choose|i: int| 0 <= i < edges_out@.len() && #[trigger] edges_out@[i].0 == w;
            } else {
                assert(fin.remove(current).contains(u));
            }
        }
    }
}

/// Follows the predecessors from `goal` back to `start`.
fn make_path(
    predecessors: &HashMap<i32, i32>,
    scores: &HashMap<i32, u64>,
    start: i32,
    goal: i32,
    Ghost(edges): Ghost<Map<(i32, i32), u64>>,
    Ghost(fin): Ghost<Set<i32>>,
    Ghost(rank): Ghost<Map<i32, nat>>,
) -> (path: Vec<i32>)
    requires
        tables_ok(edges, start, scores@, predecessors@, fin, rank),
        scores@.contains_key(goal),
        scores@[goal] < INFINITE,
    ensures
        is_simple_walk(edges, path@, start, goal),
        walk_cost(edges, path@) == scores@[goal],
{
    let mut path: Vec<i32> = Vec::new();
    path.push(goal);
    let mut cursor: i32 = goal;
    proof {
        assert(path@.drop_first().len() == 0);
    }
    while predecessors.contains_key(&cursor)
        invariant
            tables_ok(edges, start, scores@, predecessors@, fin, rank),
            scores@.contains_key(goal),
            scores@[goal] < INFINITE,
            scores@.contains_key(cursor),
            is_walk(edges, path@),
            path@[0] == cursor,
            path@.last() == goal,
            scores@[cursor] + walk_cost(edges, path@) == scores@[goal],
            forall|i: int, j: int|
                0 <= i < j < path@.len() ==> settle_key(fin, rank, #[trigger] path@[i])
                    < settle_key(fin, rank, #[trigger] path@[j]),
        decreases settle_key(fin, rank, cursor),
    {
        let p: i32 = *predecessors.get(&cursor).unwrap();
        let ghost old_path = path@;
        proof {
            crate::walk::lemma_walk_cost_nonneg(edges, path@);
            assert(scores@[cursor] <= scores@[goal]);
        }
        path.insert(0, p);
        proof {
            assert(path@.drop_first() =~= old_path);
            assert(path@[1] == cursor);
            assert forall|i: int| 0 <= i < path@.len() - 1 implies #[trigger] edges.contains_key(
                (path@[i], path@[i + 1]),
            ) by {
                if i > 0 {
                    assert(path@[i] == old_path[i - 1]);
                    assert(path@[i + 1] == old_path[i]);
                }
            }
            assert forall|i: int, j: int|
                0 <= i < j < path@.len() implies settle_key(fin, rank, #[trigger] path@[i])
                < settle_key(fin, rank, #[trigger] path@[j]) by {
                if i > 0 {
                    assert(path@[i] == old_path[i - 1]);
                }
                assert(path@[j] == old_path[j - 1]);
                if i == 0 && j > 1 {
                    assert(settle_key(fin, rank, old_path[0]) < settle_key(fin, rank, old_path[j - 1]));
                }
            }
        }
        cursor = p;
    }
    proof {
        assert(cursor == start);
        assert forall|i: int, j: int| 0 <= i < path@.len() && 0 <= j < path@.len() && i != j
            implies path@[i] != path@[j] by {
            if i < j {
                assert(settle_key(fin, rank, path@[i]) < settle_key(fin, rank, path@[j]));
            } else {
                assert(settle_key(fin, rank, path@[j]) < settle_key(fin, rank, path@[i]));
            }
        }
    }
    path
}

/// Shortest paths from `start` to each of `goals`, by a search that stops as soon as every goal
/// is settled. Each entry of the result pairs a goal with its distance and a path that reaches
/// it, or with `None` where no path of finite cost was found.
pub fn dijkstra(graph: &DiGraphMap<i32, u64>, start: i32, goals: Vec<i32>) -> (r: Vec<
    (i32, Option<(u64, Vec<i32>)>),
>)
    ensures
        r@.len() == goals@.len(),
        forall|i: int| 0 <= i < r@.len() ==> (#[trigger] r@[i]).0 == goals@[i],
        forall|i: int|
            0 <= i < r@.len() ==> shortest_result(graph_edges(*graph), start, goals@[i], (#[trigger] r@[i]).1),
{
    let ghost edges = graph_edges(*graph);
    let ghost universe = graph_nodes(*graph).to_set().insert(start);
    let count = node_count(graph);
    let mut next_nodes: Vec<MinScored<i32, u64>> = Vec::new();
    let mut scores: HashMap<i32, u64> = HashMap::new();
    let mut predecessors: HashMap<i32, i32> = HashMap::new();
    let mut remaining_goals: Vec<i32> = goals.clone();
    let ghost mut fin: Set<i32> = Set::empty();
    let ghost mut rank: Map<i32, nat> = Map::empty();
    let ghost mut last: u64 = 0;

    next_nodes.push(MinScored(start, 0));
    scores.insert(start, 0);
    proof {
        graph_nodes(*graph).lemma_cardinality_of_set();
        assert(rank.dom() =~= fin);
        assert(next_nodes@[0].0 == start);
        assert forall|j: int| 0 <= j < goals@.len() implies fin.contains(goals@[j])
            || remaining_goals@.contains(#[trigger] goals@[j]) by {
            assert(remaining_goals@[j] == goals@[j]);
        }
    }

    while next_nodes.len() > 0
        invariant_except_break
            relaxed(edges, scores@, fin),
        invariant
            settled_optimal(edges, start, scores@, fin),
            queued(scores@, fin, next_nodes@),
            forall|j: int| 0 <= j < goals@.len() ==> fin.contains(goals@[j])
                || remaining_goals@.contains(#[trigger] goals@[j]),
            edges == graph_edges(*graph),
            universe == graph_nodes(*graph).to_set().insert(start),
            count == graph_nodes(*graph).len(),
            universe.finite(),
            universe.len() <= count + 1,
            tables_ok(edges, start, scores@, predecessors@, fin, rank),
            scores@.dom().subset_of(universe),
            forall|i: int|
                0 <= i < next_nodes@.len() ==> {
                    &&& scores@.contains_key((#[trigger] next_nodes@[i]).0)
                    &&& next_nodes@[i].1 >= scores@[next_nodes@[i].0]
                    &&& next_nodes@[i].1 >= last
                    &&& fin.contains(next_nodes@[i].0) ==> next_nodes@[i].1 > scores@[next_nodes@[i].0]
                },
            forall|i: int, j: int|
                0 <= i < j < next_nodes@.len() && (#[trigger] next_nodes@[i]).0 == (#[trigger] next_nodes@[j]).0
                    ==> next_nodes@[i].1 != next_nodes@[j].1,
            forall|v: i32| #[trigger] fin.contains(v) ==> scores@[v] <= last,
        ensures
            settled_optimal(edges, start, scores@, fin),
            tables_ok(edges, start, scores@, predecessors@, fin, rank),
            (next_nodes@.len() == 0 && relaxed(edges, scores@, fin) && queued(scores@, fin, next_nodes@))
                || forall|j: int| 0 <= j < goals@.len() ==> #[trigger] fin.contains(goals@[j]),
        decreases count + 1 - fin.len(), next_nodes@.len(),
    {
        let k = min_index(&next_nodes);
        let ghost before = next_nodes@;
        let MinScored(current, score_when_queued) = next_nodes.remove(k);
        let current_score: u64 = *scores.get(&current).unwrap();
        if score_when_queued > current_score {
            proof {
                assert forall|i: int, j: int|
                    0 <= i < j < next_nodes@.len() && (#[trigger] next_nodes@[i]).0 == (#[trigger] next_nodes@[j]).0
                        implies next_nodes@[i].1 != next_nodes@[j].1 by {
                    let ii = if i < k { i } else { i + 1 };
                    let jj = if j < k { j } else { j + 1 };
                    assert(next_nodes@[i] == before[ii]);
                    assert(next_nodes@[j] == before[jj]);
                }
                assert forall|v: i32| #[trigger] scores@.contains_key(v) && !fin.contains(v) implies exists|i: int|
                    0 <= i < next_nodes@.len() && (#[trigger] next_nodes@[i]).0 == v && next_nodes@[i].1 == scores@[v] by {
                    let w = choose|w: int| 0 <= w < before.len() && (#[trigger] before[w]).0 == v && before[w].1 == scores@[v];
                    assert(w != k);
                    let i = if w < k { w } else { w - 1 };
                    assert(next_nodes@[i] == before[w]);
                }
            }
            continue;
        }
        let ghost old_fin = fin;
        proof {
            assert(before[k as int].0 == current);
            if fin.contains(current) {
                assert(false);
            }
            assert forall|i: int, j: int|
                0 <= i < j < next_nodes@.len() && (#[trigger] next_nodes@[i]).0 == (#[trigger] next_nodes@[j]).0
                    implies next_nodes@[i].1 != next_nodes@[j].1 by {
                let ii = if i < k { i } else { i + 1 };
                let jj = if j < k { j } else { j + 1 };
                assert(next_nodes@[i] == before[ii]);
                assert(next_nodes@[j] == before[jj]);
            }
            assert forall|i: int| 0 <= i < next_nodes@.len() implies
                (#[trigger] next_nodes@[i]).1 >= score_when_queued
                && (next_nodes@[i].0 == current ==> next_nodes@[i].1 > current_score) by {
                let ii = if i < k { i } else { i + 1 };
                assert(next_nodes@[i] == before[ii]);
                if ii < k {
                    assert(before[ii].0 == before[k as int].0 ==> before[ii].1 != before[k as int].1);
                } else {
                    assert(before[k as int].0 == before[ii].0 ==> before[k as int].1 != before[ii].1);
                }
            }
            assert forall|q: Seq<i32>| #[trigger] walk_between(edges, q, start, current) implies
                current_score <= capped(walk_cost(edges, q)) by {
                lemma_frontier(edges, start, scores@, fin, before, q);
                let w = choose|w: int| 0 <= w < before.len() && before[w].1 <= capped(walk_cost(edges, q));
                assert(before[k as int].1 <= before[w].1);
            }
            assert forall|v: i32| #[trigger] scores@.contains_key(v) && !fin.insert(current).contains(v) implies exists|i: int|
                0 <= i < next_nodes@.len() && (#[trigger] next_nodes@[i]).0 == v && next_nodes@[i].1 == scores@[v] by {
                let w = choose|w: int| 0 <= w < before.len() && (#[trigger] before[w]).0 == v && before[w].1 == scores@[v];
                assert(w != k);
                let i = if w < k { w } else { w - 1 };
                assert(next_nodes@[i] == before[w]);
            }
            vstd::set_lib::lemma_len_subset(fin.insert(current), universe);
            rank = rank.insert(current, fin.len());
            fin = fin.insert(current);
            last = score_when_queued;
            assert(rank.dom() =~= fin);
            assert forall|v: i32| #[trigger] predecessors@.contains_key(v) implies
                rank[predecessors@[v]] < settle_key(fin, rank, v) by {
                assert(fin.contains(predecessors@[v]));
            }
            assert forall|u: i32, q: Seq<i32>|
                fin.contains(u) && #[trigger] walk_between(edges, q, start, u) implies scores@[u] <= capped(
                    walk_cost(edges, q),
                ) by {
                if u != current {
                    assert(old_fin.contains(u));
                }
            }
            assert forall|u: i32, w: i32|
                old_fin.contains(u) && #[trigger] edges.contains_key((u, w)) implies scores@.contains_key(w)
                    && scores@[w] <= sat_add(scores@[u], edges[(u, w)]) by {}
        }

        let mut kept: Vec<i32> = Vec::new();
        let mut g: usize = 0;
        while g < remaining_goals.len()
            invariant
                g <= remaining_goals@.len(),
                forall|j: int| 0 <= j < g && remaining_goals@[j] != current ==> kept@.contains(
                    #[trigger] remaining_goals@[j],
                ),
            decreases remaining_goals@.len() - g,
        {
            if remaining_goals[g] != current {
                let ghost old_kept = kept@;
                kept.push(remaining_goals[g]);
                proof {
                    assert forall|j: int| 0 <= j < g + 1 && remaining_goals@[j] != current implies kept@.contains(
                        #[trigger] remaining_goals@[j],
                    ) by {
                        if j < g {
                            let x = choose|x: int| 0 <= x < old_kept.len() && old_kept[x] == remaining_goals@[j];
                            assert(kept@[x] == old_kept[x]);
                        } else {
                            assert(kept@[old_kept.len() as int] == remaining_goals@[j]);
                        }
                    }
                }
            }
            g = g + 1;
        }
        proof {
            assert forall|j: int| 0 <= j < goals@.len() implies fin.contains(goals@[j])
                || kept@.contains(#[trigger] goals@[j]) by {
                if !fin.contains(goals@[j]) {
                    let x = choose|x: int| 0 <= x < remaining_goals@.len() && remaining_goals@[x] == goals@[j];
                }
            }
        }
        remaining_goals = kept;
        if remaining_goals.len() == 0 {
            break;
        }

        proof {
            assert(fin.remove(current) =~= old_fin);
        }
        relax_edges(
            graph,
            start,
            current,
            current_score,
            &mut scores,
            &mut predecessors,
            &mut next_nodes,
            Ghost(universe),
            Ghost(fin),
            Ghost(rank),
            Ghost(last),
        );
    }

    let mut result: Vec<(i32, Option<(u64, Vec<i32>)>)> = Vec::new();
    let mut i: usize = 0;
    while i < goals.len()
        invariant
            edges == graph_edges(*graph),
            tables_ok(edges, start, scores@, predecessors@, fin, rank),
            i <= goals@.len(),
            result@.len() == i,
            forall|j: int| 0 <= j < i ==> (#[trigger] result@[j]).0 == goals@[j],
            forall|j: int| 0 <= j < i ==> shortest_result(edges, start, goals@[j], (#[trigger] result@[j]).1),
            settled_optimal(edges, start, scores@, fin),
            (next_nodes@.len() == 0 && relaxed(edges, scores@, fin) && queued(scores@, fin, next_nodes@))
                || forall|j: int| 0 <= j < goals@.len() ==> #[trigger] fin.contains(goals@[j]),
        decreases goals@.len() - i,
    {
        let g = goals[i];
        let found = match scores.get(&g) {
            Some(s) => if *s < INFINITE {
                Some((*s, make_path(&predecessors, &scores, start, g, Ghost(edges), Ghost(fin), Ghost(rank))))
            } else {
                None
            },
            None => None,
        };
        proof {
            let settled = fin.contains(g);
            if scores@.contains_key(g) && !settled {
                if next_nodes@.len() == 0 {
                    let w = choose|w: int| 0 <= w < next_nodes@.len() && (#[trigger] next_nodes@[w]).0 == g
                        && next_nodes@[w].1 == scores@[g];
                } else {
                    assert(fin.contains(goals@[i as int]));
                }
            }
            assert(scores@.contains_key(g) ==> fin.contains(g));
            assert(found matches Some((d, _)) ==> scores@.contains_key(g) && d == scores@[g] && d < INFINITE);
            assert forall|q: Seq<i32>| #[trigger] walk_between(edges, q, start, g) implies match found {
                Some((d, _)) => d <= walk_cost(edges, q),
                None => walk_cost(edges, q) >= INFINITE,
            } by {
                lemma_walk_cost_nonneg(edges, q);
                if scores@.contains_key(g) {
                    assert(scores@[g] <= capped(walk_cost(edges, q)));
                    if let Some((d, _)) = found {
                        assert(d <= capped(walk_cost(edges, q)));
                        assert(d <= walk_cost(edges, q));
                    }
                } else {
                    assert(!fin.contains(g));
                    if next_nodes@.len() == 0 {
                        lemma_frontier(edges, start, scores@, fin, next_nodes@, q);
                    } else {
                        assert(fin.contains(goals@[i as int]));
                    }
                }
            }
        }
        result.push((g, found));
        i = i + 1;
    }
    result
}

} // verus!
