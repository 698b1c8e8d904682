use vstd::prelude::*;
use petgraph::graphmap::DiGraphMap;
use crate::graph::{graph_edges, graph_nodes, out_edges, node_count};
use crate::ordering::MinScored;
use crate::path_tracker::{PathTracker, PathTrackerNodeRef};
use crate::walk::{INFINITE, capped, cost_add, is_walk, walk_cost, lemma_walk_cost_push, lemma_walk_cost_nonneg};

verus! {

/// `p` starts at `start`, visits no node twice and follows edges of `edges`.
pub open spec fn is_partial_order(edges: Map<(i32, i32), u64>, p: Seq<i32>, start: i32) -> bool {
    &&& is_walk(edges, p)
    &&& p[0] == start
    &&& p.no_duplicates()
}

/// `p` is where `h` begins.
pub open spec fn is_prefix(p: Seq<i32>, h: Seq<i32>) -> bool {
    p.len() <= h.len() && h.take(p.len() as int) == p
}

/// `h` visits each of the `n` nodes of the graph once, starting at `start`, along edges of
/// `edges`.
pub open spec fn is_complete_order(edges: Map<(i32, i32), u64>, h: Seq<i32>, start: i32, n: nat) -> bool {
    is_partial_order(edges, h, start) && h.len() == n
}

/// Some entry of `queue` holds a beginning of `h`.
spec fn covered(tracker: PathTracker, queue: Seq<MinScored<PathTrackerNodeRef, u64>>, h: Seq<i32>) -> bool {
    exists|i: int| 0 <= i < queue.len() && #[trigger] is_prefix(tracker.path(queue[i].0), h)
}

/// A walk costs no less than any walk it begins with.
proof fn lemma_walk_cost_prefix(edges: Map<(i32, i32), u64>, h: Seq<i32>, m: int)
    requires
        1 <= m <= h.len(),
    ensures
        walk_cost(edges, h.take(m)) <= walk_cost(edges, h),
    decreases h.len(),
{
    if m == h.len() {
        assert(h.take(m) =~= h);
    } else {
        let dl = h.drop_last();
        assert(dl.push(h.last()) =~= h);
        lemma_walk_cost_push(edges, dl, h.last());
        assert(h.take(m) =~= dl.take(m));
        lemma_walk_cost_prefix(edges, dl, m);
    }
}

/// An upper bound on the number of entries that an entry at depth `d` can still give rise to,
/// in a graph of `n` nodes.
spec fn potential(n: nat, d: nat) -> nat
    decreases n - d,
{
    if d + 1 >= n {
        1
    } else {
        1 + n * potential(n, d + 1)
    }
}

spec fn queue_potential(q: Seq<MinScored<PathTrackerNodeRef, u64>>, n: nat) -> nat
    decreases q.len(),
{
    if q.len() == 0 {
        0
    } else {
        queue_potential(q.drop_last(), n) + potential(n, q.last().0.depth as nat)
    }
}

proof fn lemma_queue_potential_remove(q: Seq<MinScored<PathTrackerNodeRef, u64>>, n: nat, k: int)
    requires
        0 <= k < q.len(),
    ensures
        queue_potential(q.remove(k), n) + potential(n, q[k].0.depth as nat) == queue_potential(q, n),
    decreases q.len(),
{
    if k < q.len() - 1 {
        lemma_queue_potential_remove(q.drop_last(), n, k);
        assert(q.remove(k).drop_last() =~= q.drop_last().remove(k));
        assert(q.remove(k).last() == q.last());
    } else {
        assert(q.remove(k) =~= q.drop_last());
    }
}

proof fn lemma_queue_potential_push(q: Seq<MinScored<PathTrackerNodeRef, u64>>, n: nat, x: MinScored<PathTrackerNodeRef, u64>)
    ensures
        queue_potential(q.push(x), n) == queue_potential(q, n) + potential(n, x.0.depth as nat),
{
    assert(q.push(x).drop_last() =~= q);
}

/// The cheapest order in which to visit every node of `graph` once, starting at `start`,
/// with its cost; `None` if no such order exists. Edges of cost `INFINITE` are followed too,
/// and a cost that reaches `INFINITE` stays there.
pub fn shortest_hamiltonian_path(graph: &DiGraphMap<i32, u64>, start: i32) -> (r: Option<
    (Vec<i32>, u64),
>)
    ensures
        match r {
            Some((p, c)) => {
                &&& is_partial_order(graph_edges(*graph), p@, start)
                &&& p@.len() == graph_nodes(*graph).len()
                &&& c == capped(walk_cost(graph_edges(*graph), p@))
                &&& forall|h: Seq<i32>|
                    #[trigger] is_complete_order(graph_edges(*graph), h, start, graph_nodes(*graph).len())
                        ==> c <= capped(walk_cost(graph_edges(*graph), h))
            },
            None => forall|h: Seq<i32>|
                !(#[trigger] is_complete_order(graph_edges(*graph), h, start, graph_nodes(*graph).len())),
        },
{
    let ghost edges = graph_edges(*graph);
    let node_count = node_count(graph);
    let ghost n: nat = node_count as nat;
    let mut next_nodes: Vec<MinScored<PathTrackerNodeRef, u64>> = Vec::new();
    let mut path_tracker = PathTracker::new();

    let root = path_tracker.push_root(start);
    next_nodes.push(MinScored(root, 0));
    proof {
        assert(walk_cost(edges, seq![start]) == 0);
        assert(seq![start].no_duplicates());
        assert(queue_potential(next_nodes@, n) == queue_potential(seq![], n) + potential(n, 0)) by {
            assert(next_nodes@.drop_last() =~= seq![]);
        }
        assert forall|h: Seq<i32>| #[trigger] is_complete_order(edges, h, start, n) implies covered(
            path_tracker,
            next_nodes@,
            h,
        ) by {
            assert(h.take(1) =~= seq![start]);
            assert(is_prefix(path_tracker.path(next_nodes@[0].0), h));
        }
    }

    while next_nodes.len() > 0
        invariant
            edges == graph_edges(*graph),
            node_count == graph_nodes(*graph).len(),
            n == node_count,
            path_tracker.wf(),
            forall|i: int|
                0 <= i < next_nodes@.len() ==> {
                    &&& path_tracker.valid_ref((#[trigger] next_nodes@[i]).0)
                    &&& is_partial_order(edges, path_tracker.path(next_nodes@[i].0), start)
                    &&& next_nodes@[i].1 == capped(walk_cost(edges, path_tracker.path(next_nodes@[i].0)))
                    &&& next_nodes@[i].0.depth + 1 <= if n == 0 { 1 } else { n }
                },
            forall|h: Seq<i32>| #[trigger] is_complete_order(edges, h, start, n) ==> covered(
                path_tracker,
                next_nodes@,
                h,
            ),
        decreases queue_potential(next_nodes@, n),
    {
        let k = min_entry(&next_nodes);
        let ghost before = next_nodes@;
        let MinScored(path_node, score_when_queued) = next_nodes.remove(k);
        proof {
            lemma_queue_potential_remove(before, n, k as int);
            path_tracker.lemma_path_shape(path_node);
            assert forall|i: int| 0 <= i < next_nodes@.len() implies {
                &&& path_tracker.valid_ref((#[trigger] next_nodes@[i]).0)
                &&& is_partial_order(edges, path_tracker.path(next_nodes@[i].0), start)
                &&& next_nodes@[i].1 == capped(walk_cost(edges, path_tracker.path(next_nodes@[i].0)))
                &&& next_nodes@[i].0.depth + 1 <= if n == 0 { 1 } else { n }
            } by {
                let ii = if i < k { i } else { i + 1 };
                assert(next_nodes@[i] == before[ii]);
            }
            assert forall|h: Seq<i32>| #[trigger] is_complete_order(edges, h, start, n) implies covered(
                path_tracker,
                next_nodes@,
                h,
            ) || is_prefix(path_tracker.path(path_node), h) by {
                let i = choose|i: int| 0 <= i < before.len() && #[trigger] is_prefix(path_tracker.path(before[i].0), h);
                if i != k {
                    let ii = if i < k { i } else { i - 1 };
                    assert(next_nodes@[ii] == before[i]);
                    assert(is_prefix(path_tracker.path(next_nodes@[ii].0), h));
                }
            }
        }
        if path_node.depth + 1 == node_count {
            proof {
                assert forall|h: Seq<i32>| #[trigger] is_complete_order(edges, h, start, n) implies
                    score_when_queued <= capped(walk_cost(edges, h)) by {
                    let i = choose|i: int| 0 <= i < before.len() && #[trigger] is_prefix(path_tracker.path(before[i].0), h);
                    let pi = path_tracker.path(before[i].0);
                    assert(is_partial_order(edges, pi, start));
                    assert(pi.len() >= 1);
                    lemma_walk_cost_nonneg(edges, pi);
                    lemma_walk_cost_prefix(edges, h, pi.len() as int);
                    assert(h.take(pi.len() as int) == pi);
                    assert(before[i].1 == capped(walk_cost(edges, pi)));
                    assert(before[k as int].1 <= before[i].1);
                    assert(score_when_queued == before[k as int].1);
                }
            }
            let path = path_tracker.recreate_path(&path_node);
            return Some((path, score_when_queued));
        }
        let ghost parent_path = path_tracker.path(path_node);
        let ghost child_pot = potential(n, (path_node.depth + 1) as nat);
        let ghost base = queue_potential(next_nodes@, n);
        let edges_out = out_edges(graph, path_node.id);
        proof {
            let targets = edges_out@.map_values(|e: (i32, u64)| e.0);
            assert(targets.no_duplicates()) by {
                assert forall|i: int, j: int| 0 <= i < targets.len() && 0 <= j < targets.len() && i != j
                    implies targets[i] != targets[j] by {
                    if i < j {
                        assert(edges_out@[i].0 != edges_out@[j].0);
                    } else {
                        assert(edges_out@[j].0 != edges_out@[i].0);
                    }
                }
            }
            targets.unique_seq_to_set();
            graph_nodes(*graph).lemma_cardinality_of_set();
            assert(targets.to_set().subset_of(graph_nodes(*graph).to_set())) by {
                assert forall|t: i32| targets.to_set().contains(t) implies graph_nodes(*graph).to_set().contains(t) by {
                    let i = choose|i: int| 0 <= i < targets.len() && targets[i] == t;
                    assert(graph_nodes(*graph).contains(edges_out@[i].0));
                }
            }
            vstd::set_lib::lemma_len_subset(targets.to_set(), graph_nodes(*graph).to_set());
            if edges_out@.len() > 0 {
                assert(graph_nodes(*graph).contains(edges_out@[0].0));
                assert(graph_nodes(*graph).contains(path_node.id));
                assert(n >= 1);
                assert(potential(n, path_node.depth as nat) == 1 + n * child_pot);
                vstd::arithmetic::mul::lemma_mul_inequality(edges_out@.len() as int, n as int, child_pot as int);
            } else {
                assert(edges_out@.len() * child_pot == 0) by (nonlinear_arith)
                    requires edges_out@.len() == 0;
            }
            assert(base + edges_out@.len() * child_pot < queue_potential(before, n));
            let d = path_node.depth as int;
            assert forall|h: Seq<i32>| #[trigger] is_complete_order(edges, h, start, n) implies covered(
                path_tracker,
                next_nodes@,
                h,
            ) || (is_prefix(parent_path, h) && exists|j: int|
                0 <= j < edges_out@.len() && #[trigger] edges_out@[j].0 == h[parent_path.len() as int]) by {
                if !covered(path_tracker, next_nodes@, h) {
                    assert(h[d] == parent_path[d]);
                    assert(edges.contains_key((h[d], h[d + 1])));
                }
            }
        }
        let mut e: usize = 0;
        while e < edges_out.len()
            invariant
                e <= edges_out@.len(),
                edges == graph_edges(*graph),
                node_count == graph_nodes(*graph).len(),
                n == node_count,
                path_tracker.wf(),
                path_tracker.valid_ref(path_node),
                path_tracker.path(path_node) == parent_path,
                is_partial_order(edges, parent_path, start),
                parent_path.len() == path_node.depth + 1,
                parent_path.last() == path_node.id,
                score_when_queued == capped(walk_cost(edges, parent_path)),
                path_node.depth + 1 < n || edges_out@.len() == 0,
                child_pot == potential(n, (path_node.depth + 1) as nat),
                queue_potential(next_nodes@, n) + (edges_out@.len() - e) * child_pot < queue_potential(before, n),
                forall|i: int|
                    0 <= i < edges_out@.len() ==> edges.contains_key((path_node.id, #[trigger] edges_out@[i].0))
                        && edges[(path_node.id, edges_out@[i].0)] == edges_out@[i].1,
                forall|i: int|
                    0 <= i < next_nodes@.len() ==> {
                        &&& path_tracker.valid_ref((#[trigger] next_nodes@[i]).0)
                        &&& is_partial_order(edges, path_tracker.path(next_nodes@[i].0), start)
                        &&& next_nodes@[i].1 == capped(walk_cost(edges, path_tracker.path(next_nodes@[i].0)))
                        &&& next_nodes@[i].0.depth + 1 <= if n == 0 { 1 } else { n }
                    },
                forall|h: Seq<i32>| #[trigger] is_complete_order(edges, h, start, n) ==> covered(
                    path_tracker,
                    next_nodes@,
                    h,
                ) || (is_prefix(parent_path, h) && exists|j: int|
                    e <= j < edges_out@.len() && #[trigger] edges_out@[j].0 == h[parent_path.len() as int]),
            decreases edges_out@.len() - e,
        {
            let (target, cost) = edges_out[e];
            let score_from_current = cost_add(score_when_queued, cost);
            let ghost pot_now = queue_potential(next_nodes@, n);
            proof {
                assert((edges_out@.len() - e) * child_pot == (edges_out@.len() - e - 1) * child_pot + child_pot)
                    by (nonlinear_arith);
            }
            let included = path_tracker.path_includes(&path_node, target);
            if included {
                proof {
                    assert forall|h: Seq<i32>| #[trigger] is_complete_order(edges, h, start, n) implies covered(
                        path_tracker,
                        next_nodes@,
                        h,
                    ) || (is_prefix(parent_path, h) && exists|j: int|
                        e + 1 <= j < edges_out@.len() && #[trigger] edges_out@[j].0 == h[parent_path.len() as int]) by {
                        if !covered(path_tracker, next_nodes@, h) {
                            let j = choose|j: int| e <= j < edges_out@.len() && #[trigger] edges_out@[j].0 == h[parent_path.len() as int];
                            if j == e {
                                let x = choose|x: int| 0 <= x < parent_path.len() && parent_path[x] == target;
                                assert(h[x] == parent_path[x]);
                                assert(false);
                            }
                        }
                    }
                }
            } else {
                let ghost old_queue = next_nodes@;
                let ghost old_tracker = path_tracker;
                let child = path_tracker.push(&path_node, target);
                next_nodes.push(MinScored(child, score_from_current));
                proof {
                    lemma_queue_potential_push(old_queue, n, MinScored(child, score_from_current));
                    let cp = parent_path.push(target);
                    assert(path_tracker.path(child) == cp);
                    lemma_walk_cost_push(edges, parent_path, target);
                    lemma_walk_cost_nonneg(edges, parent_path);
                    assert(cp[0] == start);
                    assert forall|i: int| 0 <= i < cp.len() - 1 implies #[trigger] edges.contains_key((cp[i], cp[i + 1])) by {
                        if i < parent_path.len() - 1 {
                            assert(cp[i] == parent_path[i] && cp[i + 1] == parent_path[i + 1]);
                        }
                    }
                    assert(cp.no_duplicates()) by {
                        assert forall|i: int, j: int| 0 <= i < cp.len() && 0 <= j < cp.len() && i != j
                            implies cp[i] != cp[j] by {
                            if i < parent_path.len() && j < parent_path.len() {
                                assert(cp[i] == parent_path[i] && cp[j] == parent_path[j]);
                            } else if i < parent_path.len() {
                                assert(cp[i] == parent_path[i]);
                            } else {
                                assert(cp[j] == parent_path[j]);
                            }
                        }
                    }
                    assert forall|i: int| 0 <= i < next_nodes@.len() implies {
                        &&& path_tracker.valid_ref((#[trigger] next_nodes@[i]).0)
                        &&& is_partial_order(edges, path_tracker.path(next_nodes@[i].0), start)
                        &&& next_nodes@[i].1 == capped(walk_cost(edges, path_tracker.path(next_nodes@[i].0)))
                        &&& next_nodes@[i].0.depth + 1 <= if n == 0 { 1 } else { n }
                    } by {
                        if i < old_queue.len() {
                            assert(next_nodes@[i] == old_queue[i]);
                            assert(old_tracker.valid_ref(old_queue[i].0));
                        }
                    }
                    assert forall|h: Seq<i32>| #[trigger] is_complete_order(edges, h, start, n) implies covered(
                        path_tracker,
                        next_nodes@,
                        h,
                    ) || (is_prefix(parent_path, h) && exists|j: int|
                        e + 1 <= j < edges_out@.len() && #[trigger] edges_out@[j].0 == h[parent_path.len() as int]) by {
                        if covered(old_tracker, old_queue, h) {
                            let i = choose|i: int| 0 <= i < old_queue.len() && #[trigger] is_prefix(old_tracker.path(old_queue[i].0), h);
                            assert(old_tracker.valid_ref(old_queue[i].0));
                            assert(next_nodes@[i] == old_queue[i]);
                            assert(is_prefix(path_tracker.path(next_nodes@[i].0), h));
                        } else {
                            let j = choose|j: int| e <= j < edges_out@.len() && #[trigger] edges_out@[j].0 == h[parent_path.len() as int];
                            if j == e {
                                assert(h.take(cp.len() as int) =~= cp);
                                assert(next_nodes@[old_queue.len() as int].0 == child);
                                assert(is_prefix(path_tracker.path(next_nodes@[old_queue.len() as int].0), h));
                            }
                        }
                    }
                }
            }
            e = e + 1;
        }
    }

    None
}

/// Index of the first entry of `queue` with the least score.
fn min_entry(queue: &Vec<MinScored<PathTrackerNodeRef, u64>>) -> (k: usize)
    requires
        queue@.len() > 0,
    ensures
        k < queue@.len(),
        forall|j: int| 0 <= j < queue@.len() ==> queue@[k as int].1 <= #[trigger] queue@[j].1,
{
    let mut k: usize = 0;
    let mut j: usize = 1;
    while j < queue.len()
        invariant
            0 < j <= queue@.len(),
            k < j,
            forall|i: int| 0 <= i < j ==> queue@[k as int].1 <= #[trigger] queue@[i].1,
        decreases queue@.len() - j,
    {
        match queue[j].cmp(&queue[k]) {
            std::cmp::Ordering::Greater => {
                k = j;
            },
            _ => {},
        }
        j = j + 1;
    }
    k
}

} // verus!
