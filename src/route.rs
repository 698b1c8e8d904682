use vstd::prelude::*;
use petgraph::graphmap::DiGraphMap;
use crate::graph::{graph_edges, graph_nodes, new_graph, add_node, add_edge};
use crate::search::dijkstra;
use crate::tour::{shortest_hamiltonian_path, is_partial_order, is_complete_order};
use crate::walk::{INFINITE, capped, is_simple_walk, walk_between, walk_cost, lemma_walk_cost_push, lemma_walk_cost_nonneg};
use crate::search::shortest_result;

verus! {

/// Where leg `i` of a route from `from` starts: at `from`, or where the leg before it ends.
pub open spec fn leg_start(from: i32, legs: Seq<(i32, Vec<i32>)>, i: int) -> i32 {
    if i == 0 {
        from
    } else {
        legs[i - 1].0
    }
}

/// The summed cost of the legs of a route.
pub open spec fn legs_cost(edges: Map<(i32, i32), u64>, legs: Seq<(i32, Vec<i32>)>) -> int
    decreases legs.len(),
{
    if legs.len() == 0 {
        0
    } else {
        legs_cost(edges, legs.drop_last()) + walk_cost(edges, legs.last().1@)
    }
}

/// The goals of the legs are the goals but `from`, each once.
pub open spec fn visits_goals(from: i32, goals: Seq<i32>, legs: Seq<(i32, Vec<i32>)>) -> bool {
    &&& forall|i: int| 0 <= i < legs.len() ==> goals.contains((#[trigger] legs[i]).0) && legs[i].0 != from
    &&& forall|i: int, j: int| 0 <= i < j < legs.len() ==> (#[trigger] legs[i]).0 != (#[trigger] legs[j]).0
    &&& forall|g: i32| goals.contains(g) && g != from ==> exists|i: int| 0 <= i < legs.len() && (#[trigger] legs[i]).0 == g
}

/// `legs` is a route from `from` that reaches every goal, one goal per leg, each leg a path
/// that visits no node twice.
pub open spec fn is_route(
    edges: Map<(i32, i32), u64>,
    from: i32,
    goals: Seq<i32>,
    legs: Seq<(i32, Vec<i32>)>,
) -> bool {
    &&& forall|i: int|
        0 <= i < legs.len() ==> is_simple_walk(
            edges,
            (#[trigger] legs[i]).1@,
            leg_start(from, legs, i),
            legs[i].0,
        )
    &&& visits_goals(from, goals, legs)
}

/// `legs` is a route from `from` that reaches every goal, one goal per leg, each leg a walk.
pub open spec fn is_route_through(
    edges: Map<(i32, i32), u64>,
    from: i32,
    goals: Seq<i32>,
    legs: Seq<(i32, Vec<i32>)>,
) -> bool {
    &&& forall|i: int|
        0 <= i < legs.len() ==> walk_between(edges, (#[trigger] legs[i]).1@, leg_start(from, legs, i), legs[i].0)
    &&& visits_goals(from, goals, legs)
}

/// What a route search reports: a route of finite cost with that cost, or `None`; and a route
/// whenever one of finite cost exists, at no more than the cost of any.
pub open spec fn route_result(
    edges: Map<(i32, i32), u64>,
    from: i32,
    goals: Seq<i32>,
    r: Option<(Vec<(i32, Vec<i32>)>, u64)>,
) -> bool {
    &&& match r {
        Some((legs, total)) => {
            &&& total < INFINITE
            &&& total == legs_cost(edges, legs@)
            &&& is_route(edges, from, goals, legs@)
        },
        None => true,
    }
    &&& forall|legs: Seq<(i32, Vec<i32>)>|
        #[trigger] is_route_through(edges, from, goals, legs) && legs_cost(edges, legs) < INFINITE ==> r is Some
            && r->Some_0.1 <= legs_cost(edges, legs)
}

/// Where no route of finite cost reaches every goal, the search reports none.
pub proof fn lemma_no_finite_route_no_result(
    edges: Map<(i32, i32), u64>,
    from: i32,
    goals: Seq<i32>,
    r: Option<(Vec<(i32, Vec<i32>)>, u64)>,
)
    requires
        route_result(edges, from, goals, r),
        forall|legs: Seq<(i32, Vec<i32>)>|
            #[trigger] is_route_through(edges, from, goals, legs) ==> legs_cost(edges, legs) >= INFINITE,
    ensures
        r is None,
{
    if let Some((legs, total)) = r {
        assert forall|i: int| 0 <= i < legs@.len() implies walk_between(
            edges,
            (#[trigger] legs@[i]).1@,
            leg_start(from, legs@, i),
            legs@[i].0,
        ) by {}
        assert(is_route_through(edges, from, goals, legs@));
    }
}

/// A goal other than the origin that no edge enters is reached by no route, so the search
/// reports none.
pub proof fn lemma_unenterable_goal_no_result(
    edges: Map<(i32, i32), u64>,
    from: i32,
    goals: Seq<i32>,
    goal: i32,
    r: Option<(Vec<(i32, Vec<i32>)>, u64)>,
)
    requires
        route_result(edges, from, goals, r),
        goals.contains(goal),
        goal != from,
        forall|u: i32| !edges.contains_key((u, goal)),
    ensures
        r is None,
{
    if let Some((legs, total)) = r {
        let i = choose|i: int| 0 <= i < legs@.len() && (#[trigger] legs@[i]).0 == goal;
        let p = legs@[i].1@;
        assert(is_simple_walk(edges, p, leg_start(from, legs@, i), goal));
        if i > 0 {
            assert(legs@[i - 1].0 != legs@[i].0);
        }
        assert(p.len() >= 2);
        assert(edges.contains_key((p[p.len() - 2], p[p.len() - 2 + 1])));
    }
}

/// The order in which a route visits the goals, starting at `from`.
pub open spec fn order_of(from: i32, legs: Seq<(i32, Vec<i32>)>) -> Seq<i32> {
    seq![from] + legs.map_values(|l: (i32, Vec<i32>)| l.0)
}

proof fn lemma_legs_cost_nonneg(edges: Map<(i32, i32), u64>, legs: Seq<(i32, Vec<i32>)>)
    ensures
        legs_cost(edges, legs) >= 0,
    decreases legs.len(),
{
    if legs.len() > 0 {
        lemma_legs_cost_nonneg(edges, legs.drop_last());
        lemma_walk_cost_nonneg(edges, legs.last().1@);
    }
}

/// No leg costs more than the whole route.
proof fn lemma_leg_within_total(edges: Map<(i32, i32), u64>, legs: Seq<(i32, Vec<i32>)>, i: int)
    requires
        0 <= i < legs.len(),
    ensures
        walk_cost(edges, legs[i].1@) <= legs_cost(edges, legs),
    decreases legs.len(),
{
    lemma_legs_cost_nonneg(edges, legs.drop_last());
    lemma_walk_cost_nonneg(edges, legs.last().1@);
    if i < legs.len() - 1 {
        lemma_leg_within_total(edges, legs.drop_last(), i);
    }
}

/// The goal order of a route costs, in a graph whose edges cost no more than the legs, no more
/// than the route.
proof fn lemma_order_cost(
    goal_edges: Map<(i32, i32), u64>,
    edges: Map<(i32, i32), u64>,
    from: i32,
    legs: Seq<(i32, Vec<i32>)>,
)
    requires
        forall|i: int|
            0 <= i < legs.len() ==> goal_edges[(leg_start(from, legs, i), (#[trigger] legs[i]).0)] <= walk_cost(
                edges,
                legs[i].1@,
            ),
    ensures
        walk_cost(goal_edges, order_of(from, legs)) <= legs_cost(edges, legs),
    decreases legs.len(),
{
    if legs.len() == 0 {
        assert(order_of(from, legs) =~= seq![from]);
    } else {
        let dl = legs.drop_last();
        assert forall|i: int| 0 <= i < dl.len() implies goal_edges[(leg_start(from, dl, i), (#[trigger] dl[i]).0)]
            <= walk_cost(edges, dl[i].1@) by {
            assert(dl[i] == legs[i]);
            if i > 0 {
                assert(dl[i - 1] == legs[i - 1]);
            }
        }
        lemma_order_cost(goal_edges, edges, from, dl);
        assert(order_of(from, legs) =~= order_of(from, dl).push(legs.last().0));
        lemma_walk_cost_push(goal_edges, order_of(from, dl), legs.last().0);
        let n = legs.len() - 1;
        if n > 0 {
            assert(order_of(from, dl).last() == dl[n - 1].0);
        }
        assert(order_of(from, dl).last() == leg_start(from, legs, n));
    }
}

/// A no-duplicate sequence that lies within another of the same length covers it.
proof fn lemma_cover(a: Seq<i32>, b: Seq<i32>)
    requires
        a.no_duplicates(),
        b.no_duplicates(),
        a.len() == b.len(),
        forall|i: int| 0 <= i < a.len() ==> b.contains(#[trigger] a[i]),
    ensures
        forall|y: i32| b.contains(y) ==> a.contains(y),
{
    a.unique_seq_to_set();
    b.unique_seq_to_set();
    assert forall|y: i32| b.contains(y) implies a.contains(y) by {
        if !a.contains(y) {
            assert(a.to_set().subset_of(b.to_set().remove(y))) by {
                assert forall|x: i32| a.to_set().contains(x) implies b.to_set().remove(y).contains(x) by {
                    let i = choose|i: int| 0 <= i < a.len() && a[i] == x;
                    assert(b.contains(a[i]));
                }
            }
            assert(b.to_set().contains(y));
            vstd::set_lib::lemma_len_subset(a.to_set(), b.to_set().remove(y));
        }
    }
}

/// `e` holds a path of cost `d`.
spec fn found_at_cost(e: (i32, Option<(u64, Vec<i32>)>), d: u64) -> bool {
    match e.1 {
        Some((c, _)) => c == d,
        None => false,
    }
}

/// A route of finite cost gives a complete order of the goal graph that costs no more.
proof fn lemma_route_gives_order(
    edges: Map<(i32, i32), u64>,
    goal_edges: Map<(i32, i32), u64>,
    from: i32,
    goals: Seq<i32>,
    targets: Seq<i32>,
    sources: Seq<i32>,
    table: Seq<Vec<(i32, Option<(u64, Vec<i32>)>)>>,
    legs: Seq<(i32, Vec<i32>)>,
)
    requires
        is_route_through(edges, from, goals, legs),
        legs_cost(edges, legs) < INFINITE,
        sources == seq![from] + targets,
        targets.no_duplicates(),
        !targets.contains(from),
        forall|t: int| 0 <= t < targets.len() ==> goals.contains(#[trigger] targets[t]),
        forall|j: int| 0 <= j < goals.len() ==> goals[j] == from || targets.contains(#[trigger] goals[j]),
        table.len() == sources.len(),
        forall|x: int| 0 <= x < sources.len() ==> (#[trigger] table[x])@.len() == targets.len(),
        forall|x: int, y: int|
            0 <= x < sources.len() && 0 <= y < targets.len() ==> shortest_result(
                edges,
                sources[x],
                targets[y],
                (#[trigger] table[x]@[y]).1,
            ),
        forall|x: int, y: int|
            0 <= x < sources.len() && 0 <= y < targets.len() && sources[x] != targets[y] && (
            #[trigger] table[x]@[y]).1 is Some ==> goal_edges.contains_key((sources[x], targets[y]))
                && found_at_cost(table[x]@[y], goal_edges[(sources[x], targets[y])]),
    ensures
        is_complete_order(goal_edges, order_of(from, legs), from, sources.len()),
        walk_cost(goal_edges, order_of(from, legs)) <= legs_cost(edges, legs),
{
    let h = order_of(from, legs);
    let ids = legs.map_values(|l: (i32, Vec<i32>)| l.0);
    assert forall|i: int| 0 <= i < legs.len() implies targets.contains((#[trigger] legs[i]).0) by {
        let j = choose|j: int| 0 <= j < goals.len() && goals[j] == legs[i].0;
        assert(targets.contains(goals[j]));
    }
    assert forall|i: int| 0 <= i < legs.len() implies goal_edges.contains_key(
        (leg_start(from, legs, i), (#[trigger] legs[i]).0),
    ) && goal_edges[(leg_start(from, legs, i), legs[i].0)] <= walk_cost(edges, legs[i].1@) by {
        let a = leg_start(from, legs, i);
        let b = legs[i].0;
        let y = choose|y: int| 0 <= y < targets.len() && targets[y] == b;
        let x: int = if i == 0 {
            0
        } else {
            assert(targets.contains(legs[i - 1].0));
            let y2 = choose|y2: int| 0 <= y2 < targets.len() && targets[y2] == legs[i - 1].0;
            y2 + 1
        };
        assert(sources[x] == a);
        if i > 0 {
            assert(legs[i - 1].0 != legs[i].0);
        }
        assert(a != b);
        lemma_leg_within_total(edges, legs, i);
        assert(walk_between(edges, legs[i].1@, a, b));
        assert(shortest_result(edges, sources[x], targets[y], table[x]@[y].1));
        assert(table[x]@[y].1 is Some);
    }
    assert(is_partial_order(goal_edges, h, from)) by {
        assert forall|i: int| 0 <= i < h.len() - 1 implies #[trigger] goal_edges.contains_key((h[i], h[i + 1])) by {
            assert(h[i + 1] == legs[i].0);
            if i > 0 {
                assert(h[i] == legs[i - 1].0);
            }
            assert(h[i] == leg_start(from, legs, i));
        }
        assert forall|i: int, j: int| 0 <= i < h.len() && 0 <= j < h.len() && i != j implies h[i] != h[j] by {
            if i > 0 && j > 0 {
                assert(h[i] == legs[i - 1].0 && h[j] == legs[j - 1].0);
            } else if i > 0 {
                assert(h[i] == legs[i - 1].0);
            } else {
                assert(h[j] == legs[j - 1].0);
            }
        }
    }
    assert(ids.no_duplicates()) by {
        assert forall|i: int, j: int| 0 <= i < ids.len() && 0 <= j < ids.len() && i != j implies ids[i] != ids[j] by {
            if i < j {
                assert(legs[i].0 != legs[j].0);
            } else {
                assert(legs[j].0 != legs[i].0);
            }
        }
    }
    assert(ids.to_set() =~= targets.to_set()) by {
        assert forall|t: i32| ids.to_set().contains(t) implies targets.to_set().contains(t) by {
            let i = choose|i: int| 0 <= i < ids.len() && ids[i] == t;
            assert(targets.contains(legs[i].0));
        }
        assert forall|t: i32| targets.to_set().contains(t) implies ids.to_set().contains(t) by {
            let y = choose|y: int| 0 <= y < targets.len() && targets[y] == t;
            assert(goals.contains(targets[y]));
            let i = choose|i: int| 0 <= i < legs.len() && (#[trigger] legs[i]).0 == t;
            assert(ids[i] == t);
        }
    }
    ids.unique_seq_to_set();
    targets.unique_seq_to_set();
    lemma_order_cost(goal_edges, edges, from, legs);
}

/// Index of `x` in `s`, which holds it.
fn index_of(s: &Vec<i32>, x: i32) -> (k: Option<usize>)
    ensures
        match k {
            Some(k) => k < s@.len() && s@[k as int] == x,
            None => !s@.contains(x),
        },
{
    let mut i: usize = 0;
    while i < s.len()
        invariant
            i <= s@.len(),
            forall|j: int| 0 <= j < i ==> s@[j] != x,
        decreases s@.len() - i,
    {
        if s[i] == x {
            return Some(i);
        }
        i = i + 1;
    }
    None
}

/// The goals to reach, each once and without the origin, and the sources of the legs: the
/// origin, then each of those goals.
fn goal_sources(from_node: i32, goal_nodes: &[i32]) -> (r: (Vec<i32>, Vec<i32>))
    ensures
        r.0@.no_duplicates(),
        !r.0@.contains(from_node),
        forall|i: int| 0 <= i < r.0@.len() ==> goal_nodes@.contains(#[trigger] r.0@[i]),
        forall|j: int| 0 <= j < goal_nodes@.len() ==> goal_nodes@[j] == from_node || r.0@.contains(#[trigger] goal_nodes@[j]),
        r.1@ == seq![from_node] + r.0@,
        r.1@.no_duplicates(),
{
    let mut targets: Vec<i32> = Vec::new();
    let mut g: usize = 0;
    while g < goal_nodes.len()
        invariant
            g <= goal_nodes@.len(),
            targets@.no_duplicates(),
            !targets@.contains(from_node),
            forall|i: int| 0 <= i < targets@.len() ==> goal_nodes@.contains(#[trigger] targets@[i]),
            forall|j: int| 0 <= j < g ==> goal_nodes@[j] == from_node || targets@.contains(#[trigger] goal_nodes@[j]),
        decreases goal_nodes@.len() - g,
    {
        let goal = goal_nodes[g];
        if goal != from_node {
            match index_of(&targets, goal) {
                Some(_) => {},
                None => {
                    let ghost old_targets = targets@;
                    targets.push(goal);
                    proof {
                        assert forall|j: int| 0 <= j <= g implies goal_nodes@[j] == from_node || targets@.contains(#[trigger] goal_nodes@[j]) by {
                            if j < g && goal_nodes@[j] != from_node {
                                let k = choose|k: int| 0 <= k < old_targets.len() && old_targets[k] == goal_nodes@[j];
                                assert(targets@[k] == goal_nodes@[j]);
                            }
                            if j == g {
                                assert(targets@[old_targets.len() as int] == goal);
                            }
                        }
                        assert(!targets@.contains(from_node)) by {
                            if targets@.contains(from_node) {
                                let k = choose|k: int| 0 <= k < targets@.len() && targets@[k] == from_node;
                                if k < old_targets.len() {
                                    assert(old_targets[k] == from_node);
                                }
                            }
                        }
                    }
                },
            }
        }
        g = g + 1;
    }

    let mut sources: Vec<i32> = Vec::new();
    sources.push(from_node);
    let mut t: usize = 0;
    while t < targets.len()
        invariant
            t <= targets@.len(),
            sources@ == seq![from_node] + targets@.take(t as int),
        decreases targets@.len() - t,
    {
        sources.push(targets[t]);
        t = t + 1;
        proof {
            assert(sources@ =~= seq![from_node] + targets@.take(t as int));
        }
    }
    proof {
        assert(targets@.take(targets@.len() as int) =~= targets@);
        assert(sources@.no_duplicates()) by {
            assert forall|i: int, j: int| 0 <= i < sources@.len() && 0 <= j < sources@.len() && i != j
                implies sources@[i] != sources@[j] by {
                if i > 0 && j > 0 {
                    assert(sources@[i] == targets@[i - 1] && sources@[j] == targets@[j - 1]);
                } else if i > 0 {
                    assert(sources@[i] == targets@[i - 1]);
                    assert(targets@.contains(sources@[i]));
                } else {
                    assert(sources@[j] == targets@[j - 1]);
                    assert(targets@.contains(sources@[j]));
                }
            }
        }
    }
    (targets, sources)
}

/// The shortest paths from each source to every goal, and the graph of their costs.
fn leg_table(graph: &DiGraphMap<i32, u64>, from_node: i32, targets: &Vec<i32>, sources: &Vec<i32>) -> (r: (
    Vec<Vec<(i32, Option<(u64, Vec<i32>)>)>>,
    DiGraphMap<i32, u64>,
))
    requires
        targets@.no_duplicates(),
        !targets@.contains(from_node),
        sources@ == seq![from_node] + targets@,
        sources@.no_duplicates(),
    ensures
        r.0@.len() == sources@.len(),
        graph_nodes(r.1) == sources@,
        forall|i: int| 0 <= i < sources@.len() ==> (#[trigger] r.0@[i])@.len() == targets@.len(),
        forall|i: int, j: int|
            0 <= i < sources@.len() && 0 <= j < targets@.len() ==> shortest_result(
                graph_edges(*graph),
                sources@[i],
                targets@[j],
                (#[trigger] r.0@[i]@[j]).1,
            ),
        forall|x: int, y: int|
            0 <= x < sources@.len() && 0 <= y < targets@.len() && sources@[x] != targets@[y] && (
            #[trigger] r.0@[x]@[y]).1 is Some ==> graph_edges(r.1).contains_key((sources@[x], targets@[y]))
                && found_at_cost(r.0@[x]@[y], graph_edges(r.1)[(sources@[x], targets@[y])]),
        forall|a: i32, b: i32|
            #[trigger] graph_edges(r.1).contains_key((a, b)) ==> exists|i: int, j: int|
                0 <= i < sources@.len() && 0 <= j < targets@.len() && sources@[i] == a && targets@[j] == b
                    && a != b && found_at_cost(#[trigger] r.0@[i]@[j], graph_edges(r.1)[(a, b)]),
{
    let ghost edges = graph_edges(*graph);
    let mut table: Vec<Vec<(i32, Option<(u64, Vec<i32>)>)>> = Vec::new();
    let mut goal_graph = new_graph();
    add_node(&mut goal_graph, from_node);
    let mut t: usize = 0;
    while t < targets.len()
        invariant
            t <= targets@.len(),
            !targets@.contains(from_node),
            targets@.no_duplicates(),
            graph_nodes(goal_graph) == seq![from_node] + targets@.take(t as int),
            graph_edges(goal_graph).dom().len() == 0,
            graph_edges(goal_graph).dom().finite(),
        decreases targets@.len() - t,
    {
        let ghost before = graph_nodes(goal_graph);
        add_node(&mut goal_graph, targets[t]);
        proof {
            assert(!before.contains(targets@[t as int])) by {
                if before.contains(targets@[t as int]) {
                    let k = choose|k: int| 0 <= k < before.len() && before[k] == targets@[t as int];
                    if k > 0 {
                        assert(targets@[k - 1] == targets@[t as int]);
                    } else {
                        assert(targets@.contains(from_node));
                    }
                }
            }
            assert(graph_nodes(goal_graph) =~= seq![from_node] + targets@.take(t + 1));
        }
        t = t + 1;
    }
    proof {
        assert(targets@.take(targets@.len() as int) =~= targets@);
        assert(graph_nodes(goal_graph) =~= sources@);
        assert(graph_edges(goal_graph) =~= Map::empty()) by {
            assert forall|k: (i32, i32)| !graph_edges(goal_graph).contains_key(k) by {
                if graph_edges(goal_graph).contains_key(k) {
                    vstd::set_lib::lemma_set_empty_equivalency_len(graph_edges(goal_graph).dom());
                }
            }
        }
    }

    let mut s: usize = 0;
    while s < sources.len()
        invariant
            s <= sources@.len(),
            table@.len() == s,
            edges == graph_edges(*graph),
            sources@ == seq![from_node] + targets@,
            graph_nodes(goal_graph) == sources@,
            forall|i: int, j: int|
                0 <= i < s && 0 <= j < table@[i]@.len() ==> (#[trigger] table@[i]@[j]).0 == targets@[j],
            forall|i: int| 0 <= i < s ==> (#[trigger] table@[i])@.len() == targets@.len(),
            forall|i: int, j: int|
                0 <= i < s && 0 <= j < targets@.len() ==> shortest_result(
                    edges,
                    sources@[i],
                    targets@[j],
                    (#[trigger] table@[i]@[j]).1,
                ),
            sources@.no_duplicates(),
            targets@.no_duplicates(),
            forall|x: int, y: int|
                0 <= x < s && 0 <= y < targets@.len() && sources@[x] != targets@[y] && (
                #[trigger] table@[x]@[y]).1 is Some ==> graph_edges(goal_graph).contains_key((sources@[x], targets@[y]))
                    && found_at_cost(table@[x]@[y], graph_edges(goal_graph)[(sources@[x], targets@[y])]),
            forall|a: i32, b: i32|
                #[trigger] graph_edges(goal_graph).contains_key((a, b)) ==> exists|i: int, j: int|
                    0 <= i < s && 0 <= j < targets@.len() && sources@[i] == a && targets@[j] == b
                        && a != b && found_at_cost(#[trigger] table@[i]@[j], graph_edges(goal_graph)[(a, b)]),
        decreases sources@.len() - s,
    {
        let from = sources[s];
        let row = dijkstra(graph, from, targets.clone());
        proof {
            assert forall|a: i32, b: i32|
                #[trigger] graph_edges(goal_graph).contains_key((a, b)) implies exists|i: int, k: int|
                    0 <= i <= s && 0 <= k < targets@.len() && sources@[i] == a && targets@[k] == b
                        && a != b && found_at_cost(#[trigger] table@.push(row)[i]@[k], graph_edges(goal_graph)[(a, b)])
                        && (i == s ==> k < 0) by {
                let (i, k) = choose|i: int, k: int|
                    0 <= i < s && 0 <= k < targets@.len() && sources@[i] == a && targets@[k] == b
                        && a != b && found_at_cost(#[trigger] table@[i]@[k], graph_edges(goal_graph)[(a, b)]);
                assert(table@.push(row)[i] == table@[i]);
            }
            assert forall|x: int, y: int|
                0 <= x <= s && 0 <= y < targets@.len() && (x == s ==> y < 0) && sources@[x] != targets@[y] && (
                #[trigger] table@.push(row)[x]@[y]).1 is Some implies graph_edges(goal_graph).contains_key((sources@[x], targets@[y]))
                    && found_at_cost(table@.push(row)[x]@[y], graph_edges(goal_graph)[(sources@[x], targets@[y])]) by {
                assert(table@.push(row)[x] == table@[x]);
            }
        }
        let mut j: usize = 0;
        while j < row.len()
            invariant
                j <= row@.len(),
                row@.len() == targets@.len(),
                s < sources@.len(),
                from == sources@[s as int],
                table@.len() == s,
                sources@ == seq![from_node] + targets@,
                graph_nodes(goal_graph) == sources@,
                forall|i: int| 0 <= i < row@.len() ==> (#[trigger] row@[i]).0 == targets@[i],
                sources@.no_duplicates(),
                targets@.no_duplicates(),
                forall|x: int, y: int|
                    0 <= x <= s && 0 <= y < targets@.len() && (x == s ==> y < j) && sources@[x] != targets@[y] && (
                    #[trigger] table@.push(row)[x]@[y]).1 is Some ==> graph_edges(goal_graph).contains_key((sources@[x], targets@[y]))
                        && found_at_cost(table@.push(row)[x]@[y], graph_edges(goal_graph)[(sources@[x], targets@[y])]),
                forall|a: i32, b: i32|
                    #[trigger] graph_edges(goal_graph).contains_key((a, b)) ==> exists|i: int, k: int|
                        0 <= i <= s && 0 <= k < targets@.len() && sources@[i] == a && targets@[k] == b
                            && a != b && found_at_cost(#[trigger] table@.push(row)[i]@[k], graph_edges(goal_graph)[(a, b)])
                            && (i == s ==> k < j),
            decreases row@.len() - j,
        {
            let (to, found) = &row[j];
            match found {
                Some((cost, _)) => {
                    if *to != from {
                        let ghost old_edges = graph_edges(goal_graph);
                        proof {
                            assert(sources@.contains(from));
                            assert(sources@[j + 1] == targets@[j as int]);
                            assert(sources@.contains(*to));
                        }
                        add_edge(&mut goal_graph, from, *to, *cost);
                        proof {
                            assert(graph_nodes(goal_graph) == sources@);
                            assert forall|a: i32, b: i32|
                                #[trigger] graph_edges(goal_graph).contains_key((a, b)) implies exists|i: int, k: int|
                                    0 <= i <= s && 0 <= k < targets@.len() && sources@[i] == a && targets@[k] == b
                                        && a != b && found_at_cost(#[trigger] table@.push(row)[i]@[k], graph_edges(goal_graph)[(a, b)])
                                        && (i == s ==> k < j + 1) by {
                                if (a, b) == (from, *to) {
                                    assert(table@.push(row)[s as int]@[j as int] == row@[j as int]);
                                } else {
                                    assert(old_edges.contains_key((a, b)));
                                }
                            }
                            assert forall|x: int, y: int|
                                0 <= x <= s && 0 <= y < targets@.len() && (x == s ==> y < j + 1) && sources@[x] != targets@[y] && (
                                #[trigger] table@.push(row)[x]@[y]).1 is Some implies graph_edges(goal_graph).contains_key((sources@[x], targets@[y]))
                                    && found_at_cost(table@.push(row)[x]@[y], graph_edges(goal_graph)[(sources@[x], targets@[y])]) by {
                                if x == s && y == j {
                                    assert(table@.push(row)[s as int]@[j as int] == row@[j as int]);
                                } else {
                                    if x != s {
                                        assert(sources@[x] != sources@[s as int]);
                                    } else {
                                        assert(targets@[y] != targets@[j as int]);
                                    }
                                    assert(old_edges.contains_key((sources@[x], targets@[y])));
                                }
                            }
                        }
                    }
                },
                None => {},
            }
            j = j + 1;
        }
        table.push(row);
        s = s + 1;
    }
    (table, goal_graph)
}

/// The path of each leg of the goal order `order`, looked up in `table`.
fn assemble_legs(
    order: &Vec<i32>,
    sources: &Vec<i32>,
    targets: &Vec<i32>,
    table: &Vec<Vec<(i32, Option<(u64, Vec<i32>)>)>>,
    total: u64,
    from_node: i32,
    Ghost(edges): Ghost<Map<(i32, i32), u64>>,
    Ghost(goal_edges): Ghost<Map<(i32, i32), u64>>,
) -> (r: Option<Vec<(i32, Vec<i32>)>>)
    requires
        sources@ == seq![from_node] + targets@,
        sources@.no_duplicates(),
        targets@.no_duplicates(),
        table@.len() == sources@.len(),
        forall|a: int| 0 <= a < sources@.len() ==> (#[trigger] table@[a])@.len() == targets@.len(),
        forall|a: int, b: int|
            0 <= a < sources@.len() && 0 <= b < targets@.len() ==> shortest_result(
                edges,
                sources@[a],
                targets@[b],
                (#[trigger] table@[a]@[b]).1,
            ),
        forall|a: i32, b: i32|
            #[trigger] goal_edges.contains_key((a, b)) ==> exists|x: int, y: int|
                0 <= x < sources@.len() && 0 <= y < targets@.len() && sources@[x] == a && targets@[y] == b
                    && a != b && found_at_cost(#[trigger] table@[x]@[y], goal_edges[(a, b)]),
        is_partial_order(goal_edges, order@, from_node),
        order@.len() == sources@.len(),
        total == walk_cost(goal_edges, order@),
        total < INFINITE,
    ensures
        match r {
            Some(legs) => {
                &&& legs@.len() + 1 == order@.len()
                &&& forall|k: int| 0 <= k < legs@.len() ==> (#[trigger] legs@[k]).0 == order@[k + 1]
                    && is_simple_walk(edges, legs@[k].1@, order@[k], order@[k + 1])
                &&& legs_cost(edges, legs@) == total
            },
            None => false,
        },
{
    proof {
        lemma_walk_cost_nonneg(goal_edges, order@);
        assert(order@.take(1) =~= seq![from_node]);
        assert(walk_cost(goal_edges, seq![from_node]) == 0);
    }
    let mut legs: Vec<(i32, Vec<i32>)> = Vec::new();
    let mut i: usize = 0;
    while i < order.len() - 1
        invariant
            is_partial_order(goal_edges, order@, from_node),
            order@.len() == sources@.len(),
            total == walk_cost(goal_edges, order@),
            total < INFINITE,
            i < order@.len(),
            legs@.len() == i,
            sources@ == seq![from_node] + targets@,
            sources@.no_duplicates(),
            targets@.no_duplicates(),
            table@.len() == sources@.len(),
            forall|a: int| 0 <= a < sources@.len() ==> (#[trigger] table@[a])@.len() == targets@.len(),
            forall|a: int, b: int|
                0 <= a < sources@.len() && 0 <= b < targets@.len() ==> shortest_result(
                    edges,
                    sources@[a],
                    targets@[b],
                    (#[trigger] table@[a]@[b]).1,
                ),
            forall|a: i32, b: i32|
                #[trigger] goal_edges.contains_key((a, b)) ==> exists|x: int, y: int|
                    0 <= x < sources@.len() && 0 <= y < targets@.len() && sources@[x] == a && targets@[y] == b
                        && a != b && found_at_cost(#[trigger] table@[x]@[y], goal_edges[(a, b)]),
            forall|k: int| 0 <= k < i ==> (#[trigger] legs@[k]).0 == order@[k + 1]
                && is_simple_walk(edges, legs@[k].1@, order@[k], order@[k + 1]),
            legs_cost(edges, legs@) == walk_cost(goal_edges, order@.take(i + 1)),
        decreases order@.len() - i,
    {
        let a = order[i];
        let b = order[i + 1];
        proof {
            assert(goal_edges.contains_key((order@[i as int], order@[i + 1])));
        }
        let (si, ti) = match (index_of(&sources, a), index_of(&targets, b)) {
            (Some(si), Some(ti)) => (si, ti),
            _ => {
                proof {
                    let (x, y) = choose|x: int, y: int|
                        0 <= x < sources@.len() && 0 <= y < targets@.len() && sources@[x] == a && targets@[y] == b
                            && a != b && found_at_cost(#[trigger] table@[x]@[y], goal_edges[(a, b)]);
                    assert(sources@.contains(a) && targets@.contains(b));
                }
                return None;
            },
        };
        proof {
            let (x, y) = choose|x: int, y: int|
                0 <= x < sources@.len() && 0 <= y < targets@.len() && sources@[x] == a && targets@[y] == b
                    && a != b && found_at_cost(#[trigger] table@[x]@[y], goal_edges[(a, b)]);
            assert(x == si);
            assert(y == ti);
        }
        let (_, found) = &table[si][ti];
        match found {
            Some((cost, path)) => {
                let leg_path = path.clone();
                proof {
                    assert(leg_path@ =~= path@);
                }
                let ghost old_legs = legs@;
                legs.push((b, leg_path));
                proof {
                    assert(legs@.drop_last() =~= old_legs);
                    assert(order@.take(i + 2) =~= order@.take(i + 1).push(order@[i + 1]));
                    lemma_walk_cost_push(goal_edges, order@.take(i + 1), order@[i + 1]);
                    assert(order@.take(i + 1).last() == a);
                    assert forall|k: int| 0 <= k < i + 1 implies (#[trigger] legs@[k]).0 == order@[k + 1]
                        && is_simple_walk(edges, legs@[k].1@, order@[k], order@[k + 1]) by {
                        if k < i {
                            assert(legs@[k] == old_legs[k]);
                        }
                    }
                }
            },
            None => {
                return None;
            },
        }
        i = i + 1;
    }
    proof {
        assert(order@.take(order@.len() as int) =~= order@);
    }
    Some(legs)
}

/// The legs along a complete goal order make a route.
proof fn lemma_order_gives_route(
    edges: Map<(i32, i32), u64>,
    goal_edges: Map<(i32, i32), u64>,
    from_node: i32,
    goal_nodes: Seq<i32>,
    targets: Seq<i32>,
    sources: Seq<i32>,
    table: Seq<Vec<(i32, Option<(u64, Vec<i32>)>)>>,
    order: Seq<i32>,
    legs: Seq<(i32, Vec<i32>)>,
)
    requires
        sources == seq![from_node] + targets,
        sources.no_duplicates(),
        targets.no_duplicates(),
        table.len() == sources.len(),
        forall|a: int| 0 <= a < sources.len() ==> (#[trigger] table[a]).len() == targets.len(),
        forall|a: int, b: int|
            0 <= a < sources.len() && 0 <= b < targets.len() ==> shortest_result(
                edges,
                sources[a],
                targets[b],
                (#[trigger] table[a][b]).1,
            ),
        forall|a: i32, b: i32|
            #[trigger] goal_edges.contains_key((a, b)) ==> exists|x: int, y: int|
                0 <= x < sources.len() && 0 <= y < targets.len() && sources[x] == a && targets[y] == b
                    && a != b && found_at_cost(#[trigger] table[x][y], goal_edges[(a, b)]),
        is_partial_order(goal_edges, order, from_node),
        order.len() == sources.len(),
        !targets.contains(from_node),
        forall|i: int| 0 <= i < targets.len() ==> goal_nodes.contains(#[trigger] targets[i]),
        forall|j: int| 0 <= j < goal_nodes.len() ==> goal_nodes[j] == from_node || targets.contains(#[trigger] goal_nodes[j]),
        legs.len() + 1 == order.len(),
        forall|k: int| 0 <= k < legs.len() ==> (#[trigger] legs[k]).0 == order[k + 1]
            && is_simple_walk(edges, legs[k].1@, order[k], order[k + 1]),
    ensures
        is_route(edges, from_node, goal_nodes, legs),
{
        let rest = order.drop_first();
        assert forall|k: int| 0 <= k < rest.len() implies targets.contains(#[trigger] rest[k]) by {
            assert(goal_edges.contains_key((order[k], order[k + 1])));
            let (x, y) = choose|x: int, y: int|
                0 <= x < sources.len() && 0 <= y < targets.len() && sources[x] == order[k]
                    && targets[y] == order[k + 1] && order[k] != order[k + 1]
                    && found_at_cost(#[trigger] table[x][y], goal_edges[(order[k], order[k + 1])]);
        }
        assert(rest.no_duplicates()) by {
            assert forall|x: int, y: int| 0 <= x < rest.len() && 0 <= y < rest.len() && x != y
                implies rest[x] != rest[y] by {
                assert(order[x + 1] != order[y + 1]);
            }
        }
        lemma_cover(rest, targets);
        assert forall|k: int| 0 <= k < legs.len() implies is_simple_walk(
            edges,
            (#[trigger] legs[k]).1@,
            leg_start(from_node, legs, k),
            legs[k].0,
        ) by {
            if k > 0 {
                assert(legs[k - 1].0 == order[k]);
            }
        }
        assert forall|k: int| 0 <= k < legs.len() implies goal_nodes.contains((#[trigger] legs[k]).0)
            && legs[k].0 != from_node by {
            assert(targets.contains(rest[k]));
        }
        assert forall|x: int, y: int| 0 <= x < y < legs.len() implies (#[trigger] legs[x]).0
            != (#[trigger] legs[y]).0 by {
            assert(rest[x] != rest[y]);
        }
        assert forall|g: i32| goal_nodes.contains(g) && g != from_node implies exists|k: int|
            0 <= k < legs.len() && (#[trigger] legs[k]).0 == g by {
            let j = choose|j: int| 0 <= j < goal_nodes.len() && goal_nodes[j] == g;
            assert(targets.contains(goal_nodes[j]));
            assert(rest.contains(g));
            let k = choose|k: int| 0 <= k < rest.len() && rest[k] == g;
            assert(legs[k].0 == g);
        }
    }

/// The cheapest route from `from_node` that reaches each of `goal_nodes`, in the best order:
/// one leg per goal, each leg a path of `graph` to that goal, with the route's total cost.
/// `None` where no route of finite cost exists.
pub fn get_shortest_code(graph: &DiGraphMap<i32, u64>, from_node: i32, goal_nodes: &[i32]) -> (r: Option<
    (Vec<(i32, Vec<i32>)>, u64),
>)
    ensures
        route_result(graph_edges(*graph), from_node, goal_nodes@, r),
{
    let ghost edges = graph_edges(*graph);
    let (targets, sources) = goal_sources(from_node, goal_nodes);
    let (table, goal_graph) = leg_table(graph, from_node, &targets, &sources);
    let ghost goal_edges = graph_edges(goal_graph);
    proof {
        assert forall|legs: Seq<(i32, Vec<i32>)>|
            #[trigger] is_route_through(edges, from_node, goal_nodes@, legs) && legs_cost(edges, legs) < INFINITE
            implies is_complete_order(goal_edges, order_of(from_node, legs), from_node, graph_nodes(goal_graph).len())
                && walk_cost(goal_edges, order_of(from_node, legs)) <= legs_cost(edges, legs) by {
            lemma_route_gives_order(edges, goal_edges, from_node, goal_nodes@, targets@, sources@, table@, legs);
        }
    }

    // the best order of the goals, and the path of each leg
    let (order, total) = match shortest_hamiltonian_path(&goal_graph, from_node) {
        Some(found) => found,
        None => {
            return None;
        },
    };
    proof {
        assert forall|legs: Seq<(i32, Vec<i32>)>|
            #[trigger] is_route_through(edges, from_node, goal_nodes@, legs) && legs_cost(edges, legs) < INFINITE
            implies total <= legs_cost(edges, legs) by {
            let h = order_of(from_node, legs);
            assert(is_complete_order(goal_edges, h, from_node, graph_nodes(goal_graph).len()));
            assert(total <= capped(walk_cost(goal_edges, h)));
            lemma_walk_cost_nonneg(goal_edges, h);
        }
    }
    if total == INFINITE {
        return None;
    }
    proof {
        lemma_walk_cost_nonneg(goal_edges, order@);
    }
    let legs = match assemble_legs(&order, &sources, &targets, &table, total, from_node, Ghost(edges), Ghost(goal_edges)) {
        Some(legs) => legs,
        None => {
            return None;
        },
    };
    proof {
        lemma_order_gives_route(edges, goal_edges, from_node, goal_nodes@, targets@, sources@, table@, order@, legs@);
    }
    Some((legs, total))
}

} // verus!
