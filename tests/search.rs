use graphbash::directions::{
    edge_cost, move_targets, Directions, ALL_AT_ONCE, DOWN, DOWN_LEFT, LEFT, UP, UP_DOWN, UP_LEFT,
};
use graphbash::ordering::MinScored;
use graphbash::path_tracker::PathTracker;
use graphbash::route::get_shortest_code;
use graphbash::search::dijkstra;
use graphbash::tour::shortest_hamiltonian_path;
use graphbash::walk::INFINITE;
use petgraph::graphmap::DiGraphMap;
use std::cmp::Ordering;

const A: i32 = 0;
const B: i32 = 1;
const C: i32 = 2;
const D: i32 = 3;
const E: i32 = 4;

fn chain_graph() -> DiGraphMap<i32, u64> {
    let mut g = DiGraphMap::new();
    g.add_edge(A, B, 1);
    g.add_edge(B, C, 1);
    g.add_edge(A, C, 5);
    g.add_edge(C, D, 1);
    g
}

fn square_graph() -> DiGraphMap<i32, u64> {
    let mut g = DiGraphMap::new();
    g.add_edge(A, B, 1);
    g.add_edge(A, C, 1);
    g.add_edge(B, C, 1);
    g.add_edge(C, B, 1);
    g
}

#[test]
fn dijkstra_finds_shortest_paths_to_each_goal() {
    let r = dijkstra(&chain_graph(), A, vec![C, D]);
    assert_eq!(r.len(), 2);
    assert_eq!(r[0], (C, Some((2, vec![A, B, C]))));
    assert_eq!(r[1], (D, Some((3, vec![A, B, C, D]))));
}

#[test]
fn dijkstra_single_goal_matches_larger_goal_set() {
    let alone = dijkstra(&chain_graph(), A, vec![C]);
    let more = dijkstra(&chain_graph(), A, vec![D, C]);
    assert_eq!(alone[0], more[1]);
    let alone = dijkstra(&chain_graph(), A, vec![D]);
    assert_eq!(alone[0], more[0]);
}

#[test]
fn dijkstra_start_as_goal() {
    let r = dijkstra(&chain_graph(), A, vec![A]);
    assert_eq!(r, vec![(A, Some((0, vec![A])))]);
}

#[test]
fn dijkstra_no_goals() {
    let r = dijkstra(&chain_graph(), A, vec![]);
    assert!(r.is_empty());
}

#[test]
fn dijkstra_unreachable_goal_is_none() {
    let mut g = chain_graph();
    g.add_node(E);
    let r = dijkstra(&g, A, vec![E, D]);
    assert_eq!(r[0], (E, None));
    assert_eq!(r[1], (D, Some((3, vec![A, B, C, D]))));
}

#[test]
fn dijkstra_infinite_edge_is_unreachable() {
    let mut g = chain_graph();
    g.add_edge(D, E, INFINITE);
    let r = dijkstra(&g, A, vec![E]);
    assert_eq!(r[0], (E, None));
}

#[test]
fn dijkstra_ties_keep_first_found_predecessor() {
    let mut g = DiGraphMap::new();
    g.add_edge(A, B, 1);
    g.add_edge(A, C, 1);
    g.add_edge(B, D, 1);
    g.add_edge(C, D, 1);
    let r = dijkstra(&g, A, vec![D]);
    assert_eq!(r[0], (D, Some((2, vec![A, B, D]))));
    assert_eq!(dijkstra(&g, A, vec![D]), r);
}

#[test]
fn ordering_search_finds_cheapest_order() {
    let g = square_graph();
    let (path, cost) = shortest_hamiltonian_path(&g, A).unwrap();
    assert_eq!(cost, 2);
    assert!(path == vec![A, B, C] || path == vec![A, C, B]);
    assert_eq!(shortest_hamiltonian_path(&g, A), Some((path, cost)));
}

#[test]
fn ordering_search_prefers_cheaper_permutation() {
    let mut g = DiGraphMap::new();
    g.add_edge(A, B, 1);
    g.add_edge(A, C, 10);
    g.add_edge(B, C, 10);
    g.add_edge(C, B, 1);
    g.add_edge(B, D, 1);
    g.add_edge(C, D, 1);
    g.add_edge(D, C, 1);
    let (path, cost) = shortest_hamiltonian_path(&g, A).unwrap();
    assert_eq!(path, vec![A, B, D, C]);
    assert_eq!(cost, 3);
}

#[test]
fn ordering_search_without_complete_order_is_none() {
    let mut g = DiGraphMap::new();
    g.add_edge(A, B, 1);
    g.add_edge(A, C, 1);
    assert_eq!(shortest_hamiltonian_path(&g, A), None);
}

#[test]
fn ordering_search_single_node() {
    let mut g = DiGraphMap::<i32, u64>::new();
    g.add_node(A);
    assert_eq!(shortest_hamiltonian_path(&g, A), Some((vec![A], 0)));
}

#[test]
fn ordering_search_saturates_at_infinite() {
    let mut g = DiGraphMap::new();
    g.add_edge(A, B, INFINITE);
    g.add_edge(B, C, 1);
    assert_eq!(shortest_hamiltonian_path(&g, A), Some((vec![A, B, C], INFINITE)));
}

#[test]
fn route_visits_goals_in_best_order() {
    let (legs, total) = get_shortest_code(&chain_graph(), A, &[D, C]).unwrap();
    assert_eq!(legs, vec![(C, vec![A, B, C]), (D, vec![C, D])]);
    assert_eq!(total, 3);
}

#[test]
fn route_with_unreachable_goal_is_none() {
    let mut g = chain_graph();
    g.add_node(E);
    assert_eq!(get_shortest_code(&g, A, &[C, E]), None);
}

#[test]
fn route_with_infinite_leg_is_none() {
    let mut g = chain_graph();
    g.add_edge(D, E, INFINITE);
    assert_eq!(get_shortest_code(&g, A, &[D, E]), None);
}

#[test]
fn route_ignores_origin_and_repeated_goals() {
    let (legs, total) = get_shortest_code(&chain_graph(), A, &[C, A, C]).unwrap();
    assert_eq!(legs, vec![(C, vec![A, B, C])]);
    assert_eq!(total, 2);
}

#[test]
fn route_square_costs_two() {
    let (legs, total) = get_shortest_code(&square_graph(), A, &[B, C]).unwrap();
    assert_eq!(total, 2);
    assert_eq!(legs.len(), 2);
}

#[test]
fn path_tracker_recreates_pushed_chain() {
    let mut t = PathTracker::new();
    let root = t.push_root(7);
    let a = t.push(&root, 8);
    let b = t.push(&a, 9);
    let side = t.push(&a, 10);
    assert_eq!(b.depth, 2);
    assert_eq!(b.id, 9);
    assert_eq!(t.recreate_path(&b), vec![7, 8, 9]);
    assert_eq!(t.recreate_path(&side), vec![7, 8, 10]);
    assert_eq!(t.recreate_path(&root), vec![7]);
    for id in [7, 8, 9] {
        assert!(t.path_includes(&b, id));
    }
    assert!(!t.path_includes(&b, 10));
    assert!(!t.path_includes(&a, 9));
    assert!(t.path_includes(&root, 7));
}

#[test]
fn path_tracker_separate_roots() {
    let mut t = PathTracker::new();
    let r1 = t.push_root(1);
    let r2 = t.push_root(2);
    let c = t.push(&r2, 3);
    assert_eq!(t.recreate_path(&c), vec![2, 3]);
    assert!(!t.path_includes(&c, 1));
    assert_eq!(t.recreate_path(&r1), vec![1]);
}

#[test]
fn min_scored_orders_smaller_score_first() {
    let low = MinScored('a', 1u64);
    let high = MinScored('b', 5u64);
    assert_eq!(low.cmp(&high), Ordering::Greater);
    assert_eq!(high.cmp(&low), Ordering::Less);
    assert_eq!(low.cmp(&MinScored('c', 1u64)), Ordering::Equal);
    assert!(low.eq(&MinScored('c', 1u64)));
    assert!(!low.eq(&high));
}

#[test]
fn edge_costs_by_input_kind() {
    assert_eq!(edge_cost(5, Directions { bits: UP }), 2);
    assert_eq!(edge_cost(5, Directions { bits: UP | DOWN_LEFT }), 2);
    assert_eq!(edge_cost(5, Directions { bits: DOWN_LEFT }), 11);
    assert_eq!(edge_cost(5, Directions { bits: UP_DOWN }), 31);
    assert_eq!(edge_cost(-1207, Directions { bits: DOWN }), INFINITE);
    assert!(Directions { bits: DOWN }.has_straight());
    assert!(!Directions { bits: DOWN }.has_diagonal());
    assert!(Directions { bits: DOWN_LEFT }.has_diagonal());
}

#[test]
fn move_targets_add_offsets() {
    let moves = move_targets(34, -1, 1, -6, 6);
    assert_eq!(moves.len(), 15);
    assert_eq!(moves[0], (Directions { bits: UP }, 28));
    assert_eq!(moves[1], (Directions { bits: LEFT }, 33));
    assert_eq!(moves[3], (Directions { bits: DOWN }, 40));
    assert_eq!(moves[4], (Directions { bits: UP_LEFT }, 27));
    assert_eq!(moves[8], (Directions { bits: UP_DOWN }, 34));
    assert_eq!(moves[14], (Directions { bits: ALL_AT_ONCE }, 34));
}

#[test]
fn dijkstra_early_stop_keeps_paths() {
    let mut g = chain_graph();
    g.add_edge(D, E, 1);
    g.add_edge(A, E, 10);
    let near = dijkstra(&g, A, vec![B]);
    let far = dijkstra(&g, A, vec![E, B]);
    assert_eq!(near[0], (B, Some((1, vec![A, B]))));
    assert_eq!(far[1], near[0]);
    assert_eq!(far[0], (E, Some((4, vec![A, B, C, D, E]))));
}

#[test]
fn route_infinite_cost_sum_is_none() {
    let mut g = DiGraphMap::new();
    g.add_edge(A, B, INFINITE - 1);
    g.add_edge(B, C, INFINITE - 1);
    assert_eq!(get_shortest_code(&g, A, &[B]), Some((vec![(B, vec![A, B])], INFINITE - 1)));
    assert_eq!(get_shortest_code(&g, A, &[B, C]), None);
}

fn sample_graph() -> DiGraphMap<i32, u64> {
    let mut g = DiGraphMap::new();
    let edges: [(i32, i32, u64); 16] = [
        (0, 1, 4),
        (0, 2, 1),
        (2, 1, 2),
        (1, 3, 5),
        (2, 3, 8),
        (3, 4, 3),
        (4, 0, 2),
        (1, 4, 9),
        (4, 2, 1),
        (3, 1, 1),
        (2, 4, 7),
        (4, 1, 2),
        (1, 2, 1),
        (3, 0, 6),
        (0, 3, 12),
        (5, 0, 1),
    ];
    for (a, b, c) in edges {
        g.add_edge(a, b, c);
    }
    g
}

fn all_pairs(g: &DiGraphMap<i32, u64>) -> Vec<Vec<Option<u64>>> {
    let n = 6usize;
    let mut d = vec![vec![None; n]; n];
    for i in 0..n {
        d[i][i] = Some(0);
    }
    for (a, b, c) in g.all_edges() {
        let (a, b) = (a as usize, b as usize);
        if d[a][b].map_or(true, |x| *c < x) {
            d[a][b] = Some(*c);
        }
    }
    for k in 0..n {
        for i in 0..n {
            for j in 0..n {
                if let (Some(x), Some(y)) = (d[i][k], d[k][j]) {
                    if d[i][j].map_or(true, |z| x + y < z) {
                        d[i][j] = Some(x + y);
                    }
                }
            }
        }
    }
    d
}

#[test]
fn dijkstra_matches_all_pairs_distances() {
    let g = sample_graph();
    let d = all_pairs(&g);
    for start in 0..6i32 {
        let r = dijkstra(&g, start, vec![0, 1, 2, 3, 4, 5]);
        for (goal, found) in r {
            let expected = d[start as usize][goal as usize];
            match found {
                Some((cost, path)) => {
                    assert_eq!(Some(cost), expected);
                    assert_eq!(path[0], start);
                    assert_eq!(*path.last().unwrap(), goal);
                    let sum: u64 = path
                        .windows(2)
                        .map(|w| *g.edge_weight(w[0], w[1]).unwrap())
                        .sum();
                    assert_eq!(sum, cost);
                }
                None => assert_eq!(expected, None),
            }
        }
    }
}

fn permutations(items: &[i32]) -> Vec<Vec<i32>> {
    if items.is_empty() {
        return vec![vec![]];
    }
    let mut out = Vec::new();
    for i in 0..items.len() {
        let mut rest = items.to_vec();
        let x = rest.remove(i);
        for mut p in permutations(&rest) {
            p.insert(0, x);
            out.push(p);
        }
    }
    out
}

#[test]
fn ordering_search_matches_exhaustive_enumeration() {
    let full = sample_graph();
    let mut g = DiGraphMap::new();
    for (a, b, c) in full.all_edges() {
        if a != 5 && b != 5 {
            g.add_edge(a, b, *c);
        }
    }
    let mut best: Option<u64> = None;
    for p in permutations(&[1, 2, 3, 4]) {
        let mut order = vec![0];
        order.extend(p);
        let cost: Option<u64> = order
            .windows(2)
            .map(|w| g.edge_weight(w[0], w[1]).copied())
            .sum();
        if let Some(c) = cost {
            if best.map_or(true, |b| c < b) {
                best = Some(c);
            }
        }
    }
    let (path, cost) = shortest_hamiltonian_path(&g, 0).unwrap();
    assert_eq!(Some(cost), best);
    let sum: u64 = path.windows(2).map(|w| *g.edge_weight(w[0], w[1]).unwrap()).sum();
    assert_eq!(sum, cost);
    assert_eq!(path.len(), 5);
}
