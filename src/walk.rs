use vstd::prelude::*;

verus! {

/// The cost that marks an edge, or a route, as unusable.
pub const INFINITE: u64 = 0xffff_ffff_ffff_ffff;

/// Sum of two costs, held at `INFINITE` where it would exceed it.
pub open spec fn sat_add(a: u64, b: u64) -> u64 {
    if a + b >= INFINITE {
        INFINITE
    } else {
        (a + b) as u64
    }
}

/// A cost held at `INFINITE` where it would exceed it.
pub open spec fn capped(x: int) -> u64 {
    if x >= INFINITE {
        INFINITE
    } else {
        x as u64
    }
}

/// Adds two costs, saturating at `INFINITE`.
pub fn cost_add(a: u64, b: u64) -> (r: u64)
    ensures
        r == sat_add(a, b),
{
    a.saturating_add(b)
}

/// Every two consecutive nodes of `p` are joined by an edge of `edges`.
pub open spec fn is_walk(edges: Map<(i32, i32), u64>, p: Seq<i32>) -> bool {
    &&& p.len() >= 1
    &&& forall|i: int| 0 <= i < p.len() - 1 ==> #[trigger] edges.contains_key((p[i], p[i + 1]))
}

/// `p` is a walk from `from` to `to`.
pub open spec fn walk_between(edges: Map<(i32, i32), u64>, p: Seq<i32>, from: i32, to: i32) -> bool {
    &&& is_walk(edges, p)
    &&& p[0] == from
    &&& p.last() == to
}

/// `p` is a walk from `from` to `to` that visits no node twice.
pub open spec fn is_simple_walk(edges: Map<(i32, i32), u64>, p: Seq<i32>, from: i32, to: i32) -> bool {
    &&& is_walk(edges, p)
    &&& p[0] == from
    &&& p.last() == to
    &&& p.no_duplicates()
}

/// The sum of the edge costs along `p`.
pub open spec fn walk_cost(edges: Map<(i32, i32), u64>, p: Seq<i32>) -> int
    decreases p.len(),
{
    if p.len() <= 1 {
        0
    } else {
        edges[(p[0], p[1])] + walk_cost(edges, p.drop_first())
    }
}

/// No walk costs less than nothing.
pub proof fn lemma_walk_cost_nonneg(edges: Map<(i32, i32), u64>, p: Seq<i32>)
    ensures
        walk_cost(edges, p) >= 0,
    decreases p.len(),
{
    if p.len() > 1 {
        lemma_walk_cost_nonneg(edges, p.drop_first());
    }
}

/// Appending a node adds the cost of the edge that reaches it.
pub proof fn lemma_walk_cost_push(edges: Map<(i32, i32), u64>, p: Seq<i32>, x: i32)
    requires
        p.len() >= 1,
    ensures
        walk_cost(edges, p.push(x)) == walk_cost(edges, p) + edges[(p.last(), x)],
    decreases p.len(),
{
    if p.len() > 1 {
        lemma_walk_cost_push(edges, p.drop_first(), x);
        assert(p.push(x).drop_first() =~= p.drop_first().push(x));
        assert(p.push(x)[1] == p[1]);
        assert(p.drop_first().last() == p.last());
        assert(walk_cost(edges, p.push(x)) == edges[(p[0], p[1])] + walk_cost(
            edges,
            p.drop_first().push(x),
        ));
    } else {
        assert(p.push(x).drop_first() =~= seq![x]);
        assert(p.push(x)[1] == x);
        assert(walk_cost(edges, seq![x]) == 0);
        assert(walk_cost(edges, p) == 0);
    }
}

} // verus!
