use vstd::prelude::*;

verus! {

/// One record of the tree: a node id, its depth, and the index of its parent record.
#[derive(Copy, Clone, Debug)]
struct PathTrackerNode {
    id: i32,
    predecessor: Option<usize>,
    depth: usize,
}

/// A handle on a record of a `PathTracker`, valid only against the tracker that issued it:
/// `tracker_idx` is the index of the record in that tracker.
#[derive(Copy, Clone, Debug)]
pub struct PathTrackerNodeRef {
    pub id: i32,
    pub depth: usize,
    pub tracker_idx: usize,
}

/// An append-only forest of records; each record points back to its parent, so that
/// paths that share a prefix share its records.
pub struct PathTracker {
    nodes: Vec<PathTrackerNode>,
}

/// The ids on the chain from the root of record `i` down to record `i`, root first.
spec fn chain(nodes: Seq<PathTrackerNode>, i: int) -> Seq<i32>
    decreases i,
{
    if 0 <= i < nodes.len() {
        match nodes[i].predecessor {
            Some(p) => if 0 <= p < i {
                chain(nodes, p as int).push(nodes[i].id)
            } else {
                seq![nodes[i].id]
            },
            None => seq![nodes[i].id],
        }
    } else {
        Seq::empty()
    }
}

/// The id of the root record above record `i`.
spec fn chain_root(nodes: Seq<PathTrackerNode>, i: int) -> i32
    decreases i,
{
    if 0 <= i < nodes.len() {
        match nodes[i].predecessor {
            Some(p) => if 0 <= p < i {
                chain_root(nodes, p as int)
            } else {
                nodes[i].id
            },
            None => nodes[i].id,
        }
    } else {
        0
    }
}

spec fn records_wf(nodes: Seq<PathTrackerNode>) -> bool {
    forall|i: int|
        0 <= i < nodes.len() ==> match #[trigger] nodes[i].predecessor {
            Some(p) => p < i && nodes[i].depth == nodes[p as int].depth + 1,
            None => nodes[i].depth == 0,
        }
}

proof fn lemma_chain_len(nodes: Seq<PathTrackerNode>, i: int)
    requires
        records_wf(nodes),
        0 <= i < nodes.len(),
    ensures
        chain(nodes, i).len() == nodes[i].depth + 1,
        nodes[i].depth <= i,
        chain(nodes, i).last() == nodes[i].id,
        chain(nodes, i)[0] == chain_root(nodes, i),
    decreases i,
{
    match nodes[i].predecessor {
        Some(p) => lemma_chain_len(nodes, p as int),
        None => {},
    }
}

proof fn lemma_chain_extend(nodes: Seq<PathTrackerNode>, n: PathTrackerNode, i: int)
    requires
        0 <= i < nodes.len(),
    ensures
        chain(nodes.push(n), i) == chain(nodes, i),
        chain_root(nodes.push(n), i) == chain_root(nodes, i),
    decreases i,
{
    match nodes[i].predecessor {
        Some(p) => if 0 <= p < i {
            lemma_chain_extend(nodes, n, p as int);
        },
        None => {},
    }
}

impl PathTracker {
    pub closed spec fn wf(&self) -> bool {
        records_wf(self.nodes@)
    }

    /// Number of records issued so far.
    pub closed spec fn size(&self) -> nat {
        self.nodes@.len()
    }

    /// Whether `r` was issued by this tracker.
    pub closed spec fn valid_ref(&self, r: PathTrackerNodeRef) -> bool {
        &&& r.tracker_idx < self.nodes@.len()
        &&& self.nodes@[r.tracker_idx as int].id == r.id
        &&& self.nodes@[r.tracker_idx as int].depth == r.depth
    }

    /// The path from the root to the record of `r`, root first.
    pub closed spec fn path(&self, r: PathTrackerNodeRef) -> Seq<i32> {
        chain(self.nodes@, r.tracker_idx as int)
    }

    /// The id of the root of the tree that holds the record of `r`.
    pub closed spec fn root_id(&self, r: PathTrackerNodeRef) -> i32 {
        chain_root(self.nodes@, r.tracker_idx as int)
    }

    /// A path reached by `n` pushes from a root has `n + 1` ids: it starts at the root's id and
    /// ends at the id pushed last.
    pub proof fn lemma_path_shape(&self, r: PathTrackerNodeRef)
        requires
            self.wf(),
            self.valid_ref(r),
        ensures
            self.path(r).len() == r.depth + 1,
            self.path(r).last() == r.id,
            self.path(r)[0] == self.root_id(r),
    {
        lemma_chain_len(self.nodes@, r.tracker_idx as int);
    }

    pub fn new() -> (t: PathTracker)
        ensures
            t.wf(),
            t.size() == 0,
    {
        PathTracker { nodes: Vec::new() }
    }

    fn push_node(&mut self, node: PathTrackerNode) -> (r: PathTrackerNodeRef)
        requires
            old(self).wf(),
            records_wf(old(self).nodes@.push(node)),
        ensures
            final(self).nodes@ == old(self).nodes@.push(node),
            r.tracker_idx == old(self).nodes@.len(),
            r.id == node.id,
            r.depth == node.depth,
    {
        let node_ref = PathTrackerNodeRef {
            id: node.id,
            depth: node.depth,
            tracker_idx: self.nodes.len(),
        };
        self.nodes.push(node);
        node_ref
    }

    /// Starts a new tree whose root holds `root`.
    pub fn push_root(&mut self, root: i32) -> (r: PathTrackerNodeRef)
        requires
            old(self).wf(),
        ensures
            final(self).wf(),
            final(self).size() == old(self).size() + 1,
            final(self).valid_ref(r),
            r.id == root,
            r.depth == 0,
            final(self).path(r) == seq![root],
            final(self).root_id(r) == root,
            forall|q: PathTrackerNodeRef| #[trigger]
                old(self).valid_ref(q) ==> final(self).valid_ref(q) && final(self).path(q)
                    == old(self).path(q) && final(self).root_id(q) == old(self).root_id(q),
    {
        let node = PathTrackerNode { id: root, predecessor: None, depth: 0 };
        proof {
            assert forall|i: int| 0 <= i < self.nodes@.push(node).len() implies
                match #[trigger] self.nodes@.push(node)[i].predecessor {
                    Some(p) => p < i && self.nodes@.push(node)[i].depth
                        == self.nodes@.push(node)[p as int].depth + 1,
                    None => self.nodes@.push(node)[i].depth == 0,
                } by {
                if i < self.nodes@.len() {
                    assert(self.nodes@.push(node)[i] == self.nodes@[i]);
                }
            }
        }
        let ghost pre = self.nodes@;
        let r = self.push_node(node);
        proof {
            assert forall|q: PathTrackerNodeRef| #[trigger]
                old(self).valid_ref(q) implies self.valid_ref(q) && self.path(q)
                    == old(self).path(q) && self.root_id(q) == old(self).root_id(q) by {
                lemma_chain_extend(pre, node, q.tracker_idx as int);
            }
        }
        r
    }

    /// Adds a record for `next` below the record of `predecessor`.
    pub fn push(&mut self, predecessor: &PathTrackerNodeRef, next: i32) -> (r: PathTrackerNodeRef)
        requires
            old(self).wf(),
            old(self).valid_ref(*predecessor),
        ensures
            final(self).wf(),
            final(self).size() == old(self).size() + 1,
            final(self).valid_ref(r),
            r.id == next,
            r.depth == predecessor.depth + 1,
            final(self).path(r) == old(self).path(*predecessor).push(next),
            final(self).root_id(r) == old(self).root_id(*predecessor),
            forall|q: PathTrackerNodeRef| #[trigger]
                old(self).valid_ref(q) ==> final(self).valid_ref(q) && final(self).path(q)
                    == old(self).path(q) && final(self).root_id(q) == old(self).root_id(q),
    {
        let count = self.nodes.len();
        proof {
            lemma_chain_len(self.nodes@, predecessor.tracker_idx as int);
            assert(predecessor.depth < count);
        }
        let node = PathTrackerNode {
            id: next,
            predecessor: Some(predecessor.tracker_idx),
            depth: predecessor.depth + 1,
        };
        proof {
            assert forall|i: int| 0 <= i < self.nodes@.push(node).len() implies
                match #[trigger] self.nodes@.push(node)[i].predecessor {
                    Some(p) => p < i && self.nodes@.push(node)[i].depth
                        == self.nodes@.push(node)[p as int].depth + 1,
                    None => self.nodes@.push(node)[i].depth == 0,
                } by {
                if i < self.nodes@.len() {
                    assert(self.nodes@.push(node)[i] == self.nodes@[i]);
                }
            }
        }
        let ghost pre = self.nodes@;
        let r = self.push_node(node);
        proof {
            lemma_chain_extend(pre, node, predecessor.tracker_idx as int);
            assert forall|q: PathTrackerNodeRef| #[trigger]
                old(self).valid_ref(q) implies self.valid_ref(q) && self.path(q)
                    == old(self).path(q) && self.root_id(q) == old(self).root_id(q) by {
                lemma_chain_extend(pre, node, q.tracker_idx as int);
            }
        }
        r
    }

    /// The node ids from the root down to the record of `to`, root first.
    pub fn recreate_path(&self, to: &PathTrackerNodeRef) -> (path: Vec<i32>)
        requires
            self.wf(),
            self.valid_ref(*to),
        ensures
            path@ == self.path(*to),
    {
        let ghost full = chain(self.nodes@, to.tracker_idx as int);
        proof {
            lemma_chain_len(self.nodes@, to.tracker_idx as int);
        }
        let count = self.nodes.len();
        let mut path: Vec<i32> = Vec::new();
        let mut k: usize = 0;
        while k <= to.depth
            invariant
                k <= to.depth + 1,
                path@.len() == k,
                to.depth < count,
            decreases to.depth + 1 - k,
        {
            path.push(0);
            k = k + 1;
        }
        let mut cursor: usize = to.tracker_idx;
        loop
            invariant
                self.wf(),
                cursor < self.nodes@.len(),
                full.len() == to.depth + 1,
                path@.len() == full.len(),
                self.nodes@[cursor as int].depth < full.len(),
                chain(self.nodes@, cursor as int) == full.take(
                    self.nodes@[cursor as int].depth + 1,
                ),
                forall|j: int|
                    self.nodes@[cursor as int].depth < j < full.len() ==> path@[j] == full[j],
            ensures
                path@ == full,
            decreases self.nodes@[cursor as int].depth,
        {
            let node = self.nodes[cursor];
            proof {
                lemma_chain_len(self.nodes@, cursor as int);
                assert(full[node.depth as int] == node.id);
            }
            path.set(node.depth, node.id);
            match node.predecessor {
                Some(p) => {
                    proof {
                        lemma_chain_len(self.nodes@, p as int);
                        assert(chain(self.nodes@, p as int) == chain(
                            self.nodes@,
                            cursor as int,
                        ).drop_last());
                        assert(chain(self.nodes@, p as int) =~= full.take(node.depth as int));
                    }
                    cursor = p;
                },
                None => {
                    assert(path@ =~= full);
                    break ;
                },
            }
        }
        path
    }

    /// Whether `id` stands anywhere on the path from the root to the record of `to`.
    pub fn path_includes(&self, to: &PathTrackerNodeRef, id: i32) -> (r: bool)
        requires
            self.wf(),
            self.valid_ref(*to),
        ensures
            r == self.path(*to).contains(id),
    {
        let ghost full = chain(self.nodes@, to.tracker_idx as int);
        proof {
            lemma_chain_len(self.nodes@, to.tracker_idx as int);
        }
        let mut cursor: usize = to.tracker_idx;
        loop
            invariant
                self.wf(),
                full == self.path(*to),
                cursor < self.nodes@.len(),
                full.len() == to.depth + 1,
                self.nodes@[cursor as int].depth < full.len(),
                chain(self.nodes@, cursor as int) == full.take(
                    self.nodes@[cursor as int].depth + 1,
                ),
                forall|j: int| self.nodes@[cursor as int].depth < j < full.len() ==> full[j] != id,
            decreases self.nodes@[cursor as int].depth,
        {
            let node = self.nodes[cursor];
            proof {
                lemma_chain_len(self.nodes@, cursor as int);
                assert(full[node.depth as int] == node.id);
            }
            if node.id == id {
                proof {
                    assert(full[node.depth as int] == id);
                    assert(self.path(*to) == full);
                }
                return true;
            }
            match node.predecessor {
                Some(p) => {
                    proof {
                        lemma_chain_len(self.nodes@, p as int);
                        assert(chain(self.nodes@, p as int) == chain(
                            self.nodes@,
                            cursor as int,
                        ).drop_last());
                        assert(chain(self.nodes@, p as int) =~= full.take(node.depth as int));
                    }
                    cursor = p;
                },
                None => {
                    proof {
                        assert forall|j: int| 0 <= j < full.len() implies full[j] != id by {}
                        assert(self.path(*to) == full);
                        assert(!full.contains(id));
                    }
                    return false;
                },
            }
        }
    }
}

} // verus!
