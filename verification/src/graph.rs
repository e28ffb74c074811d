//! An index-addressed directed graph.
//!
//! Nodes live in an arena and are addressed by their insertion index;
//! edges point from a dependent to its dependency. Node 0 is the root
//! package of a resolved graph. `children` lists what a node depends
//! on, `parents` lists its dependents; both follow edge insertion
//! order.

use vstd::prelude::*;

verus! {

/// A directed graph over an arena of nodes.
#[derive(Debug, Clone)]
pub struct Graph<T> {
    pub nodes: Vec<T>,
    /// Directed edges `(dependent, dependency)`.
    pub edges: Vec<(usize, usize)>,
}

/// Every edge endpoint names a node.
pub open spec fn graph_edges_wf(nodes_len: nat, edges: Seq<(usize, usize)>) -> bool {
    forall|k: int|
        0 <= k < edges.len() ==> (#[trigger] edges[k]).0 < nodes_len && edges[k].1 < nodes_len
}

/// The children of `i` among the first `k` edges, in edge order.
pub open spec fn children_upto(edges: Seq<(usize, usize)>, i: usize, k: int) -> Seq<usize>
    decreases k,
{
    if k <= 0 {
        Seq::empty()
    } else {
        let rest = children_upto(edges, i, k - 1);
        if edges[k - 1].0 == i {
            rest.push(edges[k - 1].1)
        } else {
            rest
        }
    }
}

/// The dependencies of node `i`, in edge order.
pub open spec fn spec_children(edges: Seq<(usize, usize)>, i: usize) -> Seq<usize> {
    children_upto(edges, i, edges.len() as int)
}

/// The parents of `i` among the first `k` edges, in edge order.
pub open spec fn parents_upto(edges: Seq<(usize, usize)>, i: usize, k: int) -> Seq<usize>
    decreases k,
{
    if k <= 0 {
        Seq::empty()
    } else {
        let rest = parents_upto(edges, i, k - 1);
        if edges[k - 1].1 == i {
            rest.push(edges[k - 1].0)
        } else {
            rest
        }
    }
}

/// The dependents of node `i`, in edge order.
pub open spec fn spec_parents(edges: Seq<(usize, usize)>, i: usize) -> Seq<usize> {
    parents_upto(edges, i, edges.len() as int)
}

/// A child listed for `i` is exactly an edge `(i, j)`.
pub proof fn lemma_children_membership(edges: Seq<(usize, usize)>, i: usize, j: usize)
    ensures
        spec_children(edges, i).contains(j) <==> edges.contains((i, j)),
{
    lemma_children_membership_upto(edges, i, j, edges.len() as int);
    if edges.contains((i, j)) {
        let k = choose|k: int| 0 <= k < edges.len() && edges[k] == (i, j);
        assert(0 <= k < edges.len() && edges[k].0 == i && edges[k].1 == j);
    }
}

proof fn lemma_children_membership_upto(edges: Seq<(usize, usize)>, i: usize, j: usize, k: int)
    requires
        k <= edges.len(),
    ensures
        children_upto(edges, i, k).contains(j) <==> exists|m: int|
            0 <= m < k && (#[trigger] edges[m]).0 == i && edges[m].1 == j,
    decreases k,
{
    if k > 0 {
        lemma_children_membership_upto(edges, i, j, k - 1);
        let prev = children_upto(edges, i, k - 1);
        let cur = children_upto(edges, i, k);
        if edges[k - 1].0 == i && edges[k - 1].1 == j {
            assert(cur[cur.len() - 1] == j);
            assert(cur.contains(j));
        } else {
            if cur.contains(j) && !(edges[k - 1].0 == i) {
                assert(cur == prev);
            }
            if prev.contains(j) {
                if edges[k - 1].0 == i {
                    let n = choose|n: int| 0 <= n < prev.len() && prev[n] == j;
                    assert(cur[n] == j);
                    assert(cur.contains(j));
                }
            } else {
                if edges[k - 1].0 == i && cur.contains(j) {
                    let n = choose|n: int| 0 <= n < cur.len() && cur[n] == j;
                    assert(n < cur.len() - 1 ==> prev[n] == j);
                }
            }
        }
    }
}

/// A parent listed for `i` is exactly an edge `(j, i)`.
pub proof fn lemma_parents_membership(edges: Seq<(usize, usize)>, i: usize, j: usize)
    ensures
        spec_parents(edges, i).contains(j) <==> edges.contains((j, i)),
{
    lemma_parents_membership_upto(edges, i, j, edges.len() as int);
    if edges.contains((j, i)) {
        let k = choose|k: int| 0 <= k < edges.len() && edges[k] == (j, i);
        assert(0 <= k < edges.len() && edges[k].1 == i && edges[k].0 == j);
    }
}

proof fn lemma_parents_membership_upto(edges: Seq<(usize, usize)>, i: usize, j: usize, k: int)
    requires
        k <= edges.len(),
    ensures
        parents_upto(edges, i, k).contains(j) <==> exists|m: int|
            0 <= m < k && (#[trigger] edges[m]).1 == i && edges[m].0 == j,
    decreases k,
{
    if k > 0 {
        lemma_parents_membership_upto(edges, i, j, k - 1);
        let prev = parents_upto(edges, i, k - 1);
        let cur = parents_upto(edges, i, k);
        if edges[k - 1].1 == i && edges[k - 1].0 == j {
            assert(cur[cur.len() - 1] == j);
            assert(cur.contains(j));
        } else {
            if cur.contains(j) && !(edges[k - 1].1 == i) {
                assert(cur == prev);
            }
            if prev.contains(j) {
                if edges[k - 1].1 == i {
                    let n = choose|n: int| 0 <= n < prev.len() && prev[n] == j;
                    assert(cur[n] == j);
                    assert(cur.contains(j));
                }
            } else {
                if edges[k - 1].1 == i && cur.contains(j) {
                    let n = choose|n: int| 0 <= n < cur.len() && cur[n] == j;
                    assert(n < cur.len() - 1 ==> prev[n] == j);
                }
            }
        }
    }
}

/// Every child of every node lies below the node count.
pub proof fn lemma_children_in_range(edges: Seq<(usize, usize)>, nodes_len: nat, i: usize, k: int)
    requires
        graph_edges_wf(nodes_len, edges),
        k <= edges.len(),
    ensures
        forall|m: int|
            0 <= m < children_upto(edges, i, k).len() ==> #[trigger] children_upto(
                edges,
                i,
                k,
            )[m] < nodes_len,
    decreases k,
{
    if k > 0 {
        lemma_children_in_range(edges, nodes_len, i, k - 1);
        let prev = children_upto(edges, i, k - 1);
        let cur = children_upto(edges, i, k);
        assert(edges[k - 1].0 < nodes_len && edges[k - 1].1 < nodes_len);
        assert forall|m: int| 0 <= m < cur.len() implies cur[m] < nodes_len by {
            if m < prev.len() {
                assert(cur[m] == prev[m]);
            }
        }
    }
}

/// Every parent of every node lies below the node count.
pub proof fn lemma_parents_in_range(edges: Seq<(usize, usize)>, nodes_len: nat, i: usize, k: int)
    requires
        graph_edges_wf(nodes_len, edges),
        k <= edges.len(),
    ensures
        forall|m: int|
            0 <= m < parents_upto(edges, i, k).len() ==> #[trigger] parents_upto(
                edges,
                i,
                k,
            )[m] < nodes_len,
    decreases k,
{
    if k > 0 {
        lemma_parents_in_range(edges, nodes_len, i, k - 1);
        let prev = parents_upto(edges, i, k - 1);
        let cur = parents_upto(edges, i, k);
        assert(edges[k - 1].0 < nodes_len && edges[k - 1].1 < nodes_len);
        assert forall|m: int| 0 <= m < cur.len() implies cur[m] < nodes_len by {
            if m < prev.len() {
                assert(cur[m] == prev[m]);
            }
        }
    }
}

impl<T> Graph<T> {
    /// An empty graph.
    pub fn new() -> (r: Graph<T>)
        ensures
            r.nodes@.len() == 0,
            r.edges@.len() == 0,
    {
        Graph { nodes: Vec::new(), edges: Vec::new() }
    }

    pub open spec fn wf(&self) -> bool {
        graph_edges_wf(self.nodes@.len(), self.edges@)
    }

    pub fn len(&self) -> (r: usize)
        ensures
            r == self.nodes@.len(),
    {
        self.nodes.len()
    }

    /// Adds a node, returning its index.
    pub fn add_node(&mut self, value: T) -> (r: usize)
        ensures
            final(self).nodes@ == old(self).nodes@.push(value),
            final(self).edges@ == old(self).edges@,
            r == old(self).nodes@.len(),
            old(self).wf() ==> final(self).wf(),
    {
        let r = self.nodes.len();
        self.nodes.push(value);
        r
    }

    /// Adds an edge from a dependent to its dependency.
    pub fn add_edge(&mut self, parent: usize, child: usize)
        requires
            parent < old(self).nodes@.len(),
            child < old(self).nodes@.len(),
        ensures
            final(self).nodes@ == old(self).nodes@,
            final(self).edges@ == old(self).edges@.push((parent, child)),
            old(self).wf() ==> final(self).wf(),
    {
        self.edges.push((parent, child));
    }

    pub fn get(&self, i: usize) -> (r: &T)
        requires
            i < self.nodes@.len(),
        ensures
            *r == self.nodes@[i as int],
    {
        &self.nodes[i]
    }

    pub fn set(&mut self, i: usize, value: T)
        requires
            i < old(self).nodes@.len(),
        ensures
            final(self).nodes@ == old(self).nodes@.update(i as int, value),
            final(self).edges@ == old(self).edges@,
            old(self).wf() ==> final(self).wf(),
    {
        let slot = &mut self.nodes[i];
        *slot = value;
        proof {
            assert(self.nodes@ =~= old(self).nodes@.update(i as int, value));
        }
    }

    /// The indices this node depends on, in edge order.
    pub fn children(&self, i: usize) -> (r: Vec<usize>)
        ensures
            r@ == spec_children(self.edges@, i),
    {
        let mut out: Vec<usize> = Vec::new();
        let mut k: usize = 0;
        while k < self.edges.len()
            invariant
                k <= self.edges@.len(),
                out@ == children_upto(self.edges@, i, k as int),
            decreases self.edges@.len() - k,
        {
            let e = self.edges[k];
            if e.0 == i {
                out.push(e.1);
            }
            k = k + 1;
        }
        out
    }

    /// The indices that depend on this node, in edge order.
    pub fn parents(&self, i: usize) -> (r: Vec<usize>)
        ensures
            r@ == spec_parents(self.edges@, i),
    {
        let mut out: Vec<usize> = Vec::new();
        let mut k: usize = 0;
        while k < self.edges.len()
            invariant
                k <= self.edges@.len(),
                out@ == parents_upto(self.edges@, i, k as int),
            decreases self.edges@.len() - k,
        {
            let e = self.edges[k];
            if e.1 == i {
                out.push(e.0);
            }
            k = k + 1;
        }
        out
    }
}

} // verus!
