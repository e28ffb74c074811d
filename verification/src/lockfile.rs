//! Lockfiles: a flat, order-preserving list of pinned packages.
//!
//! A lockfile entry pairs a summary with the summaries it depends on.
//! A resolved graph flattens into a lockfile, and a lockfile rebuilds a
//! graph, introducing nodes in first-seen order and de-duplicating by
//! summary value; the round trip preserves the node set and the edge
//! set. The TOML text itself is read and written by the embedding
//! program, which converts to and from these plain values.

use vstd::prelude::*;

use crate::graph::{spec_children, Graph};
use crate::package::{Summary, SummaryV};

verus! {

/// One lockfile entry: a package and its dependencies.
#[derive(Debug, Clone, PartialEq, Eq)]
pub struct LockedPkg {
    pub sum: Summary,
    pub dependencies: Vec<Summary>,
}

/// The lockfile: its entries, in order.
#[derive(Debug, Clone, PartialEq, Eq)]
pub struct LockfileToml {
    pub packages: Vec<LockedPkg>,
}

pub struct LockedPkgV {
    pub sum: SummaryV,
    pub dependencies: Seq<SummaryV>,
}

impl View for LockedPkg {
    type V = LockedPkgV;

    open spec fn view(&self) -> LockedPkgV {
        LockedPkgV {
            sum: self.sum@,
            dependencies: self.dependencies@.map_values(|s: Summary| s@),
        }
    }
}

impl View for LockfileToml {
    type V = Seq<LockedPkgV>;

    open spec fn view(&self) -> Seq<LockedPkgV> {
        self.packages@.map_values(|p: LockedPkg| p@)
    }
}

/// The summary values of a graph's nodes.
pub open spec fn graph_node_values(g: Graph<Summary>) -> Seq<SummaryV> {
    g.nodes@.map_values(|s: Summary| s@)
}

/// No two nodes of the graph carry the same summary.
pub open spec fn distinct_nodes(g: Graph<Summary>) -> bool {
    forall|i: int, j: int|
        0 <= i < j < g.nodes@.len() ==> graph_node_values(g)[i] != graph_node_values(g)[j]
}

/// A summary value occurs somewhere in a graph.
pub open spec fn graph_has_node(g: Graph<Summary>, s: SummaryV) -> bool {
    exists|i: int| 0 <= i < g.nodes@.len() && graph_node_values(g)[i] == s
}

/// A dependency, as a pair of summary values, occurs in a graph.
pub open spec fn graph_has_edge(g: Graph<Summary>, p: SummaryV, c: SummaryV) -> bool {
    exists|k: int|
        0 <= k < g.edges@.len() && graph_node_values(g)[(#[trigger] g.edges@[k]).0 as int] == p
            && graph_node_values(g)[g.edges@[k].1 as int] == c
}

/// A summary value occurs somewhere in a lockfile.
pub open spec fn lockfile_has_node(lf: Seq<LockedPkgV>, s: SummaryV) -> bool {
    exists|k: int|
        0 <= k < lf.len() && ((#[trigger] lf[k]).sum == s || lf[k].dependencies.contains(s))
}

/// A dependency pair occurs in a lockfile.
pub open spec fn lockfile_has_edge(lf: Seq<LockedPkgV>, p: SummaryV, c: SummaryV) -> bool {
    exists|k: int| 0 <= k < lf.len() && (#[trigger] lf[k]).sum == p && lf[k].dependencies.contains(c)
}

/// What a graph flattens to: one entry per node, in index order, each
/// listing the node's children.
pub open spec fn spec_lockfile_of_graph(g: Graph<Summary>) -> Seq<LockedPkgV> {
    Seq::new(
        g.nodes@.len(),
        |i: int|
            LockedPkgV {
                sum: graph_node_values(g)[i],
                dependencies: spec_children(g.edges@, i as usize).map_values(
                    |j: usize| graph_node_values(g)[j as int],
                ),
            },
    )
}

impl LockfileToml {
    /// Flattens a resolved graph into lockfile entries, one per node in
    /// index order.
    pub fn from_graph(g: &Graph<Summary>) -> (r: LockfileToml)
        requires
            g.wf(),
        ensures
            r@ == spec_lockfile_of_graph(*g),
    {
        let mut packages: Vec<LockedPkg> = Vec::new();
        let n = g.len();
        let mut i: usize = 0;
        while i < n
            invariant
                g.wf(),
                n == g.nodes@.len(),
                i <= n,
                packages@.len() == i,
                forall|k: int|
                    0 <= k < i ==> #[trigger] packages@[k]@ == spec_lockfile_of_graph(*g)[k],
            decreases n - i,
        {
            let kids = g.children(i);
            let mut deps: Vec<Summary> = Vec::new();
            let mut k: usize = 0;
            proof {
                crate::graph::lemma_children_in_range(g.edges@, g.nodes@.len(), i, g.edges@.len() as int);
            }
            while k < kids.len()
                invariant
                    g.wf(),
                    n == g.nodes@.len(),
                    i < n,
                    k <= kids@.len(),
                    kids@ == spec_children(g.edges@, i),
                    forall|m: int| 0 <= m < kids@.len() ==> #[trigger] kids@[m] < n,
                    deps@.len() == k,
                    forall|m: int|
                        0 <= m < k ==> #[trigger] deps@[m]@ == graph_node_values(*g)[kids@[m] as int],
                decreases kids@.len() - k,
            {
                deps.push(g.get(kids[k]).duplicate());
                k = k + 1;
            }
            packages.push(LockedPkg { sum: g.get(i).duplicate(), dependencies: deps });
            proof {
                assert(deps@.map_values(|s: Summary| s@) =~= spec_children(g.edges@, i).map_values(
                    |j: usize| graph_node_values(*g)[j as int],
                ));
                assert(packages@[i as int]@ == spec_lockfile_of_graph(*g)[i as int]);
            }
            i = i + 1;
        }
        let r = LockfileToml { packages };
        proof {
            assert(r@ =~= spec_lockfile_of_graph(*g));
        }
        r
    }
}


/// A summary value among the first `i` entries; when `j >= 0`, entry
/// `i`'s own summary and its first `j` dependencies count too.
pub open spec fn lockfile_node_upto(lf: Seq<LockedPkgV>, i: int, j: int, t: SummaryV) -> bool {
    (exists|k: int|
        0 <= k < i && ((#[trigger] lf[k]).sum == t || lf[k].dependencies.contains(t))) || (0 <= i
        < lf.len() && j >= 0 && (lf[i].sum == t || exists|d: int|
        0 <= d < j && d < lf[i].dependencies.len() && lf[i].dependencies[d] == t))
}

/// A dependency pair among the first `i` entries; when `j >= 0`, the
/// first `j` dependencies of entry `i` count too.
pub open spec fn lockfile_edge_upto(
    lf: Seq<LockedPkgV>,
    i: int,
    j: int,
    p: SummaryV,
    c: SummaryV,
) -> bool {
    (exists|k: int|
        0 <= k < i && (#[trigger] lf[k]).sum == p && lf[k].dependencies.contains(c)) || (0 <= i
        < lf.len() && j >= 0 && lf[i].sum == p && exists|d: int|
        0 <= d < j && d < lf[i].dependencies.len() && lf[i].dependencies[d] == c)
}

/// A sequence with later repetitions of a value removed: each value
/// keeps its first occurrence.
pub open spec fn dedup_first<A>(s: Seq<A>) -> Seq<A>
    decreases s.len(),
{
    if s.len() == 0 {
        Seq::empty()
    } else {
        let rest = dedup_first(s.drop_last());
        if s.drop_last().contains(s.last()) {
            rest
        } else {
            rest.push(s.last())
        }
    }
}

/// De-duplication keeps exactly the values of the sequence.
pub proof fn lemma_dedup_first_contains<A>(s: Seq<A>)
    ensures
        forall|t: A| #[trigger] dedup_first(s).contains(t) == s.contains(t),
    decreases s.len(),
{
    if s.len() > 0 {
        lemma_dedup_first_contains(s.drop_last());
        let d = dedup_first(s);
        let d0 = dedup_first(s.drop_last());
        assert forall|t: A| #[trigger] d.contains(t) == s.contains(t) by {
            if d.contains(t) {
                let j = choose|j: int| 0 <= j < d.len() && d[j] == t;
                if j < d0.len() {
                    assert(d0.contains(t));
                    assert(s.drop_last().contains(t));
                    let k = choose|k: int|
                        0 <= k < s.drop_last().len() && s.drop_last()[k] == t;
                    assert(s[k] == t);
                } else {
                    assert(t == s.last());
                    assert(s[s.len() - 1] == t);
                }
                assert(s.contains(t));
            }
            if s.contains(t) {
                let k = choose|k: int| 0 <= k < s.len() && s[k] == t;
                if k < s.len() - 1 {
                    assert(s.drop_last()[k] == t);
                    assert(s.drop_last().contains(t));
                    assert(d0.contains(t));
                    let j = choose|j: int| 0 <= j < d0.len() && d0[j] == t;
                    assert(d[j] == t);
                } else {
                    if s.drop_last().contains(s.last()) {
                        assert(d0.contains(t));
                        let j = choose|j: int| 0 <= j < d0.len() && d0[j] == t;
                        assert(d[j] == t);
                    } else {
                        assert(d[d.len() - 1] == t);
                    }
                }
                assert(d.contains(t));
            }
        }
    }
}

/// The summaries one entry mentions, in order: its own, then its
/// dependencies.
pub open spec fn entry_nodes(p: LockedPkgV) -> Seq<SummaryV> {
    seq![p.sum] + p.dependencies
}

/// Every summary the first `i` entries mention, in reading order.
pub open spec fn lockfile_mentions(lf: Seq<LockedPkgV>, i: int) -> Seq<SummaryV>
    decreases i,
{
    if i <= 0 {
        Seq::empty()
    } else {
        lockfile_mentions(lf, i - 1) + entry_nodes(lf[i - 1])
    }
}

/// The dependency pairs one entry lists, in order.
pub open spec fn entry_edges(p: LockedPkgV) -> Seq<(SummaryV, SummaryV)> {
    p.dependencies.map_values(|d: SummaryV| (p.sum, d))
}

/// Every dependency pair the first `i` entries list, in reading order.
pub open spec fn lockfile_edge_list(lf: Seq<LockedPkgV>, i: int) -> Seq<(SummaryV, SummaryV)>
    decreases i,
{
    if i <= 0 {
        Seq::empty()
    } else {
        lockfile_edge_list(lf, i - 1) + entry_edges(lf[i - 1])
    }
}

/// The values at an edge's two endpoints.
pub open spec fn edge_values(g: Graph<Summary>, k: int) -> (SummaryV, SummaryV) {
    (
        graph_node_values(g)[g.edges@[k].0 as int],
        graph_node_values(g)[g.edges@[k].1 as int],
    )
}

/// Finds the node carrying a summary value, inserting it if absent.
fn find_or_insert(g: &mut Graph<Summary>, s: &Summary) -> (r: usize)
    requires
        old(g).wf(),
        distinct_nodes(*old(g)),
    ensures
        final(g).wf(),
        distinct_nodes(*final(g)),
        final(g).edges@ == old(g).edges@,
        r < final(g).nodes@.len(),
        graph_node_values(*final(g))[r as int] == s@,
        old(g).nodes@.len() <= final(g).nodes@.len(),
        forall|i: int|
            0 <= i < old(g).nodes@.len() ==> final(g).nodes@[i] == old(g).nodes@[i],
        forall|t: SummaryV|
            #![trigger graph_has_node(*final(g), t)]
            graph_has_node(*final(g), t) <==> (graph_has_node(*old(g), t) || t == s@),
        graph_has_node(*old(g), s@) ==> final(g).nodes@ == old(g).nodes@,
        !graph_has_node(*old(g), s@) ==> graph_node_values(*final(g)) == graph_node_values(
            *old(g),
        ).push(s@),
{
    let n = g.len();
    let mut i: usize = 0;
    while i < n
        invariant
            g.wf(),
            distinct_nodes(*g),
            *g == *old(g),
            n == g.nodes@.len(),
            i <= n,
            forall|k: int| 0 <= k < i ==> graph_node_values(*g)[k] != s@,
        decreases n - i,
    {
        if g.get(i).eq_summary(s) {
            proof {
                assert(graph_node_values(*g)[i as int] == g.nodes@[i as int]@);
                assert(graph_has_node(*g, s@));
            }
            return i;
        }
        proof {
            assert(graph_node_values(*g)[i as int] == g.nodes@[i as int]@);
        }
        i = i + 1;
    }
    let r = g.add_node(s.duplicate());
    proof {
        assert(graph_node_values(*g)[r as int] == g.nodes@[r as int]@);
        assert(forall|k: int|
            0 <= k < old(g).nodes@.len() ==> graph_node_values(*g)[k] == graph_node_values(
                *old(g),
            )[k]);
        assert(distinct_nodes(*g));
        assert(!graph_has_node(*old(g), s@));
        assert(graph_node_values(*g) =~= graph_node_values(*old(g)).push(s@));
        assert forall|t: SummaryV|
            #![trigger graph_has_node(*g, t)]
            graph_has_node(*g, t) <==> (graph_has_node(*old(g), t) || t == s@) by {
            if graph_has_node(*g, t) {
                let k = choose|k: int|
                    0 <= k < g.nodes@.len() && graph_node_values(*g)[k] == t;
                if k < old(g).nodes@.len() {
                    assert(graph_node_values(*old(g))[k] == t);
                    assert(graph_has_node(*old(g), t));
                } else {
                    assert(t == s@);
                }
            }
            if graph_has_node(*old(g), t) {
                let k = choose|k: int|
                    0 <= k < old(g).nodes@.len() && graph_node_values(*old(g))[k] == t;
                assert(graph_node_values(*g)[k] == t);
            }
            if t == s@ {
                assert(graph_node_values(*g)[r as int] == t);
            }
        }
    }
    r
}

impl LockfileToml {
    /// Rebuilds a graph from lockfile entries, introducing each summary
    /// in first-seen order and adding one edge per listed dependency.
    #[verifier::rlimit(100)]
    pub fn to_graph(&self) -> (g: Graph<Summary>)
        ensures
            g.wf(),
            distinct_nodes(g),
            forall|t: SummaryV|
                #![trigger graph_has_node(g, t)]
                graph_has_node(g, t) <==> lockfile_has_node(self@, t),
            forall|p: SummaryV, c: SummaryV|
                #![trigger graph_has_edge(g, p, c)]
                graph_has_edge(g, p, c) <==> lockfile_has_edge(self@, p, c),
            // nodes are introduced in first-seen reading order
            graph_node_values(g) == dedup_first(lockfile_mentions(self@, self@.len() as int)),
            // one edge per listed dependency, in reading order
            g.edges@.len() == lockfile_edge_list(self@, self@.len() as int).len(),
            forall|k: int|
                0 <= k < g.edges@.len() ==> #[trigger] edge_values(g, k) == lockfile_edge_list(
                    self@,
                    self@.len() as int,
                )[k],
    {
        let lf = &self.packages;
        let ghost lfv = self@;
        let mut g: Graph<Summary> = Graph::new();
        proof {
            assert(forall|t: SummaryV| !graph_has_node(g, t));
            assert(forall|p: SummaryV, c: SummaryV| !graph_has_edge(g, p, c));
            assert(graph_node_values(g) =~= dedup_first(lockfile_mentions(lfv, 0)));
        }
        let mut i: usize = 0;
        while i < lf.len()
            invariant
                lfv == self@,
                lfv.len() == lf@.len(),
                forall|k: int| 0 <= k < lf@.len() ==> #[trigger] lf@[k]@ == lfv[k],
                i <= lf@.len(),
                g.wf(),
                distinct_nodes(g),
                forall|t: SummaryV|
                    #![trigger graph_has_node(g, t)]
                    graph_has_node(g, t) <==> lockfile_node_upto(lfv, i as int, -1, t),
                forall|p: SummaryV, c: SummaryV|
                    #![trigger graph_has_edge(g, p, c)]
                    graph_has_edge(g, p, c) <==> lockfile_edge_upto(lfv, i as int, -1, p, c),
                graph_node_values(g) == dedup_first(lockfile_mentions(lfv, i as int)),
                g.edges@.len() == lockfile_edge_list(lfv, i as int).len(),
                forall|k: int|
                    0 <= k < g.edges@.len() ==> #[trigger] edge_values(g, k)
                        == lockfile_edge_list(lfv, i as int)[k],
            decreases lf@.len() - i,
        {
            let ghost g0 = g;
            let nix = find_or_insert(&mut g, &lf[i].sum);
            proof {
                lemma_edges_stable(g0, g);
                assert(lf@[i as int]@.sum == lfv[i as int].sum);
                assert forall|t: SummaryV|
                    #![trigger graph_has_node(g, t)]
                    graph_has_node(g, t) <==> lockfile_node_upto(lfv, i as int, 0, t) by {
                    assert(graph_has_node(g, t) <==> (graph_has_node(g0, t) || t == lf@[
                        i as int].sum@));
                    assert(lockfile_node_upto(lfv, i as int, 0, t) <==> (lockfile_node_upto(
                        lfv,
                        i as int,
                        -1,
                        t,
                    ) || lfv[i as int].sum == t));
                }
                let m0 = lockfile_mentions(lfv, i as int);
                let sv = lfv[i as int].sum;
                lemma_dedup_first_contains(m0);
                assert(graph_has_node(g0, sv) == m0.contains(sv)) by {
                    if graph_has_node(g0, sv) {
                        let k = choose|k: int|
                            0 <= k < g0.nodes@.len() && graph_node_values(g0)[k] == sv;
                        assert(dedup_first(m0).contains(sv)) by {
                            assert(dedup_first(m0)[k] == sv);
                        }
                    }
                    if m0.contains(sv) {
                        assert(dedup_first(m0).contains(sv));
                        let k = choose|k: int|
                            0 <= k < dedup_first(m0).len() && dedup_first(m0)[k] == sv;
                        assert(graph_node_values(g0)[k] == sv);
                    }
                }
                assert((m0.push(sv)).drop_last() =~= m0);
                assert((m0.push(sv)).drop_last() == m0);
                assert(graph_node_values(g) == dedup_first(m0.push(sv))) by {
                    if graph_has_node(g0, sv) {
                        assert(g.nodes@ == g0.nodes@);
                        assert(dedup_first(m0.push(sv)) == dedup_first(m0));
                    } else {
                        assert(graph_node_values(g) == graph_node_values(g0).push(sv));
                        assert(dedup_first(m0.push(sv)) == dedup_first(m0).push(sv));
                    }
                }
                assert(m0.push(sv) =~= m0 + seq![sv] + lfv[i as int].dependencies.take(0));
                assert(graph_node_values(g) == dedup_first(
                    m0 + seq![sv] + lfv[i as int].dependencies.take(0),
                ));
                // the edges and the values at their endpoints are untouched
                assert forall|k: int| 0 <= k < g.edges@.len() implies #[trigger] edge_values(g, k)
                    == lockfile_edge_list(lfv, i as int)[k] by {
                    assert(g.edges@[k] == g0.edges@[k]);
                    assert(g0.edges@[k].0 < g0.nodes@.len() && g0.edges@[k].1 < g0.nodes@.len());
                    assert(graph_node_values(g)[g0.edges@[k].0 as int] == graph_node_values(g0)[
                        g0.edges@[k].0 as int]);
                    assert(graph_node_values(g)[g0.edges@[k].1 as int] == graph_node_values(g0)[
                        g0.edges@[k].1 as int]);
                    assert(edge_values(g, k) == edge_values(g0, k));
                    assert(edge_values(g0, k) == lockfile_edge_list(lfv, i as int)[k]);
                }
            }
            let deps = &lf[i].dependencies;
            proof {
                assert(deps@.map_values(|s2: Summary| s2@) == lfv[i as int].dependencies);
            }
            let mut j: usize = 0;
            while j < deps.len()
                invariant
                    lfv == self@,
                    lfv.len() == lf@.len(),
                    forall|k: int| 0 <= k < lf@.len() ==> #[trigger] lf@[k]@ == lfv[k],
                    i < lf@.len(),
                    deps@.map_values(|s2: Summary| s2@) == lfv[i as int].dependencies,
                    deps@.len() == lfv[i as int].dependencies.len(),
                    j <= deps@.len(),
                    g.wf(),
                    distinct_nodes(g),
                    nix < g.nodes@.len(),
                    graph_node_values(g)[nix as int] == lfv[i as int].sum,
                    forall|t: SummaryV|
                        #![trigger graph_has_node(g, t)]
                        graph_has_node(g, t) <==> lockfile_node_upto(lfv, i as int, j as int, t),
                    forall|p: SummaryV, c: SummaryV|
                        #![trigger graph_has_edge(g, p, c)]
                        graph_has_edge(g, p, c) <==> lockfile_edge_upto(
                            lfv,
                            i as int,
                            j as int,
                            p,
                            c,
                        ),
                    graph_node_values(g) == dedup_first(
                        lockfile_mentions(lfv, i as int) + seq![lfv[i as int].sum] + lfv[
                            i as int
                        ].dependencies.take(j as int),
                    ),
                    g.edges@.len() == lockfile_edge_list(lfv, i as int).len() + j,
                    forall|k: int|
                        0 <= k < lockfile_edge_list(lfv, i as int).len() ==> #[trigger] edge_values(
                            g,
                            k,
                        ) == lockfile_edge_list(lfv, i as int)[k],
                    forall|k: int|
                        lockfile_edge_list(lfv, i as int).len() <= k < g.edges@.len()
                            ==> #[trigger] edge_values(g, k) == (
                        lfv[i as int].sum,
                        lfv[i as int].dependencies[k - lockfile_edge_list(lfv, i as int).len()],
                        ),
                decreases deps@.len() - j,
            {
                let ghost g1 = g;
                let dnix = find_or_insert(&mut g, &deps[j]);
                proof {
                    lemma_edges_stable(g1, g);
                    assert(deps@[j as int]@ == lfv[i as int].dependencies[j as int]) by {
                        assert(deps@.map_values(|s2: Summary| s2@)[j as int] == deps@[j as int]@);
                    }
                }
                let ghost g2 = g;
                let ghost dv = lfv[i as int].dependencies[j as int];
                g.add_edge(nix, dnix);
                proof {
                    assert(graph_node_values(g) == graph_node_values(g2));
                    assert(graph_node_values(g)[nix as int] == lfv[i as int].sum);
                    assert(graph_node_values(g)[dnix as int] == dv);
                    lemma_edge_push(g2, g, nix, dnix, lfv[i as int].sum, dv);
                    // the first-seen node order gains this dependency
                    let prev = lockfile_mentions(lfv, i as int) + seq![lfv[i as int].sum] + lfv[
                        i as int].dependencies.take(j as int);
                    let next = lockfile_mentions(lfv, i as int) + seq![lfv[i as int].sum] + lfv[
                        i as int].dependencies.take(j as int + 1);
                    lemma_dedup_first_contains(prev);
                    assert(graph_has_node(g1, dv) == prev.contains(dv)) by {
                        if graph_has_node(g1, dv) {
                            let k = choose|k: int|
                                0 <= k < g1.nodes@.len() && graph_node_values(g1)[k] == dv;
                            assert(dedup_first(prev).contains(dv)) by {
                                assert(dedup_first(prev)[k] == dv);
                            }
                        }
                        if prev.contains(dv) {
                            assert(dedup_first(prev).contains(dv));
                            let k = choose|k: int|
                                0 <= k < dedup_first(prev).len() && dedup_first(prev)[k] == dv;
                            assert(graph_node_values(g1)[k] == dv);
                        }
                    }
                    assert(next =~= prev.push(dv)) by {
                        assert(lfv[i as int].dependencies.take(j as int + 1) =~= lfv[
                            i as int].dependencies.take(j as int).push(dv));
                    }
                    assert((prev.push(dv)).drop_last() =~= prev);
                    assert((prev.push(dv)).drop_last() == prev);
                    assert(graph_node_values(g) == dedup_first(next)) by {
                        if graph_has_node(g1, dv) {
                            assert(g2.nodes@ == g1.nodes@);
                            assert(dedup_first(prev.push(dv)) == dedup_first(prev));
                        } else {
                            assert(graph_node_values(g2) == graph_node_values(g1).push(dv));
                            assert(dedup_first(prev.push(dv)) == dedup_first(prev).push(dv));
                        }
                    }
                    // old edge endpoints keep their values; the new edge
                    // carries this entry's pair
                    assert forall|k: int| 0 <= k < g.edges@.len() - 1 implies #[trigger] edge_values(
                        g,
                        k,
                    ) == edge_values(g1, k) by {
                        assert(g.edges@[k] == g1.edges@[k]);
                        assert(g1.edges@[k].0 < g1.nodes@.len() && g1.edges@[k].1
                            < g1.nodes@.len());
                        assert(graph_node_values(g)[g1.edges@[k].0 as int] == graph_node_values(
                            g1,
                        )[g1.edges@[k].0 as int]);
                        assert(graph_node_values(g)[g1.edges@[k].1 as int] == graph_node_values(
                            g1,
                        )[g1.edges@[k].1 as int]);
                    }
                    assert(edge_values(g, g.edges@.len() - 1) == (lfv[i as int].sum, dv)) by {
                        assert(g.edges@[g.edges@.len() - 1] == (nix, dnix));
                    }
                    assert forall|t: SummaryV|
                        #![trigger graph_has_node(g, t)]
                        graph_has_node(g, t) <==> lockfile_node_upto(
                            lfv,
                            i as int,
                            j as int + 1,
                            t,
                        ) by {
                        assert(graph_has_node(g, t) == graph_has_node(g2, t));
                        assert(graph_has_node(g2, t) <==> (graph_has_node(g1, t) || t == dv));
                        if lockfile_node_upto(lfv, i as int, j as int + 1, t) && !(t == dv) {
                            if !lockfile_node_upto(lfv, i as int, j as int, t) {
                                let d = choose|d: int|
                                    0 <= d < j + 1 && d < lfv[i as int].dependencies.len()
                                        && lfv[i as int].dependencies[d] == t;
                                assert(d == j);
                                assert(t == dv);
                            }
                        }
                        if t == dv {
                            assert(lockfile_node_upto(lfv, i as int, j as int + 1, t)) by {
                                assert(lfv[i as int].dependencies[j as int] == t);
                            }
                        }
                        if lockfile_node_upto(lfv, i as int, j as int, t) {
                            assert(lockfile_node_upto(lfv, i as int, j as int + 1, t));
                        }
                    }
                    assert forall|p: SummaryV, c: SummaryV|
                        #![trigger graph_has_edge(g, p, c)]
                        graph_has_edge(g, p, c) <==> lockfile_edge_upto(
                            lfv,
                            i as int,
                            j as int + 1,
                            p,
                            c,
                        ) by {
                        assert(graph_has_edge(g, p, c) <==> (graph_has_edge(g2, p, c) || (p
                            == lfv[i as int].sum && c == dv)));
                        assert(graph_has_edge(g2, p, c) == graph_has_edge(g1, p, c));
                        if p == lfv[i as int].sum && c == dv {
                            assert(lockfile_edge_upto(lfv, i as int, j as int + 1, p, c)) by {
                                assert(lfv[i as int].dependencies[j as int] == c);
                            }
                        }
                        if lockfile_edge_upto(lfv, i as int, j as int + 1, p, c) {
                            if !lockfile_edge_upto(lfv, i as int, j as int, p, c) {
                                let d = choose|d: int|
                                    0 <= d < j + 1 && d < lfv[i as int].dependencies.len()
                                        && lfv[i as int].dependencies[d] == c;
                                assert(d == j);
                                assert(p == lfv[i as int].sum && c == dv);
                            }
                        }
                        if lockfile_edge_upto(lfv, i as int, j as int, p, c) {
                            assert(lockfile_edge_upto(lfv, i as int, j as int + 1, p, c));
                        }
                    }
                }
                j = j + 1;
            }
            proof {
                // the first-seen order and the edge list close over this entry
                assert(lockfile_mentions(lfv, i as int) + seq![lfv[i as int].sum] + lfv[
                    i as int].dependencies.take(lfv[i as int].dependencies.len() as int)
                    =~= lockfile_mentions(lfv, i as int + 1)) by {
                    assert(lfv[i as int].dependencies.take(
                        lfv[i as int].dependencies.len() as int,
                    ) =~= lfv[i as int].dependencies);
                    assert(lockfile_mentions(lfv, i as int + 1) == lockfile_mentions(
                        lfv,
                        i as int,
                    ) + entry_nodes(lfv[i as int]));
                }
                assert(graph_node_values(g) == dedup_first(
                    lockfile_mentions(lfv, i as int + 1),
                ));
                assert(lockfile_edge_list(lfv, i as int + 1) == lockfile_edge_list(lfv, i as int)
                    + entry_edges(lfv[i as int]));
                assert(entry_edges(lfv[i as int]).len() == lfv[i as int].dependencies.len());
                assert(g.edges@.len() == lockfile_edge_list(lfv, i as int + 1).len());
                assert forall|k: int| 0 <= k < g.edges@.len() implies #[trigger] edge_values(g, k)
                    == lockfile_edge_list(lfv, i as int + 1)[k] by {
                    let base = lockfile_edge_list(lfv, i as int).len();
                    if k < base {
                        assert(lockfile_edge_list(lfv, i as int + 1)[k] == lockfile_edge_list(
                            lfv,
                            i as int,
                        )[k]);
                    } else {
                        assert(lockfile_edge_list(lfv, i as int + 1)[k] == entry_edges(
                            lfv[i as int],
                        )[k - base]);
                        assert(entry_edges(lfv[i as int])[k - base] == (
                            lfv[i as int].sum,
                            lfv[i as int].dependencies[k - base],
                        ));
                    }
                }
                assert forall|t: SummaryV|
                    #![trigger graph_has_node(g, t)]
                    graph_has_node(g, t) <==> lockfile_node_upto(lfv, i as int + 1, -1, t) by {
                    assert(graph_has_node(g, t) <==> lockfile_node_upto(
                        lfv,
                        i as int,
                        lfv[i as int].dependencies.len() as int,
                        t,
                    ));
                    if lockfile_node_upto(lfv, i as int, lfv[i as int].dependencies.len() as int, t) {
                        if !lockfile_node_upto(lfv, i as int + 1, -1, t) {
                            assert(lfv[i as int].sum == t || lfv[i as int].dependencies.contains(
                                t,
                            ) ==> lockfile_node_upto(lfv, i as int + 1, -1, t)) by {
                                assert(0 <= i < i + 1);
                            }
                        }
                    }
                    if lockfile_node_upto(lfv, i as int + 1, -1, t) {
                        let k = choose|k: int|
                            0 <= k < i + 1 && ((#[trigger] lfv[k]).sum == t
                                || lfv[k].dependencies.contains(t));
                        if k < i {
                            assert(lockfile_node_upto(lfv, i as int, -1, t));
                            assert(lockfile_node_upto(
                                lfv,
                                i as int,
                                lfv[i as int].dependencies.len() as int,
                                t,
                            ));
                        } else {
                            if lfv[k].dependencies.contains(t) {
                                let d = choose|d: int|
                                    0 <= d < lfv[k].dependencies.len() && lfv[k].dependencies[d]
                                        == t;
                                assert(lockfile_node_upto(
                                    lfv,
                                    i as int,
                                    lfv[i as int].dependencies.len() as int,
                                    t,
                                ));
                            }
                        }
                    }
                }
                assert forall|p: SummaryV, c: SummaryV|
                    #![trigger graph_has_edge(g, p, c)]
                    graph_has_edge(g, p, c) <==> lockfile_edge_upto(lfv, i as int + 1, -1, p, c)
                    by {
                    assert(graph_has_edge(g, p, c) <==> lockfile_edge_upto(
                        lfv,
                        i as int,
                        lfv[i as int].dependencies.len() as int,
                        p,
                        c,
                    ));
                    if lockfile_edge_upto(lfv, i as int + 1, -1, p, c) {
                        let k = choose|k: int|
                            0 <= k < i + 1 && (#[trigger] lfv[k]).sum == p
                                && lfv[k].dependencies.contains(c);
                        if k < i {
                            assert(lockfile_edge_upto(lfv, i as int, -1, p, c));
                        } else {
                            let d = choose|d: int|
                                0 <= d < lfv[k].dependencies.len() && lfv[k].dependencies[d]
                                    == c;
                            assert(lockfile_edge_upto(
                                lfv,
                                i as int,
                                lfv[i as int].dependencies.len() as int,
                                p,
                                c,
                            ));
                        }
                    }
                    if lockfile_edge_upto(lfv, i as int, lfv[i as int].dependencies.len() as int, p, c) {
                        if !(exists|k: int|
                            0 <= k < i && (#[trigger] lfv[k]).sum == p
                                && lfv[k].dependencies.contains(c)) {
                            let d = choose|d: int|
                                0 <= d < lfv[i as int].dependencies.len() && lfv[
                                    i as int].dependencies[d] == c;
                            assert(lfv[i as int].dependencies.contains(c));
                            assert(lockfile_edge_upto(lfv, i as int + 1, -1, p, c));
                        }
                    }
                }
            }
            i = i + 1;
        }
        proof {
            assert(graph_node_values(g) == dedup_first(lockfile_mentions(lfv, lfv.len() as int)));
            assert forall|t: SummaryV|
                #![trigger graph_has_node(g, t)]
                graph_has_node(g, t) <==> lockfile_has_node(self@, t) by {
                assert(graph_has_node(g, t) <==> lockfile_node_upto(lfv, lfv.len() as int, -1, t));
            }
            assert forall|p: SummaryV, c: SummaryV|
                #![trigger graph_has_edge(g, p, c)]
                graph_has_edge(g, p, c) <==> lockfile_has_edge(self@, p, c) by {
                assert(graph_has_edge(g, p, c) <==> lockfile_edge_upto(
                    lfv,
                    lfv.len() as int,
                    -1,
                    p,
                    c,
                ));
            }
        }
        g
    }
}

/// Appending nodes leaves the edge relation unchanged.
proof fn lemma_edges_stable(g0: Graph<Summary>, g1: Graph<Summary>)
    requires
        g0.wf(),
        g1.edges@ == g0.edges@,
        g0.nodes@.len() <= g1.nodes@.len(),
        forall|i: int| 0 <= i < g0.nodes@.len() ==> g1.nodes@[i] == g0.nodes@[i],
    ensures
        forall|p: SummaryV, c: SummaryV|
            #![trigger graph_has_edge(g1, p, c)]
            graph_has_edge(g1, p, c) == graph_has_edge(g0, p, c),
{
    assert forall|p: SummaryV, c: SummaryV|
        #![trigger graph_has_edge(g1, p, c)]
        graph_has_edge(g1, p, c) == graph_has_edge(g0, p, c) by {
        if graph_has_edge(g0, p, c) {
            let k = choose|k: int|
                0 <= k < g0.edges@.len() && graph_node_values(g0)[(#[trigger] g0.edges@[k]).0 as int]
                    == p && graph_node_values(g0)[g0.edges@[k].1 as int] == c;
            assert(g0.edges@[k].0 < g0.nodes@.len() && g0.edges@[k].1 < g0.nodes@.len());
            assert(g1.edges@[k] == g0.edges@[k]);
            assert(graph_node_values(g1)[g0.edges@[k].0 as int] == graph_node_values(g0)[
                g0.edges@[k].0 as int]);
            assert(graph_node_values(g1)[g0.edges@[k].1 as int] == graph_node_values(g0)[
                g0.edges@[k].1 as int]);
            assert(graph_has_edge(g1, p, c));
        }
        if graph_has_edge(g1, p, c) {
            let k = choose|k: int|
                0 <= k < g1.edges@.len() && graph_node_values(g1)[(#[trigger] g1.edges@[k]).0 as int]
                    == p && graph_node_values(g1)[g1.edges@[k].1 as int] == c;
            assert(g0.edges@[k] == g1.edges@[k]);
            assert(g0.edges@[k].0 < g0.nodes@.len() && g0.edges@[k].1 < g0.nodes@.len());
            assert(graph_node_values(g0)[g0.edges@[k].0 as int] == graph_node_values(g1)[
                g0.edges@[k].0 as int]);
            assert(graph_node_values(g0)[g0.edges@[k].1 as int] == graph_node_values(g1)[
                g0.edges@[k].1 as int]);
            assert(graph_has_edge(g0, p, c));
        }
    }
}

/// Adding one edge adds exactly its value pair to the edge relation.
proof fn lemma_edge_push(
    g0: Graph<Summary>,
    g1: Graph<Summary>,
    a: usize,
    b: usize,
    p0: SummaryV,
    c0: SummaryV,
)
    requires
        g1.nodes@ == g0.nodes@,
        a < g0.nodes@.len(),
        b < g0.nodes@.len(),
        g1.edges@ == g0.edges@.push((a, b)),
        graph_node_values(g0)[a as int] == p0,
        graph_node_values(g0)[b as int] == c0,
    ensures
        forall|p: SummaryV, c: SummaryV|
            #![trigger graph_has_edge(g1, p, c)]
            graph_has_edge(g1, p, c) == (graph_has_edge(g0, p, c) || (p == p0 && c == c0)),
{
    assert forall|p: SummaryV, c: SummaryV|
        #![trigger graph_has_edge(g1, p, c)]
        graph_has_edge(g1, p, c) == (graph_has_edge(g0, p, c) || (p == p0 && c == c0)) by {
        assert(graph_node_values(g1) == graph_node_values(g0));
        if graph_has_edge(g0, p, c) {
            let k = choose|k: int|
                0 <= k < g0.edges@.len() && graph_node_values(g0)[(#[trigger] g0.edges@[k]).0 as int]
                    == p && graph_node_values(g0)[g0.edges@[k].1 as int] == c;
            assert(g1.edges@[k] == g0.edges@[k]);
            assert(graph_has_edge(g1, p, c));
        }
        if p == p0 && c == c0 {
            let k = g0.edges@.len() as int;
            assert(g1.edges@[k] == (a, b));
            assert(graph_has_edge(g1, p, c));
        }
        if graph_has_edge(g1, p, c) {
            let k = choose|k: int|
                0 <= k < g1.edges@.len() && graph_node_values(g1)[(#[trigger] g1.edges@[k]).0 as int]
                    == p && graph_node_values(g1)[g1.edges@[k].1 as int] == c;
            if k < g0.edges@.len() {
                assert(g0.edges@[k] == g1.edges@[k]);
                assert(graph_has_edge(g0, p, c));
            } else {
                assert(g1.edges@[k] == (a, b));
            }
        }
    }
}

/// Lockfile round trip: flattening a graph and rebuilding it yields a
/// graph with the same summaries and the same dependency pairs.
pub proof fn lemma_lockfile_round_trip(g: Graph<Summary>, g2: Graph<Summary>)
    requires
        g.wf(),
        forall|t: SummaryV|
            #![trigger graph_has_node(g2, t)]
            graph_has_node(g2, t) <==> lockfile_has_node(spec_lockfile_of_graph(g), t),
        forall|p: SummaryV, c: SummaryV|
            #![trigger graph_has_edge(g2, p, c)]
            graph_has_edge(g2, p, c) <==> lockfile_has_edge(spec_lockfile_of_graph(g), p, c),
    ensures
        forall|t: SummaryV|
            #![trigger graph_has_node(g2, t)]
            graph_has_node(g2, t) <==> graph_has_node(g, t),
        forall|p: SummaryV, c: SummaryV|
            #![trigger graph_has_edge(g2, p, c)]
            graph_has_edge(g2, p, c) <==> graph_has_edge(g, p, c),
{
    let lf = spec_lockfile_of_graph(g);
    assert(g.nodes@.len() <= usize::MAX) by {
        vstd::std_specs::vec::axiom_spec_len(&g.nodes);
    }
    assert forall|t: SummaryV|
        #![trigger lockfile_has_node(lf, t)]
        lockfile_has_node(lf, t) <==> graph_has_node(g, t) by {
        if lockfile_has_node(lf, t) {
            let k = choose|k: int|
                0 <= k < lf.len() && ((#[trigger] lf[k]).sum == t || lf[k].dependencies.contains(
                    t,
                ));
            if lf[k].sum == t {
                assert(graph_node_values(g)[k] == t);
                assert(graph_has_node(g, t));
            } else {
                let d = choose|d: int|
                    0 <= d < lf[k].dependencies.len() && lf[k].dependencies[d] == t;
                let kids = crate::graph::spec_children(g.edges@, k as usize);
                assert(lf[k].dependencies[d] == graph_node_values(g)[kids[d] as int]);
                crate::graph::lemma_children_in_range(
                    g.edges@,
                    g.nodes@.len(),
                    k as usize,
                    g.edges@.len() as int,
                );
                assert(kids[d] < g.nodes@.len());
                assert(graph_node_values(g)[kids[d] as int] == t);
                assert(graph_has_node(g, t));
            }
        }
        if graph_has_node(g, t) {
            let i = choose|i: int| 0 <= i < g.nodes@.len() && graph_node_values(g)[i] == t;
            assert(lf[i].sum == t);
            assert(lockfile_has_node(lf, t));
        }
    }
    assert forall|p: SummaryV, c: SummaryV|
        #![trigger lockfile_has_edge(lf, p, c)]
        lockfile_has_edge(lf, p, c) <==> graph_has_edge(g, p, c) by {
        if lockfile_has_edge(lf, p, c) {
            let k = choose|k: int|
                0 <= k < lf.len() && (#[trigger] lf[k]).sum == p && lf[k].dependencies.contains(
                    c,
                );
            let d = choose|d: int|
                0 <= d < lf[k].dependencies.len() && lf[k].dependencies[d] == c;
            let kids = crate::graph::spec_children(g.edges@, k as usize);
            assert(kids.contains(kids[d]));
            crate::graph::lemma_children_membership(g.edges@, k as usize, kids[d]);
            assert(g.edges@.contains((k as usize, kids[d])));
            let e = choose|e: int|
                0 <= e < g.edges@.len() && g.edges@[e] == (k as usize, kids[d]);
            crate::graph::lemma_children_in_range(
                g.edges@,
                g.nodes@.len(),
                k as usize,
                g.edges@.len() as int,
            );
            assert(g.edges@[e].0 == k as usize && g.edges@[e].1 == kids[d]);
            assert(graph_node_values(g)[g.edges@[e].0 as int] == lf[k].sum);
            assert(lf[k].dependencies[d] == graph_node_values(g)[kids[d] as int]);
            assert(graph_node_values(g)[g.edges@[e].1 as int] == c);
            assert(graph_has_edge(g, p, c));
        }
        if graph_has_edge(g, p, c) {
            let e = choose|e: int|
                0 <= e < g.edges@.len() && graph_node_values(g)[(#[trigger] g.edges@[e]).0 as int]
                    == p && graph_node_values(g)[g.edges@[e].1 as int] == c;
            let a = g.edges@[e].0;
            let b = g.edges@[e].1;
            let kids = crate::graph::spec_children(g.edges@, a);
            crate::graph::lemma_children_membership(g.edges@, a, b);
            assert(g.edges@.contains((a, b))) by {
                assert(g.edges@[e] == (a, b));
            }
            assert(kids.contains(b));
            let m = choose|m: int| 0 <= m < kids.len() && kids[m] == b;
            assert(a < g.nodes@.len());
            assert(lf[a as int].sum == p);
            assert(lf[a as int].dependencies[m] == graph_node_values(g)[b as int]);
            assert(lf[a as int].dependencies.contains(c));
            assert(lockfile_has_edge(lf, p, c));
        }
    }
}

} // verus!
