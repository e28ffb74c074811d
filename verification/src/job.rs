//! The build-job graph and its layered executor.
//!
//! Each node of a resolved graph becomes a job: already built
//! (`Fresh`), waiting to be built (`Dirty`), or not needed (`None`).
//! The executor dispatches, layer by layer, the dirty jobs whose
//! dependencies are all fresh; the embedding program runs the compiler
//! for a dispatched job and hands the outcome back, and the queue
//! promotes states and releases artifacts that nothing upstream still
//! needs. Work that only the machine can do — the compiler subprocess,
//! the cache probes — happens outside; every decision happens here.

use vstd::prelude::*;

use crate::cache::{identity_bytes, spec_source_identity, Binary, Source};
use crate::error::{Error, ErrorKind};
use crate::graph::{spec_children, spec_parents, Graph};
use crate::hash::{dep_views, hash_wf, spec_build_hash, target_in_range, BuildHash};
use crate::target::{target_le, Target, Targets};

verus! {

/// What remains to be done for one node.
#[derive(Debug)]
pub enum Work {
    /// Nothing to do: not visited, or already consumed by every
    /// dependent.
    Idle,
    /// Awaiting a build of this source under this fingerprint.
    Dirty(Source, BuildHash),
    /// Built, and still held for dependents.
    Fresh(Binary),
}

impl Work {
    pub fn is_none(&self) -> (r: bool)
        ensures
            r == (*self is Idle),
    {
        match self {
            Work::Idle => true,
            _ => false,
        }
    }

    pub fn is_dirty(&self) -> (r: bool)
        ensures
            r == (*self is Dirty),
    {
        match self {
            Work::Dirty(_, _) => true,
            _ => false,
        }
    }

    pub fn is_fresh(&self) -> (r: bool)
        ensures
            r == (*self is Fresh),
    {
        match self {
            Work::Fresh(_) => true,
            _ => false,
        }
    }
}

/// One unit of work in the build graph.
#[derive(Debug)]
pub struct Job {
    pub work: Work,
    pub targets: Targets,
}

impl Default for Job {
    /// An untouched job: no work, a bare library target.
    fn default() -> (r: Job)
        ensures
            r.work is Idle,
            r.targets.0@ =~= seq![Target::Lib],
    {
        let mut ts: Vec<Target> = Vec::new();
        ts.push(Target::Lib);
        let targets = Targets::new(ts);
        proof {
            lemma_single_lib_normal();
        }
        Job { work: Work::Idle, targets }
    }
}

/// Normalizing a bare `[Lib]` selection returns it unchanged.
pub proof fn lemma_single_lib_normal()
    ensures
        crate::target::spec_normalize_targets(seq![Target::Lib]) =~= seq![Target::Lib],
{
    let s = seq![Target::Lib];
    let leq = crate::target::target_leq();
    crate::target::lemma_target_le_total();
    s.lemma_sort_by_ensures(leq);
    vstd::seq_lib::lemma_sorted_unique(s.sort_by(leq), s, leq);
    assert(vstd::relations::sorted_by(s, leq)) by {
        assert forall|i: int, j: int| 0 <= i <= j < s.len() implies leq(s[i], s[j]) by {
            assert(i == 0 && j == 0);
            assert(target_le(s[0], s[0]));
        }
    }
    assert(s.sort_by(leq) == s);
    assert(s.filter(crate::target::not_lib()) =~= Seq::<Target>::empty()) by {
        reveal_with_fuel(Seq::<Target>::filter, 2);
        assert(s.drop_last() =~= Seq::<Target>::empty());
        assert(!crate::target::not_lib()(s.last()));
    }
    assert(crate::target::contains_lib(s)) by {
        assert(crate::target::is_lib(s[0]));
    }
    assert(seq![Target::Lib] + Seq::<Target>::empty() =~= seq![Target::Lib]);
}

/// The targets a node builds: the chosen selection for the root,
/// a bare library for everything else.
pub open spec fn node_targets(root_targets: Seq<Target>, i: int) -> Seq<Target> {
    if i == 0 {
        root_targets
    } else {
        seq![Target::Lib]
    }
}

/// A fingerprint for every node, each computed over the source
/// identity, the children's fingerprints, and the node's targets.
pub open spec fn consistent_hashes(
    solve: Graph<Source>,
    root_targets: Seq<Target>,
    hs: Seq<Seq<char>>,
) -> bool {
    hs.len() == solve.nodes@.len() && forall|i: int|
        0 <= i < hs.len() ==> #[trigger] hs[i] == spec_build_hash(
            spec_source_identity(solve.nodes@[i]),
            spec_children(solve.edges@, i as usize).map_values(|j: usize| hs[j as int]),
            node_targets(root_targets, i),
        )
}

/// A witness that the graph is a DAG: a rank for every node, bounded
/// by the node count, that strictly drops from dependent to
/// dependency.
pub open spec fn ranked_by(g_edges: Seq<(usize, usize)>, n: nat, rank: Seq<nat>) -> bool {
    rank.len() == n && (forall|k: int|
        0 <= k < g_edges.len() ==> rank[(#[trigger] g_edges[k]).1 as int] < rank[
            g_edges[k].0 as int]) && (forall|i: int| 0 <= i < rank.len() ==> #[trigger] rank[i] < n)
}

/// The graph admits a rank witness.
pub open spec fn spec_acyclic(g_edges: Seq<(usize, usize)>, n: nat) -> bool {
    exists|rank: Seq<nat>| ranked_by(g_edges, n, rank)
}

/// The settled entries obey the invariants of the fixpoint: each
/// carries its fingerprint over settled children of strictly smaller
/// rank.
pub open spec fn settled_ok(
    solve: Graph<Source>,
    root_targets: Seq<Target>,
    hs: Seq<Option<BuildHash>>,
    rank: Seq<nat>,
    round: nat,
) -> bool {
    forall|k: int|
        #![trigger hs[k]]
        0 <= k < hs.len() && hs[k] is Some ==> {
            &&& rank[k] < round
            &&& hash_wf(hs[k]->Some_0.0@)
            &&& (forall|m: int|
                0 <= m < spec_children(solve.edges@, k as usize).len() ==> hs[
                    #[trigger] spec_children(solve.edges@, k as usize)[m] as int] is Some && rank[
                    spec_children(solve.edges@, k as usize)[m] as int] < rank[k])
            &&& hs[k]->Some_0.0@ == spec_build_hash(
                spec_source_identity(solve.nodes@[k]),
                spec_children(solve.edges@, k as usize).map_values(
                    |j: usize| hs[j as int]->Some_0.0@,
                ),
                node_targets(root_targets, k),
            )
        }
}

/// Under any rank witness, every node ranked below the round is
/// settled.
pub open spec fn rounds_complete(
    edges: Seq<(usize, usize)>,
    n: nat,
    hs: Seq<Option<BuildHash>>,
    round: nat,
) -> bool {
    forall|w: Seq<nat>|
        ranked_by(edges, n, w) ==> (forall|k: int|
            0 <= k < hs.len() && w[k] < round ==> #[trigger] hs[k] is Some)
}

/// Every child index of a well-formed graph names a node.
proof fn proof_children_range(solve: Graph<Source>, k: usize, n: nat)
    requires
        solve.wf(),
        solve.nodes@.len() == n,
    ensures
        forall|m: int|
            0 <= m < spec_children(solve.edges@, k).len() ==> #[trigger] spec_children(
                solve.edges@,
                k,
            )[m] < n,
{
    crate::graph::lemma_children_in_range(solve.edges@, n, k, solve.edges@.len() as int);
}

/// Fingerprints every node of a resolved graph, children first.
///
/// Succeeds exactly on acyclic graphs; a graph with a dependency cycle
/// cannot be fingerprinted, because every fingerprint embeds its
/// children's.
pub fn compute_hashes(solve: &Graph<Source>, root_targets: &Targets) -> (r: Result<
    Vec<BuildHash>,
    Error,
>)
    requires
        solve.wf(),
        forall|i: int|
            0 <= i < root_targets.0@.len() ==> target_in_range(#[trigger] root_targets.0@[i]),
    ensures
        (match r {
            Ok(hs) => {
                &&& consistent_hashes(*solve, root_targets.0@, hs@.map_values(|h: BuildHash| h.0@))
                &&& forall|i: int| 0 <= i < hs@.len() ==> hash_wf(#[trigger] hs@[i].0@)
                &&& spec_acyclic(solve.edges@, solve.nodes@.len())
            },
            Err(e) => !spec_acyclic(solve.edges@, solve.nodes@.len()) && e.kind
                == ErrorKind::InvalidLockfile,
        }),
{
    let n = solve.len();
    let mut hs: Vec<Option<BuildHash>> = Vec::new();
    let ghost mut rank: Seq<nat> = Seq::new(n as nat, |i: int| 0nat);
    let mut i: usize = 0;
    while i < n
        invariant
            i <= n,
            hs@.len() == i,
            forall|k: int| 0 <= k < i ==> #[trigger] hs@[k] is None,
        decreases n - i,
    {
        hs.push(None);
        i = i + 1;
    }
    let mut round: usize = 0;
    while round < n
        invariant
            n == solve.nodes@.len(),
            solve.wf(),
            forall|i2: int|
                0 <= i2 < root_targets.0@.len() ==> target_in_range(
                    #[trigger] root_targets.0@[i2],
                ),
            round <= n,
            hs@.len() == n,
            rank.len() == n,
            settled_ok(*solve, root_targets.0@, hs@, rank, round as nat),
            rounds_complete(solve.edges@, n as nat, hs@, round as nat),
        decreases n - round,
    {
        let ghost pre = hs@;
        let ghost pre_rank = rank;
        // snapshot which nodes were settled when the round began
        let mut prev: Vec<bool> = Vec::new();
        let mut i: usize = 0;
        while i < n
            invariant
                n == hs@.len(),
                i <= n,
                prev@.len() == i,
                forall|k: int| 0 <= k < i ==> #[trigger] prev@[k] == (hs@[k] is Some),
            decreases n - i,
        {
            prev.push(hs[i].is_some());
            i = i + 1;
        }
        let mut i: usize = 0;
        while i < n
            invariant
                n == solve.nodes@.len(),
                solve.wf(),
                forall|i2: int|
                    0 <= i2 < root_targets.0@.len() ==> target_in_range(
                        #[trigger] root_targets.0@[i2],
                    ),
                round < n,
                i <= n,
                hs@.len() == n,
                rank.len() == n,
                prev@.len() == n,
                pre.len() == n,
                pre_rank.len() == n,
                forall|k: int| 0 <= k < n ==> #[trigger] prev@[k] == (pre[k] is Some),
                // settled entries from earlier rounds are untouched
                forall|k: int|
                    #![trigger pre[k]]
                    0 <= k < n && pre[k] is Some ==> hs@[k] == pre[k] && rank[k] == pre_rank[k],
                // entries settled this round carry this round as rank
                forall|k: int|
                    #![trigger hs@[k]]
                    0 <= k < n && hs@[k] is Some && pre[k] is None ==> rank[k] == round as nat,
                settled_ok(*solve, root_targets.0@, pre, pre_rank, round as nat),
                settled_ok(*solve, root_targets.0@, hs@, rank, (round + 1) as nat),
                // scanned nodes whose children were settled are settled now
                forall|k: usize|
                    #![trigger spec_children(solve.edges@, k)]
                    k < i && (forall|m: int|
                        0 <= m < spec_children(solve.edges@, k).len() ==> pre[
                            #[trigger] spec_children(solve.edges@, k)[m] as int] is Some)
                        ==> hs@[k as int] is Some,
            decreases n - i,
        {
            if hs[i].is_none() {
                let kids = solve.children(i);
                let mut all_done = true;
                let mut dep_hashes: Vec<BuildHash> = Vec::new();
                let mut m: usize = 0;
                proof {
                    crate::graph::lemma_children_in_range(
                        solve.edges@,
                        n as nat,
                        i,
                        solve.edges@.len() as int,
                    );
                }
                while m < kids.len()
                    invariant
                        n == solve.nodes@.len(),
                        hs@.len() == n,
                        prev@.len() == n,
                        kids@ == spec_children(solve.edges@, i),
                        forall|t: int| 0 <= t < kids@.len() ==> #[trigger] kids@[t] < n,
                        m <= kids@.len(),
                        all_done ==> forall|t: int|
                            0 <= t < m ==> prev@[#[trigger] kids@[t] as int],
                        all_done ==> dep_hashes@.len() == m,
                        all_done ==> forall|t: int|
                            0 <= t < m ==> #[trigger] dep_hashes@[t].0@ == hs@[kids@[t] as int]
                                ->Some_0.0@,
                        !all_done ==> exists|t: int|
                            0 <= t < m && !prev@[#[trigger] kids@[t] as int],
                        forall|k: int| 0 <= k < n ==> #[trigger] prev@[k] == (pre[k] is Some),
                        forall|k: int|
                            #![trigger pre[k]]
                            0 <= k < n && pre[k] is Some ==> hs@[k] == pre[k],
                    decreases kids@.len() - m,
                {
                    let c = kids[m];
                    if prev[c] {
                        match &hs[c] {
                            Some(h) => {
                                dep_hashes.push(BuildHash(h.0.clone()));
                            },
                            None => {
                                proof {
                                    assert(false);
                                }
                            },
                        }
                    } else {
                        all_done = false;
                    }
                    m = m + 1;
                }
                if all_done {
                    let ident = identity_bytes(solve.get(i));
                    proof {
                        vstd::std_specs::vec::axiom_spec_len(&ident);
                        vstd::std_specs::vec::axiom_spec_len(&dep_hashes);
                    }
                    let h = if i == 0 {
                        proof {
                            vstd::std_specs::vec::axiom_spec_len(&root_targets.0);
                        }
                        BuildHash::new(&ident, &dep_hashes, root_targets)
                    } else {
                        let mut ts: Vec<Target> = Vec::new();
                        ts.push(Target::Lib);
                        let lib_targets = Targets(ts);
                        proof {
                            assert(lib_targets.0@ =~= node_targets(root_targets.0@, i as int));
                        }
                        BuildHash::new(&ident, &dep_hashes, &lib_targets)
                    };
                    let ghost mid = hs@;
                    let ghost hval = h.0@;
                    let slot = &mut hs[i];
                    *slot = Some(h);
                    proof {
                        rank = rank.update(i as int, round as nat);
                        assert(hs@[i as int] is Some);
                        assert(forall|k: int|
                            0 <= k < n && k != i as int ==> #[trigger] hs@[k] == mid[k]);
                        assert(forall|k: int|
                            0 <= k < n && mid[k] is Some ==> #[trigger] hs@[k] is Some);
                        assert(hs@[i as int]->Some_0.0@ == hval);
                        assert(dep_views(dep_hashes@) =~= spec_children(solve.edges@, i).map_values(
                            |j: usize| mid[j as int]->Some_0.0@,
                        ));
                        // the node that settles was not settled before
                        assert(pre[i as int] is None);
                        assert forall|k: int|
                            #![trigger hs@[k]]
                            0 <= k < n && hs@[k] is Some implies {
                            &&& rank[k] < round + 1
                            &&& hash_wf(hs@[k]->Some_0.0@)
                            &&& (forall|m2: int|
                                0 <= m2 < spec_children(solve.edges@, k as usize).len() ==> hs@[
                                    #[trigger] spec_children(solve.edges@, k as usize)[m2] as int]
                                    is Some && rank[spec_children(solve.edges@, k as usize)[m2] as int]
                                    < rank[k])
                            &&& hs@[k]->Some_0.0@ == spec_build_hash(
                                spec_source_identity(solve.nodes@[k]),
                                spec_children(solve.edges@, k as usize).map_values(
                                    |j: usize| hs@[j as int]->Some_0.0@,
                                ),
                                node_targets(root_targets.0@, k),
                            )
                        } by {
                            let kids2 = spec_children(solve.edges@, k as usize);
                            if k == i as int {
                                assert(rank[k] == round as nat);
                                assert forall|m2: int| 0 <= m2 < kids2.len() implies hs@[
                                    #[trigger] kids2[m2] as int] is Some && rank[kids2[m2] as int]
                                    < rank[k] by {
                                    assert(kids2 == kids@);
                                    assert(prev@[kids2[m2] as int]);
                                    assert(pre[kids2[m2] as int] is Some);
                                    assert(kids2[m2] as int != i as int);
                                    assert(hs@[kids2[m2] as int] == pre[kids2[m2] as int]);
                                    assert(rank[kids2[m2] as int] == pre_rank[kids2[m2] as int]);
                                    assert(pre_rank[kids2[m2] as int] < round as nat) by {
                                        assert(pre[kids2[m2] as int] is Some);
                                    }
                                }
                                assert(kids2.map_values(|j: usize| hs@[j as int]->Some_0.0@)
                                    =~= kids2.map_values(|j: usize| mid[j as int]->Some_0.0@));
                                assert(hs@[k]->Some_0.0@ == spec_build_hash(
                                    spec_source_identity(solve.nodes@[k]),
                                    kids2.map_values(|j: usize| hs@[j as int]->Some_0.0@),
                                    node_targets(root_targets.0@, k),
                                ));
                            } else {
                                assert(mid[k] is Some);
                                assert(hs@[k] == mid[k]);
                                proof_children_range(*solve, k as usize, n as nat);
                                assert forall|m2: int| 0 <= m2 < kids2.len() implies hs@[
                                    #[trigger] kids2[m2] as int] is Some && rank[kids2[m2] as int]
                                    < rank[k] by {
                                    assert(kids2[m2] < n);
                                    assert(mid[kids2[m2] as int] is Some);
                                    assert(kids2[m2] as int != i as int) by {
                                        assert(mid[i as int] is None);
                                    }
                                    assert(hs@[kids2[m2] as int] == mid[kids2[m2] as int]);
                                }
                                assert(kids2.map_values(|j: usize| hs@[j as int]->Some_0.0@)
                                    =~= kids2.map_values(|j: usize| mid[j as int]->Some_0.0@));
                            }
                        }
                        assert forall|k: usize|
                            k < i + 1 && (forall|m2: int|
                                0 <= m2 < spec_children(solve.edges@, k).len() ==> pre[
                                    #[trigger] spec_children(solve.edges@, k)[m2] as int]
                                    is Some) implies hs@[k as int] is Some by {
                            let ghost kidsk = spec_children(solve.edges@, k);
                            if (k as int) < i as int {
                                assert(mid[k as int] is Some);
                                assert(hs@[k as int] == mid[k as int]);
                            }
                        }
                    }
                } else {
                    proof {
                        let t = choose|t: int|
                            0 <= t < kids@.len() && !prev@[#[trigger] kids@[t] as int];
                        assert(pre[kids@[t] as int] is None);
                        assert forall|k: usize|
                            k < i + 1 && (forall|m2: int|
                                0 <= m2 < spec_children(solve.edges@, k).len() ==> pre[
                                    #[trigger] spec_children(solve.edges@, k)[m2] as int]
                                    is Some) implies hs@[k as int] is Some by {
                            let ghost kidsk = spec_children(solve.edges@, k);
                            if (k as int) == i as int {
                                assert(kidsk == kids@);
                                assert(pre[kidsk[t] as int] is Some);
                                assert(false);
                            }
                        }
                    }
                }
            } else {
                proof {
                    assert(hs@[i as int] is Some);
                    assert forall|k: usize|
                        k < i + 1 && (forall|m2: int|
                            0 <= m2 < spec_children(solve.edges@, k).len() ==> pre[
                                #[trigger] spec_children(solve.edges@, k)[m2] as int] is Some)
                        implies hs@[k as int] is Some by {
                        let ghost kidsk = spec_children(solve.edges@, k);
                        if (k as int) < i as int {
                            assert(hs@[k as int] is Some);
                        }
                    }
                }
            }
            i = i + 1;
        }
        proof {
            assert(rounds_complete(solve.edges@, n as nat, hs@, (round + 1) as nat)) by {
                assert forall|w: Seq<nat>| ranked_by(solve.edges@, n as nat, w) implies (forall|
                    k: int,
                |
                    0 <= k < hs@.len() && w[k] < round + 1 ==> #[trigger] hs@[k] is Some) by {
                    assert forall|k: int| 0 <= k < hs@.len() && w[k] < round + 1 implies
                        #[trigger] hs@[k] is Some by {
                        if w[k] < round {
                            assert(pre[k] is Some);
                        } else if !(pre[k] is Some) {
                            let kids = spec_children(solve.edges@, k as usize);
                            assert forall|m: int| 0 <= m < kids.len() implies pre[
                                #[trigger] kids[m] as int] is Some by {
                                crate::graph::lemma_children_membership(
                                    solve.edges@,
                                    k as usize,
                                    kids[m],
                                );
                                assert(kids.contains(kids[m]));
                                assert(solve.edges@.contains((k as usize, kids[m])));
                                let e = choose|e: int|
                                    0 <= e < solve.edges@.len() && solve.edges@[e] == (
                                    k as usize,
                                    kids[m],
                                    );
                                assert(w[(#[trigger] solve.edges@[e]).1 as int] < w[
                                    solve.edges@[e].0 as int]);
                                assert(w[kids[m] as int] < w[k]);
                                assert(w[kids[m] as int] < round as nat);
                            }
                            assert(hs@[k as usize as int] is Some);
                        }
                    }
                }
            }
        }
        round = round + 1;
    }
    // check that everything settled; a leftover hole means a cycle
    let mut i: usize = 0;
    while i < n
        invariant
            n == solve.nodes@.len(),
            solve.wf(),
            hs@.len() == n,
            rank.len() == n,
            i <= n,
            forall|k: int| 0 <= k < i ==> #[trigger] hs@[k] is Some,
            settled_ok(*solve, root_targets.0@, hs@, rank, n as nat),
            rounds_complete(solve.edges@, n as nat, hs@, n as nat),
        decreases n - i,
    {
        if hs[i].is_none() {
            proof {
                assert(!spec_acyclic(solve.edges@, n as nat)) by {
                    if spec_acyclic(solve.edges@, n as nat) {
                        let w = choose|w: Seq<nat>| ranked_by(solve.edges@, n as nat, w);
                        assert(w[i as int] < n as nat);
                        assert(hs@[i as int] is Some);
                    }
                }
            }
            return Err(Error::of_kind(ErrorKind::InvalidLockfile));
        }
        i = i + 1;
    }
    proof {
        // the recorded ranks witness acyclicity
        assert(ranked_by(solve.edges@, n as nat, rank)) by {
            assert forall|k: int| 0 <= k < solve.edges@.len() implies rank[(
            #[trigger] solve.edges@[k]).1 as int] < rank[solve.edges@[k].0 as int] by {
                let p = solve.edges@[k].0;
                let c = solve.edges@[k].1;
                assert(hs@[p as int] is Some);
                crate::graph::lemma_children_membership(solve.edges@, p, c);
                assert(solve.edges@.contains((p, c))) by {
                    assert(solve.edges@[k] == (p, c));
                }
                let kids = spec_children(solve.edges@, p);
                assert(kids.contains(c));
                let m = choose|m: int| 0 <= m < kids.len() && kids[m] == c;
                assert(rank[kids[m] as int] < rank[p as int]);
            }
            assert forall|k: int| 0 <= k < rank.len() implies #[trigger] rank[k] < n as nat by {
                assert(hs@[k] is Some);
            }
        }
    }
    let mut out: Vec<BuildHash> = Vec::new();
    let mut i: usize = 0;
    while i < n
        invariant
            n == solve.nodes@.len(),
            solve.wf(),
            hs@.len() == n,
            rank.len() == n,
            forall|k: int| 0 <= k < n ==> #[trigger] hs@[k] is Some,
            i <= n,
            out@.len() == i,
            forall|k: int| 0 <= k < i ==> #[trigger] out@[k].0@ == hs@[k]->Some_0.0@,
            settled_ok(*solve, root_targets.0@, hs@, rank, n as nat),
        decreases n - i,
    {
        match &hs[i] {
            Some(h) => {
                out.push(BuildHash(h.0.clone()));
            },
            None => {
                proof {
                    assert(false);
                }
            },
        }
        i = i + 1;
    }
    proof {
        let hv = out@.map_values(|h: BuildHash| h.0@);
        assert(consistent_hashes(*solve, root_targets.0@, hv)) by {
            assert forall|k: int| 0 <= k < hv.len() implies #[trigger] hv[k] == spec_build_hash(
                spec_source_identity(solve.nodes@[k]),
                spec_children(solve.edges@, k as usize).map_values(|j: usize| hv[j as int]),
                node_targets(root_targets.0@, k),
            ) by {
                assert(hv[k] == hs@[k]->Some_0.0@);
                assert(spec_children(solve.edges@, k as usize).map_values(
                    |j: usize| hv[j as int],
                ) =~= spec_children(solve.edges@, k as usize).map_values(
                    |j: usize| hs@[j as int]->Some_0.0@,
                )) by {
                    crate::graph::lemma_children_in_range(
                        solve.edges@,
                        n as nat,
                        k as usize,
                        solve.edges@.len() as int,
                    );
                }
            }
        }
        assert(forall|i2: int| 0 <= i2 < out@.len() ==> hash_wf(#[trigger] out@[i2].0@));
    }
    Ok(out)
}


/// The queue of jobs for one build: the graph, and the externally
/// supplied output layout for the root, when the caller passed one.
#[derive(Debug)]
pub struct JobQueue {
    pub graph: Graph<Job>,
    pub root_ol: Option<crate::cache::OutputLayout>,
}

/// The work a visited node is classified to.
#[verifier::opaque]
pub open spec fn classified_work(
    solve: Graph<Source>,
    hashes: Seq<BuildHash>,
    root_built: bool,
    cache: Seq<Option<Binary>>,
    i: int,
    w: Work,
) -> bool {
    if i == 0 && root_built {
        w is Idle
    } else if cache[i] is Some {
        w matches Work::Fresh(b) && b == cache[i]->Some_0
    } else {
        w matches Work::Dirty(src, h) && src.summary@ == solve.nodes@[i].summary@ && src.path@
            == solve.nodes@[i].path@ && h.0@ == hashes[i].0@
    }
}

/// How a job graph relates to the resolution it classifies: a breadth
/// first walk from the root that stops below nodes that need no build.
pub open spec fn classification_ok(
    solve: Graph<Source>,
    root_targets: Seq<Target>,
    hashes: Seq<BuildHash>,
    root_built: bool,
    cache: Seq<Option<Binary>>,
    jobs: Seq<Job>,
    visited: Seq<bool>,
) -> bool {
    let n = solve.nodes@.len();
    &&& jobs.len() == n
    &&& visited.len() == n
    &&& (n > 0 ==> visited[0])
    // a visited node other than the root has a visited dirty parent
    &&& (forall|i: int|
        0 < i < n && visited[i] ==> exists|p: int|
            0 <= p < n && #[trigger] solve.edges@.contains((p as usize, i as usize)) && visited[p]
                && jobs[p].work is Dirty)
    // below a visited dirty node everything is visited
    &&& (forall|i: int, m: int|
        0 <= i < n && visited[i] && jobs[i].work is Dirty && 0 <= m < spec_children(
            solve.edges@,
            i as usize,
        ).len() ==> visited[#[trigger] spec_children(solve.edges@, i as usize)[m] as int])
    // a visited node carries its targets and its classified work
    &&& (forall|i: int|
        0 <= i < n && visited[i] ==> (#[trigger] jobs[i]).targets.0@ == node_targets(
            root_targets,
            i,
        ) && classified_work(solve, hashes, root_built, cache, i, jobs[i].work))
    // an unvisited node is untouched
    &&& (forall|i: int|
        0 <= i < n && !visited[i] ==> (#[trigger] jobs[i]).work is Idle && jobs[i].targets.0@
            =~= seq![Target::Lib])
}


/// Pushing one unvisited child onto the walk preserves the walk's
/// bookkeeping: the queue stays within bounds and duplicate-free, the
/// visited flags mirror it, every queued node keeps a dirty parent,
/// and the children of processed dirty nodes stay visited.
proof fn lemma_enqueue(
    edges: Seq<(usize, usize)>,
    n: nat,
    old_queue: Seq<usize>,
    old_vis: Seq<bool>,
    queue: Seq<usize>,
    vis: Seq<bool>,
    jobs: Seq<Job>,
    node: usize,
    c: usize,
    qi: int,
)
    requires
        n <= usize::MAX,
        crate::graph::graph_edges_wf(n, edges),
        old_vis.len() == n,
        jobs.len() == n,
        c < n,
        node < n,
        queue == old_queue.push(c),
        vis == old_vis.update(c as int, true),
        !old_queue.contains(c),
        0 <= qi < old_queue.len(),
        old_queue[qi] == node,
        old_vis[node as int],
        jobs[node as int].work is Dirty,
        edges.contains((node, c)),
        forall|j: int| 0 <= j < old_queue.len() ==> #[trigger] old_queue[j] < n,
        forall|j: int, j2: int| 0 <= j < j2 < old_queue.len() ==> old_queue[j] != old_queue[j2],
        forall|k: int| 0 <= k < n ==> (#[trigger] old_vis[k] <==> old_queue.contains(k as usize)),
        forall|j: int|
            0 <= j < old_queue.len() && old_queue[j] != 0 ==> exists|p: int|
                0 <= p < n && #[trigger] edges.contains((p as usize, old_queue[j])) && old_vis[p]
                    && jobs[p].work is Dirty,
    ensures
        forall|j: int| 0 <= j < queue.len() ==> #[trigger] queue[j] < n,
        forall|j: int, j2: int| 0 <= j < j2 < queue.len() ==> queue[j] != queue[j2],
        forall|k: int| 0 <= k < n ==> (#[trigger] vis[k] <==> queue.contains(k as usize)),
        forall|j: int|
            0 <= j < queue.len() && queue[j] != 0 ==> exists|p: int|
                0 <= p < n && #[trigger] edges.contains((p as usize, queue[j])) && vis[p]
                    && jobs[p].work is Dirty,
{
    assert forall|k: int| 0 <= k < n implies (#[trigger] vis[k] <==> queue.contains(k as usize))
        by {
        if k == c as int {
            assert(queue[queue.len() - 1] == c);
            assert(queue.contains(c));
        } else {
            if old_vis[k] {
                let j = choose|j: int| 0 <= j < old_queue.len() && old_queue[j] == k as usize;
                assert(queue[j] == k as usize);
            }
            if queue.contains(k as usize) {
                let j = choose|j: int| 0 <= j < queue.len() && queue[j] == k as usize;
                if j < queue.len() - 1 {
                    assert(old_queue.contains(k as usize));
                } else {
                    assert(queue[j] == c);
                }
            }
        }
    }
    assert forall|j: int, j2: int| 0 <= j < j2 < queue.len() implies queue[j] != queue[j2] by {
        if j2 == queue.len() - 1 {
            assert(queue[j2] == c);
            assert(old_queue[j] == queue[j]);
        }
    }
    assert forall|j: int| 0 <= j < queue.len() && queue[j] != 0 implies exists|p: int|
        0 <= p < n && #[trigger] edges.contains((p as usize, queue[j])) && vis[p] && jobs[p].work
            is Dirty by {
        if j == queue.len() - 1 {
            assert(queue[j] == c);
            assert(vis[node as int]);
        } else {
            let p = choose|p: int|
                0 <= p < n && #[trigger] edges.contains((p as usize, old_queue[j])) && old_vis[p]
                    && jobs[p].work is Dirty;
            assert(vis[p]);
            assert(edges.contains((p as usize, queue[j])));
        }
    }
}

impl JobQueue {
    /// Classifies every node of a resolved graph, walking down from the
    /// root: a node whose fingerprint the provided root layout or the
    /// cache already holds is taken as built, and its subtree is not
    /// visited further; anything else waits to be built, and its
    /// children are visited in turn.
    ///
    /// `hashes` are the nodes' fingerprints, `root_built` says whether
    /// the caller's root layout already contains a build of the root
    /// fingerprint, and `cache` holds, for every node, the binary the
    /// cache yielded for its fingerprint, if any.
    #[verifier::rlimit(100)]
    pub fn new(
        solve: &Graph<Source>,
        root: &Targets,
        hashes: &Vec<BuildHash>,
        root_ol: Option<crate::cache::OutputLayout>,
        root_built: bool,
        cache: &Vec<Option<Binary>>,
    ) -> (r: JobQueue)
        requires
            solve.wf(),
            hashes@.len() == solve.nodes@.len(),
            cache@.len() == solve.nodes@.len(),
        ensures
            r.graph.edges@ == solve.edges@,
            r.graph.nodes@.len() == solve.nodes@.len(),
            r.graph.wf(),
            exists|visited: Seq<bool>|
                classification_ok(
                    *solve,
                    root.0@,
                    hashes@,
                    root_built,
                    cache@,
                    r.graph.nodes@,
                    visited,
                ),
    {
        let n = solve.len();
        let mut jobs: Vec<Job> = Vec::new();
        let mut i: usize = 0;
        while i < n
            invariant
                i <= n,
                jobs@.len() == i,
                forall|k: int|
                    0 <= k < i ==> (#[trigger] jobs@[k]).work is Idle && jobs@[k].targets.0@
                        =~= seq![Target::Lib],
            decreases n - i,
        {
            jobs.push(Job::default());
            i = i + 1;
        }
        let mut visited: Vec<bool> = Vec::new();
        let mut i: usize = 0;
        while i < n
            invariant
                i <= n,
                visited@.len() == i,
                forall|k: int| 0 <= k < i ==> !(#[trigger] visited@[k]),
            decreases n - i,
        {
            visited.push(false);
            i = i + 1;
        }
        let mut queue: Vec<usize> = Vec::new();
        if n > 0 {
            queue.push(0);
            let flag = &mut visited[0];
            *flag = true;
            proof {
                assert forall|k: int| 0 <= k < n implies (#[trigger] visited@[k]
                    <==> queue@.contains(k as usize)) by {
                    if k == 0 {
                        assert(queue@[0] == 0usize);
                        assert(queue@.contains(0usize));
                    } else {
                        if queue@.contains(k as usize) {
                            let j = choose|j: int|
                                0 <= j < queue@.len() && queue@[j] == k as usize;
                            assert(j == 0);
                        }
                    }
                }
            }
        }
        let mut qi: usize = 0;
        while qi < queue.len()
            invariant
                n == solve.nodes@.len(),
                solve.wf(),
                hashes@.len() == n,
                cache@.len() == n,
                jobs@.len() == n,
                visited@.len() == n,
                qi <= queue@.len(),
                queue@.len() <= n,
                n > 0 ==> visited@[0],
                forall|j: int| 0 <= j < queue@.len() ==> #[trigger] queue@[j] < n,
                forall|j: int, j2: int|
                    0 <= j < j2 < queue@.len() ==> queue@[j] != queue@[j2],
                // enqueued exactly when visited
                forall|k: int|
                    0 <= k < n ==> (#[trigger] visited@[k] <==> queue@.contains(k as usize)),
                // a queued node other than the root has a processed dirty parent
                forall|j: int|
                    0 <= j < queue@.len() && queue@[j] != 0 ==> exists|p: int|
                        0 <= p < n && #[trigger] solve.edges@.contains(
                            (p as usize, queue@[j]),
                        ) && visited@[p] && jobs@[p].work is Dirty,
                // processed entries are classified
                forall|j: int|
                    0 <= j < qi ==> (#[trigger] jobs@[queue@[j] as int]).targets.0@
                        == node_targets(root.0@, queue@[j] as int) && classified_work(
                        *solve,
                        hashes@,
                        root_built,
                        cache@,
                        queue@[j] as int,
                        jobs@[queue@[j] as int].work,
                    ),
                // children of processed dirty entries are visited
                forall|j: int, m: int|
                    0 <= j < qi && jobs@[queue@[j] as int].work is Dirty && 0 <= m
                        < spec_children(solve.edges@, queue@[j]).len() ==> visited@[
                        #[trigger] spec_children(solve.edges@, queue@[j])[m] as int],
                // unprocessed entries are untouched
                forall|k: int|
                    0 <= k < n && !(exists|j: int|
                        0 <= j < qi && #[trigger] queue@[j] == k as usize) ==> (
                    #[trigger] jobs@[k]).work is Idle && jobs@[k].targets.0@ =~= seq![Target::Lib],
            decreases n - qi,
        {
            let node = queue[qi];
            let targets = if node == 0 {
                root.duplicate()
            } else {
                let mut ts: Vec<Target> = Vec::new();
                ts.push(Target::Lib);
                Targets(ts)
            };
            let ghost jobs_before = jobs@;
            if node == 0 && root_built {
                let slot = &mut jobs[node];
                *slot = Job { work: Work::Idle, targets };
                proof {
                    reveal(classified_work);
                    assert(classified_work(
                        *solve,
                        hashes@,
                        root_built,
                        cache@,
                        node as int,
                        jobs@[node as int].work,
                    ));
                }
            } else {
                let hit = match &cache[node] {
                    Some(b) => Some(b.duplicate()),
                    None => None,
                };
                match hit {
                    Some(binary) => {
                        let slot = &mut jobs[node];
                        *slot = Job { work: Work::Fresh(binary), targets };
                        proof {
                            reveal(classified_work);
                            assert(classified_work(
                                *solve,
                                hashes@,
                                root_built,
                                cache@,
                                node as int,
                                jobs@[node as int].work,
                            ));
                        }
                    },
                    None => {
                        let src = solve.get(node).duplicate();
                        let h = BuildHash(hashes[node].0.clone());
                        let slot = &mut jobs[node];
                        *slot = Job { work: Work::Dirty(src, h), targets };
                        proof {
                            reveal(classified_work);
                            assert(classified_work(
                                *solve,
                                hashes@,
                                root_built,
                                cache@,
                                node as int,
                                jobs@[node as int].work,
                            ));
                        }
                        // visit the children that have not been seen yet
                        let kids = solve.children(node);
                        proof {
                            crate::graph::lemma_children_in_range(
                                solve.edges@,
                                n as nat,
                                node,
                                solve.edges@.len() as int,
                            );
                        }
                        let ghost q0 = queue@;
                        let ghost v0 = visited@;
                        let mut m: usize = 0;
                        while m < kids.len()
                            invariant
                                n == solve.nodes@.len(),
                                n <= usize::MAX,
                                solve.wf(),
                                jobs@.len() == n,
                                visited@.len() == n,
                                node < n,
                                qi < q0.len(),
                                q0[qi as int] == node,
                                v0[node as int],
                                jobs@[node as int].work is Dirty,
                                kids@ == spec_children(solve.edges@, node),
                                forall|t: int| 0 <= t < kids@.len() ==> #[trigger] kids@[t] < n,
                                m <= kids@.len(),
                                queue@.len() <= n,
                                q0.len() <= queue@.len(),
                                forall|j: int| 0 <= j < q0.len() ==> #[trigger] queue@[j] == q0[j],
                                forall|k: int| 0 <= k < n && v0[k] ==> #[trigger] visited@[k],
                                forall|j: int|
                                    0 <= j < queue@.len() ==> #[trigger] queue@[j] < n,
                                forall|j: int, j2: int|
                                    0 <= j < j2 < queue@.len() ==> queue@[j] != queue@[j2],
                                forall|k: int|
                                    0 <= k < n ==> (#[trigger] visited@[k] <==> queue@.contains(
                                        k as usize,
                                    )),
                                forall|j: int|
                                    0 <= j < queue@.len() && queue@[j] != 0 ==> exists|p: int|
                                        0 <= p < n && #[trigger] solve.edges@.contains(
                                            (p as usize, queue@[j]),
                                        ) && visited@[p] && jobs@[p].work is Dirty,
                                forall|t: int|
                                    0 <= t < m ==> visited@[#[trigger] kids@[t] as int],
                            decreases kids@.len() - m,
                        {
                            let c = kids[m];
                            if !visited[c] {
                                let ghost old_queue = queue@;
                                let ghost old_vis = visited@;
                                proof {
                                    assert(!queue@.contains(c));
                                    lemma_queue_bound(queue@, n as nat, c);
                                }
                                queue.push(c);
                                let flag = &mut visited[c];
                                *flag = true;
                                proof {
                                    crate::graph::lemma_children_membership(solve.edges@, node, c);
                                    assert(kids@.contains(c)) by {
                                        assert(kids@[m as int] == c);
                                    }
                                    lemma_enqueue(
                                        solve.edges@,
                                        n as nat,
                                        old_queue,
                                        old_vis,
                                        queue@,
                                        visited@,
                                        jobs@,
                                        node,
                                        c,
                                        qi as int,
                                    );
                                }
                            }
                            m = m + 1;
                        }
                        proof {
                            // the walk's prefix and the jobs are as they were,
                            // so the processed entries keep their facts
                            assert forall|j: int|
                                0 <= j < qi implies (#[trigger] jobs@[queue@[j] as int]).targets.0@
                                == node_targets(root.0@, queue@[j] as int) && classified_work(
                                *solve,
                                hashes@,
                                root_built,
                                cache@,
                                queue@[j] as int,
                                jobs@[queue@[j] as int].work,
                            ) by {
                                assert(queue@[j] == q0[j]);
                            }
                            assert forall|j: int, m2: int|
                                0 <= j < qi && jobs@[queue@[j] as int].work is Dirty && 0 <= m2
                                    < spec_children(solve.edges@, queue@[j]).len() implies visited@[
                                #[trigger] spec_children(solve.edges@, queue@[j])[m2] as int] by {
                                assert(queue@[j] == q0[j]);
                                crate::graph::lemma_children_in_range(
                                    solve.edges@,
                                    n as nat,
                                    queue@[j],
                                    solve.edges@.len() as int,
                                );
                                assert(v0[spec_children(solve.edges@, q0[j])[m2] as int]);
                            }
                            assert forall|k: int|
                                0 <= k < n && !(exists|j: int|
                                    0 <= j < qi + 1 && #[trigger] queue@[j] == k as usize)
                                implies ((#[trigger] jobs@[k]).work is Idle && jobs@[k].targets.0@
                                =~= seq![Target::Lib]) by {
                                if exists|j: int|
                                    0 <= j < qi + 1 && #[trigger] q0[j] == k as usize {
                                    let j = choose|j: int|
                                        0 <= j < qi + 1 && #[trigger] q0[j] == k as usize;
                                    assert(queue@[j] == k as usize);
                                }
                            }
                        }
                    },
                }
            }
            qi = qi + 1;
        }
        let graph = Graph { nodes: jobs, edges: duplicate_edges(&solve.edges) };
        let r = JobQueue { graph, root_ol };
        proof {
            assert(classification_ok(
                *solve,
                root.0@,
                hashes@,
                root_built,
                cache@,
                r.graph.nodes@,
                visited@,
            )) by {
                let jobs2 = r.graph.nodes@;
                let vis = visited@;
                assert forall|i2: int| 0 < i2 < n && vis[i2] implies exists|p: int|
                    0 <= p < n && #[trigger] solve.edges@.contains((p as usize, i2 as usize))
                        && vis[p] && jobs2[p].work is Dirty by {
                    assert(queue@.contains(i2 as usize));
                    let j = choose|j: int| 0 <= j < queue@.len() && queue@[j] == i2 as usize;
                }
                assert forall|i2: int, m: int|
                    0 <= i2 < n && vis[i2] && jobs2[i2].work is Dirty && 0 <= m < spec_children(
                        solve.edges@,
                        i2 as usize,
                    ).len() implies vis[#[trigger] spec_children(solve.edges@, i2 as usize)[m] as int]
                    by {
                    assert(queue@.contains(i2 as usize));
                    let j = choose|j: int| 0 <= j < queue@.len() && queue@[j] == i2 as usize;
                    if !(exists|j2: int| 0 <= j2 < qi && #[trigger] queue@[j2] == i2 as usize) {
                        assert(jobs2[i2].work is Idle);
                    } else {
                        let j2 = choose|j2: int|
                            0 <= j2 < qi && #[trigger] queue@[j2] == i2 as usize;
                        assert(visited@[spec_children(solve.edges@, queue@[j2])[m] as int]);
                    }
                }
                assert forall|i2: int| 0 <= i2 < n && vis[i2] implies (
                #[trigger] jobs2[i2]).targets.0@ == node_targets(root.0@, i2) && classified_work(
                    *solve,
                    hashes@,
                    root_built,
                    cache@,
                    i2,
                    jobs2[i2].work,
                ) by {
                    assert(queue@.contains(i2 as usize));
                    let j = choose|j: int| 0 <= j < queue@.len() && queue@[j] == i2 as usize;
                    assert(j < qi);
                }
                assert forall|i2: int| 0 <= i2 < n && !vis[i2] implies (
                #[trigger] jobs2[i2]).work is Idle && jobs2[i2].targets.0@ =~= seq![Target::Lib]
                    by {
                    if exists|j: int| 0 <= j < qi && #[trigger] queue@[j] == i2 as usize {
                        let j = choose|j: int| 0 <= j < qi && #[trigger] queue@[j] == i2 as usize;
                        assert(queue@.contains(i2 as usize));
                    }
                }
            }
        }
        r
    }
}


/// A queue of distinct node indices missing one index has room left.
proof fn lemma_queue_bound(queue: Seq<usize>, n: nat, c: usize)
    requires
        n <= usize::MAX,
        forall|j: int| 0 <= j < queue.len() ==> #[trigger] queue[j] < n,
        forall|j: int, j2: int| 0 <= j < j2 < queue.len() ==> queue[j] != queue[j2],
        c < n,
        !queue.contains(c),
    ensures
        queue.len() < n,
{
    let s = Set::new(|k: usize| k < n);
    let qset = queue.to_set();
    assert(qset.subset_of(s)) by {
        assert forall|k: usize| qset.contains(k) implies s.contains(k) by {
            assert(queue.contains(k));
        }
    }
    assert(!qset.contains(c));
    assert(s.contains(c));
    queue.unique_seq_to_set();
    broadcast use vstd::set_lib::group_set_lib_default;
    assert(s.finite() && s.len() == n) by {
        lemma_usize_range_set(n);
    }
    assert(qset.len() == queue.len());
    assert(qset.insert(c).subset_of(s));
    assert(qset.insert(c).len() == qset.len() + 1);
    vstd::set_lib::lemma_len_subset(qset.insert(c), s);
}

/// The set of indices below `n` has exactly `n` elements.
proof fn lemma_usize_range_set(n: nat)
    requires
        n <= usize::MAX,
    ensures
        Set::new(|k: usize| k < n).finite(),
        Set::new(|k: usize| k < n).len() == n,
    decreases n,
{
    if n == 0 {
        assert(Set::new(|k: usize| k < 0nat) =~= Set::<usize>::empty());
    } else {
        lemma_usize_range_set((n - 1) as nat);
        assert(Set::new(|k: usize| k < n) =~= Set::new(|k: usize| k < (n - 1) as nat).insert(
            ((n - 1) as nat) as usize,
        ));
    }
}

/// A copy of an edge list.
fn duplicate_edges(edges: &Vec<(usize, usize)>) -> (r: Vec<(usize, usize)>)
    ensures
        r@ == edges@,
{
    let mut out: Vec<(usize, usize)> = Vec::new();
    let mut i: usize = 0;
    while i < edges.len()
        invariant
            i <= edges@.len(),
            out@ == edges@.subrange(0, i as int),
        decreases edges@.len() - i,
    {
        proof {
            assert(edges@.subrange(0, i as int + 1) =~= edges@.subrange(0, i as int).push(
                edges@[i as int],
            ));
        }
        out.push(edges[i]);
        i = i + 1;
    }
    proof {
        assert(edges@.subrange(0, edges@.len() as int) =~= edges@);
    }
    out
}


/// All children of a node hold fresh work.
pub open spec fn children_fresh(jobs: Seq<Job>, edges: Seq<(usize, usize)>, i: usize) -> bool {
    forall|m: int|
        0 <= m < spec_children(edges, i).len() ==> jobs[#[trigger] spec_children(edges, i)[m] as int].work
            is Fresh
}

/// All parents of a node hold fresh work.
pub open spec fn parents_fresh(jobs: Seq<Job>, edges: Seq<(usize, usize)>, i: usize) -> bool {
    forall|m: int|
        0 <= m < spec_parents(edges, i).len() ==> jobs[#[trigger] spec_parents(edges, i)[m] as int].work
            is Fresh
}

/// A job is ready to dispatch: dirty, with every dependency fresh.
pub open spec fn job_ready(jobs: Seq<Job>, edges: Seq<(usize, usize)>, i: usize) -> bool {
    jobs[i as int].work is Dirty && children_fresh(jobs, edges, i)
}

/// How many jobs still wait to be built.
pub open spec fn count_dirty(jobs: Seq<Job>) -> nat
    decreases jobs.len(),
{
    if jobs.len() == 0 {
        0
    } else {
        count_dirty(jobs.drop_last()) + (if jobs.last().work is Dirty {
            1nat
        } else {
            0nat
        })
    }
}

/// Counting dirtiness only looks at each job's flag.
pub proof fn lemma_count_dirty_pointwise(a: Seq<Job>, b: Seq<Job>)
    requires
        a.len() == b.len(),
        forall|k: int| 0 <= k < a.len() ==> ((#[trigger] a[k]).work is Dirty <==> (#[trigger] b[k]).work is Dirty),
    ensures
        count_dirty(a) == count_dirty(b),
    decreases a.len(),
{
    if a.len() > 0 {
        assert(forall|k: int|
            0 <= k < a.drop_last().len() ==> #[trigger] a.drop_last()[k] == a[k]);
        assert(forall|k: int|
            0 <= k < b.drop_last().len() ==> #[trigger] b.drop_last()[k] == b[k]);
        lemma_count_dirty_pointwise(a.drop_last(), b.drop_last());
    }
}

/// Settling one dirty job lowers the dirty count by one, whatever else
/// turned fresh into idle.
pub proof fn lemma_count_dirty_settle(a: Seq<Job>, b: Seq<Job>, i: int)
    requires
        a.len() == b.len(),
        0 <= i < a.len(),
        a[i].work is Dirty,
        !(b[i].work is Dirty),
        forall|k: int|
            0 <= k < a.len() && k != i ==> ((#[trigger] a[k]).work is Dirty <==> (#[trigger] b[k]).work is Dirty),
    ensures
        count_dirty(b) + 1 == count_dirty(a),
    decreases a.len(),
{
    if i == a.len() - 1 {
        assert(forall|k: int|
            0 <= k < a.drop_last().len() ==> #[trigger] a.drop_last()[k] == a[k]);
        assert(forall|k: int|
            0 <= k < b.drop_last().len() ==> #[trigger] b.drop_last()[k] == b[k]);
        lemma_count_dirty_pointwise(a.drop_last(), b.drop_last());
    } else {
        assert(forall|k: int|
            0 <= k < a.drop_last().len() ==> #[trigger] a.drop_last()[k] == a[k]);
        assert(forall|k: int|
            0 <= k < b.drop_last().len() ==> #[trigger] b.drop_last()[k] == b[k]);
        lemma_count_dirty_settle(a.drop_last(), b.drop_last(), i);
    }
}

impl JobQueue {
    pub fn len(&self) -> (r: usize)
        ensures
            r == self.graph.nodes@.len(),
    {
        self.graph.len()
    }

    pub fn job(&self, i: usize) -> (r: &Job)
        requires
            i < self.graph.nodes@.len(),
        ensures
            *r == self.graph.nodes@[i as int],
    {
        self.graph.get(i)
    }

    /// The next layer: every dirty job whose dependencies are all
    /// fresh, in index order.
    pub fn ready_jobs(&self) -> (r: Vec<usize>)
        requires
            self.graph.wf(),
        ensures
            forall|j: int| 0 <= j < r@.len() ==> #[trigger] r@[j] < self.graph.nodes@.len(),
            forall|j: int|
                0 <= j < r@.len() ==> job_ready(
                    self.graph.nodes@,
                    self.graph.edges@,
                    #[trigger] r@[j],
                ),
            forall|i: usize|
                i < self.graph.nodes@.len() && #[trigger] job_ready(
                    self.graph.nodes@,
                    self.graph.edges@,
                    i,
                ) ==> r@.contains(i),
    {
        let n = self.graph.len();
        let mut out: Vec<usize> = Vec::new();
        let mut i: usize = 0;
        while i < n
            invariant
                self.graph.wf(),
                n == self.graph.nodes@.len(),
                i <= n,
                forall|j: int| 0 <= j < out@.len() ==> #[trigger] out@[j] < n,
                forall|j: int|
                    0 <= j < out@.len() ==> job_ready(
                        self.graph.nodes@,
                        self.graph.edges@,
                        #[trigger] out@[j],
                    ),
                forall|k: usize|
                    k < i && #[trigger] job_ready(self.graph.nodes@, self.graph.edges@, k)
                        ==> out@.contains(k),
            decreases n - i,
        {
            let ghost old_out = out@;
            if self.graph.get(i).work.is_dirty() {
                let kids = self.graph.children(i);
                proof {
                    crate::graph::lemma_children_in_range(
                        self.graph.edges@,
                        n as nat,
                        i,
                        self.graph.edges@.len() as int,
                    );
                }
                let mut all_fresh = true;
                let mut m: usize = 0;
                while m < kids.len()
                    invariant
                        self.graph.wf(),
                        n == self.graph.nodes@.len(),
                        kids@ == spec_children(self.graph.edges@, i),
                        forall|t: int| 0 <= t < kids@.len() ==> #[trigger] kids@[t] < n,
                        m <= kids@.len(),
                        all_fresh ==> forall|t: int|
                            0 <= t < m ==> self.graph.nodes@[#[trigger] kids@[t] as int].work
                                is Fresh,
                        !all_fresh ==> !children_fresh(self.graph.nodes@, self.graph.edges@, i),
                    decreases kids@.len() - m,
                {
                    if !self.graph.get(kids[m]).work.is_fresh() {
                        all_fresh = false;
                    }
                    m = m + 1;
                }
                if all_fresh {
                    out.push(i);
                    proof {
                        assert(out@[out@.len() - 1] == i);
                        assert forall|k: usize|
                            k < i + 1 && #[trigger] job_ready(
                                self.graph.nodes@,
                                self.graph.edges@,
                                k,
                            ) implies out@.contains(k) by {
                            if k < i {
                                assert(old_out.contains(k));
                                let j = choose|j: int|
                                    0 <= j < old_out.len() && old_out[j] == k;
                                assert(out@[j] == k);
                            } else {
                                assert(out@.contains(i));
                            }
                        }
                    }
                } else {
                    proof {
                        assert forall|k: usize|
                            k < i + 1 && #[trigger] job_ready(
                                self.graph.nodes@,
                                self.graph.edges@,
                                k,
                            ) implies out@.contains(k) by {
                            if k < i {
                                assert(old_out.contains(k));
                            }
                        }
                    }
                }
            } else {
                proof {
                    assert forall|k: usize|
                        k < i + 1 && #[trigger] job_ready(
                            self.graph.nodes@,
                            self.graph.edges@,
                            k,
                        ) implies out@.contains(k) by {
                        if k < i {
                            assert(old_out.contains(k));
                        }
                    }
                }
            }
            i = i + 1;
        }
        out
    }

    /// Settles one dispatched job: promotes it to fresh when the build
    /// produced a library, to idle when it produced none, and then
    /// releases every dependency that no dependent still needs — the
    /// eager unlock that lets concurrent invocations of the tool
    /// proceed.
    pub fn complete(&mut self, i: usize, outcome: Option<Binary>)
        requires
            i < old(self).graph.nodes@.len(),
            old(self).graph.nodes@[i as int].work is Dirty,
            children_fresh(old(self).graph.nodes@, old(self).graph.edges@, i),
            old(self).graph.wf(),
            !old(self).graph.edges@.contains((i, i)),
        ensures
            final(self).graph.edges@ == old(self).graph.edges@,
            final(self).graph.nodes@.len() == old(self).graph.nodes@.len(),
            final(self).root_ol == old(self).root_ol,
            final(self).graph.wf(),
            // every job keeps its targets
            forall|k: int|
                0 <= k < final(self).graph.nodes@.len()
                    ==> (#[trigger] final(self).graph.nodes@[k]).targets.0@ == old(
                    self,
                ).graph.nodes@[k].targets.0@,
            // the settled job, then the eager releases
            forall|k: int|
                0 <= k < final(self).graph.nodes@.len()
                    ==> (#[trigger] final(self).graph.nodes@[k]).work == (if k != i as int && old(
                    self,
                ).graph.edges@.contains(
                    (i, k as usize),
                ) && parents_fresh_after(
                    old(self).graph.nodes@,
                    i as int,
                    outcome,
                    old(self).graph.edges@,
                    k as usize,
                ) {
                    Work::Idle
                } else {
                    work_after_settle(old(self).graph.nodes@, i as int, outcome, k)
                }),
            count_dirty(final(self).graph.nodes@) + 1 == count_dirty(old(self).graph.nodes@),
    {
        let ghost orig = self.graph.nodes@;
        let n = self.graph.len();
        let targets = self.graph.get(i).targets.duplicate();
        let new_work = match outcome {
            Some(b) => Work::Fresh(b),
            None => Work::Idle,
        };
        let slot = &mut self.graph.nodes[i];
        *slot = Job { work: new_work, targets };
        let ghost mid = self.graph.nodes@;
        proof {
            assert(self.graph.wf());
            assert(forall|k: int|
                0 <= k < n ==> (#[trigger] mid[k]).work == work_after_settle(
                    orig,
                    i as int,
                    outcome,
                    k,
                ));
            assert(forall|k: int|
                0 <= k < n ==> (#[trigger] mid[k]).targets.0@ == orig[k].targets.0@);
            assert forall|c: usize| c < n implies (parents_fresh(mid, self.graph.edges@, c)
                <==> parents_fresh_after(orig, i as int, outcome, self.graph.edges@, c)) by {
                crate::graph::lemma_parents_in_range(
                    self.graph.edges@,
                    n as nat,
                    c,
                    self.graph.edges@.len() as int,
                );
                assert(forall|m2: int|
                    0 <= m2 < spec_parents(self.graph.edges@, c).len() ==> mid[
                        #[trigger] spec_parents(self.graph.edges@, c)[m2] as int].work
                        == work_after_settle(
                        orig,
                        i as int,
                        outcome,
                        spec_parents(self.graph.edges@, c)[m2] as int,
                    ));
            }
        }
        // collect the dependencies every dependent of which is fresh
        let kids = self.graph.children(i);
        proof {
            crate::graph::lemma_children_in_range(
                self.graph.edges@,
                n as nat,
                i,
                self.graph.edges@.len() as int,
            );
        }
        let mut done: Vec<usize> = Vec::new();
        let mut m: usize = 0;
        while m < kids.len()
            invariant
                self.graph.wf(),
                n == self.graph.nodes@.len(),
                self.graph.nodes@ == mid,
                kids@ == spec_children(self.graph.edges@, i),
                forall|t: int| 0 <= t < kids@.len() ==> #[trigger] kids@[t] < n,
                m <= kids@.len(),
                forall|j: int| 0 <= j < done@.len() ==> #[trigger] done@[j] < n,
                forall|j: int|
                    0 <= j < done@.len() ==> self.graph.edges@.contains(
                        (i, #[trigger] done@[j]),
                    ) && parents_fresh(mid, self.graph.edges@, done@[j]),
                forall|t: int|
                    0 <= t < m && self.graph.edges@.contains((i, #[trigger] kids@[t]))
                        && parents_fresh(mid, self.graph.edges@, kids@[t]) ==> done@.contains(
                        kids@[t],
                    ),
            decreases kids@.len() - m,
        {
            let c = kids[m];
            proof {
                crate::graph::lemma_children_membership(self.graph.edges@, i, c);
                assert(kids@.contains(c)) by {
                    assert(kids@[m as int] == c);
                }
            }
            let parents = self.graph.parents(c);
            proof {
                crate::graph::lemma_parents_in_range(
                    self.graph.edges@,
                    n as nat,
                    c,
                    self.graph.edges@.len() as int,
                );
            }
            let mut all_fresh = true;
            let mut t: usize = 0;
            while t < parents.len()
                invariant
                    n == self.graph.nodes@.len(),
                    self.graph.nodes@ == mid,
                    parents@ == spec_parents(self.graph.edges@, c),
                    forall|x: int| 0 <= x < parents@.len() ==> #[trigger] parents@[x] < n,
                    t <= parents@.len(),
                    all_fresh ==> forall|x: int|
                        0 <= x < t ==> mid[#[trigger] parents@[x] as int].work is Fresh,
                    !all_fresh ==> !parents_fresh(mid, self.graph.edges@, c),
                decreases parents@.len() - t,
            {
                if !self.graph.get(parents[t]).work.is_fresh() {
                    all_fresh = false;
                }
                t = t + 1;
            }
            let ghost old_done = done@;
            if all_fresh {
                done.push(c);
            }
            proof {
                assert forall|t2: int|
                    0 <= t2 < m + 1 && self.graph.edges@.contains((i, #[trigger] kids@[t2]))
                        && parents_fresh(mid, self.graph.edges@, kids@[t2]) implies done@.contains(
                    kids@[t2],
                ) by {
                    if t2 < m {
                        assert(old_done.contains(kids@[t2]));
                        let j = choose|j: int| 0 <= j < old_done.len() && old_done[j] == kids@[t2];
                        assert(done@[j] == kids@[t2]);
                    } else {
                        assert(done@[done@.len() - 1] == c);
                    }
                }
            }
            m = m + 1;
        }
        // release them
        let mut j: usize = 0;
        while j < done.len()
            invariant
                n == self.graph.nodes@.len(),
                self.graph.edges@.len() == old(self).graph.edges@.len(),
                self.graph.edges@ == old(self).graph.edges@,
                self.root_ol == old(self).root_ol,
                j <= done@.len(),
                forall|x: int| 0 <= x < done@.len() ==> #[trigger] done@[x] < n,
                forall|x: int|
                    0 <= x < done@.len() ==> self.graph.edges@.contains(
                        (i, #[trigger] done@[x]),
                    ) && parents_fresh(mid, self.graph.edges@, done@[x]),
                forall|t: int|
                    0 <= t < spec_children(self.graph.edges@, i).len() && self.graph.edges@.contains(
                        (i, #[trigger] spec_children(self.graph.edges@, i)[t]),
                    ) && parents_fresh(
                        mid,
                        self.graph.edges@,
                        spec_children(self.graph.edges@, i)[t],
                    ) ==> done@.contains(spec_children(self.graph.edges@, i)[t]),
                forall|k: int|
                    0 <= k < n ==> (#[trigger] self.graph.nodes@[k]).work == (if (exists|x: int|
                        0 <= x < j && #[trigger] done@[x] == k as usize) {
                        Work::Idle
                    } else {
                        mid[k].work
                    }),
                forall|k: int|
                    0 <= k < n ==> (#[trigger] self.graph.nodes@[k]).targets.0@ == mid[
                        k
                    ].targets.0@,
            decreases done@.len() - j,
        {
            let c = done[j];
            let targets2 = self.graph.get(c).targets.duplicate();
            let slot = &mut self.graph.nodes[c];
            *slot = Job { work: Work::Idle, targets: targets2 };
            proof {
                assert(self.graph.nodes@[c as int].targets.0@ == mid[c as int].targets.0@);
                assert forall|k: int|
                    0 <= k < n implies (#[trigger] self.graph.nodes@[k]).work == (if (exists|
                    x: int,
                |
                    0 <= x < j + 1 && #[trigger] done@[x] == k as usize) {
                    Work::Idle
                } else {
                    mid[k].work
                }) by {
                    if k == c as int {
                        assert(done@[j as int] == k as usize);
                    }
                }
            }
            j = j + 1;
        }
        proof {
            let edges = self.graph.edges@;
            assert forall|k: int| 0 <= k < n implies (#[trigger] self.graph.nodes@[k]).work == (
            if k != i as int && edges.contains((i, k as usize)) && parents_fresh(
                mid,
                edges,
                k as usize,
            ) {
                Work::Idle
            } else {
                mid[k].work
            }) by {
                if exists|x: int| 0 <= x < done@.len() && #[trigger] done@[x] == k as usize {
                    let x = choose|x: int| 0 <= x < done@.len() && #[trigger] done@[x] == k as usize;
                    assert(edges.contains((i, k as usize)));
                    assert(parents_fresh(mid, edges, k as usize));
                    assert(k != i as int) by {
                        if k == i as int {
                            assert(edges.contains((i, i)));
                        }
                    }
                } else {
                    if k != i as int && edges.contains((i, k as usize)) && parents_fresh(
                        mid,
                        edges,
                        k as usize,
                    ) {
                        crate::graph::lemma_children_membership(edges, i, k as usize);
                        assert(spec_children(edges, i).contains(k as usize));
                        let t = choose|t: int|
                            0 <= t < spec_children(edges, i).len() && spec_children(edges, i)[t]
                                == k as usize;
                        assert(done@.contains(k as usize));
                    }
                }
            }
            // the dirty count drops by exactly one
            assert(count_dirty(self.graph.nodes@) + 1 == count_dirty(orig)) by {
                assert forall|k: int| 0 <= k < n && k != i as int implies ((
                #[trigger] orig[k]).work is Dirty <==> (#[trigger] self.graph.nodes@[k]).work
                    is Dirty) by {
                    if self.graph.nodes@[k].work != mid[k].work {
                        // an entry changed by the release pass was a fresh child
                        assert(exists|x: int|
                            0 <= x < done@.len() && #[trigger] done@[x] == k as usize);
                        assert(edges.contains((i, k as usize)));
                        crate::graph::lemma_children_membership(edges, i, k as usize);
                        assert(spec_children(edges, i).contains(k as usize));
                        let t = choose|t: int|
                            0 <= t < spec_children(edges, i).len() && spec_children(edges, i)[t]
                                == k as usize;
                        assert(orig[spec_children(edges, i)[t] as int].work is Fresh);
                        assert(!(orig[k].work is Dirty));
                        assert(!(self.graph.nodes@[k].work is Dirty));
                    }
                }
                lemma_count_dirty_settle(orig, self.graph.nodes@, i as int);
            }
        }
    }

    /// Consumes the queue and returns the root's produced library
    /// paths: the artifacts of the root's children still held fresh,
    /// in child order. Dropping the queue releases every lock a job
    /// still holds; after this returns, nothing of the build keeps a
    /// cache directory locked.
    pub fn finish(self) -> (r: Vec<String>)
        requires
            self.graph.wf(),
        ensures
            r@.len() == fresh_children(
                self.graph.nodes@,
                spec_children(self.graph.edges@, 0),
            ).len(),
            forall|x: int|
                0 <= x < r@.len() ==> #[trigger] r@[x]@ == fresh_children(
                    self.graph.nodes@,
                    spec_children(self.graph.edges@, 0),
                )[x].path@,
    {
        let kids = self.graph.children(0);
        proof {
            crate::graph::lemma_children_in_range(
                self.graph.edges@,
                self.graph.nodes@.len(),
                0,
                self.graph.edges@.len() as int,
            );
        }
        let mut out: Vec<String> = Vec::new();
        let mut m: usize = 0;
        while m < kids.len()
            invariant
                kids@ == spec_children(self.graph.edges@, 0),
                forall|t: int|
                    0 <= t < kids@.len() ==> #[trigger] kids@[t] < self.graph.nodes@.len(),
                m <= kids@.len(),
                out@.len() == fresh_children(
                    self.graph.nodes@,
                    kids@.subrange(0, m as int),
                ).len(),
                forall|x: int|
                    0 <= x < out@.len() ==> #[trigger] out@[x]@ == fresh_children(
                        self.graph.nodes@,
                        kids@.subrange(0, m as int),
                    )[x].path@,
            decreases kids@.len() - m,
        {
            let c = kids[m];
            proof {
                let sub = kids@.subrange(0, m as int);
                let sub1 = kids@.subrange(0, m as int + 1);
                assert(sub1.drop_last() =~= sub);
                assert(sub1.last() == kids@[m as int]);
            }
            let ghost old_out = out@;
            match &self.graph.get(c).work {
                Work::Fresh(b) => {
                    out.push(b.path.clone());
                },
                _ => {},
            }
            proof {
                let sub = kids@.subrange(0, m as int);
                let sub1 = kids@.subrange(0, m as int + 1);
                let fc = fresh_children(self.graph.nodes@, sub);
                let fc1 = fresh_children(self.graph.nodes@, sub1);
                if self.graph.nodes@[c as int].work is Fresh {
                    let b = self.graph.nodes@[c as int].work->Fresh_0;
                    assert(fc1 == fc.push(b));
                    assert(out@ == old_out.push(b.path));
                } else {
                    assert(fc1 == fc);
                    assert(out@ == old_out);
                }
            }
            m = m + 1;
        }
        proof {
            assert(kids@.subrange(0, kids@.len() as int) =~= kids@);
        }
        out
    }
}

/// The artifacts of the listed nodes that are still held fresh.
pub open spec fn fresh_children(jobs: Seq<Job>, kids: Seq<usize>) -> Seq<Binary>
    decreases kids.len(),
{
    if kids.len() == 0 {
        Seq::empty()
    } else {
        let rest = fresh_children(jobs, kids.drop_last());
        if jobs[kids.last() as int].work is Fresh {
            rest.push(jobs[kids.last() as int].work->Fresh_0)
        } else {
            rest
        }
    }
}

/// The work of a node after one job settles, before any release.
pub open spec fn work_after_settle(jobs: Seq<Job>, i: int, outcome: Option<Binary>, k: int) -> Work {
    if k == i {
        match outcome {
            Some(b) => Work::Fresh(b),
            None => Work::Idle,
        }
    } else {
        jobs[k].work
    }
}

/// Every parent of a node is fresh right after one job settles.
pub open spec fn parents_fresh_after(
    jobs: Seq<Job>,
    i: int,
    outcome: Option<Binary>,
    edges: Seq<(usize, usize)>,
    c: usize,
) -> bool {
    forall|m: int|
        0 <= m < spec_parents(edges, c).len() ==> work_after_settle(
            jobs,
            i,
            outcome,
            #[trigger] spec_parents(edges, c)[m] as int,
        ) is Fresh
}

/// Executor liveness: in an acyclic graph where every dirty job's
/// dependencies are themselves dirty or fresh, some dirty job is ready
/// whenever any dirty job remains. Together with the dirty count
/// falling at every completion, the layered loop either settles every
/// dirty job or stops on an error.
pub proof fn lemma_ready_exists(jobs: Seq<Job>, edges: Seq<(usize, usize)>, rank: Seq<nat>)
    requires
        jobs.len() <= usize::MAX,
        ranked_by(edges, jobs.len(), rank),
        crate::graph::graph_edges_wf(jobs.len(), edges),
        forall|i: usize, m: int|
            i < jobs.len() && jobs[i as int].work is Dirty && 0 <= m < spec_children(
                edges,
                i,
            ).len() ==> (jobs[#[trigger] spec_children(edges, i)[m] as int].work is Dirty || jobs[
                spec_children(edges, i)[m] as int].work is Fresh),
        exists|i: int| 0 <= i < jobs.len() && (#[trigger] jobs[i]).work is Dirty,
    ensures
        exists|i: usize| i < jobs.len() && #[trigger] job_ready(jobs, edges, i),
{
    let i0 = choose|i: int| 0 <= i < jobs.len() && (#[trigger] jobs[i]).work is Dirty;
    let m = lemma_min_rank_dirty(jobs, edges, rank, i0 as usize);
    assert forall|x: int| 0 <= x < spec_children(edges, m).len() implies jobs[
        #[trigger] spec_children(edges, m)[x] as int].work is Fresh by {
        let c = spec_children(edges, m)[x];
        crate::graph::lemma_children_in_range(edges, jobs.len(), m, edges.len() as int);
        crate::graph::lemma_children_membership(edges, m, c);
        assert(spec_children(edges, m).contains(c)) by {
            assert(spec_children(edges, m)[x] == c);
        }
        assert(edges.contains((m, c)));
        let e = choose|e: int| 0 <= e < edges.len() && edges[e] == (m, c);
        assert(rank[(#[trigger] edges[e]).1 as int] < rank[edges[e].0 as int]);
        assert(rank[c as int] < rank[m as int]);
        if jobs[c as int].work is Dirty {
            assert(false);
        }
    }
    assert(job_ready(jobs, edges, m));
}

/// A dirty job of minimal rank among the dirty jobs.
proof fn lemma_min_rank_dirty(
    jobs: Seq<Job>,
    edges: Seq<(usize, usize)>,
    rank: Seq<nat>,
    i: usize,
) -> (m: usize)
    requires
        jobs.len() <= usize::MAX,
        ranked_by(edges, jobs.len(), rank),
        i < jobs.len(),
        jobs[i as int].work is Dirty,
    ensures
        m < jobs.len(),
        jobs[m as int].work is Dirty,
        forall|j: int| 0 <= j < jobs.len() && (#[trigger] jobs[j]).work is Dirty ==> rank[m as int]
            <= rank[j],
    decreases rank[i as int],
{
    if exists|j: int|
        0 <= j < jobs.len() && (#[trigger] jobs[j]).work is Dirty && rank[j] < rank[i as int] {
        let j = choose|j: int|
            0 <= j < jobs.len() && (#[trigger] jobs[j]).work is Dirty && rank[j] < rank[
                i as int];
        lemma_min_rank_dirty(jobs, edges, rank, j as usize)
    } else {
        i
    }
}

} // verus!
