//! The retriever: best-version queries and incompatibility derivation.
//!
//! The retriever holds the solver's root package, the root's declared
//! dependencies, and the prior lockfile. The registry index data and
//! every checkout live outside; callers hand in the index entries for
//! a package and the outcome of attempted checkouts, and the retriever
//! decides. Its interesting query derives, for a chosen version, one
//! incompatibility covering the widest contiguous run of versions that
//! all constrain a dependency at least as tightly — so the solver can
//! backtrack over the run at once.

use vstd::prelude::*;

use crate::constraint::{sat, spec_refines, Bound, Constraint, Range, Relation};
use crate::error::{Error, ErrorKind};
use crate::graph::Graph;
use crate::lockfile::graph_node_values;
use crate::package::{DirectRes, IndexRes, Name, PackageId, Resolution, Summary};
use crate::version::{version_eq, version_le, Version};

verus! {

/// A dependency as declared by one indexed version of a package.
#[derive(Debug, Clone)]
pub struct Dep {
    pub name: Name,
    pub index: IndexRes,
    pub req: Constraint,
}

/// One version of a package as a registry index lists it.
#[derive(Debug, Clone)]
pub struct IndexEntry {
    pub version: Version,
    pub location: DirectRes,
    pub dependencies: Vec<Dep>,
}

/// The index entries for one package, in ascending version order.
#[derive(Debug, Clone)]
pub struct IndexEntries {
    pub entries: Vec<IndexEntry>,
}

/// An incompatibility: the package in a version range cannot coexist
/// with the dependency outside its requirement — `dep_range` is the
/// requirement's complement.
#[derive(Debug, Clone)]
pub struct Incompatibility {
    pub pkg: PackageId,
    pub pkg_range: Constraint,
    pub dep: PackageId,
    pub dep_range: Constraint,
}

/// Retrieves the best packages using the indices and a lockfile.
#[derive(Debug)]
pub struct Retriever {
    pub root: Summary,
    pub root_deps: Vec<(PackageId, Constraint)>,
    pub lockfile: Graph<Summary>,
    pub def_index: IndexRes,
}

/// Two declared dependencies name the same package.
pub open spec fn dep_matches(a: Dep, b: Dep) -> bool {
    a.name@ == b.name@ && a.index@ == b.index@
}

/// The chosen version's requirement is at least as tight: written
/// identically, or covering every range of the neighbour's.
pub open spec fn req_refines(chosen: Dep, neighbour: Dep) -> bool {
    chosen.req@ == neighbour.req@ || spec_refines(chosen.req.ranges@, neighbour.req.ranges@)
}

/// An indexed version constrains the dependency at least as tightly as
/// the chosen version does: it declares the dependency, and each of its
/// matching declarations is refined by the chosen requirement.
pub open spec fn entry_refines(deps: Seq<Dep>, d: Dep) -> bool {
    (exists|t: int| 0 <= t < deps.len() && dep_matches(#[trigger] deps[t], d)) && (forall|t: int|
        0 <= t < deps.len() && dep_matches(#[trigger] deps[t], d) ==> req_refines(d, deps[t]))
}

/// The maximal contiguous run of entries around `ix` that all refine
/// the chosen requirement on `d`.
pub open spec fn widest_run(entries: Seq<IndexEntry>, ix: int, d: Dep, lo: int, hi: int) -> bool {
    &&& 0 <= lo <= ix <= hi < entries.len()
    &&& (forall|k: int|
        lo <= k <= hi && k != ix ==> entry_refines((#[trigger] entries[k]).dependencies@, d))
    &&& (lo > 0 ==> !entry_refines(entries[lo - 1].dependencies@, d))
    &&& (hi < entries.len() - 1 ==> !entry_refines(entries[hi + 1].dependencies@, d))
}

/// What one derived incompatibility says, relative to the run it was
/// widened over.
pub open spec fn incompat_ok(
    entries: Seq<IndexEntry>,
    ix: int,
    pkg: Summary,
    d: Dep,
    inc: Incompatibility,
) -> bool {
    &&& inc.pkg@ == pkg.id@
    &&& inc.dep@.name == d.name@
    &&& inc.dep@.resolution == crate::package::ResolutionV::Index(d.index@)
    // the dependency term is exactly the requirement's complement
    &&& (forall|v: Version| sat(inc.dep_range.ranges@, v) == !sat(d.req.ranges@, v))
    // the package term covers exactly the widened run
    &&& exists|lo: int, hi: int|
        #![trigger entries[lo], entries[hi]]
        widest_run(entries, ix, d, lo, hi) && if lo == 0 && hi == entries.len() - 1 {
            forall|v: Version| sat(inc.pkg_range.ranges@, v)
        } else {
            forall|v: Version|
                sat(inc.pkg_range.ranges@, v) == (version_le(entries[lo].version, v) && version_le(
                    v,
                    entries[hi].version,
                ))
        }
}

impl Retriever {
    pub fn new(
        root: Summary,
        root_deps: Vec<(PackageId, Constraint)>,
        lockfile: Graph<Summary>,
        def_index: IndexRes,
    ) -> (r: Retriever)
        ensures
            r.root@ == root@,
            r.root_deps@ == root_deps@,
            r.lockfile == lockfile,
            r.def_index@ == def_index@,
    {
        Retriever { root, root_deps, lockfile, def_index }
    }

    pub fn root(&self) -> (r: &Summary)
        ensures
            r@ == self.root@,
    {
        &self.root
    }

    pub fn count_versions(&self, entries: &IndexEntries) -> (r: usize)
        ensures
            r == entries.entries@.len(),
    {
        entries.entries.len()
    }

    /// The version the prior lockfile pinned for a package, if any.
    pub fn lockfile_version(&self, pkg: &PackageId) -> (r: Option<&Version>)
        ensures
            (match r {
                Some(v) => exists|i: int|
                    0 <= i < self.lockfile.nodes@.len() && (#[trigger] graph_node_values(
                        self.lockfile,
                    )[i]).id == pkg@ && graph_node_values(self.lockfile)[i].version == v@,
                None => forall|i: int|
                    0 <= i < self.lockfile.nodes@.len() ==> (#[trigger] graph_node_values(
                        self.lockfile,
                    )[i]).id != pkg@,
            }),
    {
        let n = self.lockfile.len();
        let mut i: usize = 0;
        while i < n
            invariant
                n == self.lockfile.nodes@.len(),
                i <= n,
                forall|k: int|
                    0 <= k < i ==> (#[trigger] graph_node_values(self.lockfile)[k]).id != pkg@,
            decreases n - i,
        {
            let s = self.lockfile.get(i);
            if s.id.eq_id(pkg) {
                proof {
                    assert(graph_node_values(self.lockfile)[i as int] == s@);
                }
                return Some(&self.lockfile.get(i).version);
            }
            proof {
                assert(graph_node_values(self.lockfile)[i as int] == s@);
            }
            i = i + 1;
        }
        None
    }

    /// Chooses the best version of a package under a constraint.
    ///
    /// A version the lockfile pinned and the cache could still check
    /// out wins outright; the caller passes it as `lock_checkout` after
    /// the guarded attempt. A direct resolution is pinned by whatever
    /// the upstream advertises, passed as `direct_checkout`. The root
    /// resolves to the root's own version. An indexed package takes the
    /// greatest (or, minimizing, the least) satisfying version,
    /// preferring full releases over prereleases.
    pub fn best(
        &self,
        pkg: &PackageId,
        con: &Constraint,
        minimize: bool,
        lock_checkout: Option<&Version>,
        direct_checkout: Option<&Version>,
        entries: &IndexEntries,
    ) -> (r: Result<Version, Error>)
        ensures
            (if lock_checkout matches Some(v) && sat(con.ranges@, *v) {
                r is Ok && r->Ok_0@ == lock_checkout->Some_0@
            } else {
                match pkg.resolution@ {
                    crate::package::ResolutionV::Direct(_) => (match direct_checkout {
                        Some(v) => r is Ok && r->Ok_0@ == v@,
                        None => r is Err && r->Err_0.kind == ErrorKind::CannotDownload,
                    }),
                    crate::package::ResolutionV::Root => r is Ok && r->Ok_0@
                        == self.root.version@,
                    crate::package::ResolutionV::Index(_) => best_indexed_ok(
                        entries.entries@,
                        *con,
                        minimize,
                        r,
                    ),
                }
            }),
    {
        // a pinned version wins only while it still satisfies the
        // constraint
        match lock_checkout {
            Some(v) => {
                if con.satisfies(v) {
                    return Ok(v.duplicate());
                }
            },
            None => {},
        }
        match &pkg.resolution {
            Resolution::Direct(_) => match direct_checkout {
                Some(v) => Ok(v.duplicate()),
                None => Err(Error::of_kind(ErrorKind::CannotDownload)),
            },
            Resolution::Root => Ok(self.root.version.duplicate()),
            Resolution::Index(_) => {
                let n = entries.entries.len();
                let mut found: Option<Version> = None;
                let ghost picked: int = 0;
                let mut i: usize = 0;
                while i < n
                    invariant
                        n == entries.entries@.len(),
                        i <= n,
                        (match found {
                            Some(v) => best_so_far(entries.entries@, *con, minimize, i as int, v),
                            None => forall|k: int|
                                0 <= k < i ==> !sat(
                                    con.ranges@,
                                    (#[trigger] entries.entries@[k]).version,
                                ),
                        }),
                    decreases n - i,
                {
                    let e = &entries.entries[i];
                    let ghost old_found = found;
                    let ghost ev = entries.entries@[i as int].version;
                    if con.satisfies(&e.version) {
                        let replace = match &found {
                            None => true,
                            Some(best) => {
                                let cls_e = e.version.is_prerelease();
                                let cls_b = best.is_prerelease();
                                if cls_e != cls_b {
                                    cls_b && !cls_e
                                } else if minimize {
                                    e.version.lt_version(best)
                                } else {
                                    best.lt_version(&e.version)
                                }
                            },
                        };
                        if replace {
                            let picked = e.version.duplicate();
                            proof {
                                crate::package::lemma_version_eq_is_view_eq(picked, ev);
                                crate::version::lemma_version_order(picked, ev);
                                crate::constraint::lemma_sat_view_eq_single(
                                    con.ranges@,
                                    picked,
                                    ev,
                                );
                                match old_found {
                                    Some(b) => {
                                        crate::package::lemma_version_eq_is_view_eq(picked, ev);
                                        assert(better_or_equal(picked, b, minimize)) by {
                                            crate::version::lemma_version_congruence(
                                                picked,
                                                ev,
                                                b,
                                            );
                                            crate::version::lemma_version_order(ev, b);
                                        }
                                        assert forall|k: int|
                                            0 <= k < i + 1 && sat(
                                                con.ranges@,
                                                (#[trigger] entries.entries@[k]).version,
                                            ) implies better_or_equal(
                                            picked,
                                            entries.entries@[k].version,
                                            minimize,
                                        ) by {
                                            if k < i {
                                                lemma_better_trans(
                                                    picked,
                                                    b,
                                                    entries.entries@[k].version,
                                                    minimize,
                                                );
                                            } else {
                                                assert(better_or_equal(picked, ev, minimize));
                                            }
                                        }
                                    },
                                    None => {
                                        assert forall|k: int|
                                            0 <= k < i + 1 && sat(
                                                con.ranges@,
                                                (#[trigger] entries.entries@[k]).version,
                                            ) implies better_or_equal(
                                            picked,
                                            entries.entries@[k].version,
                                            minimize,
                                        ) by {
                                            assert(k == i);
                                            assert(better_or_equal(picked, ev, minimize));
                                        }
                                    },
                                }
                            }
                            found = Some(picked);
                        } else {
                            proof {
                                match old_found {
                                    Some(b) => {
                                        assert(better_or_equal(b, ev, minimize)) by {
                                            crate::version::lemma_version_order(ev, b);
                                        }
                                    },
                                    None => {},
                                }
                            }
                        }
                    }
                    i = i + 1;
                }
                match found {
                    Some(v) => Ok(v),
                    None => Err(Error::of_kind(ErrorKind::PackageNotFound)),
                }
            },
        }
    }
}

/// `a` is at least as good a pick as `b`: a release when `b` is only a
/// prerelease, or in the same class and no worse in the chosen
/// direction.
pub open spec fn better_or_equal(a: Version, b: Version, minimize: bool) -> bool {
    ||| (a.pre@.len() == 0 && b.pre@.len() != 0)
    ||| ((a.pre@.len() == 0) == (b.pre@.len() == 0) && (if minimize {
        version_le(a, b)
    } else {
        version_le(b, a)
    }))
}

/// The best version seen among the first `i` entries: it satisfies the
/// constraint, appears among them, and none of them beats it.
pub open spec fn best_so_far(
    entries: Seq<IndexEntry>,
    con: Constraint,
    minimize: bool,
    i: int,
    v: Version,
) -> bool {
    &&& sat(con.ranges@, v)
    &&& exists|k: int|
        0 <= k < i && version_eq((#[trigger] entries[k]).version, v) && sat(
            con.ranges@,
            entries[k].version,
        )
    &&& forall|k: int|
        0 <= k < i && sat(con.ranges@, (#[trigger] entries[k]).version) ==> better_or_equal(
            v,
            entries[k].version,
            minimize,
        )
}

/// What `best` returns for an indexed package: the extremal satisfying
/// version in the preferred class, or not-found when nothing satisfies.
pub open spec fn best_indexed_ok(
    entries: Seq<IndexEntry>,
    con: Constraint,
    minimize: bool,
    r: Result<Version, Error>,
) -> bool {
    match r {
        Ok(v) => best_so_far(entries, con, minimize, entries.len() as int, v),
        Err(e) => e.kind == ErrorKind::PackageNotFound && forall|k: int|
            0 <= k < entries.len() ==> !sat(con.ranges@, (#[trigger] entries[k]).version),
    }
}


/// Being at least as good a pick carries over.
pub proof fn lemma_better_trans(a: Version, b: Version, c: Version, minimize: bool)
    requires
        better_or_equal(a, b, minimize),
        better_or_equal(b, c, minimize),
    ensures
        better_or_equal(a, c, minimize),
{
    if (a.pre@.len() == 0) == (b.pre@.len() == 0) && (b.pre@.len() == 0) == (c.pre@.len() == 0) {
        if minimize {
            crate::version::lemma_version_le_trans(a, b, c);
        } else {
            crate::version::lemma_version_le_trans(c, b, a);
        }
    }
}


/// Does an indexed version constrain the dependency at least as
/// tightly as the chosen one?
fn entry_refines_exec(deps: &Vec<Dep>, d: &Dep) -> (r: bool)
    ensures
        r == entry_refines(deps@, *d),
{
    let mut matched = false;
    let mut all_ok = true;
    let mut t: usize = 0;
    while t < deps.len()
        invariant
            t <= deps@.len(),
            matched == exists|x: int| 0 <= x < t && dep_matches(#[trigger] deps@[x], *d),
            all_ok == forall|x: int|
                0 <= x < t && dep_matches(#[trigger] deps@[x], *d) ==> req_refines(*d, deps@[x]),
        decreases deps@.len() - t,
    {
        let nd = &deps[t];
        let ghost old_matched = matched;
        let ghost old_all_ok = all_ok;
        if nd.name.eq_name(&d.name) && nd.index.eq_index(&d.index) {
            matched = true;
            let rel = d.req.relation(&nd.req);
            let ok = match rel {
                Relation::Equal => true,
                Relation::Superset => true,
                Relation::Unrelated => false,
            };
            proof {
                assert(ok == req_refines(*d, deps@[t as int]));
            }
            if !ok {
                all_ok = false;
            }
            proof {
                assert(dep_matches(deps@[t as int], *d));
                assert(matched == exists|x: int|
                    0 <= x < t + 1 && dep_matches(#[trigger] deps@[x], *d));
            }
        } else {
            proof {
                assert(!dep_matches(deps@[t as int], *d));
                if old_matched {
                    let x = choose|x: int| 0 <= x < t && dep_matches(#[trigger] deps@[x], *d);
                }
            }
        }
        t = t + 1;
    }
    matched && all_ok
}

/// One incompatibility per declared dependency, each pinning the
/// package to a single version and barring the dependency from the
/// requirement's complement.
pub open spec fn pinned_incompats_ok(
    deps: Seq<(PackageId, Constraint)>,
    pkg: Summary,
    incs: Seq<Incompatibility>,
) -> bool {
    &&& incs.len() == deps.len()
    &&& forall|j: int|
        0 <= j < deps.len() ==> {
            &&& (#[trigger] incs[j]).pkg@ == pkg.id@
            &&& incs[j].dep@ == deps[j].0@
            &&& (forall|v: Version|
                sat(incs[j].dep_range.ranges@, v) == !sat(deps[j].1.ranges@, v))
            &&& (forall|v: Version|
                sat(incs[j].pkg_range.ranges@, v) == (version_le(pkg.version, v) && version_le(
                    v,
                    pkg.version,
                )))
        }
}

impl Retriever {
    /// The incompatibilities a chosen package version implies.
    ///
    /// The root and a directly resolved package contribute one
    /// incompatibility per declared dependency, pinned to the chosen
    /// version. An indexed package contributes, per dependency, one
    /// incompatibility widened over the maximal contiguous run of
    /// indexed versions whose declared constraint the chosen one
    /// refines — the scan walks outward from the chosen version and
    /// stops on each side at the first version that does not refine.
    pub fn incompats(
        &self,
        pkg: &Summary,
        entries: &IndexEntries,
        direct_deps: Option<&Vec<(PackageId, Constraint)>>,
    ) -> (r: Result<Vec<Incompatibility>, Error>)
        requires
            pkg.id@.resolution is Direct && !(pkg@ == self.root@) ==> direct_deps is Some,
        ensures
            (if pkg@ == self.root@ {
                r is Ok && pinned_incompats_ok(self.root_deps@, *pkg, r->Ok_0@)
            } else if pkg.id@.resolution is Direct {
                r is Ok && pinned_incompats_ok(direct_deps->Some_0@, *pkg, r->Ok_0@)
            } else {
                match r {
                    Ok(incs) => exists|ix: int|
                        #![trigger entries.entries@[ix]]
                        {
                            &&& 0 <= ix < entries.entries@.len()
                            &&& version_eq(entries.entries@[ix].version, pkg.version)
                            &&& (forall|k: int|
                                0 <= k < ix ==> !version_eq(
                                    (#[trigger] entries.entries@[k]).version,
                                    pkg.version,
                                ))
                            &&& incs@.len() == entries.entries@[ix].dependencies@.len()
                            &&& (forall|j: int|
                                0 <= j < incs@.len() ==> incompat_ok(
                                    entries.entries@,
                                    ix,
                                    *pkg,
                                    entries.entries@[ix].dependencies@[j],
                                    #[trigger] incs@[j],
                                ))
                        },
                    Err(e) => e.kind == ErrorKind::PackageNotFound && forall|k: int|
                        0 <= k < entries.entries@.len() ==> !version_eq(
                            (#[trigger] entries.entries@[k]).version,
                            pkg.version,
                        ),
                }
            }),
    {
        if pkg.eq_summary(&self.root) {
            proof {
                crate::package::lemma_summary_view_version(*pkg, self.root);
            }
            let r = self.pinned_incompats_from(&self.root_deps, pkg);
            return Ok(r);
        }
        let is_direct = match &pkg.id.resolution {
            Resolution::Direct(_) => true,
            _ => false,
        };
        if is_direct {
            let deps = match direct_deps {
                Some(d) => d,
                None => {
                    proof {
                        assert(false);
                    }
                    return Err(Error::of_kind(ErrorKind::PackageNotFound));
                },
            };
            let r = self.pinned_incompats_from(deps, pkg);
            return Ok(r);
        }
        // locate the chosen version among the index entries
        let n = entries.entries.len();
        let mut found_ix: Option<usize> = None;
        let mut k: usize = 0;
        while k < n
            invariant
                n == entries.entries@.len(),
                k <= n,
                (match found_ix {
                    None => forall|k2: int|
                        0 <= k2 < k ==> !version_eq(
                            (#[trigger] entries.entries@[k2]).version,
                            pkg.version,
                        ),
                    Some(x) => x < n && version_eq(entries.entries@[x as int].version, pkg.version)
                        && forall|k2: int|
                        0 <= k2 < x ==> !version_eq(
                            (#[trigger] entries.entries@[k2]).version,
                            pkg.version,
                        ),
                }),
            decreases n - k,
        {
            if found_ix.is_none() && entries.entries[k].version.eq_version(&pkg.version) {
                found_ix = Some(k);
            }
            k = k + 1;
        }
        let ix = match found_ix {
            Some(x) => x,
            None => {
                return Err(Error::of_kind(ErrorKind::PackageNotFound));
            },
        };
        let ghost gix = ix as int;
        let deps = &entries.entries[ix].dependencies;
        let mut out: Vec<Incompatibility> = Vec::new();
        let mut j: usize = 0;
        while j < deps.len()
            invariant
                n == entries.entries@.len(),
                ix < n,
                gix == ix as int,
                version_eq(entries.entries@[gix].version, pkg.version),
                deps@ == entries.entries@[gix].dependencies@,
                j <= deps@.len(),
                out@.len() == j,
                forall|j2: int|
                    0 <= j2 < j ==> incompat_ok(
                        entries.entries@,
                        gix,
                        *pkg,
                        entries.entries@[gix].dependencies@[j2],
                        #[trigger] out@[j2],
                    ),
            decreases deps@.len() - j,
        {
            let d = &deps[j];
            // walk outward while the neighbours keep refining
            let mut lix: usize = ix;
            while lix > 0 && entry_refines_exec(&entries.entries[lix - 1].dependencies, d)
                invariant
                    n == entries.entries@.len(),
                    ix < n,
                    lix <= ix,
                    d == &entries.entries@[gix].dependencies@[j as int],
                    gix == ix as int,
                    forall|k: int|
                        lix <= k <= ix && k != ix ==> entry_refines(
                            (#[trigger] entries.entries@[k]).dependencies@,
                            *d,
                        ),
                decreases lix,
            {
                lix = lix - 1;
            }
            let mut rix: usize = ix;
            while rix < n - 1 && entry_refines_exec(&entries.entries[rix + 1].dependencies, d)
                invariant
                    n == entries.entries@.len(),
                    ix < n,
                    ix <= rix < n,
                    d == &entries.entries@[gix].dependencies@[j as int],
                    gix == ix as int,
                    forall|k: int|
                        ix <= k <= rix && k != ix ==> entry_refines(
                            (#[trigger] entries.entries@[k]).dependencies@,
                            *d,
                        ),
                decreases n - rix,
            {
                rix = rix + 1;
            }
            let pkg_range = if lix == 0 && rix == n - 1 {
                Constraint::any()
            } else {
                let lo = Bound::Inclusive(entries.entries[lix].version.duplicate());
                let hi = Bound::Inclusive(entries.entries[rix].version.duplicate());
                Constraint::of_range(Range { lower: lo, upper: hi })
            };
            let dep_id = PackageId::new(
                d.name.duplicate(),
                Resolution::Index(d.index.duplicate()),
            );
            let dep_range = d.req.complement();
            let inc = Incompatibility {
                pkg: pkg.id.duplicate(),
                pkg_range,
                dep: dep_id,
                dep_range,
            };
            proof {
                let ev = entries.entries@;
                assert(widest_run(ev, gix, ev[gix].dependencies@[j as int], lix as int, rix as int));
                if !(lix == 0 && rix == n - 1) {
                    assert forall|v: Version|
                        sat(inc.pkg_range.ranges@, v) == (version_le(ev[lix as int].version, v)
                            && version_le(v, ev[rix as int].version)) by {
                        crate::constraint::lemma_range_view_congruence(
                            inc.pkg_range.ranges@,
                            ev[lix as int].version,
                            ev[rix as int].version,
                            v,
                        );
                    }
                }
                assert(incompat_ok(ev, gix, *pkg, ev[gix].dependencies@[j as int], inc)) by {
                    assert(widest_run(
                        ev,
                        gix,
                        ev[gix].dependencies@[j as int],
                        lix as int,
                        rix as int,
                    ));
                }
            }
            out.push(inc);
            j = j + 1;
        }
        Ok(out)
    }

    /// One pinned incompatibility per listed dependency.
    fn pinned_incompats_from(&self, deps: &Vec<(PackageId, Constraint)>, pkg: &Summary) -> (r:
        Vec<Incompatibility>)
        ensures
            pinned_incompats_ok(deps@, *pkg, r@),
    {
        let mut out: Vec<Incompatibility> = Vec::new();
        let mut j: usize = 0;
        while j < deps.len()
            invariant
                j <= deps@.len(),
                out@.len() == j,
                forall|j2: int|
                    0 <= j2 < j ==> {
                        &&& (#[trigger] out@[j2]).pkg@ == pkg.id@
                        &&& out@[j2].dep@ == deps@[j2].0@
                        &&& (forall|v: Version|
                            sat(out@[j2].dep_range.ranges@, v) == !sat(deps@[j2].1.ranges@, v))
                        &&& (forall|v: Version|
                            sat(out@[j2].pkg_range.ranges@, v) == (version_le(pkg.version, v)
                                && version_le(v, pkg.version)))
                    },
            decreases deps@.len() - j,
        {
            let lo = Bound::Inclusive(pkg.version.duplicate());
            let hi = Bound::Inclusive(pkg.version.duplicate());
            let pkg_range = Constraint::of_range(Range { lower: lo, upper: hi });
            let dep_range = deps[j].1.complement();
            let inc = Incompatibility {
                pkg: pkg.id.duplicate(),
                pkg_range,
                dep: deps[j].0.duplicate(),
                dep_range,
            };
            proof {
                assert forall|v: Version|
                    sat(inc.pkg_range.ranges@, v) == (version_le(pkg.version, v) && version_le(
                        v,
                        pkg.version,
                    )) by {
                    crate::constraint::lemma_range_view_congruence(
                        inc.pkg_range.ranges@,
                        pkg.version,
                        pkg.version,
                        v,
                    );
                }
            }
            out.push(inc);
            j = j + 1;
        }
        out
    }
}

} // verus!
