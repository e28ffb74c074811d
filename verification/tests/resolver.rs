//! Version constraints, best-version selection and incompatibility
//! widening.

use elba::constraint::{Bound, Constraint, Range, Relation};
use elba::graph::Graph;
use elba::package::{IndexRes, Name, PackageId, Resolution, Summary};
use elba::retrieve::{Dep, IndexEntries, IndexEntry, Retriever};
use elba::version::Version;

fn v(major: u64, minor: u64, patch: u64) -> Version {
    Version::release(major, minor, patch)
}

/// The half-open range `[lo, hi)`.
fn caret(lo: Version, hi: Version) -> Constraint {
    Constraint::of_range(Range { lower: Bound::Inclusive(lo), upper: Bound::Exclusive(hi) })
}

fn index_res() -> IndexRes {
    IndexRes { url: "https://elba.io/pkg".to_string() }
}

fn pkg(name: &str) -> PackageId {
    PackageId::new(
        Name::new("test".to_string(), name.to_string()),
        Resolution::Index(index_res()),
    )
}

fn dep_on_q(hi_major: u64) -> Dep {
    Dep {
        name: Name::new("test".to_string(), "q".to_string()),
        index: index_res(),
        req: caret(v(hi_major, 0, 0), v(hi_major + 1, 0, 0)),
    }
}

fn entry(patch: u64, dep_major: u64) -> IndexEntry {
    IndexEntry {
        version: v(1, 0, patch),
        location: elba::package::DirectRes::Dir { url: "file:///x".to_string() },
        dependencies: vec![dep_on_q(dep_major)],
    }
}

fn retriever() -> Retriever {
    let root = Summary::new(pkg("root"), v(0, 1, 0));
    Retriever::new(root, Vec::new(), Graph::new(), index_res())
}

#[test]
fn constraint_satisfaction_and_complement() {
    let c = caret(v(1, 0, 0), v(2, 0, 0));
    assert!(c.satisfies(&v(1, 5, 0)));
    assert!(c.satisfies(&v(1, 0, 0)));
    assert!(!c.satisfies(&v(2, 0, 0)));
    assert!(!c.satisfies(&v(0, 9, 9)));
    let not_c = c.complement();
    assert!(!not_c.satisfies(&v(1, 5, 0)));
    assert!(not_c.satisfies(&v(2, 0, 0)));
    assert!(not_c.satisfies(&v(0, 9, 9)));
}

#[test]
fn constraint_relations() {
    let wide = caret(v(1, 0, 0), v(2, 0, 0));
    let narrow = caret(v(1, 2, 0), v(1, 3, 0));
    assert_eq!(wide.relation(&narrow), Relation::Superset);
    assert_eq!(wide.relation(&caret(v(1, 0, 0), v(2, 0, 0))), Relation::Equal);
    assert_eq!(narrow.relation(&wide), Relation::Unrelated);
}

#[test]
fn best_prefers_greatest_stable() {
    let r = retriever();
    let entries = IndexEntries {
        entries: vec![entry(0, 1), entry(1, 1), entry(2, 1), entry(3, 1)],
    };
    let con = caret(v(1, 0, 0), v(2, 0, 0));
    let best = r.best(&pkg("p"), &con, false, None, None, &entries).unwrap();
    assert!(best.eq_version(&v(1, 0, 3)));
    let least = r.best(&pkg("p"), &con, true, None, None, &entries).unwrap();
    assert!(least.eq_version(&v(1, 0, 0)));
    // nothing satisfies an impossible constraint
    let none = r.best(&pkg("p"), &caret(v(9, 0, 0), v(9, 1, 0)), false, None, None, &entries);
    assert!(none.is_err());
}

#[test]
fn best_honours_lockfile_checkout() {
    let r = retriever();
    let entries = IndexEntries { entries: vec![entry(0, 1)] };
    let con = caret(v(1, 0, 0), v(2, 0, 0));
    let pinned = v(1, 0, 0);
    let got = r.best(&pkg("p"), &con, false, Some(&pinned), None, &entries).unwrap();
    assert!(got.eq_version(&pinned));
    // a pin that no longer satisfies the constraint is ignored
    let stale = v(0, 9, 0);
    let got = r.best(&pkg("p"), &con, false, Some(&stale), None, &entries).unwrap();
    assert!(got.eq_version(&v(1, 0, 0)));
}

/// Versions `1.0.0..=1.0.3` of `p` depend on `q` within major 1;
/// `1.0.4` moves to major 2. The incompatibility for `p` at `1.0.2`
/// covers the whole run `[1.0.0, 1.0.3]` at once — not one version.
#[test]
fn incompatibility_widens_over_the_run() {
    let r = retriever();
    let entries = IndexEntries {
        entries: vec![entry(0, 1), entry(1, 1), entry(2, 1), entry(3, 1), entry(4, 2)],
    };
    let chosen = Summary::new(pkg("p"), v(1, 0, 2));
    let incs = r.incompats(&chosen, &entries, None).unwrap();
    assert_eq!(incs.len(), 1);
    let inc = &incs[0];
    // the run covers 1.0.0 through 1.0.3, and stops before 1.0.4
    assert!(inc.pkg_range.satisfies(&v(1, 0, 0)));
    assert!(inc.pkg_range.satisfies(&v(1, 0, 3)));
    assert!(!inc.pkg_range.satisfies(&v(1, 0, 4)));
    // the dependency term bars exactly the complement of `q = ^1`
    assert!(!inc.dep_range.satisfies(&v(1, 5, 0)));
    assert!(inc.dep_range.satisfies(&v(2, 0, 0)));
}

/// When every indexed version shares the constraint, the range is
/// unbounded.
#[test]
fn incompatibility_unbounded_when_all_agree() {
    let r = retriever();
    let entries = IndexEntries { entries: vec![entry(0, 1), entry(1, 1)] };
    let chosen = Summary::new(pkg("p"), v(1, 0, 1));
    let incs = r.incompats(&chosen, &entries, None).unwrap();
    assert_eq!(incs.len(), 1);
    assert!(incs[0].pkg_range.satisfies(&v(0, 0, 1)));
    assert!(incs[0].pkg_range.satisfies(&v(99, 0, 0)));
}

#[test]
fn root_incompats_pin_the_root() {
    let root = Summary::new(pkg("root"), v(0, 1, 0));
    let con = caret(v(1, 0, 0), v(2, 0, 0));
    let r = Retriever::new(
        root.clone(),
        vec![(pkg("q"), con)],
        Graph::new(),
        index_res(),
    );
    let entries = IndexEntries { entries: Vec::new() };
    let incs = r.incompats(&root, &entries, None).unwrap();
    assert_eq!(incs.len(), 1);
    assert!(incs[0].pkg_range.satisfies(&v(0, 1, 0)));
    assert!(!incs[0].pkg_range.satisfies(&v(0, 1, 1)));
}
