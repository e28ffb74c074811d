//! The job graph and the layered executor on small dependency graphs.

use elba::cache::{verify_tarball, Binary, Cache, OutputLayout, Source};
use elba::graph::Graph;
use elba::hash::{hexify_hash, BuildHash};
use elba::job::{compute_hashes, JobQueue};
use elba::package::{Checksum, IndexRes, Name, PackageId, Resolution, Summary};
use elba::target::{Target, Targets};
use elba::version::Version;
use sha2::Digest;

fn summary(group: &str, name: &str) -> Summary {
    let id = PackageId::new(
        Name::new(group.to_string(), name.to_string()),
        Resolution::Index(IndexRes { url: "https://elba.io/pkg".to_string() }),
    );
    Summary::new(id, Version::release(1, 0, 0))
}

fn source(name: &str) -> Source {
    Source::new(summary("test", name), format!("/src/{}", name))
}

fn lib_targets() -> Targets {
    Targets::new(vec![Target::Lib])
}

fn binary(name: &str) -> Binary {
    Binary { path: format!("/cache/build/{}/lib", name) }
}

/// A root with no dependencies builds in one layer and stores nothing.
#[test]
fn empty_graph_builds_root_once() {
    let mut solve: Graph<Source> = Graph::new();
    solve.add_node(source("root"));
    let hashes = compute_hashes(&solve, &lib_targets()).unwrap();
    assert_eq!(hashes.len(), 1);
    let cache: Vec<Option<Binary>> = vec![None];
    let mut jq = JobQueue::new(&solve, &lib_targets(), &hashes, None, false, &cache);
    let layer = jq.ready_jobs();
    assert_eq!(layer, vec![0]);
    jq.complete(0, Some(binary("root")));
    assert!(jq.ready_jobs().is_empty());
    assert!(jq.job(0).work.is_fresh());
    let outputs = jq.finish();
    assert!(outputs.is_empty());
}

/// A cold cache builds the dependency first, then the root.
#[test]
fn single_dep_cold_cache() {
    let mut solve: Graph<Source> = Graph::new();
    let r = solve.add_node(source("root"));
    let a = solve.add_node(source("a"));
    solve.add_edge(r, a);
    let hashes = compute_hashes(&solve, &lib_targets()).unwrap();
    let cache: Vec<Option<Binary>> = vec![None, None];
    let mut jq = JobQueue::new(&solve, &lib_targets(), &hashes, None, false, &cache);
    assert!(jq.job(r).work.is_dirty());
    assert!(jq.job(a).work.is_dirty());
    // the dependency is the only ready job of the first layer
    assert_eq!(jq.ready_jobs(), vec![a]);
    jq.complete(a, Some(binary("a")));
    assert_eq!(jq.ready_jobs(), vec![r]);
    jq.complete(r, Some(binary("root")));
    // once the root is fresh, the dependency's holdings are released
    assert!(jq.job(a).work.is_none());
    assert!(jq.ready_jobs().is_empty());
}

/// A warm cache never rebuilds the dependency.
#[test]
fn single_dep_warm_cache() {
    let mut solve: Graph<Source> = Graph::new();
    let r = solve.add_node(source("root"));
    let a = solve.add_node(source("a"));
    solve.add_edge(r, a);
    let hashes = compute_hashes(&solve, &lib_targets()).unwrap();
    let cache: Vec<Option<Binary>> = vec![None, Some(binary("a"))];
    let mut jq = JobQueue::new(&solve, &lib_targets(), &hashes, None, false, &cache);
    assert!(jq.job(a).work.is_fresh());
    // the root is immediately ready; the dependency is never dispatched
    assert_eq!(jq.ready_jobs(), vec![r]);
    jq.complete(r, Some(binary("root")));
    assert!(jq.ready_jobs().is_empty());
}

/// A diamond builds the shared dependency exactly once and releases it
/// as soon as both dependents are fresh.
#[test]
fn diamond_releases_shared_dep() {
    let mut solve: Graph<Source> = Graph::new();
    let r = solve.add_node(source("root"));
    let b = solve.add_node(source("b"));
    let c = solve.add_node(source("c"));
    let d = solve.add_node(source("d"));
    solve.add_edge(r, b);
    solve.add_edge(r, c);
    solve.add_edge(b, d);
    solve.add_edge(c, d);
    let hashes = compute_hashes(&solve, &lib_targets()).unwrap();
    let cache: Vec<Option<Binary>> = vec![None, None, None, None];
    let mut jq = JobQueue::new(&solve, &lib_targets(), &hashes, None, false, &cache);
    assert_eq!(jq.ready_jobs(), vec![d]);
    jq.complete(d, Some(binary("d")));
    let layer = jq.ready_jobs();
    assert_eq!(layer, vec![b, c]);
    jq.complete(b, Some(binary("b")));
    // one dependent is still dirty, so the shared dependency stays held
    assert!(jq.job(d).work.is_fresh());
    jq.complete(c, Some(binary("c")));
    // both dependents are fresh: the shared dependency is released
    assert!(jq.job(d).work.is_none());
    assert_eq!(jq.ready_jobs(), vec![r]);
    jq.complete(r, Some(binary("root")));
    assert!(jq.ready_jobs().is_empty());
}

/// When one job of a layer fails, its siblings still settle; the failed
/// job simply stays dirty and no further layer starts.
#[test]
fn failure_keeps_siblings() {
    let mut solve: Graph<Source> = Graph::new();
    let r = solve.add_node(source("root"));
    let b = solve.add_node(source("b"));
    let c = solve.add_node(source("c"));
    solve.add_edge(r, b);
    solve.add_edge(r, c);
    let hashes = compute_hashes(&solve, &lib_targets()).unwrap();
    let cache: Vec<Option<Binary>> = vec![None, None, None];
    let mut jq = JobQueue::new(&solve, &lib_targets(), &hashes, None, false, &cache);
    assert_eq!(jq.ready_jobs(), vec![b, c]);
    // the compile of `b` failed: the driver records only `c`
    jq.complete(c, Some(binary("c")));
    assert!(jq.job(b).work.is_dirty());
    assert!(jq.job(c).work.is_fresh());
    // the failed job is all that could be dispatched; the root never
    // becomes ready, and the driver aborts instead of retrying
    assert_eq!(jq.ready_jobs(), vec![b]);
    assert!(!jq.job(r).work.is_fresh());
    // dropping the queue releases every remaining holding
    drop(jq);
}

/// A dependency cycle cannot be fingerprinted.
#[test]
fn cyclic_graph_is_rejected() {
    let mut solve: Graph<Source> = Graph::new();
    let a = solve.add_node(source("a"));
    let b = solve.add_node(source("b"));
    solve.add_edge(a, b);
    solve.add_edge(b, a);
    assert!(compute_hashes(&solve, &lib_targets()).is_err());
}

/// A tarball must hash to its declared checksum.
#[test]
fn checksum_mismatch_is_rejected() {
    let data = vec![0x61u8, 0x62, 0x63];
    // no declared checksum: anything passes
    assert!(verify_tarball(&data, &None).is_ok());
    // a wrong declared checksum is rejected
    let bad = Checksum { fmt: "sha256".to_string(), hash: "deadbeef".to_string() };
    let err = verify_tarball(&data, &Some(bad)).unwrap_err();
    assert_eq!(err.kind(), elba::error::ErrorKind::ChecksumMismatch);
    // the true digest passes
    let expected = hexify_hash(sha2::Sha256::digest(&data[..]).as_slice());
    let good = Checksum { fmt: "sha256".to_string(), hash: expected };
    assert!(verify_tarball(&data, &Some(good)).is_ok());
}

/// Cache paths are laid out under `src/`, `build/` and `tmp/`.
#[test]
fn cache_layout_names() {
    let cache = Cache::new("/home/me/.elba".to_string());
    let h = BuildHash("00ff".to_string());
    assert_eq!(cache.build_dir(&h), "/home/me/.elba/build/00ff");
    assert_eq!(cache.tmp_dir(&h, &"1".to_string()), "/home/me/.elba/tmp/00ff-1");
    let layout = OutputLayout::new(&"/tmp/work".to_string());
    assert_eq!(layout.build, "/tmp/work/build");
    assert_eq!(layout.lib, "/tmp/work/lib");
    assert_eq!(layout.bin, "/tmp/work/bin");
}
