//! Lockfile round trips, manifest helpers and scaffolding texts.

use elba::graph::Graph;
use elba::lockfile::LockfileToml;
use elba::manifest::{BinTarget, LibTarget, Manifest, PackageInfo, TestTarget};
use elba::package::{IndexRes, Name, PackageId, Resolution, Summary};
use elba::scaffold::{manifest_text, package_archive_name, NewCtx};
use elba::version::Version;

fn summary(name: &str) -> Summary {
    let id = PackageId::new(
        Name::new("test".to_string(), name.to_string()),
        Resolution::Index(IndexRes { url: "https://elba.io/pkg".to_string() }),
    );
    Summary::new(id, Version::release(1, 0, 0))
}

fn manifest_with(lib: Option<LibTarget>, bin: Vec<BinTarget>, test: Vec<TestTarget>) -> Manifest {
    Manifest {
        package: PackageInfo {
            name: Name::new("ring_ding".to_string(), "test".to_string()),
            version: Version::release(1, 0, 0),
            authors: vec!["me".to_string()],
            description: None,
            license: Some("MIT".to_string()),
        },
        dependencies: Vec::new(),
        dev_dependencies: Vec::new(),
        targets: elba::manifest::Targets { lib, bin, test },
        workspace: Vec::new(),
    }
}

/// A manifest that declares only dependencies is invalid: it must
/// carry a library or binary target.
#[test]
fn manifest_no_targets() {
    let m = manifest_with(None, Vec::new(), Vec::new());
    assert!(m.validate().is_err());
    let ok = manifest_with(
        Some(LibTarget { path: "src".to_string(), mods: Vec::new(), idris_opts: Vec::new() }),
        Vec::new(),
        Vec::new(),
    );
    assert!(ok.validate().is_ok());
}

/// A target path may not escape the project root.
#[test]
fn manifest_invalid_target_path() {
    let m = manifest_with(
        Some(LibTarget {
            path: "../oops".to_string(),
            mods: vec!["Right.Here".to_string()],
            idris_opts: Vec::new(),
        }),
        Vec::new(),
        Vec::new(),
    );
    assert!(m.validate().is_err());
    let m = manifest_with(
        None,
        vec![BinTarget {
            name: "b".to_string(),
            path: "a/../../b".to_string(),
            main: "Main".to_string(),
            idris_opts: Vec::new(),
        }],
        Vec::new(),
    );
    assert!(m.validate().is_err());
    // inner double dots that are no path component are fine
    let ok = manifest_with(
        Some(LibTarget {
            path: "src/a..b".to_string(),
            mods: Vec::new(),
            idris_opts: Vec::new(),
        }),
        Vec::new(),
        Vec::new(),
    );
    assert!(ok.validate().is_ok());
}

#[test]
fn lockfile_round_trip_keeps_nodes_and_edges() {
    let mut g: Graph<Summary> = Graph::new();
    let r = g.add_node(summary("root"));
    let a = g.add_node(summary("a"));
    let b = g.add_node(summary("b"));
    g.add_edge(r, a);
    g.add_edge(r, b);
    g.add_edge(a, b);
    let lf = LockfileToml::from_graph(&g);
    assert_eq!(lf.packages.len(), 3);
    let g2 = lf.to_graph();
    assert_eq!(g2.nodes.len(), 3);
    assert_eq!(g2.edges.len(), 3);
    // nodes come back in first-seen order: root, then its listed deps
    assert!(g2.nodes[0].eq_summary(&g.nodes[r]));
    assert!(g2.nodes[1].eq_summary(&g.nodes[a]));
    assert!(g2.nodes[2].eq_summary(&g.nodes[b]));
    // every original summary is present exactly once
    for i in 0..g.nodes.len() {
        let count = g2.nodes.iter().filter(|s| s.eq_summary(&g.nodes[i])).count();
        assert_eq!(count, 1);
    }
    // every edge survives as a pair of summaries
    for (p, c) in &g.edges {
        let hit = g2.edges.iter().any(|(p2, c2)| {
            g2.nodes[*p2].eq_summary(&g.nodes[*p]) && g2.nodes[*c2].eq_summary(&g.nodes[*c])
        });
        assert!(hit);
    }
}

#[test]
fn bin_candidates_for_plain_subpath() {
    let t = BinTarget {
        name: "bin1".to_string(),
        path: "src".to_string(),
        main: "Main".to_string(),
        idris_opts: Vec::new(),
    };
    let cands = t.bin_candidates("/proj");
    assert_eq!(cands.len(), 2);
    assert_eq!(cands[0].probe, "/proj/Main.idr");
    assert_eq!(cands[0].src, "/proj");
    assert_eq!(cands[0].target, "Main.idr");
    assert_eq!(cands[1].probe, "/proj/src/Main.idr");
    // the first existing candidate wins
    let hit = t.resolve_bin("/proj", &vec![false, true]).unwrap();
    assert_eq!(hit.0, "/proj/src");
    assert_eq!(hit.1, "Main.idr");
    assert!(t.resolve_bin("/proj", &vec![false, false]).is_none());
}

#[test]
fn bin_candidates_for_dotted_module() {
    let t = BinTarget {
        name: "bin1".to_string(),
        path: "src".to_string(),
        main: "Mod.Inner.main".to_string(),
        idris_opts: Vec::new(),
    };
    let cands = t.bin_candidates("/proj");
    assert_eq!(cands.len(), 3);
    // first the main probed directly under the project root, with its
    // last dotted part treated as an extension
    assert_eq!(cands[0].probe, "/proj/Mod.Inner.idr");
    assert_eq!(cands[0].src, "/proj");
    assert_eq!(cands[0].target, "Mod.Inner.main");
    // then the whole dotted path as a file
    assert_eq!(cands[1].probe, "/proj/src/Mod/Inner/main.idr");
    assert_eq!(cands[1].target, "Mod/Inner/main.idr");
    // then the module with the last part as the function to run
    assert_eq!(cands[2].probe, "/proj/src/Mod/Inner.idr");
    assert_eq!(cands[2].target, "Mod/Inner.main");
}

#[test]
fn bin_candidates_for_dotted_file_subpath() {
    let t = BinTarget {
        name: "bin1".to_string(),
        path: "src".to_string(),
        main: "src/bin/Here.main".to_string(),
        idris_opts: Vec::new(),
    };
    let cands = t.bin_candidates("/proj");
    assert_eq!(cands.len(), 3);
    assert_eq!(cands[0].probe, "/proj/src/bin/Here.idr");
    assert_eq!(cands[0].src, "/proj/src/bin");
    assert_eq!(cands[0].target, "Here.main");
}

#[test]
fn lib_target_files_follow_modules() {
    let lib = LibTarget {
        path: "src".to_string(),
        mods: vec!["Control.Monad.Wow".to_string(), "Test".to_string()],
        idris_opts: Vec::new(),
    };
    let files = elba::manifest::lib_target_files(&lib);
    assert_eq!(files, vec!["Control/Monad/Wow.idr".to_string(), "Test.idr".to_string()]);
}

#[test]
fn scaffold_manifest_for_a_library() {
    let ctx = NewCtx {
        path: "/proj".to_string(),
        name: Name::new("me".to_string(), "lightyear".to_string()),
        author: Some(("Me".to_string(), "me@example.org".to_string())),
        bin: false,
    };
    let text = manifest_text(&ctx);
    assert!(text.starts_with("[package]\nname = \"me/lightyear\"\nversion = \"0.1.0\""));
    assert!(text.contains("authors = [Me <me@example.org>]"));
    assert!(text.contains("[targets.lib]"));
    assert!(text.contains("Lightyear"));
}

#[test]
fn archive_name_includes_version() {
    let name = Name::new("ring_ding".to_string(), "test".to_string());
    assert_eq!(
        package_archive_name(&name, &Version::release(1, 0, 0)),
        "target/ring_ding_test-1.0.0.tar.gz"
    );
}
