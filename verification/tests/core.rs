//! Targets, hashes, versions and renderings on concrete values.

use elba::hash::{hexify_hash, BuildHash};
use elba::package::{Checksum, DirectRes, IndexRes, Name, PackageId, Resolution, Summary};
use elba::target::{Target, Targets};
use elba::version::{PreIdent, Version};

fn v(major: u64, minor: u64, patch: u64) -> Version {
    Version::release(major, minor, patch)
}

#[test]
fn targets_keep_single_lib() {
    let ts = Targets::new(vec![Target::Lib, Target::Lib, Target::Bin(1), Target::Bin(0)]);
    assert_eq!(ts.0, vec![Target::Lib, Target::Bin(0), Target::Bin(1)]);
}

#[test]
fn targets_deduplicate() {
    let ts = Targets::new(vec![Target::Bin(0), Target::Bin(0), Target::Test(1), Target::Test(1)]);
    assert_eq!(ts.0, vec![Target::Lib, Target::Bin(0), Target::Test(1)]);
    let ts = Targets::new(vec![Target::Doc, Target::Doc]);
    assert_eq!(ts.0, vec![Target::Lib, Target::Doc]);
}

#[test]
fn targets_insert_lib_for_tests() {
    let ts = Targets::new(vec![Target::Test(0)]);
    assert_eq!(ts.0, vec![Target::Lib, Target::Test(0)]);
    let ts = Targets::new(vec![Target::Doc]);
    assert_eq!(ts.0, vec![Target::Lib, Target::Doc]);
}

#[test]
fn targets_idempotent() {
    let once = Targets::new(vec![Target::Test(1), Target::Bin(2), Target::Bin(1)]);
    let twice = Targets::new(once.0.clone());
    assert_eq!(once.0, twice.0);
}

#[test]
fn target_bytes_are_tagged() {
    assert_eq!(Target::Lib.as_bytes(), [0, 0, 0, 0, 0]);
    assert_eq!(Target::Doc.as_bytes(), [1, 0, 0, 0, 0]);
    assert_eq!(Target::Bin(1).as_bytes(), [2, 0, 0, 0, 1]);
    assert_eq!(Target::Test(258).as_bytes(), [3, 0, 0, 1, 2]);
}

#[test]
fn hex_of_bytes() {
    assert_eq!(hexify_hash(&[0xde, 0xad, 0x0b, 0x1e]), "dead0b1e");
    assert_eq!(hexify_hash(&[]), "");
}

#[test]
fn version_ordering_with_prereleases() {
    let rel = v(1, 0, 5);
    let alpha = Version {
        major: 1,
        minor: 0,
        patch: 5,
        pre: vec![PreIdent::Alpha("alpha".to_string()), PreIdent::Num(5)],
    };
    assert!(alpha.lt_version(&rel));
    assert!(!rel.lt_version(&alpha));
    assert!(rel.eq_version(&v(1, 0, 5)));
    assert!(v(1, 0, 4).lt_version(&rel));
    // numeric identifiers come before alphanumeric ones
    let num = Version { major: 1, minor: 0, patch: 5, pre: vec![PreIdent::Num(11)] };
    assert!(num.lt_version(&alpha));
}

#[test]
fn version_rendering() {
    let alpha = Version {
        major: 1,
        minor: 0,
        patch: 5,
        pre: vec![PreIdent::Alpha("alpha".to_string()), PreIdent::Num(5)],
    };
    assert_eq!(alpha.render(), "1.0.5-alpha.5");
    assert_eq!(v(10, 2, 0).render(), "10.2.0");
}

#[test]
fn build_hash_is_pure_and_sensitive() {
    let identity = vec![1u8, 2, 3];
    let deps: Vec<BuildHash> = Vec::new();
    let lib = Targets::new(vec![Target::Lib]);
    let h1 = BuildHash::new(&identity, &deps, &lib);
    let h2 = BuildHash::new(&identity, &deps, &lib);
    assert_eq!(h1.0, h2.0);
    assert_eq!(h1.0.len(), 64);
    // a different target selection changes the fingerprint
    let bin = Targets::new(vec![Target::Bin(0)]);
    let h3 = BuildHash::new(&identity, &deps, &bin);
    assert_ne!(h1.0, h3.0);
    // a different identity changes the fingerprint
    let h4 = BuildHash::new(&vec![1u8, 2, 4], &deps, &lib);
    assert_ne!(h1.0, h4.0);
    // dependency hashes feed in sorted order, so order does not matter
    let d1 = BuildHash::new(&vec![9u8], &Vec::new(), &lib);
    let d2 = BuildHash::new(&vec![8u8], &Vec::new(), &lib);
    let ha = BuildHash::new(&identity, &vec![d1.clone(), d2.clone()], &lib);
    let hb = BuildHash::new(&identity, &vec![d2, d1], &lib);
    assert_eq!(ha.0, hb.0);
}

#[test]
fn resolution_parsing_and_rendering() {
    let dir = DirectRes::from_str("dir+file:///here/there").unwrap();
    match &dir {
        DirectRes::Dir { url } => assert_eq!(url, "file:///here/there"),
        _ => panic!("expected a directory resolution"),
    }
    assert_eq!(dir.render(), "dir+file:///here/there");

    let tar = DirectRes::from_str("tar+https://elba.io/pkg.tar.gz#sha256:0011").unwrap();
    match &tar {
        DirectRes::Tar { url, cksum } => {
            assert_eq!(url, "https://elba.io/pkg.tar.gz");
            let c = cksum.as_ref().unwrap();
            assert_eq!(c.fmt, "sha256");
            assert_eq!(c.hash, "0011");
        },
        _ => panic!("expected a tarball resolution"),
    }

    assert!(DirectRes::from_str("git+https://example.org/repo").is_err());
    assert!(DirectRes::from_str("nonsense").is_err());
    assert!(DirectRes::from_str("dir+https://not-a-file").is_err());

    let ix = IndexRes::from_str("index+https://elba.io/pkg").unwrap();
    assert_eq!(ix.render(), "index+https://elba.io/pkg");

    match Resolution::from_str("root").unwrap() {
        Resolution::Root => {},
        _ => panic!("expected the root resolution"),
    }
}

#[test]
fn checksum_parsing() {
    let c = Checksum::from_str("sha256:deadbeef").unwrap();
    assert_eq!(c.fmt, "sha256");
    assert_eq!(c.hash, "deadbeef");
    assert!(Checksum::from_str("md5:deadbeef").is_err());
    assert!(Checksum::from_str("deadbeef").is_err());
}

#[test]
fn summary_rendering() {
    let name = Name::new("group".to_string(), "pkg".to_string());
    let id = PackageId::new(
        name,
        Resolution::Index(IndexRes { url: "https://elba.io/pkg".to_string() }),
    );
    let sum = Summary::new(id, v(0, 1, 0));
    assert_eq!(sum.render(), "group/pkg@index+https://elba.io/pkg 0.1.0");
}
