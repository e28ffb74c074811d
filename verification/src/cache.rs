//! The content-addressed cache: handles, naming and integrity checks.
//!
//! The cache keeps extracted sources under `src/<fingerprint>`,
//! finalized builds under `build/<hash>` and in-progress output layouts
//! under `tmp/<hash>-<nonce>`. A `Source` stands for a checked-out
//! source tree and a `Binary` for a finalized artifact directory; in
//! the running tool each holds a directory lock that is released when
//! the handle is dropped. The filesystem and locking work is done by
//! the embedding program; this module fixes the names, the identity
//! bytes that feed fingerprints, and the checks that guard a checkout.

use vstd::prelude::*;

use crate::error::{Error, ErrorKind};
use crate::hash::{spec_hexify, spec_sha256, BuildHash};
use crate::package::{
    sha256_lit, spec_direct_str, spec_summary_str, Checksum, DirectRes, Resolution, Summary,
};
use crate::strutil::{push_char, str_eq};
use crate::version::{version_eq, Version};

verus! {

/// A checked-out, locked source tree.
#[derive(Debug, Clone)]
pub struct Source {
    pub summary: Summary,
    /// The absolute path of the checked-out tree.
    pub path: String,
}

/// A locked, finalized artifact directory.
#[derive(Debug, Clone, PartialEq, Eq)]
pub struct Binary {
    pub path: String,
}

impl Binary {
    /// A copy of the handle; in the running tool both copies share the
    /// underlying lock.
    pub fn duplicate(&self) -> (r: Binary)
        ensures
            r == *self,
    {
        Binary { path: self.path.clone() }
    }

    pub fn path(&self) -> (r: &String)
        ensures
            r@ == self.path@,
    {
        &self.path
    }
}

impl Source {
    pub fn new(summary: Summary, path: String) -> (r: Source)
        ensures
            r.summary@ == summary@,
            r.path@ == path@,
    {
        Source { summary, path }
    }

    pub fn summary(&self) -> (r: &Summary)
        ensures
            r@ == self.summary@,
    {
        &self.summary
    }

    pub fn path(&self) -> (r: &String)
        ensures
            r@ == self.path@,
    {
        &self.path
    }

    /// A copy of the handle; in the running tool both copies share the
    /// underlying lock.
    pub fn duplicate(&self) -> (r: Source)
        ensures
            r.summary@ == self.summary@,
            r.path@ == self.path@,
    {
        Source { summary: self.summary.duplicate(), path: self.path.clone() }
    }
}

/// The identity bytes of a source, part (a) of its fingerprint, in
/// UTF-8: the direct location with its checksum, the index entry with
/// name and version, or the literal root path. UTF-8 keeps distinct
/// identities distinct as byte streams.
pub open spec fn spec_source_identity(s: Source) -> Seq<u8> {
    match s.summary.id@.resolution {
        crate::package::ResolutionV::Direct(d) => vstd::utf8::encode_utf8(spec_direct_str(d)),
        crate::package::ResolutionV::Index(_) => vstd::utf8::encode_utf8(
            spec_summary_str(s.summary),
        ),
        crate::package::ResolutionV::Root => vstd::utf8::encode_utf8(s.path@),
    }
}

/// The identity bytes fed into this source's `BuildHash`.
pub fn identity_bytes(s: &Source) -> (r: Vec<u8>)
    ensures
        r@ == spec_source_identity(*s),
{
    match &s.summary.id.resolution {
        Resolution::Direct(d) => {
            let rendered = d.render();
            rendered.as_str().as_bytes_vec()
        },
        Resolution::Index(_) => {
            let rendered = s.summary.render();
            rendered.as_str().as_bytes_vec()
        },
        Resolution::Root => s.path.as_str().as_bytes_vec(),
    }
}

/// The three working directories of one build in progress.
#[derive(Debug, Clone, PartialEq, Eq)]
pub struct OutputLayout {
    /// Compiler scratch space.
    pub build: String,
    /// Final library artifacts.
    pub lib: String,
    /// Final executables.
    pub bin: String,
}

impl OutputLayout {
    /// The layout inside one directory: `build/`, `lib/` and `bin/`.
    pub fn new(dir: &String) -> (r: OutputLayout)
        ensures
            r.build@ == dir@ + build_sub(),
            r.lib@ == dir@ + lib_sub(),
            r.bin@ == dir@ + bin_sub(),
    {
        let mut b = dir.clone();
        b.append("/build");
        let mut l = dir.clone();
        l.append("/lib");
        let mut n = dir.clone();
        n.append("/bin");
        proof {
            reveal_strlit("/build");
            reveal_strlit("/lib");
            reveal_strlit("/bin");
            assert(b@ =~= dir@ + build_sub());
            assert(l@ =~= dir@ + lib_sub());
            assert(n@ =~= dir@ + bin_sub());
        }
        OutputLayout { build: b, lib: l, bin: n }
    }
}

pub open spec fn build_sub() -> Seq<char> {
    seq!['/', 'b', 'u', 'i', 'l', 'd']
}

pub open spec fn lib_sub() -> Seq<char> {
    seq!['/', 'l', 'i', 'b']
}

pub open spec fn bin_sub() -> Seq<char> {
    seq!['/', 'b', 'i', 'n']
}

/// The cache root directory.
#[derive(Debug, Clone, PartialEq, Eq)]
pub struct Cache {
    pub root: String,
}

impl Cache {
    pub fn new(root: String) -> (r: Cache)
        ensures
            r.root@ == root@,
    {
        Cache { root }
    }

    /// Where the source for a direct location is extracted: the
    /// location's own fingerprint under `src/`.
    pub fn source_dir(&self, loc: &DirectRes) -> (r: String)
        ensures
            r@ == self.root@ + src_prefix() + spec_hexify(
                spec_sha256(vstd::utf8::encode_utf8(spec_direct_str(loc@))),
            ),
    {
        let rendered = loc.render();
        let bytes = rendered.as_str().as_bytes_vec();
        let digest = crate::hash::sha256(&bytes);
        let hex = crate::hash::hexify_hash(digest.as_slice());
        let mut out = self.root.clone();
        out.append("/src/");
        out.append(hex.as_str());
        proof {
            reveal_strlit("/src/");
            assert(out@ =~= self.root@ + src_prefix() + spec_hexify(
                spec_sha256(vstd::utf8::encode_utf8(spec_direct_str(loc@))),
            ));
        }
        out
    }

    /// Where a finalized build lives: `build/<hash>`.
    pub fn build_dir(&self, hash: &BuildHash) -> (r: String)
        ensures
            r@ == self.root@ + build_prefix() + hash.0@,
    {
        let mut out = self.root.clone();
        out.append("/build/");
        out.append(hash.0.as_str());
        proof {
            reveal_strlit("/build/");
            assert(out@ =~= self.root@ + build_prefix() + hash.0@);
        }
        out
    }

    /// Where an in-progress build works: `tmp/<hash>-<nonce>`.
    pub fn tmp_dir(&self, hash: &BuildHash, nonce: &String) -> (r: String)
        ensures
            r@ == self.root@ + tmp_prefix() + hash.0@.push('-') + nonce@,
    {
        let mut out = self.root.clone();
        out.append("/tmp/");
        out.append(hash.0.as_str());
        push_char(&mut out, '-');
        out.append(nonce.as_str());
        proof {
            reveal_strlit("/tmp/");
            assert(out@ =~= self.root@ + tmp_prefix() + hash.0@.push('-') + nonce@);
        }
        out
    }
}

pub open spec fn src_prefix() -> Seq<char> {
    seq!['/', 's', 'r', 'c', '/']
}

pub open spec fn build_prefix() -> Seq<char> {
    seq!['/', 'b', 'u', 'i', 'l', 'd', '/']
}

pub open spec fn tmp_prefix() -> Seq<char> {
    seq!['/', 't', 'm', 'p', '/']
}

/// Checks a fetched tarball against the checksum its URL declared.
///
/// With no declared checksum every payload passes; with one, the
/// payload passes exactly when its SHA-256 digest, in lowercase hex,
/// equals the declared hash and the declared format is `sha256`.
pub fn verify_tarball(data: &Vec<u8>, cksum: &Option<Checksum>) -> (r: Result<(), Error>)
    ensures
        (match cksum {
            None => r is Ok,
            Some(c) => r is Ok <==> c.fmt@ == sha256_lit() && c.hash@ == spec_hexify(
                spec_sha256(data@),
            ),
        }),
        r is Err ==> r->Err_0.kind == ErrorKind::ChecksumMismatch,
{
    match cksum {
        None => Ok(()),
        Some(c) => {
            let digest = crate::hash::sha256(data);
            let hex = crate::hash::hexify_hash(digest.as_slice());
            proof {
                reveal_strlit("sha256");
                assert("sha256"@ =~= sha256_lit());
            }
            if str_eq(c.fmt.as_str(), "sha256") && c.hash == hex {
                Ok(())
            } else {
                Err(Error::of_kind(ErrorKind::ChecksumMismatch))
            }
        },
    }
}

/// Checks that a checked-out manifest carries the version the solver
/// pinned; passes when no version was pinned.
pub fn check_version(expected: Option<&Version>, got: &Version) -> (r: Result<(), Error>)
    ensures
        (match expected {
            None => r is Ok,
            Some(v) => r is Ok <==> version_eq(*v, *got),
        }),
        r is Err ==> r->Err_0.kind == ErrorKind::CannotDownload,
{
    match expected {
        None => Ok(()),
        Some(v) => {
            if v.eq_version(got) {
                Ok(())
            } else {
                Err(Error::of_kind(ErrorKind::CannotDownload))
            }
        },
    }
}

} // verus!
