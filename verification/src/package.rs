//! Package identities.
//!
//! A package is named `group/name` and resolved from one of three
//! places: a direct location (a tarball, a git repository, or a local
//! directory), a registry index, or the current project (the root).
//! A `Summary` pairs an identity with a version; resolved graphs and
//! lockfiles speak of summaries.

use vstd::prelude::*;

use crate::error::{Error, ErrorKind};
use crate::strutil::{find_char, push_char, spec_find, str_eq};
use crate::version::{spec_version_str, version_eq, Version};

verus! {

/// A `group/name` package name.
#[derive(Debug, Clone, PartialEq, Eq, Hash)]
pub struct Name {
    pub group: String,
    pub name: String,
}

/// The point of a git repository a package is taken from.
#[derive(Debug, Clone, PartialEq, Eq, Hash)]
pub enum GitTag {
    Commit(String),
    Tag(String),
}

/// An expected content hash, as carried in a tarball URL fragment.
#[derive(Debug, Clone, PartialEq, Eq, Hash)]
pub struct Checksum {
    pub fmt: String,
    pub hash: String,
}

/// A concrete place a package can be fetched from.
#[derive(Debug, Clone, PartialEq, Eq, Hash)]
pub enum DirectRes {
    /// A git repository at a tag or commit.
    Git { repo: String, tag: GitTag },
    /// A directory on disk, as a `file:` URL.
    Dir { url: String },
    /// A tarball, with an optional expected checksum.
    Tar { url: String, cksum: Option<Checksum> },
}

/// A registry that maps names to versions and locations.
#[derive(Debug, Clone, PartialEq, Eq, Hash)]
pub struct IndexRes {
    pub url: String,
}

/// Where a package identity is resolved from.
#[derive(Debug, Clone, PartialEq, Eq, Hash)]
pub enum Resolution {
    Direct(DirectRes),
    Index(IndexRes),
    Root,
}

/// A package identity: a name and where it resolves from.
#[derive(Debug, Clone, PartialEq, Eq, Hash)]
pub struct PackageId {
    pub name: Name,
    pub resolution: Resolution,
}

/// A pinned package: an identity at one version.
#[derive(Debug, Clone, PartialEq, Eq, Hash)]
pub struct Summary {
    pub id: PackageId,
    pub version: Version,
}

// The ghost values of these types, under which contracts compare them.
pub struct NameV {
    pub group: Seq<char>,
    pub name: Seq<char>,
}

pub enum GitTagV {
    Commit(Seq<char>),
    Tag(Seq<char>),
}

pub struct ChecksumV {
    pub fmt: Seq<char>,
    pub hash: Seq<char>,
}

pub enum DirectResV {
    Git { repo: Seq<char>, tag: GitTagV },
    Dir { url: Seq<char> },
    Tar { url: Seq<char>, cksum: Option<ChecksumV> },
}

pub struct IndexResV {
    pub url: Seq<char>,
}

pub enum ResolutionV {
    Direct(DirectResV),
    Index(IndexResV),
    Root,
}

pub struct PackageIdV {
    pub name: NameV,
    pub resolution: ResolutionV,
}

pub enum PreIdentV {
    Num(u64),
    Alpha(Seq<char>),
}

pub struct VersionV {
    pub major: u64,
    pub minor: u64,
    pub patch: u64,
    pub pre: Seq<PreIdentV>,
}

pub struct SummaryV {
    pub id: PackageIdV,
    pub version: VersionV,
}

impl View for Name {
    type V = NameV;

    open spec fn view(&self) -> NameV {
        NameV { group: self.group@, name: self.name@ }
    }
}

impl View for GitTag {
    type V = GitTagV;

    open spec fn view(&self) -> GitTagV {
        match self {
            GitTag::Commit(s) => GitTagV::Commit(s@),
            GitTag::Tag(s) => GitTagV::Tag(s@),
        }
    }
}

impl View for Checksum {
    type V = ChecksumV;

    open spec fn view(&self) -> ChecksumV {
        ChecksumV { fmt: self.fmt@, hash: self.hash@ }
    }
}

impl View for DirectRes {
    type V = DirectResV;

    open spec fn view(&self) -> DirectResV {
        match self {
            DirectRes::Git { repo, tag } => DirectResV::Git { repo: repo@, tag: tag@ },
            DirectRes::Dir { url } => DirectResV::Dir { url: url@ },
            DirectRes::Tar { url, cksum } => DirectResV::Tar {
                url: url@,
                cksum: match cksum {
                    Some(c) => Some(c@),
                    None => None,
                },
            },
        }
    }
}

impl View for IndexRes {
    type V = IndexResV;

    open spec fn view(&self) -> IndexResV {
        IndexResV { url: self.url@ }
    }
}

impl View for Resolution {
    type V = ResolutionV;

    open spec fn view(&self) -> ResolutionV {
        match self {
            Resolution::Direct(d) => ResolutionV::Direct(d@),
            Resolution::Index(i) => ResolutionV::Index(i@),
            Resolution::Root => ResolutionV::Root,
        }
    }
}

impl View for PackageId {
    type V = PackageIdV;

    open spec fn view(&self) -> PackageIdV {
        PackageIdV { name: self.name@, resolution: self.resolution@ }
    }
}

impl View for crate::version::PreIdent {
    type V = PreIdentV;

    open spec fn view(&self) -> PreIdentV {
        match self {
            crate::version::PreIdent::Num(x) => PreIdentV::Num(*x),
            crate::version::PreIdent::Alpha(s) => PreIdentV::Alpha(s@),
        }
    }
}

impl View for Version {
    type V = VersionV;

    open spec fn view(&self) -> VersionV {
        VersionV {
            major: self.major,
            minor: self.minor,
            patch: self.patch,
            pre: self.pre@.map_values(|p: crate::version::PreIdent| p@),
        }
    }
}

impl View for Summary {
    type V = SummaryV;

    open spec fn view(&self) -> SummaryV {
        SummaryV { id: self.id@, version: self.version@ }
    }
}

/// Two versions are equal exactly when their ghost values coincide.
pub proof fn lemma_version_eq_is_view_eq(a: Version, b: Version)
    ensures
        version_eq(a, b) <==> a@ == b@,
{
    if version_eq(a, b) {
        assert(a@.pre =~= b@.pre) by {
            assert(forall|i: int|
                0 <= i < a.pre@.len() ==> crate::version::ident_eq(
                    #[trigger] a.pre@[i],
                    b.pre@[i],
                ));
            assert(forall|i: int|
                0 <= i < a.pre@.len() ==> #[trigger] a@.pre[i] == a.pre@[i]@);
            assert(forall|i: int|
                0 <= i < b.pre@.len() ==> #[trigger] b@.pre[i] == b.pre@[i]@);
        }
    }
    if a@ == b@ {
        assert(a@.pre.len() == b@.pre.len());
        assert(a.pre@.len() == b.pre@.len());
        assert forall|i: int| 0 <= i < a.pre@.len() implies crate::version::ident_eq(
            a.pre@[i],
            b.pre@[i],
        ) by {
            assert(a@.pre[i] == a.pre@[i]@);
            assert(b@.pre[i] == b.pre@[i]@);
        }
    }
}

impl Name {
    pub fn new(group: String, name: String) -> (r: Name)
        ensures
            r@.group == group@,
            r@.name == name@,
    {
        Name { group, name }
    }

    pub fn group(&self) -> (r: &String)
        ensures
            r@ == self@.group,
    {
        &self.group
    }

    pub fn name(&self) -> (r: &String)
        ensures
            r@ == self@.name,
    {
        &self.name
    }

    pub fn eq_name(&self, other: &Name) -> (r: bool)
        ensures
            r == (self@ == other@),
    {
        let r = self.group == other.group && self.name == other.name;
        proof {
            if self.group@ == other.group@ && self.name@ == other.name@ {
                assert(self@ == other@);
            }
        }
        r
    }

    /// The rendering `group/name`.
    pub fn render(&self) -> (r: String)
        ensures
            r@ == spec_name_str(self@),
    {
        let mut s = self.group.clone();
        push_char(&mut s, '/');
        let r = s.concat(self.name.as_str());
        proof {
            assert(r@ =~= spec_name_str(self@));
        }
        r
    }
}

pub open spec fn spec_name_str(n: NameV) -> Seq<char> {
    n.group.push('/') + n.name
}

pub open spec fn spec_checksum_str(c: ChecksumV) -> Seq<char> {
    c.fmt.push(':') + c.hash
}

/// The rendering of a direct resolution, `<kind>+<body>`.
pub open spec fn spec_direct_str(d: DirectResV) -> Seq<char> {
    match d {
        DirectResV::Git { repo, tag } => git_lit().push('+') + repo,
        DirectResV::Dir { url } => dir_lit().push('+') + url,
        DirectResV::Tar { url, cksum } => match cksum {
            Some(c) => tar_lit().push('+') + url.push('#') + spec_checksum_str(c),
            None => tar_lit().push('+') + url,
        },
    }
}

pub open spec fn spec_index_str(i: IndexResV) -> Seq<char> {
    index_lit().push('+') + i.url
}

/// The rendering of a resolution: its kind and body, or `root`.
pub open spec fn spec_resolution_str(r: ResolutionV) -> Seq<char> {
    match r {
        ResolutionV::Direct(d) => spec_direct_str(d),
        ResolutionV::Index(i) => spec_index_str(i),
        ResolutionV::Root => root_lit(),
    }
}

pub open spec fn git_lit() -> Seq<char> {
    seq!['g', 'i', 't']
}

pub open spec fn dir_lit() -> Seq<char> {
    seq!['d', 'i', 'r']
}

pub open spec fn tar_lit() -> Seq<char> {
    seq!['t', 'a', 'r']
}

pub open spec fn index_lit() -> Seq<char> {
    seq!['i', 'n', 'd', 'e', 'x']
}

pub open spec fn root_lit() -> Seq<char> {
    seq!['r', 'o', 'o', 't']
}

pub open spec fn file_lit() -> Seq<char> {
    seq!['f', 'i', 'l', 'e']
}

pub open spec fn http_lit() -> Seq<char> {
    seq!['h', 't', 't', 'p']
}

pub open spec fn https_lit() -> Seq<char> {
    seq!['h', 't', 't', 'p', 's']
}

pub open spec fn sha256_lit() -> Seq<char> {
    seq!['s', 'h', 'a', '2', '5', '6']
}

impl Checksum {
    pub fn eq_checksum(&self, other: &Checksum) -> (r: bool)
        ensures
            r == (self@ == other@),
    {
        let r = self.fmt == other.fmt && self.hash == other.hash;
        proof {
            if self.fmt@ == other.fmt@ && self.hash@ == other.hash@ {
                assert(self@ == other@);
            }
        }
        r
    }

    /// The rendering `fmt:hash`.
    pub fn render(&self) -> (r: String)
        ensures
            r@ == spec_checksum_str(self@),
    {
        let mut s = self.fmt.clone();
        push_char(&mut s, ':');
        let r = s.concat(self.hash.as_str());
        proof {
            assert(r@ =~= spec_checksum_str(self@));
        }
        r
    }
}

impl DirectRes {
    /// The rendering `<kind>+<body>`, with a tarball's checksum in the
    /// URL fragment.
    pub fn render(&self) -> (r: String)
        ensures
            r@ == spec_direct_str(self@),
    {
        match self {
            DirectRes::Git { repo, tag: _ } => {
                let mut s = String::new();
                s.append("git+");
                let r = s.concat(repo.as_str());
                proof {
                    reveal_strlit("git+");
                    assert(r@ =~= spec_direct_str(self@));
                }
                r
            },
            DirectRes::Dir { url } => {
                let mut s = String::new();
                s.append("dir+");
                let r = s.concat(url.as_str());
                proof {
                    reveal_strlit("dir+");
                    assert(r@ =~= spec_direct_str(self@));
                }
                r
            },
            DirectRes::Tar { url, cksum } => {
                let mut s = String::new();
                s.append("tar+");
                s.append(url.as_str());
                match cksum {
                    Some(c) => {
                        push_char(&mut s, '#');
                        let ck = c.render();
                        let r = s.concat(ck.as_str());
                        proof {
                            reveal_strlit("tar+");
                            assert(r@ =~= spec_direct_str(self@));
                        }
                        r
                    },
                    None => {
                        proof {
                            reveal_strlit("tar+");
                            assert(s@ =~= spec_direct_str(self@));
                        }
                        s
                    },
                }
            },
        }
    }
}

impl IndexRes {
    pub fn eq_index(&self, other: &IndexRes) -> (r: bool)
        ensures
            r == (self@ == other@),
    {
        let r = self.url == other.url;
        proof {
            if self.url@ == other.url@ {
                assert(self@ == other@);
            }
        }
        r
    }

    /// The rendering `index+<url>`.
    pub fn render(&self) -> (r: String)
        ensures
            r@ == spec_index_str(self@),
    {
        let mut s = String::new();
        s.append("index+");
        let r = s.concat(self.url.as_str());
        proof {
            reveal_strlit("index+");
            assert(r@ =~= spec_index_str(self@));
        }
        r
    }
}

impl GitTag {
    pub fn eq_tag(&self, other: &GitTag) -> (r: bool)
        ensures
            r == (self@ == other@),
    {
        match (self, other) {
            (GitTag::Commit(a), GitTag::Commit(b)) => *a == *b,
            (GitTag::Tag(a), GitTag::Tag(b)) => *a == *b,
            _ => false,
        }
    }
}

impl DirectRes {
    pub fn eq_direct(&self, other: &DirectRes) -> (r: bool)
        ensures
            r == (self@ == other@),
    {
        match (self, other) {
            (DirectRes::Git { repo: r1, tag: t1 }, DirectRes::Git { repo: r2, tag: t2 }) => {
                let r = *r1 == *r2 && t1.eq_tag(t2);
                proof {
                    if r1@ == r2@ && t1@ == t2@ {
                        assert(self@ == other@);
                    }
                }
                r
            },
            (DirectRes::Dir { url: u1 }, DirectRes::Dir { url: u2 }) => {
                let r = *u1 == *u2;
                proof {
                    if u1@ == u2@ {
                        assert(self@ == other@);
                    }
                }
                r
            },
            (
                DirectRes::Tar { url: u1, cksum: c1 },
                DirectRes::Tar { url: u2, cksum: c2 },
            ) => {
                let cks = match (c1, c2) {
                    (Some(a), Some(b)) => a.eq_checksum(b),
                    (None, None) => true,
                    _ => false,
                };
                let r = *u1 == *u2 && cks;
                proof {
                    if r {
                        assert(self@ == other@);
                    }
                }
                r
            },
            _ => false,
        }
    }
}

impl Resolution {
    pub fn eq_resolution(&self, other: &Resolution) -> (r: bool)
        ensures
            r == (self@ == other@),
    {
        match (self, other) {
            (Resolution::Direct(a), Resolution::Direct(b)) => a.eq_direct(b),
            (Resolution::Index(a), Resolution::Index(b)) => a.eq_index(b),
            (Resolution::Root, Resolution::Root) => true,
            _ => false,
        }
    }

    pub fn is_root(&self) -> (r: bool)
        ensures
            r == (self@ == ResolutionV::Root),
    {
        match self {
            Resolution::Root => true,
            _ => false,
        }
    }

    /// The rendering of this resolution.
    pub fn render(&self) -> (r: String)
        ensures
            r@ == spec_resolution_str(self@),
    {
        match self {
            Resolution::Direct(d) => d.render(),
            Resolution::Index(i) => i.render(),
            Resolution::Root => {
                let s = String::from_str("root");
                proof {
                    reveal_strlit("root");
                    assert(s@ =~= root_lit());
                }
                s
            },
        }
    }
}

impl PackageId {
    pub fn new(name: Name, resolution: Resolution) -> (r: PackageId)
        ensures
            r@.name == name@,
            r@.resolution == resolution@,
    {
        PackageId { name, resolution }
    }

    pub fn eq_id(&self, other: &PackageId) -> (r: bool)
        ensures
            r == (self@ == other@),
    {
        let r = self.name.eq_name(&other.name) && self.resolution.eq_resolution(
            &other.resolution,
        );
        proof {
            if self.name@ == other.name@ && self.resolution@ == other.resolution@ {
                assert(self@ == other@);
            }
        }
        r
    }

    pub fn resolution(&self) -> (r: &Resolution)
        ensures
            r@ == self@.resolution,
    {
        &self.resolution
    }
}

impl Summary {
    pub fn new(id: PackageId, version: Version) -> (r: Summary)
        ensures
            r@.id == id@,
            r@.version == version@,
    {
        Summary { id, version }
    }

    pub fn eq_summary(&self, other: &Summary) -> (r: bool)
        ensures
            r == (self@ == other@),
    {
        let vr = self.version.eq_version(&other.version);
        proof {
            lemma_version_eq_is_view_eq(self.version, other.version);
        }
        let r = self.id.eq_id(&other.id) && vr;
        proof {
            if self.id@ == other.id@ && self.version@ == other.version@ {
                assert(self@ == other@);
            }
        }
        r
    }

    pub fn id(&self) -> (r: &PackageId)
        ensures
            r@ == self@.id,
    {
        &self.id
    }

    pub fn version(&self) -> (r: &Version)
        ensures
            r@ == self@.version,
    {
        &self.version
    }

    pub fn resolution(&self) -> (r: &Resolution)
        ensures
            r@ == self@.id.resolution,
    {
        &self.id.resolution
    }

    /// The rendering `group/name@resolution` with the version, used in
    /// messages and identity bytes: `group/name@<resolution> <version>`.
    pub fn render(&self) -> (r: String)
        ensures
            r@ == spec_summary_str(*self),
    {
        let mut s = self.id.name.render();
        push_char(&mut s, '@');
        let res = self.id.resolution.render();
        s.append(res.as_str());
        push_char(&mut s, ' ');
        self.version.append_to(&mut s);
        proof {
            assert(s@ =~= spec_summary_str(*self));
        }
        s
    }
}

/// The rendering of a summary: name, resolution and version.
pub open spec fn spec_summary_str(s: Summary) -> Seq<char> {
    spec_name_str(s.id@.name).push('@') + spec_resolution_str(s.id@.resolution).push(' ')
        + spec_version_str(s.version)
}


/// What `url::Url::parse` makes of a string: `None` when the string is
/// not a valid URL, else the normalized rendering. Validation and
/// normalization depend on the input string alone.
pub uninterp spec fn spec_url_norm(s: Seq<char>) -> Option<Seq<char>>;

/// Relies on `url::Url::parse`: validates a URL and renders it back in
/// normalized form, a pure function of the input string. Parsing an
/// already-normalized rendering returns it unchanged, which the crate
/// documents as the serialize/parse round trip.
#[verifier::external_body]
fn parse_url(s: &str) -> (r: Option<String>)
    ensures
        match r {
            Some(u) => spec_url_norm(s@) == Some(u@) && spec_url_norm(u@) == Some(u@),
            None => spec_url_norm(s@) is None,
        },
{
    match url::Url::parse(s) {
        Ok(u) => Some(String::from(u)),
        Err(_) => None,
    }
}

/// The `<kind>` and `<body>` halves of a resolution URL, split at the
/// first `+`.
pub open spec fn spec_split_kind(s: Seq<char>) -> Option<(Seq<char>, Seq<char>)> {
    match spec_find(s, '+') {
        Some(i) => Some((s.take(i), s.skip(i + 1))),
        None => None,
    }
}

/// A URL body split from its `#fragment`, if one is present.
pub open spec fn spec_split_fragment(s: Seq<char>) -> (Seq<char>, Option<Seq<char>>) {
    match spec_find(s, '#') {
        Some(i) => (s.take(i), Some(s.skip(i + 1))),
        None => (s, None),
    }
}

/// The scheme of a normalized URL: everything before the first `:`.
pub open spec fn spec_scheme(u: Seq<char>) -> Seq<char> {
    match spec_find(u, ':') {
        Some(i) => u.take(i),
        None => u,
    }
}

/// What a checksum fragment parses to: `sha256:<hex>` and nothing else.
pub open spec fn spec_parse_checksum(s: Seq<char>) -> Option<ChecksumV> {
    match spec_find(s, ':') {
        Some(i) => if s.take(i) == sha256_lit() {
            Some(ChecksumV { fmt: s.take(i), hash: s.skip(i + 1) })
        } else {
            None
        },
        None => None,
    }
}

/// What a direct resolution URL parses to. `dir` bodies must be valid
/// `file:` URLs; `tar` bodies must be valid `http:`, `https:` or
/// `file:` URLs, with an optional checksum fragment; fetching from a
/// bare git URL is not implemented, so `git` does not parse.
pub open spec fn spec_parse_direct(s: Seq<char>) -> Option<DirectResV> {
    match spec_split_kind(s) {
        None => None,
        Some((kind, body)) => if kind == dir_lit() {
            match spec_url_norm(body) {
                Some(u) => if spec_scheme(u) == file_lit() {
                    Some(DirectResV::Dir { url: u })
                } else {
                    None
                },
                None => None,
            }
        } else if kind == tar_lit() {
            let (base, frag) = spec_split_fragment(body);
            let ck = match frag {
                Some(f) => spec_parse_checksum(f),
                None => None,
            };
            match spec_url_norm(base) {
                Some(u) => if spec_scheme(u) == http_lit() || spec_scheme(u) == https_lit()
                    || spec_scheme(u) == file_lit() {
                    Some(DirectResV::Tar { url: u, cksum: ck })
                } else {
                    None
                },
                None => None,
            }
        } else {
            None
        },
    }
}

/// What an index resolution URL parses to: `index+<url>`.
pub open spec fn spec_parse_index(s: Seq<char>) -> Option<IndexResV> {
    match spec_split_kind(s) {
        None => None,
        Some((kind, body)) => if kind == index_lit() {
            match spec_url_norm(body) {
                Some(u) => Some(IndexResV { url: u }),
                None => None,
            }
        } else {
            None
        },
    }
}

/// What a resolution string parses to: the literal `root`, else a
/// direct resolution, else an index resolution.
pub open spec fn spec_parse_resolution(s: Seq<char>) -> Option<ResolutionV> {
    if s == root_lit() {
        Some(ResolutionV::Root)
    } else {
        match spec_parse_direct(s) {
            Some(d) => Some(ResolutionV::Direct(d)),
            None => match spec_parse_index(s) {
                Some(i) => Some(ResolutionV::Index(i)),
                None => None,
            },
        }
    }
}

/// Splits `<kind>+<body>` at the first `+`.
fn split_kind(s: &str) -> (r: Option<(String, String)>)
    ensures
        match r {
            Some(kb) => spec_split_kind(s@) == Some((kb.0@, kb.1@)),
            None => spec_split_kind(s@) is None,
        },
{
    match find_char(s, '+') {
        Some(i) => {
            proof {
                crate::strutil::lemma_spec_find(s@, '+');
            }
            let len = s.unicode_len();
            let kind = s.substring_char(0, i);
            let body = s.substring_char(i + 1, len);
            proof {
                assert(kind@ =~= s@.take(i as int));
                assert(body@ =~= s@.skip(i as int + 1));
            }
            Some((String::from_str(kind), String::from_str(body)))
        },
        None => None,
    }
}

/// The scheme of a normalized URL.
fn scheme_of(u: &str) -> (r: String)
    ensures
        r@ == spec_scheme(u@),
{
    match find_char(u, ':') {
        Some(i) => {
            proof {
                crate::strutil::lemma_spec_find(u@, ':');
            }
            let sub = u.substring_char(0, i);
            proof {
                assert(sub@ =~= u@.take(i as int));
            }
            String::from_str(sub)
        },
        None => String::from_str(u),
    }
}

impl Checksum {
    /// Parses `sha256:<hex>`.
    pub fn from_str(s: &str) -> (r: Result<Checksum, Error>)
        ensures
            match r {
                Ok(c) => spec_parse_checksum(s@) == Some(c@),
                Err(e) => spec_parse_checksum(s@) is None && e.kind
                    == ErrorKind::InvalidSourceUrl,
            },
    {
        match find_char(s, ':') {
            Some(i) => {
                proof {
                    crate::strutil::lemma_spec_find(s@, ':');
                }
                let len = s.unicode_len();
                let fmt = s.substring_char(0, i);
                let hash = s.substring_char(i + 1, len);
                proof {
                    assert(fmt@ =~= s@.take(i as int));
                    assert(hash@ =~= s@.skip(i as int + 1));
                    reveal_strlit("sha256");
                    assert("sha256"@ =~= sha256_lit());
                }
                if str_eq(fmt, "sha256") {
                    Ok(Checksum { fmt: String::from_str(fmt), hash: String::from_str(hash) })
                } else {
                    Err(Error::of_kind(ErrorKind::InvalidSourceUrl))
                }
            },
            None => Err(Error::of_kind(ErrorKind::InvalidSourceUrl)),
        }
    }
}

impl DirectRes {
    /// Parses `<kind>+<body>` into a direct resolution.
    pub fn from_str(s: &str) -> (r: Result<DirectRes, Error>)
        ensures
            match r {
                Ok(d) => spec_parse_direct(s@) == Some(d@),
                Err(e) => spec_parse_direct(s@) is None && e.kind == ErrorKind::InvalidSourceUrl,
            },
    {
        let kb = match split_kind(s) {
            Some(kb) => kb,
            None => {
                return Err(Error::of_kind(ErrorKind::InvalidSourceUrl));
            },
        };
        let kind = kb.0;
        let body = kb.1;
        proof {
            reveal_strlit("dir");
            reveal_strlit("tar");
            reveal_strlit("file");
            reveal_strlit("http");
            reveal_strlit("https");
            assert("dir"@ =~= dir_lit());
            assert("tar"@ =~= tar_lit());
            assert("file"@ =~= file_lit());
            assert("http"@ =~= http_lit());
            assert("https"@ =~= https_lit());
        }
        if str_eq(kind.as_str(), "dir") {
            match parse_url(body.as_str()) {
                Some(u) => {
                    let sch = scheme_of(u.as_str());
                    if str_eq(sch.as_str(), "file") {
                        Ok(DirectRes::Dir { url: u })
                    } else {
                        Err(Error::of_kind(ErrorKind::InvalidSourceUrl))
                    }
                },
                None => Err(Error::of_kind(ErrorKind::InvalidSourceUrl)),
            }
        } else if str_eq(kind.as_str(), "tar") {
            let len = body.as_str().unicode_len();
            let (base, ck) = match find_char(body.as_str(), '#') {
                Some(i) => {
                    proof {
                        crate::strutil::lemma_spec_find(body@, '#');
                    }
                    let base = body.as_str().substring_char(0, i);
                    let frag = body.as_str().substring_char(i + 1, len);
                    proof {
                        assert(base@ =~= body@.take(i as int));
                        assert(frag@ =~= body@.skip(i as int + 1));
                    }
                    let ck = match Checksum::from_str(frag) {
                        Ok(c) => Some(c),
                        Err(_) => None,
                    };
                    (String::from_str(base), ck)
                },
                None => (String::from_str(body.as_str()), None),
            };
            match parse_url(base.as_str()) {
                Some(u) => {
                    let sch = scheme_of(u.as_str());
                    if str_eq(sch.as_str(), "http") || str_eq(sch.as_str(), "https") || str_eq(
                        sch.as_str(),
                        "file",
                    ) {
                        Ok(DirectRes::Tar { url: u, cksum: ck })
                    } else {
                        Err(Error::of_kind(ErrorKind::InvalidSourceUrl))
                    }
                },
                None => Err(Error::of_kind(ErrorKind::InvalidSourceUrl)),
            }
        } else {
            Err(Error::of_kind(ErrorKind::InvalidSourceUrl))
        }
    }
}

impl IndexRes {
    /// Parses `index+<url>`.
    pub fn from_str(s: &str) -> (r: Result<IndexRes, Error>)
        ensures
            match r {
                Ok(i) => spec_parse_index(s@) == Some(i@),
                Err(e) => spec_parse_index(s@) is None && e.kind == ErrorKind::InvalidSourceUrl,
            },
    {
        let kb = match split_kind(s) {
            Some(kb) => kb,
            None => {
                return Err(Error::of_kind(ErrorKind::InvalidSourceUrl));
            },
        };
        proof {
            reveal_strlit("index");
            assert("index"@ =~= index_lit());
        }
        if str_eq(kb.0.as_str(), "index") {
            match parse_url(kb.1.as_str()) {
                Some(u) => Ok(IndexRes { url: u }),
                None => Err(Error::of_kind(ErrorKind::InvalidSourceUrl)),
            }
        } else {
            Err(Error::of_kind(ErrorKind::InvalidSourceUrl))
        }
    }
}

impl Resolution {
    /// Parses a resolution: `root`, or a direct or index URL.
    pub fn from_str(s: &str) -> (r: Result<Resolution, Error>)
        ensures
            match r {
                Ok(v) => spec_parse_resolution(s@) == Some(v@),
                Err(e) => spec_parse_resolution(s@) is None && e.kind
                    == ErrorKind::InvalidSourceUrl,
            },
    {
        proof {
            reveal_strlit("root");
            assert("root"@ =~= root_lit());
        }
        if str_eq(s, "root") {
            return Ok(Resolution::Root);
        }
        match DirectRes::from_str(s) {
            Ok(d) => Ok(Resolution::Direct(d)),
            Err(_) => match IndexRes::from_str(s) {
                Ok(i) => Ok(Resolution::Index(i)),
                Err(e) => Err(e),
            },
        }
    }
}


impl Name {
    /// A copy with the same value.
    pub fn duplicate(&self) -> (r: Name)
        ensures
            r@ == self@,
    {
        Name { group: self.group.clone(), name: self.name.clone() }
    }
}

impl GitTag {
    /// A copy with the same value.
    pub fn duplicate(&self) -> (r: GitTag)
        ensures
            r@ == self@,
    {
        match self {
            GitTag::Commit(s) => GitTag::Commit(s.clone()),
            GitTag::Tag(s) => GitTag::Tag(s.clone()),
        }
    }
}

impl Checksum {
    /// A copy with the same value.
    pub fn duplicate(&self) -> (r: Checksum)
        ensures
            r@ == self@,
    {
        Checksum { fmt: self.fmt.clone(), hash: self.hash.clone() }
    }
}

impl DirectRes {
    /// A copy with the same value.
    pub fn duplicate(&self) -> (r: DirectRes)
        ensures
            r@ == self@,
    {
        match self {
            DirectRes::Git { repo, tag } => DirectRes::Git {
                repo: repo.clone(),
                tag: tag.duplicate(),
            },
            DirectRes::Dir { url } => DirectRes::Dir { url: url.clone() },
            DirectRes::Tar { url, cksum } => DirectRes::Tar {
                url: url.clone(),
                cksum: match cksum {
                    Some(c) => Some(c.duplicate()),
                    None => None,
                },
            },
        }
    }
}

impl IndexRes {
    /// A copy with the same value.
    pub fn duplicate(&self) -> (r: IndexRes)
        ensures
            r@ == self@,
    {
        IndexRes { url: self.url.clone() }
    }
}

impl Resolution {
    /// A copy with the same value.
    pub fn duplicate(&self) -> (r: Resolution)
        ensures
            r@ == self@,
    {
        match self {
            Resolution::Direct(d) => Resolution::Direct(d.duplicate()),
            Resolution::Index(i) => Resolution::Index(i.duplicate()),
            Resolution::Root => Resolution::Root,
        }
    }
}

impl PackageId {
    /// A copy with the same value.
    pub fn duplicate(&self) -> (r: PackageId)
        ensures
            r@ == self@,
    {
        PackageId { name: self.name.duplicate(), resolution: self.resolution.duplicate() }
    }
}

impl Version {
    /// A copy with the same value.
    pub fn duplicate(&self) -> (r: Version)
        ensures
            r@ == self@,
    {
        let mut pre: Vec<crate::version::PreIdent> = Vec::new();
        let mut i: usize = 0;
        while i < self.pre.len()
            invariant
                i <= self.pre@.len(),
                pre@.len() == i,
                forall|j: int| 0 <= j < i ==> #[trigger] pre@[j]@ == self.pre@[j]@,
            decreases self.pre@.len() - i,
        {
            let p = match &self.pre[i] {
                crate::version::PreIdent::Num(x) => crate::version::PreIdent::Num(*x),
                crate::version::PreIdent::Alpha(s) => crate::version::PreIdent::Alpha(s.clone()),
            };
            pre.push(p);
            i = i + 1;
        }
        let r = Version { major: self.major, minor: self.minor, patch: self.patch, pre };
        proof {
            assert(r@.pre =~= self@.pre) by {
                assert(forall|j: int|
                    0 <= j < r.pre@.len() ==> #[trigger] r@.pre[j] == r.pre@[j]@);
                assert(forall|j: int|
                    0 <= j < self.pre@.len() ==> #[trigger] self@.pre[j] == self.pre@[j]@);
            }
        }
        r
    }
}

impl Summary {
    /// A copy with the same value.
    pub fn duplicate(&self) -> (r: Summary)
        ensures
            r@ == self@,
    {
        Summary { id: self.id.duplicate(), version: self.version.duplicate() }
    }
}


/// Equal summary values have version-equal versions.
pub proof fn lemma_summary_view_version(a: Summary, b: Summary)
    requires
        a@ == b@,
    ensures
        version_eq(a.version, b.version),
        a.id@ == b.id@,
{
    lemma_version_eq_is_view_eq(a.version, b.version);
}


/// What the normalized form of a URL is allowed to claim of itself:
/// parsing it again returns it unchanged.
pub open spec fn url_normalized(u: Seq<char>) -> bool {
    spec_url_norm(u) == Some(u)
}

/// Where a character provably first occurs.
proof fn lemma_find_at(s: Seq<char>, c: char, k: int)
    requires
        0 <= k < s.len(),
        s[k] == c,
        forall|j: int| 0 <= j < k ==> s[j] != c,
    ensures
        spec_find(s, c) == Some(k),
{
    crate::strutil::lemma_spec_find(s, c);
    match spec_find(s, c) {
        Some(i) => {
            if i < k {
                assert(s[i] != c);
            }
            if i > k {
                assert(s[k] != c);
            }
        },
        None => {
            assert(s[k] != c);
        },
    }
}

/// A rendered index resolution parses back to itself.
pub proof fn lemma_index_round_trip(i: IndexResV)
    requires
        url_normalized(i.url),
    ensures
        spec_parse_index(spec_index_str(i)) == Some(i),
{
    let s = spec_index_str(i);
    assert(s == index_lit().push('+') + i.url);
    lemma_find_at(s, '+', 5);
    assert(s.take(5) =~= index_lit());
    assert(s.skip(6) =~= i.url);
}

/// A rendered directory resolution parses back to itself.
pub proof fn lemma_dir_round_trip(url: Seq<char>)
    requires
        url_normalized(url),
        spec_scheme(url) == file_lit(),
    ensures
        spec_parse_direct(spec_direct_str(DirectResV::Dir { url })) == Some(
            DirectResV::Dir { url },
        ),
{
    let s = spec_direct_str(DirectResV::Dir { url });
    assert(s == dir_lit().push('+') + url);
    lemma_find_at(s, '+', 3);
    assert(s.take(3) =~= dir_lit());
    assert(s.skip(4) =~= url);
}

/// A rendered tarball resolution parses back to itself, as long as its
/// URL carries no fragment of its own and a declared checksum uses the
/// one supported format.
pub proof fn lemma_tar_round_trip(url: Seq<char>, cksum: Option<ChecksumV>)
    requires
        url_normalized(url),
        spec_scheme(url) == http_lit() || spec_scheme(url) == https_lit() || spec_scheme(url)
            == file_lit(),
        spec_find(url, '#') is None,
        cksum matches Some(c) ==> c.fmt == sha256_lit(),
    ensures
        spec_parse_direct(spec_direct_str(DirectResV::Tar { url, cksum })) == Some(
            DirectResV::Tar { url, cksum },
        ),
{
    let s = spec_direct_str(DirectResV::Tar { url, cksum });
    crate::strutil::lemma_spec_find(url, '#');
    match cksum {
        None => {
            assert(s == tar_lit().push('+') + url);
            lemma_find_at(s, '+', 3);
            assert(s.take(3) =~= tar_lit());
            assert(s.skip(4) =~= url);
            crate::strutil::lemma_spec_find(s.skip(4), '#');
            match spec_find(s.skip(4), '#') {
                Some(j) => {
                    assert(url[j] == '#');
                },
                None => {},
            }
        },
        Some(c) => {
            assert(s == tar_lit().push('+') + url.push('#') + spec_checksum_str(c));
            lemma_find_at(s, '+', 3);
            assert(s.take(3) =~= tar_lit());
            let body = s.skip(4);
            assert(body =~= url.push('#') + spec_checksum_str(c));
            assert(body[url.len() as int] == '#');
            assert(forall|j: int| 0 <= j < url.len() ==> #[trigger] body[j] == url[j]);
            lemma_find_at(body, '#', url.len() as int);
            assert(body.take(url.len() as int) =~= url);
            let frag = body.skip(url.len() as int + 1);
            assert(frag =~= spec_checksum_str(c));
            assert(frag =~= sha256_lit().push(':') + c.hash);
            lemma_find_at(frag, ':', 6);
            assert(frag.take(6) =~= sha256_lit());
            assert(frag.skip(7) =~= c.hash);
            assert(spec_parse_checksum(frag) == Some(ChecksumV { fmt: frag.take(6), hash: c.hash }));
            assert(ChecksumV { fmt: frag.take(6), hash: c.hash } == c);
        },
    }
}

/// A rendered resolution parses back to itself: the root literal, a
/// directory or tarball location, or an index. (A git location renders
/// but does not parse: fetching from a bare git URL is not
/// implemented.)
pub proof fn lemma_resolution_round_trip(r: ResolutionV)
    requires
        (match r {
            ResolutionV::Root => true,
            ResolutionV::Direct(d) => match d {
                DirectResV::Dir { url } => url_normalized(url) && spec_scheme(url) == file_lit(),
                DirectResV::Tar { url, cksum } => {
                    &&& url_normalized(url)
                    &&& (spec_scheme(url) == http_lit() || spec_scheme(url) == https_lit()
                        || spec_scheme(url) == file_lit())
                    &&& spec_find(url, '#') is None
                    &&& (cksum matches Some(c) ==> c.fmt == sha256_lit())
                },
                DirectResV::Git { .. } => false,
            },
            ResolutionV::Index(i) => url_normalized(i.url),
        }),
    ensures
        spec_parse_resolution(spec_resolution_str(r)) == Some(r),
{
    let s = spec_resolution_str(r);
    match r {
        ResolutionV::Root => {},
        ResolutionV::Direct(d) => {
            assert(s != root_lit()) by {
                match d {
                    DirectResV::Dir { url } => {
                        assert(s[0] == 'd');
                    },
                    DirectResV::Tar { url, cksum } => {
                        assert(s[0] == 't');
                    },
                    DirectResV::Git { .. } => {},
                }
                assert(root_lit()[0] == 'r');
            }
            match d {
                DirectResV::Dir { url } => {
                    lemma_dir_round_trip(url);
                },
                DirectResV::Tar { url, cksum } => {
                    lemma_tar_round_trip(url, cksum);
                },
                DirectResV::Git { .. } => {},
            }
        },
        ResolutionV::Index(i) => {
            assert(s != root_lit()) by {
                assert(s[0] == 'i');
                assert(root_lit()[0] == 'r');
            }
            lemma_index_round_trip(i);
            assert(spec_parse_direct(s) is None) by {
                lemma_find_at(s, '+', 5);
                assert(s.take(5) =~= index_lit());
                assert(s.take(5) != dir_lit()) by {
                    assert(index_lit().len() != dir_lit().len());
                }
                assert(s.take(5) != tar_lit()) by {
                    assert(index_lit().len() != tar_lit().len());
                }
            }
        },
    }
}

} // verus!
