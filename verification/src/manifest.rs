//! Package manifests, as plain values.
//!
//! A manifest names the package, declares its dependencies and its
//! targets. The TOML text is parsed and written by the embedding
//! program; the invariants — at least one library or binary target,
//! target paths that stay inside the project — and the translation of
//! dependency requests into resolver queries live here.

use vstd::prelude::*;

use crate::constraint::Constraint;
use crate::error::{Error, ErrorKind};
use crate::package::{GitTag, IndexRes, Name, PackageId, Resolution};
use crate::strutil::push_char;
use crate::version::Version;

verus! {

/// The `[package]` section.
#[derive(Debug, Clone)]
pub struct PackageInfo {
    pub name: Name,
    pub version: Version,
    pub authors: Vec<String>,
    pub description: Option<String>,
    pub license: Option<String>,
}

/// One declared dependency: a bare constraint against the default
/// registry, a constraint against a named registry, a local path, or a
/// git repository at a tag.
#[derive(Debug, Clone)]
pub enum DepReq {
    Registry(Constraint),
    RegLong { con: Constraint, registry: IndexRes },
    Local { path: String },
    Git { git: String, tag: String },
}

/// The `[targets]` section.
#[derive(Debug, Clone)]
pub struct Targets {
    pub lib: Option<LibTarget>,
    pub bin: Vec<BinTarget>,
    pub test: Vec<TestTarget>,
}

#[derive(Debug, Clone)]
pub struct LibTarget {
    pub path: String,
    pub mods: Vec<String>,
    pub idris_opts: Vec<String>,
}

#[derive(Debug, Clone)]
pub struct BinTarget {
    pub name: String,
    pub path: String,
    pub main: String,
    pub idris_opts: Vec<String>,
}

/// A test target: a binary that also links the package's own library.
#[derive(Debug, Clone)]
pub struct TestTarget {
    pub name: Option<String>,
    pub path: String,
    pub main: String,
    pub idris_opts: Vec<String>,
}

/// A manifest.
#[derive(Debug, Clone)]
pub struct Manifest {
    pub package: PackageInfo,
    pub dependencies: Vec<(Name, DepReq)>,
    pub dev_dependencies: Vec<(Name, DepReq)>,
    pub targets: Targets,
    pub workspace: Vec<(Name, String)>,
}

/// The tag a git dependency defaults to.
pub fn default_tag() -> (r: String)
    ensures
        r@ =~= seq!['m', 'a', 's', 't', 'e', 'r'],
{
    let s = String::from_str("master");
    proof {
        reveal_strlit("master");
    }
    s
}

/// The default source directory of a library target.
pub fn default_lib_subpath() -> (r: String)
    ensures
        r@ =~= seq!['s', 'r', 'c'],
{
    let s = String::from_str("src");
    proof {
        reveal_strlit("src");
    }
    s
}

/// The default source directory of a binary target.
pub fn default_bin_subpath() -> (r: String)
    ensures
        r@ =~= seq!['s', 'r', 'c'],
{
    let s = String::from_str("src");
    proof {
        reveal_strlit("src");
    }
    s
}

/// The default source directory of a test target.
pub fn default_test_subpath() -> (r: String)
    ensures
        r@ =~= seq!['t', 'e', 's', 't', 's'],
{
    let s = String::from_str("tests");
    proof {
        reveal_strlit("tests");
    }
    s
}

/// What a dependency request resolves to: the package identity the
/// solver tracks and the constraint it must satisfy.
pub open spec fn spec_into_dep(
    d: DepReq,
    def_index: IndexRes,
    n: Name,
    pid: PackageId,
    con: Constraint,
) -> bool {
    &&& pid@.name == n@
    &&& (match d {
        DepReq::Registry(c) => pid@.resolution == crate::package::ResolutionV::Index(def_index@)
            && con@ == c@,
        DepReq::RegLong { con: c, registry } => pid@.resolution
            == crate::package::ResolutionV::Index(registry@) && con@ == c@,
        DepReq::Local { path } => pid@.resolution == crate::package::ResolutionV::Direct(
            crate::package::DirectResV::Dir { url: path@ },
        ) && (forall|v: Version| crate::constraint::sat(con.ranges@, v)),
        DepReq::Git { git, tag } => pid@.resolution == crate::package::ResolutionV::Direct(
            crate::package::DirectResV::Git {
                repo: git@,
                tag: crate::package::GitTagV::Tag(tag@),
            },
        ) && (forall|v: Version| crate::constraint::sat(con.ranges@, v)),
    })
}

impl DepReq {
    /// Resolves this request against a name and the default registry.
    pub fn into_dep(self, def_index: IndexRes, n: Name) -> (r: (PackageId, Constraint))
        ensures
            spec_into_dep(self, def_index, n, r.0, r.1),
    {
        match self {
            DepReq::Registry(c) => {
                let pid = PackageId::new(n, Resolution::Index(def_index));
                (pid, c)
            },
            DepReq::RegLong { con, registry } => {
                let pid = PackageId::new(n, Resolution::Index(registry));
                (pid, con)
            },
            DepReq::Local { path } => {
                let res = Resolution::Direct(crate::package::DirectRes::Dir { url: path });
                let pid = PackageId::new(n, res);
                (pid, Constraint::any())
            },
            DepReq::Git { git, tag } => {
                let res = Resolution::Direct(
                    crate::package::DirectRes::Git { repo: git, tag: GitTag::Tag(tag) },
                );
                let pid = PackageId::new(n, res);
                (pid, Constraint::any())
            },
        }
    }

    /// A copy with the same value.
    pub fn duplicate(&self) -> (r: DepReq)
        ensures
            (match (self, r) {
                (DepReq::Registry(a), DepReq::Registry(b)) => a@ == b@,
                (
                    DepReq::RegLong { con: a, registry: ra },
                    DepReq::RegLong { con: b, registry: rb },
                ) => a@ == b@ && ra@ == rb@,
                (DepReq::Local { path: a }, DepReq::Local { path: b }) => a@ == b@,
                (DepReq::Git { git: a, tag: ta }, DepReq::Git { git: b, tag: tb }) => a@ == b@
                    && ta@ == tb@,
                _ => false,
            }),
    {
        match self {
            DepReq::Registry(c) => DepReq::Registry(c.duplicate()),
            DepReq::RegLong { con, registry } => DepReq::RegLong {
                con: con.duplicate(),
                registry: registry.duplicate(),
            },
            DepReq::Local { path } => DepReq::Local { path: path.clone() },
            DepReq::Git { git, tag } => DepReq::Git { git: git.clone(), tag: tag.clone() },
        }
    }
}

impl Manifest {
    pub fn version(&self) -> (r: &Version)
        ensures
            r == &self.package.version,
    {
        &self.package.version
    }

    pub fn name(&self) -> (r: &Name)
        ensures
            r == &self.package.name,
    {
        &self.package.name
    }

    /// The manifest invariant the parser enforces: at least one of a
    /// library target or a binary target must be declared, and no
    /// target path may escape the project root.
    pub fn validate(&self) -> (r: Result<(), Error>)
        ensures
            r is Ok <==> {
                &&& (self.targets.lib is Some || self.targets.bin@.len() > 0)
                &&& (self.targets.lib matches Some(l) ==> spec_is_subpath(l.path@))
                &&& (forall|i: int|
                    0 <= i < self.targets.bin@.len() ==> spec_is_subpath(
                        (#[trigger] self.targets.bin@[i]).path@,
                    ))
                &&& (forall|i: int|
                    0 <= i < self.targets.test@.len() ==> spec_is_subpath(
                        (#[trigger] self.targets.test@[i]).path@,
                    ))
            },
            r is Err ==> r->Err_0.kind == ErrorKind::InvalidManifest,
    {
        let has_lib = match &self.targets.lib {
            Some(_) => true,
            None => false,
        };
        if !(has_lib || self.targets.bin.len() > 0) {
            return Err(Error::of_kind(ErrorKind::InvalidManifest));
        }
        match &self.targets.lib {
            Some(l) => {
                if !is_subpath(l.path.as_str()) {
                    return Err(Error::of_kind(ErrorKind::InvalidManifest));
                }
            },
            None => {},
        }
        let mut i: usize = 0;
        while i < self.targets.bin.len()
            invariant
                i <= self.targets.bin@.len(),
                forall|k: int|
                    0 <= k < i ==> spec_is_subpath((#[trigger] self.targets.bin@[k]).path@),
            decreases self.targets.bin@.len() - i,
        {
            if !is_subpath(self.targets.bin[i].path.as_str()) {
                return Err(Error::of_kind(ErrorKind::InvalidManifest));
            }
            i = i + 1;
        }
        let mut i: usize = 0;
        while i < self.targets.test.len()
            invariant
                i <= self.targets.test@.len(),
                forall|k: int|
                    0 <= k < i ==> spec_is_subpath((#[trigger] self.targets.test@[k]).path@),
            decreases self.targets.test@.len() - i,
        {
            if !is_subpath(self.targets.test[i].path.as_str()) {
                return Err(Error::of_kind(ErrorKind::InvalidManifest));
            }
            i = i + 1;
        }
        Ok(())
    }

    /// The resolver queries this manifest implies: every dependency,
    /// and, when asked, every development dependency after them, each
    /// resolved against the default registry.
    pub fn deps(&self, def_index: &IndexRes, dev_deps: bool) -> (r: Vec<(PackageId, Constraint)>)
        ensures
            r@.len() == self.dependencies@.len() + (if dev_deps {
                self.dev_dependencies@.len() as int
            } else {
                0
            }),
            forall|j: int|
                0 <= j < self.dependencies@.len() ==> spec_into_dep(
                    self.dependencies@[j].1,
                    *def_index,
                    self.dependencies@[j].0,
                    (#[trigger] r@[j]).0,
                    r@[j].1,
                ),
            dev_deps ==> forall|j: int|
                0 <= j < self.dev_dependencies@.len() ==> spec_into_dep(
                    self.dev_dependencies@[j].1,
                    *def_index,
                    self.dev_dependencies@[j].0,
                    (#[trigger] r@[j + self.dependencies@.len()]).0,
                    r@[j + self.dependencies@.len()].1,
                ),
    {
        let mut out: Vec<(PackageId, Constraint)> = Vec::new();
        let mut i: usize = 0;
        while i < self.dependencies.len()
            invariant
                i <= self.dependencies@.len(),
                out@.len() == i,
                forall|j: int|
                    0 <= j < i ==> spec_into_dep(
                        self.dependencies@[j].1,
                        *def_index,
                        self.dependencies@[j].0,
                        (#[trigger] out@[j]).0,
                        out@[j].1,
                    ),
            decreases self.dependencies@.len() - i,
        {
            let (n, d) = &self.dependencies[i];
            let dd = d.duplicate();
            proof {
                lemma_dup_into_dep(self.dependencies@[i as int].1, dd);
            }
            let pair = dd.into_dep(def_index.duplicate(), n.duplicate());
            proof {
                lemma_into_dep_congruence(
                    self.dependencies@[i as int].1,
                    *def_index,
                    self.dependencies@[i as int].0,
                    pair.0,
                    pair.1,
                );
            }
            out.push(pair);
            i = i + 1;
        }
        if dev_deps {
            let base = self.dependencies.len();
            let mut i: usize = 0;
            while i < self.dev_dependencies.len()
                invariant
                    base == self.dependencies@.len(),
                    i <= self.dev_dependencies@.len(),
                    out@.len() == base + i,
                    forall|j: int|
                        0 <= j < base ==> spec_into_dep(
                            self.dependencies@[j].1,
                            *def_index,
                            self.dependencies@[j].0,
                            (#[trigger] out@[j]).0,
                            out@[j].1,
                        ),
                    forall|j: int|
                        0 <= j < i ==> spec_into_dep(
                            self.dev_dependencies@[j].1,
                            *def_index,
                            self.dev_dependencies@[j].0,
                            (#[trigger] out@[j + base]).0,
                            out@[j + base].1,
                        ),
                decreases self.dev_dependencies@.len() - i,
            {
                let (n, d) = &self.dev_dependencies[i];
                let dd = d.duplicate();
                proof {
                    lemma_dup_into_dep(self.dev_dependencies@[i as int].1, dd);
                }
                let pair = dd.into_dep(def_index.duplicate(), n.duplicate());
                proof {
                    lemma_into_dep_congruence(
                        self.dev_dependencies@[i as int].1,
                        *def_index,
                        self.dev_dependencies@[i as int].0,
                        pair.0,
                        pair.1,
                    );
                }
                out.push(pair);
                i = i + 1;
            }
        }
        out
    }
}


/// A duplicated request resolves the same way.
proof fn lemma_dup_into_dep(a: DepReq, b: DepReq)
    requires
        (match (a, b) {
            (DepReq::Registry(x), DepReq::Registry(y)) => x@ == y@,
            (
                DepReq::RegLong { con: x, registry: rx },
                DepReq::RegLong { con: y, registry: ry },
            ) => x@ == y@ && rx@ == ry@,
            (DepReq::Local { path: x }, DepReq::Local { path: y }) => x@ == y@,
            (DepReq::Git { git: x, tag: tx }, DepReq::Git { git: y, tag: ty }) => x@ == y@ && tx@
                == ty@,
            _ => false,
        }),
    ensures
        forall|def_index: IndexRes, n: Name, pid: PackageId, con: Constraint|
            #![trigger spec_into_dep(b, def_index, n, pid, con)]
            spec_into_dep(b, def_index, n, pid, con) ==> spec_into_dep(a, def_index, n, pid, con),
{
}

/// Resolving with duplicated registry and name values gives the same
/// identity values.
proof fn lemma_into_dep_congruence(
    d: DepReq,
    def_index: IndexRes,
    n: Name,
    pid: PackageId,
    con: Constraint,
)
    requires
        exists|di2: IndexRes, n2: Name|
            di2@ == def_index@ && n2@ == n@ && #[trigger] spec_into_dep(d, di2, n2, pid, con),
    ensures
        spec_into_dep(d, def_index, n, pid, con),
{
    let (di2, n2) = choose|di2: IndexRes, n2: Name|
        di2@ == def_index@ && n2@ == n@ && #[trigger] spec_into_dep(d, di2, n2, pid, con);
}


/// The position of the last occurrence of a character, if any.
pub open spec fn spec_rfind(s: Seq<char>, c: char) -> Option<int>
    decreases s.len(),
{
    if s.len() == 0 {
        None
    } else if s.last() == c {
        Some(s.len() - 1)
    } else {
        spec_rfind(s.drop_last(), c)
    }
}

/// What `spec_rfind` returns: the last position holding the character.
pub proof fn lemma_spec_rfind(s: Seq<char>, c: char)
    ensures
        (match spec_rfind(s, c) {
            Some(i) => 0 <= i < s.len() && s[i] == c && forall|j: int| i < j < s.len() ==> s[j]
                != c,
            None => forall|j: int| 0 <= j < s.len() ==> s[j] != c,
        }),
    decreases s.len(),
{
    if s.len() > 0 && s.last() != c {
        lemma_spec_rfind(s.drop_last(), c);
        match spec_rfind(s, c) {
            Some(i) => {
                assert(s.drop_last()[i] == s[i]);
                assert forall|j: int| i < j < s.len() implies s[j] != c by {
                    if j < s.len() - 1 {
                        assert(s.drop_last()[j] != c);
                        assert(s.drop_last()[j] == s[j]);
                    }
                }
            },
            None => {
                assert forall|j: int| 0 <= j < s.len() implies s[j] != c by {
                    if j < s.len() - 1 {
                        assert(s.drop_last()[j] != c);
                        assert(s.drop_last()[j] == s[j]);
                    }
                }
            },
        }
    }
}

fn rfind_char(s: &str, c: char) -> (r: Option<usize>)
    ensures
        (match r {
            Some(i) => spec_rfind(s@, c) == Some(i as int),
            None => spec_rfind(s@, c) is None,
        }),
{
    let len = s.unicode_len();
    let mut i: usize = len;
    proof {
        assert(s@.subrange(0, len as int) =~= s@);
    }
    while i > 0
        invariant
            len == s@.len(),
            i <= len,
            spec_rfind(s@, c) == spec_rfind(s@.subrange(0, i as int), c),
        decreases i,
    {
        proof {
            let sub = s@.subrange(0, i as int);
            assert(sub.last() == s@[i - 1]);
            assert(sub.drop_last() =~= s@.subrange(0, i as int - 1));
        }
        if s.get_char(i - 1) == c {
            return Some(i - 1);
        }
        i = i - 1;
    }
    proof {
        assert(s@.subrange(0, 0) =~= Seq::<char>::empty());
    }
    None
}

/// A string with every dot replaced by a path separator.
pub open spec fn spec_dots_to_slashes(s: Seq<char>) -> Seq<char> {
    s.map_values(
        |c: char|
            if c == '.' {
                '/'
            } else {
                c
            },
    )
}

fn dots_to_slashes(s: &str) -> (r: String)
    ensures
        r@ == spec_dots_to_slashes(s@),
{
    let len = s.unicode_len();
    let mut out = String::new();
    let mut i: usize = 0;
    proof {
        assert(out@ =~= spec_dots_to_slashes(s@).subrange(0, 0));
    }
    while i < len
        invariant
            len == s@.len(),
            i <= len,
            out@ == spec_dots_to_slashes(s@).subrange(0, i as int),
        decreases len - i,
    {
        let c = s.get_char(i);
        proof {
            assert(spec_dots_to_slashes(s@)[i as int] == (if s@[i as int] == '.' {
                '/'
            } else {
                s@[i as int]
            }));
            assert(spec_dots_to_slashes(s@).subrange(0, i as int + 1) =~= spec_dots_to_slashes(
                s@,
            ).subrange(0, i as int).push(spec_dots_to_slashes(s@)[i as int]));
        }
        if c == '.' {
            push_char(&mut out, '/');
        } else {
            push_char(&mut out, c);
        }
        i = i + 1;
    }
    proof {
        assert(spec_dots_to_slashes(s@).subrange(0, s@.len() as int) =~= spec_dots_to_slashes(
            s@,
        ));
    }
    out
}

/// A relative path that stays inside the project: nonempty, not
/// absolute, and free of `..` components.
pub open spec fn spec_is_subpath(s: Seq<char>) -> bool {
    &&& s.len() > 0
    &&& s[0] != '/'
    &&& (forall|i: int|
        0 <= i && i + 1 < s.len() && #[trigger] s[i] == '.' && s[i + 1] == '.' && (i == 0 || s[i
            - 1] == '/') ==> !(i + 2 == s.len() || s[i + 2] == '/'))
}

/// Checks that a path stays inside the project.
pub fn is_subpath(s: &str) -> (r: bool)
    ensures
        r == spec_is_subpath(s@),
{
    let len = s.unicode_len();
    if len == 0 {
        return false;
    }
    if s.get_char(0) == '/' {
        return false;
    }
    let mut i: usize = 0;
    while i < len - 1
        invariant
            len == s@.len(),
            len > 0,
            s@[0] != '/',
            i <= len,
            forall|k: int|
                0 <= k < i && k + 1 < s@.len() && #[trigger] s@[k] == '.' && s@[k + 1] == '.' && (
                k == 0 || s@[k - 1] == '/') ==> !(k + 2 == s@.len() || s@[k + 2] == '/'),
        decreases len - i,
    {
        if s.get_char(i) == '.' && s.get_char(i + 1) == '.' {
            let at_start = if i == 0 {
                true
            } else {
                s.get_char(i - 1) == '/'
            };
            if at_start {
                if i + 2 == len {
                    return false;
                }
                if s.get_char(i + 2) == '/' {
                    return false;
                }
            }
        }
        i = i + 1;
    }
    proof {
        assert forall|k: int|
            0 <= k && k + 1 < s@.len() && #[trigger] s@[k] == '.' && s@[k + 1] == '.' && (k == 0
                || s@[k - 1] == '/') implies !(k + 2 == s@.len() || s@[k + 2] == '/') by {
            assert(k < i);
        }
    }
    true
}

/// One way a binary target's main file may be found: probe for the
/// file named first; on a hit the compiler runs in the source
/// directory on the relative target.
#[derive(Debug, Clone)]
pub struct BinCandidate {
    /// The file whose existence decides this candidate.
    pub probe: String,
    /// The directory the compiler is invoked in.
    pub src: String,
    /// The target path handed to the compiler, relative to `src`.
    pub target: String,
}

pub open spec fn idr_ext() -> Seq<char> {
    seq!['.', 'i', 'd', 'r']
}

/// The direct candidate of a `main` that forms a subpath: probed under
/// the project root, with any extension swapped for the source
/// extension; the compiler runs in the file's own directory.
pub open spec fn direct_candidate_ok(main: Seq<char>, parent: Seq<char>, c: BinCandidate) -> bool {
    let stem = match spec_rfind(main, '.') {
        Some(i) => main.take(i),
        None => main,
    };
    let target = match spec_rfind(main, '.') {
        Some(i) => main,
        None => main + idr_ext(),
    };
    &&& c.probe@ == parent.push('/') + stem + idr_ext()
    &&& (match spec_rfind(main, '/') {
        Some(j) => c.src@ == parent.push('/') + main.take(j) && c.target@ == target.skip(j + 1),
        None => c.src@ == parent && c.target@ == target,
    })
}

/// The candidate list of a binary target, in probe order.
///
/// A `main` that forms a subpath is probed directly under the project
/// root first. A dotted `main` also names a module path: the whole
/// dotted path as a file under the target's source directory, then the
/// path without its last part, the last part naming the function to
/// run. A dot-free `main` is probed as a file under the source
/// directory.
pub open spec fn spec_bin_candidates(
    main: Seq<char>,
    path: Seq<char>,
    parent: Seq<char>,
    r: Seq<BinCandidate>,
) -> bool {
    let src = parent.push('/') + path;
    let direct = spec_is_subpath(main);
    let base: int = if direct {
        1
    } else {
        0
    };
    &&& (direct ==> r.len() >= 1 && direct_candidate_ok(main, parent, r[0]))
    &&& (match spec_rfind(main, '.') {
        Some(i) => {
            let before = spec_dots_to_slashes(main.take(i));
            let after = main.skip(i + 1);
            &&& r.len() == base + 2
            &&& r[base].probe@ == src.push('/') + before.push('/') + after + idr_ext()
            &&& r[base].src@ == src
            &&& r[base].target@ == before.push('/') + after + idr_ext()
            &&& r[base + 1].probe@ == src.push('/') + before + idr_ext()
            &&& r[base + 1].src@ == src
            &&& r[base + 1].target@ == before.push('.') + after
        },
        None => {
            &&& r.len() == base + 1
            &&& r[base].probe@ == src.push('/') + main + idr_ext()
            &&& r[base].src@ == src
            &&& r[base].target@ == main + idr_ext()
        },
    })
}

impl BinTarget {
    /// The files that may hold this target's main module, in the order
    /// they are probed.
    pub fn bin_candidates(&self, parent: &str) -> (r: Vec<BinCandidate>)
        ensures
            spec_bin_candidates(self.main@, self.path@, parent@, r@),
    {
        let mut src = String::from_str(parent);
        push_char(&mut src, '/');
        src.append(self.path.as_str());
        let mut out: Vec<BinCandidate> = Vec::new();
        let main_len = self.main.as_str().unicode_len();
        let dot = rfind_char(self.main.as_str(), '.');
        proof {
            lemma_spec_rfind(self.main@, '.');
            lemma_spec_rfind(self.main@, '/');
        }
        // a main that forms a subpath is probed under the project root
        if is_subpath(self.main.as_str()) {
            let stem = match dot {
                Some(i) => String::from_str(self.main.as_str().substring_char(0, i)),
                None => self.main.clone(),
            };
            let mut probe = String::from_str(parent);
            push_char(&mut probe, '/');
            probe.append(stem.as_str());
            probe.append(".idr");
            let target_all = match dot {
                Some(_) => self.main.clone(),
                None => {
                    let mut t = self.main.clone();
                    t.append(".idr");
                    t
                },
            };
            proof {
                reveal_strlit(".idr");
                assert(".idr"@ =~= idr_ext());
                assert(stem@ =~= (match spec_rfind(self.main@, '.') {
                    Some(i) => self.main@.take(i),
                    None => self.main@,
                }));
                assert(target_all@ =~= (match spec_rfind(self.main@, '.') {
                    Some(_) => self.main@,
                    None => self.main@ + idr_ext(),
                }));
                assert(probe@ =~= parent@.push('/') + stem@ + idr_ext());
            }
            match rfind_char(self.main.as_str(), '/') {
                Some(j) => {
                    let mut dir = String::from_str(parent);
                    push_char(&mut dir, '/');
                    dir.append(self.main.as_str().substring_char(0, j));
                    let tlen = target_all.as_str().unicode_len();
                    let rel = String::from_str(
                        target_all.as_str().substring_char(j + 1, tlen),
                    );
                    proof {
                        assert(dir@ =~= parent@.push('/') + self.main@.take(j as int));
                        assert(rel@ =~= target_all@.skip(j as int + 1));
                    }
                    out.push(BinCandidate { probe, src: dir, target: rel });
                },
                None => {
                    out.push(
                        BinCandidate { probe, src: String::from_str(parent), target: target_all },
                    );
                },
            }
        }
        let ghost base = out@;
        match dot {
            Some(i) => {
                let before_raw = self.main.as_str().substring_char(0, i);
                let after = self.main.as_str().substring_char(i + 1, main_len);
                proof {
                    assert(before_raw@ =~= self.main@.take(i as int));
                    assert(after@ =~= self.main@.skip(i as int + 1));
                }
                let before = dots_to_slashes(before_raw);
                let mut probe0 = src.clone();
                push_char(&mut probe0, '/');
                probe0.append(before.as_str());
                push_char(&mut probe0, '/');
                probe0.append(after);
                probe0.append(".idr");
                let mut target0 = before.clone();
                push_char(&mut target0, '/');
                target0.append(after);
                target0.append(".idr");
                let mut probe1 = src.clone();
                push_char(&mut probe1, '/');
                probe1.append(before.as_str());
                probe1.append(".idr");
                let mut target1 = before.clone();
                push_char(&mut target1, '.');
                target1.append(after);
                proof {
                    reveal_strlit(".idr");
                    assert(".idr"@ =~= idr_ext());
                    assert(probe0@ =~= src@.push('/') + before@.push('/') + after@ + idr_ext());
                    assert(target0@ =~= before@.push('/') + after@ + idr_ext());
                    assert(probe1@ =~= src@.push('/') + before@ + idr_ext());
                    assert(target1@ =~= before@.push('.') + after@);
                }
                out.push(BinCandidate { probe: probe0, src: src.clone(), target: target0 });
                out.push(BinCandidate { probe: probe1, src: src.clone(), target: target1 });
                proof {
                    assert(out@[base.len() as int] == out@[out@.len() - 2]);
                }
            },
            None => {
                let mut probe = src.clone();
                push_char(&mut probe, '/');
                probe.append(self.main.as_str());
                probe.append(".idr");
                let mut target = self.main.clone();
                target.append(".idr");
                proof {
                    reveal_strlit(".idr");
                    assert(".idr"@ =~= idr_ext());
                    assert(probe@ =~= src@.push('/') + self.main@ + idr_ext());
                    assert(target@ =~= self.main@ + idr_ext());
                }
                out.push(BinCandidate { probe, src: src.clone(), target });
            },
        }
        out
    }

    /// Resolves the target's main file: the first candidate whose probe
    /// the filesystem reported present wins. `present` answers, in
    /// order, whether each candidate's probe file exists.
    pub fn resolve_bin(&self, parent: &str, present: &Vec<bool>) -> (r: Option<(String, String)>)
        requires
            exists|cands: Seq<BinCandidate>|
                #[trigger] spec_bin_candidates(self.main@, self.path@, parent@, cands)
                    && present@.len() == cands.len(),
        ensures
            (match r {
                Some(pair) => exists|cands: Seq<BinCandidate>, k: int|
                    #![trigger cands[k]]
                    spec_bin_candidates(self.main@, self.path@, parent@, cands) && 0 <= k
                        < cands.len() && present@[k] && (forall|k2: int|
                        0 <= k2 < k ==> !present@[k2]) && pair.0@ == cands[k].src@ && pair.1@
                        == cands[k].target@,
                None => forall|k: int| 0 <= k < present@.len() ==> !present@[k],
            }),
    {
        let cands = self.bin_candidates(parent);
        proof {
            lemma_bin_candidates_len(self.main@, self.path@, parent@, cands@);
            let w = choose|w: Seq<BinCandidate>|
                #[trigger] spec_bin_candidates(self.main@, self.path@, parent@, w)
                    && present@.len() == w.len();
            lemma_bin_candidates_len(self.main@, self.path@, parent@, w);
        }
        let mut k: usize = 0;
        while k < cands.len()
            invariant
                spec_bin_candidates(self.main@, self.path@, parent@, cands@),
                present@.len() == cands@.len(),
                k <= cands@.len(),
                forall|k2: int| 0 <= k2 < k ==> !present@[k2],
            decreases cands@.len() - k,
        {
            if present[k] {
                let c = &cands[k];
                return Some((c.src.clone(), c.target.clone()));
            }
            k = k + 1;
        }
        None
    }
}

/// Every candidate list of the same target has the same length.
pub proof fn lemma_bin_candidates_len(
    main: Seq<char>,
    path: Seq<char>,
    parent: Seq<char>,
    r: Seq<BinCandidate>,
)
    requires
        spec_bin_candidates(main, path, parent, r),
    ensures
        r.len() == (if spec_is_subpath(main) {
            1int
        } else {
            0int
        }) + (match spec_rfind(main, '.') {
            Some(_) => 2int,
            None => 1int,
        }),
{
}

impl TestTarget {
    /// The binary target a test target builds: the same main, under a
    /// default name derived from it.
    pub fn as_bin_target(&self) -> (r: BinTarget)
        ensures
            r.main@ == self.main@,
            r.path@ == self.path@,
            (match self.name {
                Some(n) => r.name@ == n@,
                None => r.name@ == seq!['t', 'e', 's', 't', 's', '-'] + spec_dots_to_slashes_inv(
                    self.main@,
                ),
            }),
    {
        let name = match &self.name {
            Some(n) => n.clone(),
            None => {
                let mut s = String::from_str("tests-");
                let flat = underscores_for_seps(self.main.as_str());
                s.append(flat.as_str());
                proof {
                    reveal_strlit("tests-");
                    assert(s@ =~= seq!['t', 'e', 's', 't', 's', '-'] + spec_dots_to_slashes_inv(
                        self.main@,
                    ));
                }
                s
            },
        };
        BinTarget {
            name,
            path: self.path.clone(),
            main: self.main.clone(),
            idris_opts: duplicate_strings(&self.idris_opts),
        }
    }
}

/// A main path flattened into an identifier: separators and dots become
/// underscores.
pub open spec fn spec_dots_to_slashes_inv(s: Seq<char>) -> Seq<char> {
    s.map_values(
        |c: char|
            if c == '.' || c == '/' {
                '_'
            } else {
                c
            },
    )
}

fn underscores_for_seps(s: &str) -> (r: String)
    ensures
        r@ == spec_dots_to_slashes_inv(s@),
{
    let len = s.unicode_len();
    let mut out = String::new();
    let mut i: usize = 0;
    proof {
        assert(out@ =~= spec_dots_to_slashes_inv(s@).subrange(0, 0));
    }
    while i < len
        invariant
            len == s@.len(),
            i <= len,
            out@ == spec_dots_to_slashes_inv(s@).subrange(0, i as int),
        decreases len - i,
    {
        let c = s.get_char(i);
        proof {
            assert(spec_dots_to_slashes_inv(s@)[i as int] == (if s@[i as int] == '.' || s@[
                i as int] == '/' {
                '_'
            } else {
                s@[i as int]
            }));
            assert(spec_dots_to_slashes_inv(s@).subrange(0, i as int + 1)
                =~= spec_dots_to_slashes_inv(s@).subrange(0, i as int).push(
                spec_dots_to_slashes_inv(s@)[i as int],
            ));
        }
        if c == '.' || c == '/' {
            push_char(&mut out, '_');
        } else {
            push_char(&mut out, c);
        }
        i = i + 1;
    }
    proof {
        assert(spec_dots_to_slashes_inv(s@).subrange(0, s@.len() as int)
            =~= spec_dots_to_slashes_inv(s@));
    }
    out
}

/// Copies a list of option strings.
fn duplicate_strings(v: &Vec<String>) -> (r: Vec<String>)
    ensures
        r@.len() == v@.len(),
        forall|i: int| 0 <= i < v@.len() ==> #[trigger] r@[i]@ == v@[i]@,
{
    let mut out: Vec<String> = Vec::new();
    let mut i: usize = 0;
    while i < v.len()
        invariant
            i <= v@.len(),
            out@.len() == i,
            forall|k: int| 0 <= k < i ==> #[trigger] out@[k]@ == v@[k]@,
        decreases v@.len() - i,
    {
        out.push(v[i].clone());
        i = i + 1;
    }
    out
}

/// The module files a library target compiles: each dotted module name
/// as a path with the source extension.
pub fn lib_target_files(lib: &LibTarget) -> (r: Vec<String>)
    ensures
        r@.len() == lib.mods@.len(),
        forall|i: int|
            0 <= i < lib.mods@.len() ==> #[trigger] r@[i]@ == spec_dots_to_slashes(lib.mods@[i]@)
                + idr_ext(),
{
    let mut out: Vec<String> = Vec::new();
    let mut i: usize = 0;
    while i < lib.mods.len()
        invariant
            i <= lib.mods@.len(),
            out@.len() == i,
            forall|k: int|
                0 <= k < i ==> #[trigger] out@[k]@ == spec_dots_to_slashes(lib.mods@[k]@)
                    + idr_ext(),
        decreases lib.mods@.len() - i,
    {
        let mut f = dots_to_slashes(lib.mods[i].as_str());
        f.append(".idr");
        proof {
            reveal_strlit(".idr");
            assert(".idr"@ =~= idr_ext());
        }
        out.push(f);
        i = i + 1;
    }
    out
}

/// Where a compiled library module moves when a build finalizes: from
/// the scratch directory into the library directory, keeping its
/// module-relative path with the compiled extension.
pub fn lib_artifact_moves(lib: &LibTarget, layout: &crate::cache::OutputLayout) -> (r: Vec<
    (String, String),
>)
    ensures
        r@.len() == lib.mods@.len(),
        forall|i: int|
            0 <= i < lib.mods@.len() ==> (#[trigger] r@[i]).0@ == layout.build@.push('/')
                + spec_dots_to_slashes(lib.mods@[i]@) + ibc_ext() && r@[i].1@
                == layout.lib@.push('/') + spec_dots_to_slashes(lib.mods@[i]@) + ibc_ext(),
{
    let mut out: Vec<(String, String)> = Vec::new();
    let mut i: usize = 0;
    while i < lib.mods.len()
        invariant
            i <= lib.mods@.len(),
            out@.len() == i,
            forall|k: int|
                0 <= k < i ==> (#[trigger] out@[k]).0@ == layout.build@.push('/')
                    + spec_dots_to_slashes(lib.mods@[k]@) + ibc_ext() && out@[k].1@
                    == layout.lib@.push('/') + spec_dots_to_slashes(lib.mods@[k]@) + ibc_ext(),
        decreases lib.mods@.len() - i,
    {
        let rel = dots_to_slashes(lib.mods[i].as_str());
        let mut from = layout.build.clone();
        push_char(&mut from, '/');
        from.append(rel.as_str());
        from.append(".ibc");
        let mut to = layout.lib.clone();
        push_char(&mut to, '/');
        to.append(rel.as_str());
        to.append(".ibc");
        proof {
            reveal_strlit(".ibc");
            assert(".ibc"@ =~= ibc_ext());
            assert(from@ =~= layout.build@.push('/') + spec_dots_to_slashes(
                lib.mods@[i as int]@,
            ) + ibc_ext());
            assert(to@ =~= layout.lib@.push('/') + spec_dots_to_slashes(lib.mods@[i as int]@)
                + ibc_ext());
        }
        out.push((from, to));
        i = i + 1;
    }
    out
}

pub open spec fn ibc_ext() -> Seq<char> {
    seq!['.', 'i', 'b', 'c']
}

} // verus!
