//! Project scaffolding and registry-facing text.
//!
//! Creating a project writes a manifest, a starter module and a
//! `.gitignore`; searching a registry renders the hits as manifest
//! lines; packaging a release names the tarball. The texts are fixed
//! here; the embedding program writes the files and queries the
//! registry.

use vstd::prelude::*;

use inflector::Inflector;

use crate::package::{spec_name_str, IndexRes, Name};
use crate::strutil::push_char;
use crate::version::{spec_version_str, Version};

verus! {

/// What a project name looks like as a module name. The conversion
/// depends on the characters alone.
pub uninterp spec fn pascal_of(s: Seq<char>) -> Seq<char>;

/// Relies on `Inflector::to_pascal_case`: a pure function of the
/// input string.
#[verifier::external_body]
fn to_pascal(s: &str) -> (r: String)
    ensures
        r@ == pascal_of(s@),
{
    s.to_pascal_case()
}

/// What a new project needs to know.
#[derive(Debug, Clone)]
pub struct NewCtx {
    pub path: String,
    pub name: Name,
    /// The author's name and mail address.
    pub author: Option<(String, String)>,
    pub bin: bool,
}

/// The author line of a fresh manifest: `name <mail>`, or nothing.
pub open spec fn spec_author_str(author: Option<(String, String)>) -> Seq<char> {
    match author {
        Some(a) => a.0@.push(' ').push('<') + a.1@.push('>'),
        None => Seq::empty(),
    }
}

/// The target block of a fresh manifest.
pub open spec fn spec_target_block(ctx: NewCtx) -> Seq<char> {
    if ctx.bin {
        "[[targets.bin]]\nname = \""@ + ctx.name.name@ + "\"\nmain = \"Main\"\n"@
    } else {
        "[targets.lib]\nmods = [\n    \""@ + pascal_of(ctx.name.name@) + "\"\n]\n"@
    }
}

/// The manifest a fresh project starts with.
pub open spec fn spec_manifest_text(ctx: NewCtx) -> Seq<char> {
    "[package]\nname = \""@ + spec_name_str(ctx.name@) + "\"\nversion = \"0.1.0\"\nauthors = ["@
        + spec_author_str(ctx.author) + "]\n\n[dependencies]\n\n"@ + spec_target_block(ctx)
}

/// Renders the manifest of a fresh project.
pub fn manifest_text(ctx: &NewCtx) -> (r: String)
    ensures
        r@ == spec_manifest_text(*ctx),
{
    let mut s = String::new();
    s.append("[package]\nname = \"");
    let rendered = ctx.name.render();
    s.append(rendered.as_str());
    s.append("\"\nversion = \"0.1.0\"\nauthors = [");
    match &ctx.author {
        Some(a) => {
            s.append(a.0.as_str());
            push_char(&mut s, ' ');
            push_char(&mut s, '<');
            s.append(a.1.as_str());
            push_char(&mut s, '>');
        },
        None => {},
    }
    s.append("]\n\n[dependencies]\n\n");
    if ctx.bin {
        s.append("[[targets.bin]]\nname = \"");
        s.append(ctx.name.name.as_str());
        s.append("\"\nmain = \"Main\"\n");
    } else {
        s.append("[targets.lib]\nmods = [\n    \"");
        let pascal = to_pascal(ctx.name.name.as_str());
        s.append(pascal.as_str());
        s.append("\"\n]\n");
    }
    proof {
        assert(s@ =~= spec_manifest_text(*ctx));
    }
    s
}

/// The starter module of a fresh library.
pub open spec fn spec_lib_module_text(name: Name) -> Seq<char> {
    "module "@ + pascal_of(name.name@)
        + "\n\nhello : IO ()\nhello = do\n  print \"Hello, world!\"\n"@
}

/// Renders the starter library module.
pub fn lib_module_text(name: &Name) -> (r: String)
    ensures
        r@ == spec_lib_module_text(*name),
{
    let mut s = String::new();
    s.append("module ");
    let pascal = to_pascal(name.name.as_str());
    s.append(pascal.as_str());
    s.append("\n\nhello : IO ()\nhello = do\n  print \"Hello, world!\"\n");
    proof {
        assert(s@ =~= spec_lib_module_text(*name));
    }
    s
}

/// The starter main module of a fresh program.
pub fn main_module_text() -> (r: String)
    ensures
        r@ == "module Main\n\nmain : IO ()\nmain = do\n  print \"Hello, world!\"\n"@,
{
    String::from_str("module Main\n\nmain : IO ()\nmain = do\n  print \"Hello, world!\"\n")
}

/// What a fresh project ignores.
pub fn gitignore_text() -> (r: String)
    ensures
        r@ == "/target\n*.ibc\n*.o\n"@,
{
    String::from_str("/target\n*.ibc\n*.o\n")
}

/// One registry hit: a name, the best version, and where it came from.
pub struct SearchHit {
    pub name: Name,
    pub version: Version,
    pub index: IndexRes,
    /// Whether the hit came from the default registry.
    pub default_index: bool,
}

/// One rendered search hit: a manifest line the user can paste.
pub open spec fn spec_hit_str(h: SearchHit) -> Seq<char> {
    if h.default_index {
        seq!['"'] + spec_name_str(h.name@) + "\" = \""@ + spec_version_str(h.version) + seq!['"']
    } else {
        seq!['"'] + spec_name_str(h.name@) + "\" = \"{ version = "@ + spec_version_str(h.version)
            + ", index = "@ + crate::package::spec_index_str(h.index@) + " }\""@
    }
}

/// The first `k` hits, rendered one per line.
pub open spec fn spec_search_text(hits: Seq<SearchHit>, k: int) -> Seq<char>
    decreases k,
{
    if k <= 0 {
        Seq::empty()
    } else {
        spec_search_text(hits, k - 1) + spec_hit_str(hits[k - 1]).push('\n')
    }
}

/// Renders registry search hits, one manifest line each.
pub fn search(hits: &Vec<SearchHit>) -> (r: String)
    ensures
        r@ == spec_search_text(hits@, hits@.len() as int),
{
    let mut s = String::new();
    let mut i: usize = 0;
    while i < hits.len()
        invariant
            i <= hits@.len(),
            s@ == spec_search_text(hits@, i as int),
        decreases hits@.len() - i,
    {
        let h = &hits[i];
        push_char(&mut s, '"');
        let rendered = h.name.render();
        s.append(rendered.as_str());
        if h.default_index {
            s.append("\" = \"");
            h.version.append_to(&mut s);
            push_char(&mut s, '"');
        } else {
            s.append("\" = \"{ version = ");
            h.version.append_to(&mut s);
            s.append(", index = ");
            let ix = h.index.render();
            s.append(ix.as_str());
            s.append(" }\"");
        }
        push_char(&mut s, '\n');
        proof {
            assert(s@ =~= spec_search_text(hits@, i as int + 1));
        }
        i = i + 1;
    }
    s
}

/// The tarball a packaged release is written to, under `target/`.
pub open spec fn spec_archive_name(name: Name, version: Version) -> Seq<char> {
    "target/"@ + name.group@.push('_') + name.name@.push('-') + spec_version_str(version)
        + ".tar.gz"@
}

/// Names the tarball of a packaged release.
pub fn package_archive_name(name: &Name, version: &Version) -> (r: String)
    ensures
        r@ == spec_archive_name(*name, *version),
{
    let mut s = String::new();
    s.append("target/");
    s.append(name.group.as_str());
    push_char(&mut s, '_');
    s.append(name.name.as_str());
    push_char(&mut s, '-');
    version.append_to(&mut s);
    s.append(".tar.gz");
    proof {
        assert(s@ =~= spec_archive_name(*name, *version));
    }
    s
}

} // verus!
