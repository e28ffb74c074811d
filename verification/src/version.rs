//! Semantic versions with prerelease ordering.
//!
//! A version is `major.minor.patch` plus an optional prerelease tag, a
//! dot-separated list of identifiers. Precedence follows semantic
//! versioning: numeric identifiers order numerically and come before
//! alphanumeric ones, which order lexically; a version with a prerelease
//! tag precedes the same version without one; when one tag is a strict
//! prefix of another, the shorter one comes first.

use vstd::prelude::*;

use crate::strutil::{append_dec, push_char, spec_dec};

verus! {

/// One identifier of a prerelease tag: purely numeric, or alphanumeric.
#[derive(Debug, Clone, PartialEq, Eq, Hash)]
pub enum PreIdent {
    Num(u64),
    Alpha(String),
}

/// A semantic version.
#[derive(Debug, Clone, PartialEq, Eq, Hash)]
pub struct Version {
    pub major: u64,
    pub minor: u64,
    pub patch: u64,
    pub pre: Vec<PreIdent>,
}

pub open spec fn ident_eq(a: PreIdent, b: PreIdent) -> bool {
    match (a, b) {
        (PreIdent::Num(x), PreIdent::Num(y)) => x == y,
        (PreIdent::Alpha(s), PreIdent::Alpha(t)) => s@ == t@,
        _ => false,
    }
}

pub open spec fn idents_eq(a: Seq<PreIdent>, b: Seq<PreIdent>) -> bool {
    a.len() == b.len() && forall|i: int| 0 <= i < a.len() ==> ident_eq(a[i], b[i])
}

pub open spec fn version_eq(a: Version, b: Version) -> bool {
    a.major == b.major && a.minor == b.minor && a.patch == b.patch && idents_eq(a.pre@, b.pre@)
}

/// Lexicographic order on character sequences, by code point.
pub open spec fn str_lt(a: Seq<char>, b: Seq<char>) -> bool
    decreases a.len(),
{
    if b.len() == 0 {
        false
    } else if a.len() == 0 {
        true
    } else if a[0] == b[0] {
        str_lt(a.skip(1), b.skip(1))
    } else {
        (a[0] as u32) < (b[0] as u32)
    }
}

/// Order on prerelease identifiers: numeric before alphanumeric,
/// numeric by value, alphanumeric lexically.
pub open spec fn ident_lt(a: PreIdent, b: PreIdent) -> bool {
    match (a, b) {
        (PreIdent::Num(x), PreIdent::Num(y)) => x < y,
        (PreIdent::Num(_), PreIdent::Alpha(_)) => true,
        (PreIdent::Alpha(_), PreIdent::Num(_)) => false,
        (PreIdent::Alpha(s), PreIdent::Alpha(t)) => str_lt(s@, t@),
    }
}

/// Lexicographic order on whole prerelease tags; a strict prefix
/// precedes its extensions.
pub open spec fn idents_lt(a: Seq<PreIdent>, b: Seq<PreIdent>) -> bool
    decreases a.len(),
{
    if b.len() == 0 {
        false
    } else if a.len() == 0 {
        true
    } else if ident_eq(a[0], b[0]) {
        idents_lt(a.skip(1), b.skip(1))
    } else {
        ident_lt(a[0], b[0])
    }
}

/// Order on prerelease tags as carried by versions: an empty tag (a
/// release) comes after every nonempty tag.
pub open spec fn pre_lt(a: Seq<PreIdent>, b: Seq<PreIdent>) -> bool {
    if a.len() == 0 {
        false
    } else if b.len() == 0 {
        true
    } else {
        idents_lt(a, b)
    }
}

/// Strict precedence order on versions.
pub open spec fn version_lt(a: Version, b: Version) -> bool {
    if a.major != b.major {
        a.major < b.major
    } else if a.minor != b.minor {
        a.minor < b.minor
    } else if a.patch != b.patch {
        a.patch < b.patch
    } else {
        pre_lt(a.pre@, b.pre@)
    }
}

pub open spec fn version_le(a: Version, b: Version) -> bool {
    version_lt(a, b) || version_eq(a, b)
}

impl Version {
    /// A version without a prerelease tag.
    pub fn release(major: u64, minor: u64, patch: u64) -> (r: Version)
        ensures
            r.major == major,
            r.minor == minor,
            r.patch == patch,
            r.pre@.len() == 0,
    {
        Version { major, minor, patch, pre: Vec::new() }
    }

    pub fn is_prerelease(&self) -> (r: bool)
        ensures
            r == (self.pre@.len() != 0),
    {
        self.pre.len() != 0
    }

    pub fn eq_version(&self, other: &Version) -> (r: bool)
        ensures
            r == version_eq(*self, *other),
    {
        if self.major != other.major || self.minor != other.minor || self.patch != other.patch {
            return false;
        }
        idents_equal(&self.pre, &other.pre)
    }

    pub fn lt_version(&self, other: &Version) -> (r: bool)
        ensures
            r == version_lt(*self, *other),
    {
        if self.major != other.major {
            return self.major < other.major;
        }
        if self.minor != other.minor {
            return self.minor < other.minor;
        }
        if self.patch != other.patch {
            return self.patch < other.patch;
        }
        if self.pre.len() == 0 {
            return false;
        }
        if other.pre.len() == 0 {
            return true;
        }
        idents_less(&self.pre, &other.pre)
    }

    pub fn le_version(&self, other: &Version) -> (r: bool)
        ensures
            r == version_le(*self, *other),
    {
        if self.lt_version(other) {
            true
        } else {
            self.eq_version(other)
        }
    }

    /// The rendering `major.minor.patch[-pre]`, appended to `out`.
    pub fn append_to(&self, out: &mut String)
        ensures
            final(out)@ == old(out)@ + spec_version_str(*self),
    {
        append_dec(out, self.major);
        push_char(out, '.');
        append_dec(out, self.minor);
        push_char(out, '.');
        append_dec(out, self.patch);
        if self.pre.len() > 0 {
            push_char(out, '-');
            let mut i: usize = 0;
            while i < self.pre.len()
                invariant
                    i <= self.pre@.len(),
                    self.pre@.len() > 0,
                    out@ == old(out)@ + spec_dec(self.major as nat).push('.') + spec_dec(
                        self.minor as nat,
                    ).push('.') + spec_dec(self.patch as nat).push('-') + spec_pre_str_upto(
                        self.pre@,
                        i as int,
                    ),
                decreases self.pre@.len() - i,
            {
                if i > 0 {
                    push_char(out, '.');
                }
                match &self.pre[i] {
                    PreIdent::Num(x) => {
                        append_dec(out, *x);
                    },
                    PreIdent::Alpha(s) => {
                        out.append(s.as_str());
                    },
                }
                i = i + 1;
            }
            proof {
                assert(spec_pre_str_upto(self.pre@, self.pre@.len() as int) == spec_pre_str(
                    self.pre@,
                ));
                assert(old(out)@ + spec_dec(self.major as nat).push('.') + spec_dec(
                    self.minor as nat,
                ).push('.') + spec_dec(self.patch as nat).push('-') + spec_pre_str(self.pre@)
                    =~= old(out)@ + spec_version_str(*self));
            }
        } else {
            proof {
                assert(old(out)@ + spec_dec(self.major as nat).push('.') + spec_dec(
                    self.minor as nat,
                ).push('.') + spec_dec(self.patch as nat) =~= old(out)@ + spec_version_str(
                    *self,
                ));
            }
        }
    }

    /// The rendering `major.minor.patch[-pre]` as a fresh string.
    pub fn render(&self) -> (r: String)
        ensures
            r@ == spec_version_str(*self),
    {
        let mut s = String::new();
        self.append_to(&mut s);
        proof {
            assert(Seq::<char>::empty() + spec_version_str(*self) =~= spec_version_str(*self));
        }
        s
    }
}

/// The rendering of one prerelease identifier.
pub open spec fn spec_ident_str(p: PreIdent) -> Seq<char> {
    match p {
        PreIdent::Num(x) => spec_dec(x as nat),
        PreIdent::Alpha(s) => s@,
    }
}

/// The first `i` identifiers of a prerelease tag, dot-separated.
pub open spec fn spec_pre_str_upto(pre: Seq<PreIdent>, i: int) -> Seq<char>
    decreases i,
{
    if i <= 0 {
        Seq::empty()
    } else if i == 1 {
        spec_ident_str(pre[0])
    } else {
        spec_pre_str_upto(pre, i - 1).push('.') + spec_ident_str(pre[i - 1])
    }
}

pub open spec fn spec_pre_str(pre: Seq<PreIdent>) -> Seq<char> {
    spec_pre_str_upto(pre, pre.len() as int)
}

/// The rendering of a whole version.
pub open spec fn spec_version_str(v: Version) -> Seq<char> {
    let base = spec_dec(v.major as nat).push('.') + spec_dec(v.minor as nat).push('.') + spec_dec(
        v.patch as nat,
    );
    if v.pre@.len() == 0 {
        base
    } else {
        base.push('-') + spec_pre_str(v.pre@)
    }
}

fn char_at(s: &String, i: usize) -> (c: char)
    requires
        i < s@.len(),
    ensures
        c == s@[i as int],
{
    s.as_str().get_char(i)
}

pub fn str_less(a: &String, b: &String) -> (r: bool)
    ensures
        r == str_lt(a@, b@),
{
    let a_len = a.as_str().unicode_len();
    let b_len = b.as_str().unicode_len();
    let mut i: usize = 0;
    proof {
        assert(a@.skip(0) =~= a@);
        assert(b@.skip(0) =~= b@);
    }
    while i < a_len && i < b_len
        invariant
            a_len == a@.len(),
            b_len == b@.len(),
            i <= a_len,
            i <= b_len,
            str_lt(a@, b@) == str_lt(a@.skip(i as int), b@.skip(i as int)),
        decreases a_len - i,
    {
        let ca = char_at(a, i);
        let cb = char_at(b, i);
        proof {
            assert(a@.skip(i as int)[0] == a@[i as int]);
            assert(b@.skip(i as int)[0] == b@[i as int]);
            assert(a@.skip(i as int).skip(1) =~= a@.skip(i as int + 1));
            assert(b@.skip(i as int).skip(1) =~= b@.skip(i as int + 1));
        }
        if ca != cb {
            return (ca as u32) < (cb as u32);
        }
        i = i + 1;
    }
    proof {
        if i >= b_len {
            assert(b@.skip(i as int).len() == 0);
        } else {
            assert(a@.skip(i as int).len() == 0);
            assert(b@.skip(i as int).len() > 0);
        }
    }
    i < b_len
}

fn ident_equal(a: &PreIdent, b: &PreIdent) -> (r: bool)
    ensures
        r == ident_eq(*a, *b),
{
    match (a, b) {
        (PreIdent::Num(x), PreIdent::Num(y)) => *x == *y,
        (PreIdent::Alpha(s), PreIdent::Alpha(t)) => *s == *t,
        _ => false,
    }
}

fn ident_less(a: &PreIdent, b: &PreIdent) -> (r: bool)
    ensures
        r == ident_lt(*a, *b),
{
    match (a, b) {
        (PreIdent::Num(x), PreIdent::Num(y)) => *x < *y,
        (PreIdent::Num(_), PreIdent::Alpha(_)) => true,
        (PreIdent::Alpha(_), PreIdent::Num(_)) => false,
        (PreIdent::Alpha(s), PreIdent::Alpha(t)) => str_less(s, t),
    }
}

fn idents_equal(a: &Vec<PreIdent>, b: &Vec<PreIdent>) -> (r: bool)
    ensures
        r == idents_eq(a@, b@),
{
    if a.len() != b.len() {
        return false;
    }
    let mut i: usize = 0;
    while i < a.len()
        invariant
            a@.len() == b@.len(),
            i <= a@.len(),
            forall|j: int| 0 <= j < i ==> ident_eq(a@[j], b@[j]),
        decreases a@.len() - i,
    {
        if !ident_equal(&a[i], &b[i]) {
            return false;
        }
        i = i + 1;
    }
    true
}

fn idents_less(a: &Vec<PreIdent>, b: &Vec<PreIdent>) -> (r: bool)
    ensures
        r == idents_lt(a@, b@),
{
    let mut i: usize = 0;
    proof {
        assert(a@.skip(0) =~= a@);
        assert(b@.skip(0) =~= b@);
    }
    while i < a.len() && i < b.len()
        invariant
            i <= a@.len(),
            i <= b@.len(),
            idents_lt(a@, b@) == idents_lt(a@.skip(i as int), b@.skip(i as int)),
        decreases a@.len() - i,
    {
        proof {
            assert(a@.skip(i as int)[0] == a@[i as int]);
            assert(b@.skip(i as int)[0] == b@[i as int]);
            assert(a@.skip(i as int).skip(1) =~= a@.skip(i as int + 1));
            assert(b@.skip(i as int).skip(1) =~= b@.skip(i as int + 1));
        }
        if !ident_equal(&a[i], &b[i]) {
            return ident_less(&a[i], &b[i]);
        }
        i = i + 1;
    }
    proof {
        if i >= b@.len() {
            assert(b@.skip(i as int).len() == 0);
        } else {
            assert(a@.skip(i as int).len() == 0);
            assert(b@.skip(i as int).len() > 0);
        }
    }
    i < b.len()
}


/// No two character sequences are each less than the other, and two
/// sequences with neither less are equal.
pub proof fn lemma_str_order(a: Seq<char>, b: Seq<char>)
    ensures
        !(str_lt(a, b) && str_lt(b, a)),
        str_lt(a, b) || str_lt(b, a) || a == b,
    decreases a.len(),
{
    if b.len() == 0 || a.len() == 0 {
        if a.len() == 0 && b.len() == 0 {
            assert(a =~= b);
        }
    } else if a[0] == b[0] {
        lemma_str_order(a.skip(1), b.skip(1));
        if !str_lt(a, b) && !str_lt(b, a) {
            assert(a.skip(1) == b.skip(1));
            assert(a.len() == b.len());
            assert forall|i: int| 0 <= i < a.len() implies a[i] == b[i] by {
                if i >= 1 {
                    assert(a[i] == a.skip(1)[i - 1]);
                    assert(b[i] == b.skip(1)[i - 1]);
                }
            }
            assert(a =~= b);
        }
    } else {
        assert((a[0] as u32) != (b[0] as u32)) by {
            vstd::utf8::char_u32_cast(a[0], a[0] as u32);
            vstd::utf8::char_u32_cast(b[0], b[0] as u32);
        }
    }
}

pub proof fn lemma_str_lt_trans(a: Seq<char>, b: Seq<char>, c: Seq<char>)
    requires
        str_lt(a, b),
        str_lt(b, c),
    ensures
        str_lt(a, c),
    decreases a.len(),
{
    if a.len() == 0 || b.len() == 0 || c.len() == 0 {
    } else if a[0] == b[0] && b[0] == c[0] {
        lemma_str_lt_trans(a.skip(1), b.skip(1), c.skip(1));
    }
}

/// Identifier order is asymmetric and total up to `ident_eq`, which is
/// a congruence for it.
pub proof fn lemma_ident_order(a: PreIdent, b: PreIdent)
    ensures
        !(ident_lt(a, b) && ident_lt(b, a)),
        ident_lt(a, b) || ident_lt(b, a) || ident_eq(a, b),
        ident_eq(a, b) ==> !ident_lt(a, b),
{
    match (a, b) {
        (PreIdent::Alpha(s), PreIdent::Alpha(t)) => {
            lemma_str_order(s@, t@);
        },
        _ => {},
    }
}

pub proof fn lemma_ident_lt_trans(a: PreIdent, b: PreIdent, c: PreIdent)
    requires
        ident_lt(a, b),
        ident_lt(b, c),
    ensures
        ident_lt(a, c),
{
    match (a, b, c) {
        (PreIdent::Alpha(s), PreIdent::Alpha(t), PreIdent::Alpha(u)) => {
            lemma_str_lt_trans(s@, t@, u@);
        },
        _ => {},
    }
}

/// Equal identifiers compare alike against any third identifier.
pub proof fn lemma_ident_congruence(a: PreIdent, b: PreIdent, c: PreIdent)
    requires
        ident_eq(a, b),
    ensures
        ident_lt(a, c) == ident_lt(b, c),
        ident_lt(c, a) == ident_lt(c, b),
        ident_eq(a, c) == ident_eq(b, c),
{
}

pub proof fn lemma_idents_order(a: Seq<PreIdent>, b: Seq<PreIdent>)
    ensures
        !(idents_lt(a, b) && idents_lt(b, a)),
        idents_lt(a, b) || idents_lt(b, a) || idents_eq(a, b),
        idents_eq(a, b) ==> !idents_lt(a, b),
    decreases a.len(),
{
    if b.len() == 0 || a.len() == 0 {
    } else {
        lemma_ident_order(a[0], b[0]);
        lemma_idents_order(a.skip(1), b.skip(1));
        if ident_eq(a[0], b[0]) {
            assert(idents_eq(a.skip(1), b.skip(1)) ==> idents_eq(a, b)) by {
                if idents_eq(a.skip(1), b.skip(1)) {
                    assert(forall|i: int|
                        1 <= i < a.len() ==> ident_eq(#[trigger] a[i], b[i]) == ident_eq(
                            a.skip(1)[i - 1],
                            b.skip(1)[i - 1],
                        ));
                }
            }
            assert(idents_eq(a, b) ==> idents_eq(a.skip(1), b.skip(1))) by {
                if idents_eq(a, b) {
                    assert(forall|i: int|
                        0 <= i < a.skip(1).len() ==> ident_eq(
                            #[trigger] a.skip(1)[i],
                            b.skip(1)[i],
                        ) == ident_eq(a[i + 1], b[i + 1]));
                }
            }
        } else {
            assert(!idents_eq(a, b)) by {
                assert(a.len() == b.len() && !ident_eq(a[0], b[0]) ==> !idents_eq(a, b));
            }
        }
    }
}

pub proof fn lemma_idents_lt_trans(a: Seq<PreIdent>, b: Seq<PreIdent>, c: Seq<PreIdent>)
    requires
        idents_lt(a, b),
        idents_lt(b, c),
    ensures
        idents_lt(a, c),
    decreases a.len(),
{
    if a.len() == 0 || b.len() == 0 || c.len() == 0 {
    } else {
        lemma_ident_order(a[0], b[0]);
        lemma_ident_order(b[0], c[0]);
        lemma_ident_order(a[0], c[0]);
        if ident_eq(a[0], b[0]) && ident_eq(b[0], c[0]) {
            lemma_idents_lt_trans(a.skip(1), b.skip(1), c.skip(1));
            lemma_ident_congruence(a[0], b[0], c[0]);
        } else if ident_eq(a[0], b[0]) {
            lemma_ident_congruence(a[0], b[0], c[0]);
        } else if ident_eq(b[0], c[0]) {
            lemma_ident_congruence(b[0], c[0], a[0]);
        } else {
            lemma_ident_lt_trans(a[0], b[0], c[0]);
            if ident_eq(a[0], c[0]) {
                lemma_ident_congruence(a[0], c[0], b[0]);
            }
        }
    }
}

/// Sequences of equal identifiers compare alike against any third one.
pub proof fn lemma_idents_congruence(a: Seq<PreIdent>, b: Seq<PreIdent>, c: Seq<PreIdent>)
    requires
        idents_eq(a, b),
    ensures
        idents_lt(a, c) == idents_lt(b, c),
        idents_lt(c, a) == idents_lt(c, b),
    decreases a.len(),
{
    if a.len() == 0 || c.len() == 0 {
    } else {
        assert(ident_eq(a[0], b[0]));
        lemma_ident_congruence(a[0], b[0], c[0]);
        assert(idents_eq(a.skip(1), b.skip(1))) by {
            assert(forall|i: int|
                0 <= i < a.skip(1).len() ==> ident_eq(#[trigger] a.skip(1)[i], b.skip(1)[i])
                    == ident_eq(a[i + 1], b[i + 1]));
        }
        lemma_idents_congruence(a.skip(1), b.skip(1), c.skip(1));
        lemma_ident_order(a[0], b[0]);
        lemma_ident_order(a[0], c[0]);
        lemma_ident_order(b[0], c[0]);
    }
}

/// Version precedence is a total order up to `version_eq`.
pub proof fn lemma_version_order(a: Version, b: Version)
    ensures
        !(version_lt(a, b) && version_lt(b, a)),
        version_lt(a, b) || version_lt(b, a) || version_eq(a, b),
        version_eq(a, b) ==> !version_lt(a, b) && !version_lt(b, a),
{
    lemma_idents_order(a.pre@, b.pre@);
    lemma_idents_order(b.pre@, a.pre@);
    if idents_eq(a.pre@, b.pre@) {
        assert(idents_eq(b.pre@, a.pre@)) by {
            assert(forall|i: int|
                0 <= i < b.pre@.len() ==> ident_eq(#[trigger] b.pre@[i], a.pre@[i]) == ident_eq(
                    a.pre@[i],
                    b.pre@[i],
                ));
        }
    }
}

pub proof fn lemma_version_lt_trans(a: Version, b: Version, c: Version)
    requires
        version_lt(a, b),
        version_lt(b, c),
    ensures
        version_lt(a, c),
{
    if a.major == c.major && a.minor == c.minor && a.patch == c.patch && a.major == b.major
        && a.minor == b.minor && a.patch == b.patch {
        if a.pre@.len() != 0 && b.pre@.len() != 0 && c.pre@.len() != 0 {
            lemma_idents_lt_trans(a.pre@, b.pre@, c.pre@);
        }
    }
}

/// Equal versions compare alike against any third version.
pub proof fn lemma_version_congruence(a: Version, b: Version, c: Version)
    requires
        version_eq(a, b),
    ensures
        version_lt(a, c) == version_lt(b, c),
        version_lt(c, a) == version_lt(c, b),
{
    lemma_idents_congruence(a.pre@, b.pre@, c.pre@);
}

pub proof fn lemma_version_le_trans(a: Version, b: Version, c: Version)
    requires
        version_le(a, b),
        version_le(b, c),
    ensures
        version_le(a, c),
{
    if version_lt(a, b) && version_lt(b, c) {
        lemma_version_lt_trans(a, b, c);
    } else if version_eq(a, b) {
        lemma_version_congruence(a, b, c);
        if version_eq(b, c) {
            lemma_version_order(a, b);
            lemma_version_order(b, c);
            lemma_version_order(a, c);
            assert(idents_eq(a.pre@, c.pre@)) by {
                assert(forall|i: int|
                    0 <= i < a.pre@.len() ==> ident_eq(#[trigger] a.pre@[i], b.pre@[i]));
                assert(forall|i: int|
                    0 <= i < a.pre@.len() ==> (ident_eq(a.pre@[i], b.pre@[i]) && ident_eq(
                        b.pre@[i],
                        #[trigger] c.pre@[i],
                    )) ==> ident_eq(a.pre@[i], c.pre@[i]));
            }
        }
    } else {
        lemma_version_congruence(b, c, a);
    }
}

} // verus!
