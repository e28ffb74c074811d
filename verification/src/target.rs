//! Build targets and their normalized selection.
//!
//! A job builds a `Targets` list drawn from `{Lib, Bin(i), Test(i), Doc}`.
//! Normalization sorts the list, keeps each target once, and guarantees
//! that at most one `Lib` is present and that, whenever a `Test` or
//! `Doc` target is selected, the `Lib` target stands at position 0 —
//! the executor relies on the library of a job being built before its
//! dependent targets.

use vstd::prelude::*;

use vstd::multiset::Multiset;
use vstd::relations::{sorted_by, total_ordering};
use vstd::seq_lib::lemma_sorted_unique;

verus! {

/// A type of target that can be built for a package.
///
/// The `usize` of `Bin` and `Test` is the index of the corresponding
/// entry in the manifest's list of binary or test targets.
#[derive(Clone, Copy, PartialOrd, Ord, PartialEq, Debug, Eq, Hash, Structural)]
pub enum Target {
    /// Typecheck and build the package's library.
    Lib,
    /// Compile a standalone executable.
    Bin(usize),
    /// Compile a test executable; needs the library built first.
    Test(usize),
    /// Build documentation.
    Doc,
}

/// The canonical order on targets: `Lib`, then `Bin`s by index, then
/// `Test`s by index, then `Doc`.
pub open spec fn target_le(a: Target, b: Target) -> bool {
    match (a, b) {
        (Target::Lib, _) => true,
        (_, Target::Lib) => false,
        (Target::Bin(x), Target::Bin(y)) => x <= y,
        (Target::Bin(_), _) => true,
        (_, Target::Bin(_)) => false,
        (Target::Test(x), Target::Test(y)) => x <= y,
        (Target::Test(_), Target::Doc) => true,
        (Target::Doc, Target::Test(_)) => false,
        (Target::Doc, Target::Doc) => true,
    }
}

/// The canonical order as a first-class relation.
pub open spec fn target_leq() -> spec_fn(Target, Target) -> bool {
    |a: Target, b: Target| target_le(a, b)
}

/// Keeps everything that is not the `Lib` target.
pub open spec fn not_lib() -> spec_fn(Target) -> bool {
    |t: Target| !is_lib(t)
}

pub proof fn lemma_target_le_total()
    ensures
        total_ordering(target_leq()),
{
    let leq = target_leq();
    assert forall|a: Target, b: Target, c: Target| #[trigger] leq(a, b) && #[trigger] leq(
        b,
        c,
    ) implies #[trigger] leq(a, c) by {
        assert(target_le(a, b) && target_le(b, c) ==> target_le(a, c));
    }
}

fn target_le_exec(a: &Target, b: &Target) -> (r: bool)
    ensures
        r == target_le(*a, *b),
{
    match (a, b) {
        (Target::Lib, _) => true,
        (_, Target::Lib) => false,
        (Target::Bin(x), Target::Bin(y)) => *x <= *y,
        (Target::Bin(_), _) => true,
        (_, Target::Bin(_)) => false,
        (Target::Test(x), Target::Test(y)) => *x <= *y,
        (Target::Test(_), Target::Doc) => true,
        (Target::Doc, Target::Test(_)) => false,
        (Target::Doc, Target::Doc) => true,
    }
}

/// The big-endian bytes of the low 32 bits of an index.
pub open spec fn spec_be32(x: usize) -> Seq<u8> {
    seq![
        (((x as u32) >> 24) & 0xff) as u8,
        (((x as u32) >> 16) & 0xff) as u8,
        (((x as u32) >> 8) & 0xff) as u8,
        ((x as u32) & 0xff) as u8,
    ]
}

/// The five-byte tag of a target inside a fingerprint byte stream.
pub open spec fn spec_target_bytes(t: Target) -> Seq<u8> {
    match t {
        Target::Lib => seq![0u8, 0u8, 0u8, 0u8, 0u8],
        Target::Doc => seq![1u8, 0u8, 0u8, 0u8, 0u8],
        Target::Bin(x) => seq![
            2u8,
            spec_be32(x)[0],
            spec_be32(x)[1],
            spec_be32(x)[2],
            spec_be32(x)[3],
        ],
        Target::Test(x) => seq![
            3u8,
            spec_be32(x)[0],
            spec_be32(x)[1],
            spec_be32(x)[2],
            spec_be32(x)[3],
        ],
    }
}

impl Target {
    /// The five-byte encoding of this target, as hashed into a
    /// `BuildHash`.
    pub fn as_bytes(&self) -> (r: [u8; 5])
        requires
            (match *self {
                Target::Bin(x) => x <= u32::MAX,
                Target::Test(x) => x <= u32::MAX,
                _ => true,
            }),
        ensures
            r@ == spec_target_bytes(*self),
    {
        let r = match self {
            Target::Lib => [0u8, 0u8, 0u8, 0u8, 0u8],
            Target::Doc => [1u8, 0u8, 0u8, 0u8, 0u8],
            Target::Bin(x) => {
                let x = *x as u32;
                let b1: u8 = ((x >> 24) & 0xff) as u8;
                let b2: u8 = ((x >> 16) & 0xff) as u8;
                let b3: u8 = ((x >> 8) & 0xff) as u8;
                let b4: u8 = (x & 0xff) as u8;
                [2u8, b1, b2, b3, b4]
            },
            Target::Test(x) => {
                let x = *x as u32;
                let b1: u8 = ((x >> 24) & 0xff) as u8;
                let b2: u8 = ((x >> 16) & 0xff) as u8;
                let b3: u8 = ((x >> 8) & 0xff) as u8;
                let b4: u8 = (x & 0xff) as u8;
                [3u8, b1, b2, b3, b4]
            },
        };
        proof {
            assert(r@ =~= spec_target_bytes(*self));
        }
        r
    }
}

/// Distinct 32-bit indices have distinct big-endian encodings.
pub proof fn lemma_be32_injective(x: usize, y: usize)
    requires
        x <= u32::MAX,
        y <= u32::MAX,
        spec_be32(x) == spec_be32(y),
    ensures
        x == y,
{
    let a = x as u32;
    let b = y as u32;
    assert(spec_be32(x)[0] == spec_be32(y)[0]);
    assert(spec_be32(x)[1] == spec_be32(y)[1]);
    assert(spec_be32(x)[2] == spec_be32(y)[2]);
    assert(spec_be32(x)[3] == spec_be32(y)[3]);
    assert((((a >> 24) & 0xff) as u8 == ((b >> 24) & 0xff) as u8 && ((a >> 16) & 0xff) as u8 == ((b
        >> 16) & 0xff) as u8 && ((a >> 8) & 0xff) as u8 == ((b >> 8) & 0xff) as u8 && (a
        & 0xff) as u8 == (b & 0xff) as u8) ==> a == b) by (bit_vector);
}

/// Distinct in-range targets have distinct five-byte tags.
pub proof fn lemma_target_bytes_injective(a: Target, b: Target)
    requires
        (match a {
            Target::Bin(x) => x <= u32::MAX,
            Target::Test(x) => x <= u32::MAX,
            _ => true,
        }),
        (match b {
            Target::Bin(x) => x <= u32::MAX,
            Target::Test(x) => x <= u32::MAX,
            _ => true,
        }),
        spec_target_bytes(a) == spec_target_bytes(b),
    ensures
        a == b,
{
    assert(spec_target_bytes(a)[0] == spec_target_bytes(b)[0]);
    match (a, b) {
        (Target::Bin(x), Target::Bin(y)) => {
            assert(spec_be32(x) =~= spec_target_bytes(a).subrange(1, 5));
            assert(spec_be32(y) =~= spec_target_bytes(b).subrange(1, 5));
            lemma_be32_injective(x, y);
        },
        (Target::Test(x), Target::Test(y)) => {
            assert(spec_be32(x) =~= spec_target_bytes(a).subrange(1, 5));
            assert(spec_be32(y) =~= spec_target_bytes(b).subrange(1, 5));
            lemma_be32_injective(x, y);
        },
        _ => {},
    }
}

/// An ordered, de-duplicated selection of targets for one job.
#[derive(Clone, PartialEq, Debug, Eq, Hash)]
pub struct Targets(pub Vec<Target>);

pub open spec fn is_lib(t: Target) -> bool {
    t == Target::Lib
}

pub open spec fn is_test_or_doc(t: Target) -> bool {
    t matches Target::Test(_) || t == Target::Doc
}

pub open spec fn contains_lib(s: Seq<Target>) -> bool {
    exists|i: int| 0 <= i < s.len() && is_lib(s[i])
}

pub open spec fn contains_test_or_doc(s: Seq<Target>) -> bool {
    exists|i: int| 0 <= i < s.len() && is_test_or_doc(s[i])
}

/// A sequence with later repetitions of a value removed: each value
/// keeps its first occurrence.
pub open spec fn dedup_targets(s: Seq<Target>) -> Seq<Target>
    decreases s.len(),
{
    if s.len() == 0 {
        Seq::empty()
    } else {
        let rest = dedup_targets(s.drop_last());
        if s.drop_last().contains(s.last()) {
            rest
        } else {
            rest.push(s.last())
        }
    }
}

/// The normalized form of a target selection: one `Lib` in front when
/// the selection asks for a library (explicitly, or implicitly through
/// a `Test` or `Doc` target), followed by every other selected target
/// exactly once, in canonical order.
pub open spec fn spec_normalize_targets(s: Seq<Target>) -> Seq<Target> {
    let rest = dedup_targets(s.sort_by(target_leq()).filter(not_lib()));
    if contains_lib(s) || contains_test_or_doc(s) {
        seq![Target::Lib] + rest
    } else {
        rest
    }
}

impl Targets {
    /// Normalizes a target selection.
    pub fn new(ts: Vec<Target>) -> (r: Targets)
        ensures
            r.0@ == spec_normalize_targets(ts@),
    {
        let ghost orig = ts@;
        let sorted = sort_targets(ts);
        let mut has_lib = false;
        let mut has_test_or_doc = false;
        let mut i: usize = 0;
        while i < sorted.0.len()
            invariant
                i <= sorted.0@.len(),
                has_lib == exists|j: int| 0 <= j < i && is_lib(sorted.0@[j]),
                has_test_or_doc == exists|j: int| 0 <= j < i && is_test_or_doc(sorted.0@[j]),
            decreases sorted.0@.len() - i,
        {
            match sorted.0[i] {
                Target::Lib => {
                    has_lib = true;
                },
                Target::Test(_) => {
                    has_test_or_doc = true;
                },
                Target::Doc => {
                    has_test_or_doc = true;
                },
                Target::Bin(_) => {},
            }
            i = i + 1;
        }
        proof {
            orig.lemma_sort_by_ensures(target_leq());
            lemma_target_le_total();
            lemma_sorted_unique(sorted.0@, orig.sort_by(target_leq()), target_leq());
            assert(orig.sort_by(target_leq()) == sorted.0@);
            lemma_contains_carries_over(orig, sorted.0@);
        }
        // keep everything but the library target, in order
        let mut filtered: Vec<Target> = Vec::new();
        let mut i: usize = 0;
        proof {
            reveal(Seq::<Target>::filter);
            assert(sorted.0@.subrange(0, 0) =~= Seq::<Target>::empty());
            assert(filtered@ =~= sorted.0@.subrange(0, 0).filter(not_lib()));
        }
        while i < sorted.0.len()
            invariant
                i <= sorted.0@.len(),
                filtered@ == sorted.0@.subrange(0, i as int).filter(not_lib()),
            decreases sorted.0@.len() - i,
        {
            let t = sorted.0[i];
            proof {
                reveal(Seq::<Target>::filter);
                let sub = sorted.0@.subrange(0, i as int);
                let sub1 = sorted.0@.subrange(0, i as int + 1);
                assert(sub1.drop_last() =~= sub);
                assert(sub1.last() == sorted.0@[i as int]);
                assert(sub1.filter(not_lib()) == if !is_lib(sorted.0@[i as int]) {
                    sub.filter(not_lib()).push(sorted.0@[i as int])
                } else {
                    sub.filter(not_lib())
                });
            }
            match t {
                Target::Lib => {},
                _ => {
                    filtered.push(t);
                },
            }
            i = i + 1;
        }
        proof {
            assert(sorted.0@.subrange(0, sorted.0@.len() as int) =~= sorted.0@);
        }
        // keep only the first occurrence of each target
        let has_prefix = has_lib || has_test_or_doc;
        let mut out: Vec<Target> = Vec::new();
        if has_prefix {
            out.push(Target::Lib);
        }
        let ghost prefix = out@;
        let mut i: usize = 0;
        proof {
            assert(filtered@.subrange(0, 0) =~= Seq::<Target>::empty());
            assert(out@ =~= prefix + dedup_targets(filtered@.subrange(0, 0)));
        }
        while i < filtered.len()
            invariant
                prefix.len() == (if has_prefix {
                    1int
                } else {
                    0int
                }),
                i <= filtered@.len(),
                out@ == prefix + dedup_targets(filtered@.subrange(0, i as int)),
            decreases filtered@.len() - i,
        {
            let t = filtered[i];
            let ghost sub = filtered@.subrange(0, i as int);
            proof {
                let sub1 = filtered@.subrange(0, i as int + 1);
                assert(sub1.drop_last() =~= sub);
                assert(sub1.last() == filtered@[i as int]);
                lemma_dedup_contains(sub);
            }
            // scan the part after the prefix for an earlier occurrence
            let mut seen = false;
            let mut k: usize = if has_prefix {
                1
            } else {
                0
            };
            proof {
                assert(prefix.len() == (if has_prefix {
                    1int
                } else {
                    0int
                }));
            }
            proof {
                assert(forall|j: int|
                    prefix.len() <= j < out@.len() ==> #[trigger] out@[j] == dedup_targets(sub)[
                        j - prefix.len()]);
            }
            while k < out.len()
                invariant
                    prefix.len() == (if has_prefix {
                        1int
                    } else {
                        0int
                    }),
                    out@ == prefix + dedup_targets(sub),
                    k >= prefix.len(),
                    k <= out@.len(),
                    seen == exists|j: int|
                        prefix.len() <= j < k && #[trigger] out@[j] == t,
                    t == filtered@[i as int],
                    i < filtered@.len(),
                decreases out@.len() - k,
            {
                if out[k] == t {
                    seen = true;
                }
                proof {
                    if !seen {
                        assert(forall|j: int|
                            prefix.len() <= j < k + 1 ==> #[trigger] out@[j] != t);
                    }
                }
                k = k + 1;
            }
            proof {
                lemma_dedup_contains(sub);
                assert(seen == dedup_targets(sub).contains(t)) by {
                    if seen {
                        let j = choose|j: int|
                            prefix.len() <= j < out@.len() && #[trigger] out@[j] == t;
                        assert(dedup_targets(sub)[j - prefix.len()] == t);
                    }
                    if dedup_targets(sub).contains(t) {
                        let j = choose|j: int|
                            0 <= j < dedup_targets(sub).len() && dedup_targets(sub)[j] == t;
                        assert(out@[j + prefix.len()] == t);
                    }
                }
                assert(seen == sub.contains(t));
            }
            if !seen {
                out.push(t);
            }
            proof {
                let sub1 = filtered@.subrange(0, i as int + 1);
                assert(out@ =~= prefix + dedup_targets(sub1));
            }
            i = i + 1;
        }
        proof {
            assert(filtered@.subrange(0, filtered@.len() as int) =~= filtered@);
            assert(contains_lib(orig) == contains_lib(sorted.0@));
            assert(contains_test_or_doc(orig) == contains_test_or_doc(sorted.0@));
            assert(has_lib == contains_lib(sorted.0@));
            assert(has_test_or_doc == contains_test_or_doc(sorted.0@));
            if has_lib || has_test_or_doc {
                assert(out@ =~= spec_normalize_targets(orig));
            } else {
                assert(prefix =~= Seq::<Target>::empty());
                assert(out@ =~= spec_normalize_targets(orig));
            }
        }
        Targets(out)
    }
}

/// De-duplication keeps exactly the values of the sequence.
pub proof fn lemma_dedup_contains(s: Seq<Target>)
    ensures
        forall|t: Target| #[trigger] dedup_targets(s).contains(t) == s.contains(t),
    decreases s.len(),
{
    if s.len() > 0 {
        lemma_dedup_contains(s.drop_last());
        let d = dedup_targets(s);
        let d0 = dedup_targets(s.drop_last());
        assert forall|t: Target| #[trigger] d.contains(t) == s.contains(t) by {
            if d.contains(t) {
                let j = choose|j: int| 0 <= j < d.len() && d[j] == t;
                if j < d0.len() {
                    assert(d0.contains(t));
                    assert(s.drop_last().contains(t));
                    let k = choose|k: int|
                        0 <= k < s.drop_last().len() && s.drop_last()[k] == t;
                    assert(s[k] == t);
                } else {
                    assert(t == s.last());
                    assert(s[s.len() - 1] == t);
                }
                assert(s.contains(t));
            }
            if s.contains(t) {
                let k = choose|k: int| 0 <= k < s.len() && s[k] == t;
                if k < s.len() - 1 {
                    assert(s.drop_last()[k] == t);
                    assert(s.drop_last().contains(t));
                    assert(d0.contains(t));
                    let j = choose|j: int| 0 <= j < d0.len() && d0[j] == t;
                    assert(d[j] == t);
                } else {
                    if s.drop_last().contains(s.last()) {
                        assert(d0.contains(t));
                        let j = choose|j: int| 0 <= j < d0.len() && d0[j] == t;
                        assert(d[j] == t);
                    } else {
                        assert(d[d.len() - 1] == t);
                    }
                }
                assert(d.contains(t));
            }
        }
    }
}

/// De-duplication leaves no value twice.
pub proof fn lemma_dedup_distinct(s: Seq<Target>)
    ensures
        forall|i: int, j: int|
            0 <= i < j < dedup_targets(s).len() ==> dedup_targets(s)[i] != dedup_targets(s)[j],
    decreases s.len(),
{
    if s.len() > 0 {
        lemma_dedup_distinct(s.drop_last());
        lemma_dedup_contains(s.drop_last());
        let d = dedup_targets(s);
        let d0 = dedup_targets(s.drop_last());
        assert forall|i: int, j: int| 0 <= i < j < d.len() implies d[i] != d[j] by {
            if j < d0.len() {
                assert(d0[i] != d0[j]);
            } else {
                assert(d[j] == s.last());
                assert(!s.drop_last().contains(s.last()));
                assert(d[i] == d0[i]);
                if d[i] == s.last() {
                    assert(d0.contains(s.last()));
                }
            }
        }
    }
}

/// De-duplicating a sorted sequence leaves it sorted.
proof fn lemma_dedup_sorted(s: Seq<Target>)
    requires
        sorted_by(s, target_leq()),
    ensures
        sorted_by(dedup_targets(s), target_leq()),
    decreases s.len(),
{
    if s.len() > 0 {
        assert(sorted_by(s.drop_last(), target_leq())) by {
            assert(forall|i: int|
                0 <= i < s.drop_last().len() ==> #[trigger] s.drop_last()[i] == s[i]);
        }
        lemma_dedup_sorted(s.drop_last());
        lemma_dedup_contains(s.drop_last());
        let d = dedup_targets(s);
        let d0 = dedup_targets(s.drop_last());
        let leq = target_leq();
        if !s.drop_last().contains(s.last()) {
            assert forall|i: int, j: int| 0 <= i <= j < d.len() implies leq(d[i], d[j]) by {
                if j < d.len() - 1 {
                    assert(leq(d0[i], d0[j]));
                } else if i < j {
                    assert(d0.contains(d0[i]));
                    assert(s.drop_last().contains(d0[i]));
                    let k = choose|k: int|
                        0 <= k < s.drop_last().len() && s.drop_last()[k] == d0[i];
                    assert(leq(s[k], s.last()));
                } else {
                    assert(target_le(d[i], d[i]));
                }
            }
        }
    }
}

/// A sequence without repetitions de-duplicates to itself.
proof fn lemma_dedup_of_distinct(s: Seq<Target>)
    requires
        forall|i: int, j: int| 0 <= i < j < s.len() ==> s[i] != s[j],
    ensures
        dedup_targets(s) == s,
    decreases s.len(),
{
    if s.len() > 0 {
        assert(forall|i: int, j: int|
            0 <= i < j < s.drop_last().len() ==> s.drop_last()[i] != s.drop_last()[j]);
        lemma_dedup_of_distinct(s.drop_last());
        assert(!s.drop_last().contains(s.last())) by {
            if s.drop_last().contains(s.last()) {
                let k = choose|k: int|
                    0 <= k < s.drop_last().len() && s.drop_last()[k] == s.last();
                assert(s[k] == s[s.len() - 1]);
            }
        }
        assert(dedup_targets(s) =~= s);
    }
}

/// Two sequences with equal multisets contain the same targets.
proof fn lemma_contains_carries_over(a: Seq<Target>, b: Seq<Target>)
    requires
        a.to_multiset() == b.to_multiset(),
    ensures
        contains_lib(a) == contains_lib(b),
        contains_test_or_doc(a) == contains_test_or_doc(b),
{
    broadcast use vstd::seq_lib::group_to_multiset_ensures;

    assert forall|i: int| 0 <= i < a.len() implies b.contains(a[i]) by {
        assert(a.contains(a[i]));
        assert(a.to_multiset().count(a[i]) > 0);
    }
    assert forall|i: int| 0 <= i < b.len() implies a.contains(b[i]) by {
        assert(b.contains(b[i]));
        assert(b.to_multiset().count(b[i]) > 0);
    }
    if contains_lib(a) {
        let i = choose|i: int| 0 <= i < a.len() && is_lib(a[i]);
        assert(b.contains(a[i]));
    }
    if contains_lib(b) {
        let i = choose|i: int| 0 <= i < b.len() && is_lib(b[i]);
        assert(a.contains(b[i]));
    }
    if contains_test_or_doc(a) {
        let i = choose|i: int| 0 <= i < a.len() && is_test_or_doc(a[i]);
        assert(b.contains(a[i]));
    }
    if contains_test_or_doc(b) {
        let i = choose|i: int| 0 <= i < b.len() && is_test_or_doc(b[i]);
        assert(a.contains(b[i]));
    }
}

/// Selection sort by the canonical target order.
fn sort_targets(ts: Vec<Target>) -> (r: Targets)
    ensures
        sorted_by(r.0@, target_leq()),
        r.0@.to_multiset() == ts@.to_multiset(),
{
    broadcast use vstd::seq_lib::group_to_multiset_ensures;

    let mut rest = ts;
    let mut out: Vec<Target> = Vec::new();
    proof {
        assert(out@.to_multiset().add(rest@.to_multiset()) =~= ts@.to_multiset()) by {
            assert(out@.to_multiset() =~= Multiset::<Target>::empty());
        }
    }
    while rest.len() > 0
        invariant
            out@.to_multiset().add(rest@.to_multiset()) == ts@.to_multiset(),
            sorted_by(out@, target_leq()),
            forall|i: int, j: int|
                0 <= i < out@.len() && 0 <= j < rest@.len() ==> target_le(out@[i], rest@[j]),
        decreases rest@.len(),
    {
        let mut min: usize = 0;
        let mut k: usize = 1;
        while k < rest.len()
            invariant
                min < k || (k == 1 && min == 0),
                min < rest@.len(),
                k <= rest@.len(),
                rest@.len() > 0,
                forall|j: int| 0 <= j < k ==> target_le(rest@[min as int], rest@[j]),
            decreases rest@.len() - k,
        {
            proof {
                lemma_target_le_total();
            }
            if target_le_exec(&rest[k], &rest[min]) {
                min = k;
            }
            k = k + 1;
        }
        let ghost old_rest = rest@;
        let ghost old_out = out@;
        let t = rest.remove(min);
        out.push(t);
        proof {
            assert(t == old_rest[min as int]);
            assert(rest@ == old_rest.remove(min as int));
            vstd::seq_lib::to_multiset_remove::<Target>(old_rest, min as int);
            vstd::seq_lib::to_multiset_build::<Target>(old_out, t);
            assert(out@ == old_out.push(t));
            vstd::seq_lib::to_multiset_contains::<Target>(old_rest, t);
            assert(old_rest.contains(t));
            assert(out@.to_multiset().add(rest@.to_multiset()) =~= old_out.to_multiset().add(
                old_rest.to_multiset(),
            ));
            // the removed minimum bounds everything still unsorted
            assert(forall|j: int| 0 <= j < old_rest.len() ==> target_le(t, #[trigger] old_rest[j]));
            assert(forall|j: int|
                0 <= j < rest@.len() ==> #[trigger] rest@[j] == if j < min {
                    old_rest[j]
                } else {
                    old_rest[j + 1]
                });
            assert(forall|i: int| 0 <= i < old_out.len() ==> target_le(#[trigger] out@[i], t));
            assert(sorted_by(out@, target_leq())) by {
                let leq = target_leq();
                assert forall|i: int, j: int| 0 <= i <= j < out@.len() implies leq(
                    out@[i],
                    out@[j],
                ) by {
                    if j < out@.len() - 1 {
                        assert(leq(old_out[i], old_out[j]));
                    } else if i < j {
                        assert(target_le(out@[i], t));
                    } else {
                        assert(target_le(out@[i], out@[i]));
                    }
                }
            }
        }
    }
    proof {
        assert(rest@.to_multiset() =~= Multiset::<Target>::empty());
        assert(out@.to_multiset() =~= ts@.to_multiset());
    }
    Targets(out)
}

/// Every element of a filtered sequence occurs in the sequence itself.
proof fn lemma_filter_subset(s: Seq<Target>, pred: spec_fn(Target) -> bool)
    ensures
        forall|i: int|
            0 <= i < s.filter(pred).len() ==> s.contains(#[trigger] s.filter(pred)[i]),
    decreases s.len(),
{
    reveal(Seq::<Target>::filter);
    if s.len() > 0 {
        lemma_filter_subset(s.drop_last(), pred);
        let f = s.filter(pred);
        let f0 = s.drop_last().filter(pred);
        assert forall|i: int| 0 <= i < f.len() implies s.contains(#[trigger] f[i]) by {
            if i < f0.len() {
                assert(f[i] == f0[i]);
                assert(s.drop_last().contains(f0[i]));
                let j = choose|j: int| 0 <= j < s.drop_last().len() && s.drop_last()[j] == f0[i];
                assert(s[j] == f[i]);
            } else {
                assert(f[i] == s.last());
                assert(s[s.len() - 1] == s.last());
            }
        }
    }
}

/// Filtering a sorted sequence leaves it sorted.
proof fn lemma_filter_sorted(s: Seq<Target>, pred: spec_fn(Target) -> bool)
    requires
        sorted_by(s, target_leq()),
    ensures
        sorted_by(s.filter(pred), target_leq()),
    decreases s.len(),
{
    reveal(Seq::<Target>::filter);
    if s.len() > 0 {
        assert(sorted_by(s.drop_last(), target_leq())) by {
            assert(forall|i: int|
                0 <= i < s.drop_last().len() ==> #[trigger] s.drop_last()[i] == s[i]);
        }
        lemma_filter_sorted(s.drop_last(), pred);
        lemma_filter_subset(s.drop_last(), pred);
        let f = s.filter(pred);
        let f0 = s.drop_last().filter(pred);
        let leq = target_leq();
        if pred(s.last()) {
            assert forall|i: int, j: int| 0 <= i <= j < f.len() implies leq(f[i], f[j]) by {
                if j < f.len() - 1 {
                    assert(leq(f0[i], f0[j]));
                } else if i < f.len() - 1 {
                    assert(s.drop_last().contains(f0[i]));
                    let k = choose|k: int|
                        0 <= k < s.drop_last().len() && s.drop_last()[k] == f0[i];
                    assert(leq(s[k], s.last()));
                } else {
                    assert(target_le(f[i], f[i]));
                }
            }
        }
    }
}

/// A sequence whose elements all satisfy the predicate filters to itself.
proof fn lemma_filter_all(s: Seq<Target>, pred: spec_fn(Target) -> bool)
    requires
        forall|i: int| 0 <= i < s.len() ==> pred(#[trigger] s[i]),
    ensures
        s.filter(pred) == s,
    decreases s.len(),
{
    reveal(Seq::<Target>::filter);
    if s.len() == 0 {
    } else {
        assert(forall|i: int|
            0 <= i < s.drop_last().len() ==> pred(#[trigger] s.drop_last()[i]));
        lemma_filter_all(s.drop_last(), pred);
        assert(s.filter(pred) =~= s.drop_last().push(s.last()));
        assert(s.drop_last().push(s.last()) =~= s);
    }
}

/// A normalized selection has `Lib` nowhere but at position 0 — in
/// particular it holds at most one `Lib`.
pub proof fn lemma_targets_at_most_one_lib(s: Seq<Target>)
    ensures
        forall|i: int|
            1 <= i < spec_normalize_targets(s).len() ==> !is_lib(
                #[trigger] spec_normalize_targets(s)[i],
            ),
{
    broadcast use vstd::seq_lib::group_filter_ensures;

    let filtered = s.sort_by(target_leq()).filter(not_lib());
    let rest = dedup_targets(filtered);
    let r = spec_normalize_targets(s);
    lemma_dedup_contains(filtered);
    assert forall|i: int| 1 <= i < r.len() implies !is_lib(r[i]) by {
        let t = if contains_lib(s) || contains_test_or_doc(s) {
            rest[i - 1]
        } else {
            rest[i]
        };
        assert(rest.contains(t));
        assert(filtered.contains(t));
        let k = choose|k: int| 0 <= k < filtered.len() && filtered[k] == t;
        assert(not_lib()(filtered[k]));
    }
}

/// A normalized selection never lists a target twice.
pub proof fn lemma_targets_distinct(s: Seq<Target>)
    ensures
        forall|i: int, j: int|
            0 <= i < j < spec_normalize_targets(s).len() ==> spec_normalize_targets(s)[i]
                != spec_normalize_targets(s)[j],
{
    let filtered = s.sort_by(target_leq()).filter(not_lib());
    let rest = dedup_targets(filtered);
    let r = spec_normalize_targets(s);
    lemma_dedup_distinct(filtered);
    lemma_targets_at_most_one_lib(s);
    assert forall|i: int, j: int| 0 <= i < j < r.len() implies r[i] != r[j] by {
        if contains_lib(s) || contains_test_or_doc(s) {
            if i == 0 {
                assert(r[0] == Target::Lib);
                assert(!is_lib(r[j]));
            } else {
                assert(r[i] == rest[i - 1] && r[j] == rest[j - 1]);
            }
        } else {
            assert(r[i] == rest[i] && r[j] == rest[j]);
        }
    }
}

/// A normalized selection keeps exactly the selected targets: every
/// target of the input other than the library target appears, and
/// nothing else does.
pub proof fn lemma_targets_members(s: Seq<Target>, t: Target)
    requires
        !is_lib(t),
    ensures
        spec_normalize_targets(s).contains(t) == s.contains(t),
{
    broadcast use vstd::seq_lib::group_to_multiset_ensures;
    broadcast use vstd::seq_lib::group_filter_ensures;

    let leq = target_leq();
    let sorted = s.sort_by(leq);
    let filtered = sorted.filter(not_lib());
    let rest = dedup_targets(filtered);
    let r = spec_normalize_targets(s);
    lemma_target_le_total();
    s.lemma_sort_by_ensures(leq);
    lemma_dedup_contains(filtered);
    lemma_filter_subset(sorted, not_lib());
    assert(sorted.contains(t) == s.contains(t)) by {
        if sorted.contains(t) {
            assert(sorted.to_multiset().count(t) > 0);
        }
        if s.contains(t) {
            assert(s.to_multiset().count(t) > 0);
        }
    }
    assert(filtered.contains(t) == sorted.contains(t)) by {
        if filtered.contains(t) {
            let k = choose|k: int| 0 <= k < filtered.len() && filtered[k] == t;
            assert(sorted.contains(filtered[k]));
        }
        if sorted.contains(t) {
            let k = choose|k: int| 0 <= k < sorted.len() && sorted[k] == t;
            assert(not_lib()(sorted[k]));
            assert(filtered.contains(sorted[k]));
        }
    }
    assert(r.contains(t) == rest.contains(t)) by {
        if rest.contains(t) {
            let k = choose|k: int| 0 <= k < rest.len() && rest[k] == t;
            if contains_lib(s) || contains_test_or_doc(s) {
                assert(r[k + 1] == t);
            } else {
                assert(r[k] == t);
            }
            assert(r.contains(t));
        }
        if r.contains(t) {
            let k = choose|k: int| 0 <= k < r.len() && r[k] == t;
            if contains_lib(s) || contains_test_or_doc(s) {
                assert(k >= 1);
                assert(rest[k - 1] == t);
            } else {
                assert(rest[k] == t);
            }
            assert(rest.contains(t));
        }
    }
}

/// Whenever a selection asks for a `Test` or `Doc` target, its
/// normalized form starts with the `Lib` target.
pub proof fn lemma_targets_lib_first(s: Seq<Target>)
    ensures
        contains_test_or_doc(s) ==> spec_normalize_targets(s).len() > 0
            && spec_normalize_targets(s)[0] == Target::Lib,
{
}

/// Normalization is idempotent.
pub proof fn lemma_targets_idempotent(s: Seq<Target>)
    ensures
        spec_normalize_targets(spec_normalize_targets(s)) == spec_normalize_targets(s),
{
    broadcast use vstd::seq_lib::group_filter_ensures;

    let leq = target_leq();
    let sorted = s.sort_by(leq);
    let filtered = sorted.filter(not_lib());
    let rest = dedup_targets(filtered);
    let r = spec_normalize_targets(s);
    lemma_target_le_total();
    s.lemma_sort_by_ensures(leq);
    lemma_filter_sorted(sorted, not_lib());
    lemma_filter_subset(sorted, not_lib());
    lemma_contains_carries_over(s, sorted);
    lemma_dedup_contains(filtered);
    lemma_dedup_distinct(filtered);
    lemma_dedup_sorted(filtered);
    assert(forall|i: int| 0 <= i < filtered.len() ==> not_lib()(#[trigger] filtered[i]));
    assert forall|i: int| 0 <= i < rest.len() implies not_lib()(#[trigger] rest[i]) by {
        assert(rest.contains(rest[i]));
        assert(filtered.contains(rest[i]));
        let k = choose|k: int| 0 <= k < filtered.len() && filtered[k] == rest[i];
    }
    if contains_lib(s) || contains_test_or_doc(s) {
        assert(r == seq![Target::Lib] + rest);
        assert(sorted_by(r, leq)) by {
            assert(forall|i: int| 1 <= i < r.len() ==> r[i] == rest[i - 1]);
            assert(forall|j: int| 0 <= j < r.len() ==> target_le(Target::Lib, #[trigger] r[j]));
        }
        assert(contains_lib(r)) by {
            assert(is_lib(r[0]));
        }
        r.lemma_sort_by_ensures(leq);
        lemma_sorted_unique(r.sort_by(leq), r, leq);
        assert(r.sort_by(leq) == r);
        assert(r.filter(not_lib()) == rest) by {
            Seq::<Target>::filter_distributes_over_add(seq![Target::Lib], rest, not_lib());
            assert(seq![Target::Lib].filter(not_lib()) =~= Seq::<Target>::empty()) by {
                reveal_with_fuel(Seq::<Target>::filter, 2);
                assert(seq![Target::Lib].drop_last() =~= Seq::<Target>::empty());
                assert(!not_lib()(seq![Target::Lib].last()));
            }
            lemma_filter_all(rest, not_lib());
            assert(Seq::<Target>::empty() + rest =~= rest);
        }
        assert(dedup_targets(rest) == rest) by {
            lemma_dedup_of_distinct(rest);
        }
        assert(spec_normalize_targets(r) == seq![Target::Lib] + rest);
    } else {
        assert(r == rest);
        assert(!contains_lib(r));
        assert(!contains_test_or_doc(r)) by {
            if contains_test_or_doc(r) {
                let i = choose|i: int| 0 <= i < r.len() && is_test_or_doc(r[i]);
                assert(rest.contains(r[i]));
                assert(filtered.contains(r[i]));
                let k = choose|k: int| 0 <= k < filtered.len() && filtered[k] == r[i];
                assert(sorted.contains(filtered[k]));
                let j = choose|j: int| 0 <= j < sorted.len() && sorted[j] == filtered[k];
                assert(is_test_or_doc(sorted[j]));
                assert(contains_test_or_doc(sorted));
            }
        }
        r.lemma_sort_by_ensures(leq);
        lemma_sorted_unique(r.sort_by(leq), r, leq);
        lemma_filter_all(rest, not_lib());
        assert(dedup_targets(rest) == rest) by {
            lemma_dedup_of_distinct(rest);
        }
        assert(spec_normalize_targets(r) == rest);
    }
}


impl Targets {
    /// A copy with the same selection.
    pub fn duplicate(&self) -> (r: Targets)
        ensures
            r.0@ == self.0@,
    {
        let mut ts: Vec<Target> = Vec::new();
        let mut i: usize = 0;
        while i < self.0.len()
            invariant
                i <= self.0@.len(),
                ts@ == self.0@.subrange(0, i as int),
            decreases self.0@.len() - i,
        {
            proof {
                assert(self.0@.subrange(0, i as int + 1) =~= self.0@.subrange(0, i as int).push(
                    self.0@[i as int],
                ));
            }
            ts.push(self.0[i]);
            i = i + 1;
        }
        proof {
            assert(self.0@.subrange(0, self.0@.len() as int) =~= self.0@);
        }
        Targets(ts)
    }
}

} // verus!
