//! Content-addressed build fingerprints.
//!
//! A `BuildHash` identifies what-to-build: it digests the source
//! identity, the fingerprints of the resolved dependencies (sorted), and
//! the selected targets, and is rendered as lowercase hex. The byte
//! stream fed to the digest frames every variable-length part with its
//! length, so distinct inputs always produce distinct streams; equal
//! streams therefore mean equal inputs, and the digest maps equal
//! streams to equal hashes.

use vstd::prelude::*;

use crate::strutil::{hex_char, push_char, spec_hex_char};
use sha2::Digest;
use crate::target::{spec_target_bytes, Target, Targets};
use crate::version::{lemma_str_lt_trans, lemma_str_order, str_lt};
use vstd::multiset::Multiset;
use vstd::relations::{sorted_by, total_ordering};
use vstd::seq_lib::lemma_sorted_unique;

verus! {

/// The lowercase-hex rendering of a byte string.
pub open spec fn spec_hexify(data: Seq<u8>) -> Seq<char>
    decreases data.len(),
{
    if data.len() == 0 {
        Seq::empty()
    } else {
        seq![
            spec_hex_char((data.first() / 16) as u8),
            spec_hex_char((data.first() % 16) as u8),
        ] + spec_hexify(data.drop_first())
    }
}

/// Turns a digest into its lowercase-hex string.
pub fn hexify_hash(hash: &[u8]) -> (r: String)
    ensures
        r@ == spec_hexify(hash@),
{
    let mut s = String::new();
    let mut i: usize = 0;
    proof {
        assert(hash@.skip(0) =~= hash@);
        assert(Seq::<char>::empty() + spec_hexify(hash@) =~= spec_hexify(hash@));
    }
    while i < hash.len()
        invariant
            i <= hash@.len(),
            s@ + spec_hexify(hash@.skip(i as int)) == spec_hexify(hash@),
        decreases hash@.len() - i,
    {
        let byte = hash[i];
        proof {
            assert(hash@.skip(i as int).first() == hash@[i as int]);
            assert(hash@.skip(i as int).drop_first() =~= hash@.skip(i as int + 1));
            assert(s@.push(spec_hex_char((byte / 16) as u8)).push(
                spec_hex_char((byte % 16) as u8),
            ) + spec_hexify(hash@.skip(i as int + 1)) =~= s@ + spec_hexify(
                hash@.skip(i as int),
            ));
        }
        push_char(&mut s, hex_char(byte / 16));
        push_char(&mut s, hex_char(byte % 16));
        i = i + 1;
    }
    proof {
        assert(hash@.skip(hash@.len() as int) =~= Seq::<u8>::empty());
        assert(s@ + Seq::<char>::empty() =~= s@);
    }
    s
}

/// What the SHA-256 digest of a byte string is. The digest is a pure
/// function of its input, so the name stands for its result.
pub uninterp spec fn spec_sha256(data: Seq<u8>) -> Seq<u8>;

/// Relies on `sha2::Sha256::digest`: a pure function of the input
/// bytes whose output is 32 bytes long.
#[verifier::external_body]
pub(crate) fn sha256(data: &Vec<u8>) -> (r: Vec<u8>)
    ensures
        r@ == spec_sha256(data@),
        r@.len() == 32,
{
    sha2::Sha256::digest(data.as_slice()).to_vec()
}

/// The big-endian bytes of a 64-bit length.
pub open spec fn spec_be64(x: u64) -> Seq<u8> {
    seq![
        ((x >> 56) & 0xff) as u8,
        ((x >> 48) & 0xff) as u8,
        ((x >> 40) & 0xff) as u8,
        ((x >> 32) & 0xff) as u8,
        ((x >> 24) & 0xff) as u8,
        ((x >> 16) & 0xff) as u8,
        ((x >> 8) & 0xff) as u8,
        (x & 0xff) as u8,
    ]
}

pub proof fn lemma_be64_injective(x: u64, y: u64)
    requires
        spec_be64(x) == spec_be64(y),
    ensures
        x == y,
{
    assert(spec_be64(x)[0] == spec_be64(y)[0]);
    assert(spec_be64(x)[1] == spec_be64(y)[1]);
    assert(spec_be64(x)[2] == spec_be64(y)[2]);
    assert(spec_be64(x)[3] == spec_be64(y)[3]);
    assert(spec_be64(x)[4] == spec_be64(y)[4]);
    assert(spec_be64(x)[5] == spec_be64(y)[5]);
    assert(spec_be64(x)[6] == spec_be64(y)[6]);
    assert(spec_be64(x)[7] == spec_be64(y)[7]);
    assert((((x >> 56) & 0xff) as u8 == ((y >> 56) & 0xff) as u8 && ((x >> 48) & 0xff) as u8 == ((y
        >> 48) & 0xff) as u8 && ((x >> 40) & 0xff) as u8 == ((y >> 40) & 0xff) as u8 && ((x >> 32)
        & 0xff) as u8 == ((y >> 32) & 0xff) as u8 && ((x >> 24) & 0xff) as u8 == ((y >> 24)
        & 0xff) as u8 && ((x >> 16) & 0xff) as u8 == ((y >> 16) & 0xff) as u8 && ((x >> 8)
        & 0xff) as u8 == ((y >> 8) & 0xff) as u8 && (x & 0xff) as u8 == (y & 0xff) as u8) ==> x
        == y) by (bit_vector);
}

fn push_be64(out: &mut Vec<u8>, x: u64)
    ensures
        final(out)@ == old(out)@ + spec_be64(x),
{
    out.push(((x >> 56) & 0xff) as u8);
    out.push(((x >> 48) & 0xff) as u8);
    out.push(((x >> 40) & 0xff) as u8);
    out.push(((x >> 32) & 0xff) as u8);
    out.push(((x >> 24) & 0xff) as u8);
    out.push(((x >> 16) & 0xff) as u8);
    out.push(((x >> 8) & 0xff) as u8);
    out.push((x & 0xff) as u8);
    proof {
        assert(out@ =~= old(out)@ + spec_be64(x));
    }
}

/// A fingerprint of what-to-build, rendered as 64 lowercase-hex
/// characters.
#[derive(Debug, Clone, PartialEq, Eq, Hash)]
pub struct BuildHash(pub String);

/// A hex digit as it appears in a rendered hash.
pub open spec fn is_hex_char(c: char) -> bool {
    (48 <= c as u32 && c as u32 <= 57) || (97 <= c as u32 && c as u32 <= 102)
}

/// A well-formed rendered hash: 64 lowercase-hex characters.
pub open spec fn hash_wf(h: Seq<char>) -> bool {
    h.len() == 64 && forall|i: int| 0 <= i < h.len() ==> is_hex_char(#[trigger] h[i])
}

/// The bytes of a rendered hash, as fed into a parent fingerprint.
pub open spec fn hex_bytes(h: Seq<char>) -> Seq<u8> {
    crate::strutil::low_bytes(h)
}

/// The dependency block of a fingerprint: each dependency hash, in
/// order, as bytes.
pub open spec fn concat_dep_bytes(deps: Seq<Seq<char>>) -> Seq<u8>
    decreases deps.len(),
{
    if deps.len() == 0 {
        Seq::empty()
    } else {
        hex_bytes(deps.first()) + concat_dep_bytes(deps.drop_first())
    }
}

/// The target block of a fingerprint: each five-byte tag, in order.
pub open spec fn concat_target_bytes(ts: Seq<Target>) -> Seq<u8>
    decreases ts.len(),
{
    if ts.len() == 0 {
        Seq::empty()
    } else {
        spec_target_bytes(ts.first()) + concat_target_bytes(ts.drop_first())
    }
}

/// The byte stream a `BuildHash` digests: the source identity, the
/// dependency hashes and the target tags, each block preceded by its
/// length.
pub open spec fn spec_fingerprint_bytes(
    identity: Seq<u8>,
    deps: Seq<Seq<char>>,
    ts: Seq<Target>,
) -> Seq<u8> {
    spec_be64(identity.len() as u64) + identity + spec_be64(deps.len() as u64)
        + concat_dep_bytes(deps) + spec_be64(ts.len() as u64) + concat_target_bytes(ts)
}

/// A target index small enough for its five-byte tag.
pub open spec fn target_in_range(t: Target) -> bool {
    match t {
        Target::Bin(x) => x <= u32::MAX,
        Target::Test(x) => x <= u32::MAX,
        _ => true,
    }
}

/// The order in which dependency hashes are fed to the digest.
pub open spec fn str_le(a: Seq<char>, b: Seq<char>) -> bool {
    str_lt(a, b) || a == b
}

pub open spec fn str_leq() -> spec_fn(Seq<char>, Seq<char>) -> bool {
    |a: Seq<char>, b: Seq<char>| str_le(a, b)
}

pub proof fn lemma_str_le_total()
    ensures
        total_ordering(str_leq()),
{
    let leq = str_leq();
    assert forall|a: Seq<char>, b: Seq<char>| #[trigger] leq(a, b) && #[trigger] leq(
        b,
        a,
    ) implies a == b by {
        lemma_str_order(a, b);
    }
    assert forall|a: Seq<char>, b: Seq<char>, c: Seq<char>| #[trigger] leq(a, b) && #[trigger] leq(
        b,
        c,
    ) implies #[trigger] leq(a, c) by {
        if str_lt(a, b) && str_lt(b, c) {
            lemma_str_lt_trans(a, b, c);
        }
    }
    assert forall|a: Seq<char>, b: Seq<char>| !(#[trigger] leq(a, b)) implies leq(b, a) by {
        lemma_str_order(a, b);
    }
}

/// The views of the dependency hashes handed to `BuildHash::new`.
pub open spec fn dep_views(deps: Seq<BuildHash>) -> Seq<Seq<char>> {
    deps.map_values(|d: BuildHash| d.0@)
}

/// The value of a fingerprint over its three inputs, before sorting of
/// the dependency hashes.
pub open spec fn spec_build_hash(
    identity: Seq<u8>,
    deps: Seq<Seq<char>>,
    ts: Seq<Target>,
) -> Seq<char> {
    spec_hexify(spec_sha256(spec_fingerprint_bytes(identity, deps.sort_by(str_leq()), ts)))
}

impl BuildHash {
    /// Fingerprints one build: the source identity, the fingerprints of
    /// its resolved dependencies, and its normalized targets.
    pub fn new(identity: &Vec<u8>, dep_hashes: &Vec<BuildHash>, targets: &Targets) -> (r:
        BuildHash)
        requires
            identity@.len() <= u64::MAX,
            dep_hashes@.len() <= u64::MAX,
            targets.0@.len() <= u64::MAX,
            forall|i: int| 0 <= i < targets.0@.len() ==> target_in_range(#[trigger] targets.0@[i]),
        ensures
            r.0@ == spec_build_hash(identity@, dep_views(dep_hashes@), targets.0@),
            hash_wf(r.0@),
    {
        let sorted = sort_hashes(dep_hashes);
        proof {
            lemma_str_le_total();
            dep_views(dep_hashes@).lemma_sort_by_ensures(str_leq());
            lemma_sorted_unique(
                dep_views(sorted@),
                dep_views(dep_hashes@).sort_by(str_leq()),
                str_leq(),
            );
        }
        let mut buf: Vec<u8> = Vec::new();
        push_be64(&mut buf, identity.len() as u64);
        let ghost part1 = buf@;
        let mut i: usize = 0;
        while i < identity.len()
            invariant
                i <= identity@.len(),
                buf@ == part1 + identity@.subrange(0, i as int),
            decreases identity@.len() - i,
        {
            proof {
                assert(identity@.subrange(0, i as int + 1) =~= identity@.subrange(
                    0,
                    i as int,
                ).push(identity@[i as int]));
            }
            buf.push(identity[i]);
            i = i + 1;
        }
        proof {
            assert(identity@.subrange(0, identity@.len() as int) =~= identity@);
        }
        push_be64(&mut buf, sorted.len() as u64);
        let ghost part2 = buf@;
        let ghost dvs = dep_views(sorted@);
        let mut i: usize = 0;
        proof {
            assert(dvs.skip(0) =~= dvs);
            assert(part2 + Seq::<u8>::empty() =~= part2);
        }
        while i < sorted.len()
            invariant
                i <= sorted@.len(),
                dvs == dep_views(sorted@),
                buf@ + concat_dep_bytes(dvs.skip(i as int)) == part2 + concat_dep_bytes(dvs),
            decreases sorted@.len() - i,
        {
            let ghost pre = buf@;
            push_hash_bytes(&mut buf, &sorted[i]);
            proof {
                assert(dvs.skip(i as int).first() == dvs[i as int]);
                assert(dvs[i as int] == sorted@[i as int].0@);
                assert(dvs.skip(i as int).drop_first() =~= dvs.skip(i as int + 1));
                assert(buf@ + concat_dep_bytes(dvs.skip(i as int + 1)) =~= pre + concat_dep_bytes(
                    dvs.skip(i as int),
                ));
            }
            i = i + 1;
        }
        proof {
            assert(dvs.skip(sorted@.len() as int) =~= Seq::<Seq<char>>::empty());
            assert(buf@ + Seq::<u8>::empty() =~= buf@);
        }
        push_be64(&mut buf, targets.0.len() as u64);
        let ghost part3 = buf@;
        let mut i: usize = 0;
        proof {
            assert(targets.0@.skip(0) =~= targets.0@);
            assert(part3 + Seq::<u8>::empty() =~= part3);
        }
        while i < targets.0.len()
            invariant
                i <= targets.0@.len(),
                forall|j: int|
                    0 <= j < targets.0@.len() ==> target_in_range(#[trigger] targets.0@[j]),
                buf@ + concat_target_bytes(targets.0@.skip(i as int)) == part3
                    + concat_target_bytes(targets.0@),
            decreases targets.0@.len() - i,
        {
            let ghost pre = buf@;
            let tb = targets.0[i].as_bytes();
            let mut k: usize = 0;
            while k < 5
                invariant
                    k <= 5,
                    tb@.len() == 5,
                    tb@ == spec_target_bytes(targets.0@[i as int]),
                    i < targets.0@.len(),
                    buf@ == pre + tb@.subrange(0, k as int),
                decreases 5 - k,
            {
                proof {
                    assert(tb@.subrange(0, k as int + 1) =~= tb@.subrange(0, k as int).push(
                        tb@[k as int],
                    ));
                }
                buf.push(tb[k]);
                k = k + 1;
            }
            proof {
                assert(tb@.subrange(0, 5) =~= tb@);
                assert(targets.0@.skip(i as int).first() == targets.0@[i as int]);
                assert(targets.0@.skip(i as int).drop_first() =~= targets.0@.skip(i as int + 1));
                assert(buf@ + concat_target_bytes(targets.0@.skip(i as int + 1)) =~= pre
                    + concat_target_bytes(targets.0@.skip(i as int)));
            }
            i = i + 1;
        }
        proof {
            assert(targets.0@.skip(targets.0@.len() as int) =~= Seq::<Target>::empty());
            assert(buf@ + Seq::<u8>::empty() =~= buf@);
            assert(buf@ =~= spec_fingerprint_bytes(
                identity@,
                dep_views(dep_hashes@).sort_by(str_leq()),
                targets.0@,
            ));
        }
        let digest = sha256(&buf);
        let hex = hexify_hash(digest.as_slice());
        proof {
            lemma_hexify_wf(digest@);
        }
        BuildHash(hex)
    }
}

/// Appends the bytes of a rendered hash.
fn push_hash_bytes(out: &mut Vec<u8>, h: &BuildHash)
    ensures
        final(out)@ == old(out)@ + hex_bytes(h.0@),
{
    crate::strutil::push_str_bytes(out, h.0.as_str());
}

/// The hex rendering of a 32-byte digest is well formed.
pub proof fn lemma_hexify_wf(data: Seq<u8>)
    ensures
        spec_hexify(data).len() == 2 * data.len(),
        forall|i: int|
            0 <= i < spec_hexify(data).len() ==> is_hex_char(#[trigger] spec_hexify(data)[i]),
    decreases data.len(),
{
    if data.len() > 0 {
        lemma_hexify_wf(data.drop_first());
        let h = spec_hexify(data);
        assert forall|i: int| 0 <= i < h.len() implies is_hex_char(#[trigger] h[i]) by {
            if i >= 2 {
                assert(h[i] == spec_hexify(data.drop_first())[i - 2]);
            } else {
                assert(is_hex_char(spec_hex_char((data.first() / 16) as u8)));
                assert(is_hex_char(spec_hex_char((data.first() % 16) as u8)));
            }
        }
    }
}

/// Selection sort of dependency hashes into digest order.
fn sort_hashes(deps: &Vec<BuildHash>) -> (r: Vec<BuildHash>)
    ensures
        sorted_by(dep_views(r@), str_leq()),
        dep_views(r@).to_multiset() == dep_views(deps@).to_multiset(),
{
    broadcast use vstd::seq_lib::group_to_multiset_ensures;

    let mut rest: Vec<BuildHash> = Vec::new();
    let mut i: usize = 0;
    while i < deps.len()
        invariant
            i <= deps@.len(),
            rest@.len() == i,
            forall|j: int| 0 <= j < i ==> #[trigger] rest@[j].0@ == deps@[j].0@,
        decreases deps@.len() - i,
    {
        rest.push(BuildHash(deps[i].0.clone()));
        i = i + 1;
    }
    proof {
        assert(dep_views(rest@) =~= dep_views(deps@));
    }
    let ghost whole = dep_views(rest@);
    let mut out: Vec<BuildHash> = Vec::new();
    proof {
        assert(dep_views(out@) =~= Seq::<Seq<char>>::empty());
        assert(dep_views(out@).to_multiset().add(dep_views(rest@).to_multiset())
            =~= whole.to_multiset()) by {
            assert(dep_views(out@).to_multiset() =~= Multiset::<Seq<char>>::empty());
        }
    }
    while rest.len() > 0
        invariant
            dep_views(out@).to_multiset().add(dep_views(rest@).to_multiset())
                == whole.to_multiset(),
            sorted_by(dep_views(out@), str_leq()),
            forall|i: int, j: int|
                0 <= i < out@.len() && 0 <= j < rest@.len() ==> str_le(
                    #[trigger] out@[i].0@,
                    #[trigger] rest@[j].0@,
                ),
        decreases rest@.len(),
    {
        let mut min: usize = 0;
        let mut k: usize = 1;
        while k < rest.len()
            invariant
                min < k,
                min < rest@.len(),
                k <= rest@.len(),
                rest@.len() > 0,
                forall|j: int| 0 <= j < k ==> str_le(rest@[min as int].0@, #[trigger] rest@[j].0@),
            decreases rest@.len() - k,
        {
            let ghost m = min as int;
            proof {
                lemma_str_order(rest@[k as int].0@, rest@[m].0@);
            }
            if crate::version::str_less(&rest[k].0, &rest[min].0) {
                min = k;
                proof {
                    assert forall|j: int| 0 <= j < k + 1 implies str_le(
                        rest@[k as int].0@,
                        #[trigger] rest@[j].0@,
                    ) by {
                        if j < k {
                            if str_lt(rest@[m].0@, rest@[j].0@) {
                                lemma_str_lt_trans(rest@[k as int].0@, rest@[m].0@, rest@[j].0@);
                            }
                        }
                    }
                }
            } else {
                proof {
                    assert(str_le(rest@[m].0@, rest@[k as int].0@));
                }
            }
            k = k + 1;
        }
        let ghost old_rest = rest@;
        let ghost old_out = out@;
        let t = rest.remove(min);
        out.push(t);
        proof {
            assert(dep_views(rest@) =~= dep_views(old_rest).remove(min as int));
            assert(dep_views(out@) =~= dep_views(old_out).push(old_rest[min as int].0@));
            vstd::seq_lib::to_multiset_remove::<Seq<char>>(dep_views(old_rest), min as int);
            vstd::seq_lib::to_multiset_build::<Seq<char>>(
                dep_views(old_out),
                old_rest[min as int].0@,
            );
            assert(dep_views(old_rest)[min as int] == old_rest[min as int].0@);
            vstd::seq_lib::to_multiset_contains::<Seq<char>>(
                dep_views(old_rest),
                old_rest[min as int].0@,
            );
            assert(dep_views(old_rest).contains(old_rest[min as int].0@));
            assert(dep_views(out@).to_multiset().add(dep_views(rest@).to_multiset())
                =~= dep_views(old_out).to_multiset().add(dep_views(old_rest).to_multiset()));
            assert(forall|j: int|
                0 <= j < old_rest.len() ==> str_le(
                    old_rest[min as int].0@,
                    #[trigger] old_rest[j].0@,
                ));
            assert(forall|j: int|
                0 <= j < rest@.len() ==> #[trigger] rest@[j].0@ == if j < min {
                    old_rest[j].0@
                } else {
                    old_rest[j + 1].0@
                });
            assert(sorted_by(dep_views(out@), str_leq())) by {
                let leq = str_leq();
                let dv = dep_views(out@);
                assert forall|i: int, j: int| 0 <= i <= j < dv.len() implies leq(
                    dv[i],
                    dv[j],
                ) by {
                    if j < dv.len() - 1 {
                        assert(leq(dep_views(old_out)[i], dep_views(old_out)[j]));
                    } else if i < j {
                        assert(str_le(out@[i].0@, old_rest[min as int].0@));
                    }
                }
            }
        }
    }
    proof {
        assert(dep_views(rest@) =~= Seq::<Seq<char>>::empty());
        assert(dep_views(rest@).to_multiset() =~= Multiset::<Seq<char>>::empty());
        assert(dep_views(out@).to_multiset() =~= whole.to_multiset());
    }
    out
}


/// Fingerprint purity: the rendered hash is a function of the source
/// identity, the dependency hashes and the targets alone, so two
/// computations over equal inputs agree — across runs, platforms and
/// process restarts.
pub proof fn lemma_build_hash_pure(
    identity: Seq<u8>,
    deps: Seq<Seq<char>>,
    ts: Seq<Target>,
    r1: Seq<char>,
    r2: Seq<char>,
)
    requires
        r1 == spec_build_hash(identity, deps, ts),
        r2 == spec_build_hash(identity, deps, ts),
    ensures
        r1 == r2,
{
}

/// Bytes of well-formed hex characters determine the characters.
proof fn lemma_hex_bytes_injective(h1: Seq<char>, h2: Seq<char>)
    requires
        hash_wf(h1),
        hash_wf(h2),
        hex_bytes(h1) == hex_bytes(h2),
    ensures
        h1 == h2,
{
    assert(hex_bytes(h1).len() == h1.len());
    assert(hex_bytes(h2).len() == h2.len());
    assert forall|i: int| 0 <= i < h1.len() implies h1[i] == h2[i] by {
        assert(crate::strutil::low_bytes(h1)[i] == ((h1[i] as u32) & 0xff) as u8);
        assert(crate::strutil::low_bytes(h2)[i] == ((h2[i] as u32) & 0xff) as u8);
        assert(is_hex_char(h1[i]));
        assert(is_hex_char(h2[i]));
        assert((h1[i] as u32) == (h2[i] as u32)) by {
            let a = h1[i] as u32;
            let b = h2[i] as u32;
            assert(a <= 102 && b <= 102 && (a & 0xff) as u8 == (b & 0xff) as u8 ==> a == b)
                by (bit_vector);
        }
        vstd::utf8::char_u32_cast(h1[i], h1[i] as u32);
        vstd::utf8::char_u32_cast(h2[i], h2[i] as u32);
    }
    assert(h1 =~= h2);
}

/// The dependency block is as long as 64 bytes per dependency.
proof fn lemma_concat_dep_len(deps: Seq<Seq<char>>)
    requires
        forall|i: int| 0 <= i < deps.len() ==> hash_wf(#[trigger] deps[i]),
    ensures
        concat_dep_bytes(deps).len() == 64 * deps.len(),
    decreases deps.len(),
{
    if deps.len() > 0 {
        assert(hash_wf(deps[0]));
        assert(hex_bytes(deps.first()).len() == 64);
        assert(forall|i: int|
            0 <= i < deps.drop_first().len() ==> hash_wf(#[trigger] deps.drop_first()[i]));
        lemma_concat_dep_len(deps.drop_first());
    }
}

/// Equal dependency blocks of equally many well-formed hashes carry
/// equal hash lists.
proof fn lemma_concat_deps_injective(d1: Seq<Seq<char>>, d2: Seq<Seq<char>>)
    requires
        d1.len() == d2.len(),
        forall|i: int| 0 <= i < d1.len() ==> hash_wf(#[trigger] d1[i]),
        forall|i: int| 0 <= i < d2.len() ==> hash_wf(#[trigger] d2[i]),
        concat_dep_bytes(d1) == concat_dep_bytes(d2),
    ensures
        d1 == d2,
    decreases d1.len(),
{
    if d1.len() == 0 {
        assert(d1 =~= d2);
    } else {
        let c1 = concat_dep_bytes(d1);
        let c2 = concat_dep_bytes(d2);
        assert(hash_wf(d1[0]) && hash_wf(d2[0]));
        assert(hex_bytes(d1.first()).len() == 64);
        assert(hex_bytes(d2.first()).len() == 64);
        assert(hex_bytes(d1.first()) =~= c1.subrange(0, 64));
        assert(hex_bytes(d2.first()) =~= c2.subrange(0, 64));
        lemma_hex_bytes_injective(d1.first(), d2.first());
        assert(concat_dep_bytes(d1.drop_first()) =~= c1.skip(64));
        assert(concat_dep_bytes(d2.drop_first()) =~= c2.skip(64));
        assert(forall|i: int|
            0 <= i < d1.drop_first().len() ==> hash_wf(#[trigger] d1.drop_first()[i]));
        assert(forall|i: int|
            0 <= i < d2.drop_first().len() ==> hash_wf(#[trigger] d2.drop_first()[i]));
        lemma_concat_deps_injective(d1.drop_first(), d2.drop_first());
        assert(d1 =~= d2) by {
            assert(forall|i: int|
                1 <= i < d1.len() ==> #[trigger] d1[i] == d1.drop_first()[i - 1]);
            assert(forall|i: int|
                1 <= i < d2.len() ==> #[trigger] d2[i] == d2.drop_first()[i - 1]);
        }
    }
}

/// The target block is as long as 5 bytes per target.
proof fn lemma_concat_target_len(ts: Seq<Target>)
    ensures
        concat_target_bytes(ts).len() == 5 * ts.len(),
    decreases ts.len(),
{
    if ts.len() > 0 {
        lemma_concat_target_len(ts.drop_first());
    }
}

/// Equal target blocks of equally many in-range targets carry equal
/// target lists.
proof fn lemma_concat_targets_injective(t1: Seq<Target>, t2: Seq<Target>)
    requires
        t1.len() == t2.len(),
        forall|i: int| 0 <= i < t1.len() ==> target_in_range(#[trigger] t1[i]),
        forall|i: int| 0 <= i < t2.len() ==> target_in_range(#[trigger] t2[i]),
        concat_target_bytes(t1) == concat_target_bytes(t2),
    ensures
        t1 == t2,
    decreases t1.len(),
{
    if t1.len() == 0 {
        assert(t1 =~= t2);
    } else {
        let c1 = concat_target_bytes(t1);
        let c2 = concat_target_bytes(t2);
        assert(spec_target_bytes(t1.first()) =~= c1.subrange(0, 5));
        assert(spec_target_bytes(t2.first()) =~= c2.subrange(0, 5));
        crate::target::lemma_target_bytes_injective(t1.first(), t2.first());
        assert(concat_target_bytes(t1.drop_first()) =~= c1.skip(5));
        assert(concat_target_bytes(t2.drop_first()) =~= c2.skip(5));
        assert(forall|i: int|
            0 <= i < t1.drop_first().len() ==> target_in_range(#[trigger] t1.drop_first()[i]));
        assert(forall|i: int|
            0 <= i < t2.drop_first().len() ==> target_in_range(#[trigger] t2.drop_first()[i]));
        lemma_concat_targets_injective(t1.drop_first(), t2.drop_first());
        assert(t1 =~= t2) by {
            assert(forall|i: int|
                1 <= i < t1.len() ==> #[trigger] t1[i] == t1.drop_first()[i - 1]);
            assert(forall|i: int|
                1 <= i < t2.len() ==> #[trigger] t2[i] == t2.drop_first()[i - 1]);
        }
    }
}

/// Fingerprint sensitivity: the byte stream fed to the digest
/// determines the source identity, the dependency hashes and the
/// targets. Any change to one of them therefore changes the stream;
/// the digest is relied upon not to collide on distinct streams.
pub proof fn lemma_fingerprint_injective(
    id1: Seq<u8>,
    deps1: Seq<Seq<char>>,
    ts1: Seq<Target>,
    id2: Seq<u8>,
    deps2: Seq<Seq<char>>,
    ts2: Seq<Target>,
)
    requires
        id1.len() <= u64::MAX,
        id2.len() <= u64::MAX,
        deps1.len() <= u64::MAX,
        deps2.len() <= u64::MAX,
        ts1.len() <= u64::MAX,
        ts2.len() <= u64::MAX,
        forall|i: int| 0 <= i < deps1.len() ==> hash_wf(#[trigger] deps1[i]),
        forall|i: int| 0 <= i < deps2.len() ==> hash_wf(#[trigger] deps2[i]),
        forall|i: int| 0 <= i < ts1.len() ==> target_in_range(#[trigger] ts1[i]),
        forall|i: int| 0 <= i < ts2.len() ==> target_in_range(#[trigger] ts2[i]),
        spec_fingerprint_bytes(id1, deps1, ts1) == spec_fingerprint_bytes(id2, deps2, ts2),
    ensures
        id1 == id2,
        deps1 == deps2,
        ts1 == ts2,
{
    let s1 = spec_fingerprint_bytes(id1, deps1, ts1);
    let s2 = spec_fingerprint_bytes(id2, deps2, ts2);
    lemma_concat_dep_len(deps1);
    lemma_concat_dep_len(deps2);
    lemma_concat_target_len(ts1);
    lemma_concat_target_len(ts2);
    // the identity length stands in the first eight bytes
    assert(spec_be64(id1.len() as u64) =~= s1.subrange(0, 8));
    assert(spec_be64(id2.len() as u64) =~= s2.subrange(0, 8));
    lemma_be64_injective(id1.len() as u64, id2.len() as u64);
    assert(id1.len() == id2.len());
    let n = id1.len() as int;
    assert(id1 =~= s1.subrange(8, 8 + n));
    assert(id2 =~= s2.subrange(8, 8 + n));
    assert(id1 =~= id2);
    // the dependency count follows the identity
    assert(spec_be64(deps1.len() as u64) =~= s1.subrange(8 + n, 16 + n));
    assert(spec_be64(deps2.len() as u64) =~= s2.subrange(8 + n, 16 + n));
    lemma_be64_injective(deps1.len() as u64, deps2.len() as u64);
    assert(deps1.len() == deps2.len());
    let d = 64 * deps1.len() as int;
    assert(concat_dep_bytes(deps1) =~= s1.subrange(16 + n, 16 + n + d));
    assert(concat_dep_bytes(deps2) =~= s2.subrange(16 + n, 16 + n + d));
    lemma_concat_deps_injective(deps1, deps2);
    // the target count follows the dependency block
    assert(spec_be64(ts1.len() as u64) =~= s1.subrange(16 + n + d, 24 + n + d));
    assert(spec_be64(ts2.len() as u64) =~= s2.subrange(16 + n + d, 24 + n + d));
    lemma_be64_injective(ts1.len() as u64, ts2.len() as u64);
    assert(ts1.len() == ts2.len());
    let t = 5 * ts1.len() as int;
    assert(concat_target_bytes(ts1) =~= s1.subrange(24 + n + d, 24 + n + d + t));
    assert(concat_target_bytes(ts2) =~= s2.subrange(24 + n + d, 24 + n + d + t));
    lemma_concat_targets_injective(ts1, ts2);
}

} // verus!
