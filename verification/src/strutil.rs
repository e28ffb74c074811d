//! Small verified string helpers shared by the rest of the library:
//! appending single characters, rendering integers in decimal, and the
//! lowercase-hex alphabet used by hashes and checksums.

use vstd::prelude::*;

verus! {

/// Relies on `String::push`: appends exactly one character.
#[verifier::external_body]
pub fn push_char(s: &mut String, c: char)
    ensures
        final(s)@ == old(s)@.push(c),
{
    s.push(c)
}

/// The character for one value below sixteen, in lowercase hex.
pub open spec fn spec_hex_char(d: u8) -> char
    recommends
        d < 16,
{
    if d < 10 {
        (('0' as u8) + d) as char
    } else {
        (('a' as u8) + (d - 10)) as char
    }
}

pub fn hex_char(d: u8) -> (c: char)
    requires
        d < 16,
    ensures
        c == spec_hex_char(d),
{
    if d < 10 {
        (('0' as u8) + d) as char
    } else {
        (('a' as u8) + (d - 10)) as char
    }
}

/// The decimal rendering of a natural number, most significant digit first.
pub open spec fn spec_dec(n: nat) -> Seq<char>
    decreases n,
{
    if n < 10 {
        seq![spec_hex_char(n as u8)]
    } else {
        spec_dec(n / 10).push(spec_hex_char((n % 10) as u8))
    }
}

/// The low-order digits of a number, rendered least significant first.
spec fn rev_digits(digits: Seq<u8>) -> Seq<char> {
    digits.reverse().map_values(|d: u8| spec_hex_char(d))
}

/// Renders `n` in decimal, appending to `out`.
pub fn append_dec(out: &mut String, n: u64)
    ensures
        final(out)@ == old(out)@ + spec_dec(n as nat),
{
    let mut digits: Vec<u8> = Vec::new();
    let mut m: u64 = n;
    while m >= 10
        invariant
            spec_dec(n as nat) == spec_dec(m as nat) + rev_digits(digits@),
            forall|i: int| 0 <= i < digits@.len() ==> digits@[i] < 10,
        decreases m,
    {
        let d: u8 = (m % 10) as u8;
        proof {
            assert(spec_dec(m as nat) == spec_dec((m as nat) / 10).push(spec_hex_char(d)));
            assert(digits@.push(d).reverse() =~= seq![d] + digits@.reverse());
            assert(rev_digits(digits@.push(d)) =~= seq![spec_hex_char(d)] + rev_digits(digits@));
            assert(spec_dec((m / 10) as nat) + rev_digits(digits@.push(d)) =~= spec_dec(m as nat)
                + rev_digits(digits@));
        }
        digits.push(d);
        m = m / 10;
    }
    let ghost full = spec_dec(n as nat);
    proof {
        assert(full =~= (seq![spec_hex_char(m as u8)] + rev_digits(digits@)));
        assert(full.len() == 1 + digits@.len());
    }
    push_char(out, hex_char(m as u8));
    let len = digits.len();
    let mut j: usize = 0;
    while j < len
        invariant
            len == digits@.len(),
            j <= len,
            full == seq![spec_hex_char(m as u8)] + rev_digits(digits@),
            full.len() == 1 + len,
            forall|i: int| 0 <= i < digits@.len() ==> digits@[i] < 10,
            out@ == old(out)@ + full.subrange(0, 1 + j as int),
            m < 10,
        decreases len - j,
    {
        let d = digits[len - 1 - j];
        proof {
            assert(digits@.reverse()[j as int] == digits@[len - 1 - j]);
            assert(rev_digits(digits@)[j as int] == spec_hex_char(digits@[len - 1 - j]));
            assert(full[1 + j as int] == spec_hex_char(digits@[len - 1 - j]));
            assert(full.subrange(0, 2 + j as int) =~= full.subrange(0, 1 + j as int).push(
                full[1 + j as int],
            ));
        }
        push_char(out, hex_char(d));
        j = j + 1;
    }
    proof {
        assert(full.subrange(0, full.len() as int) =~= full);
    }
}

/// Renders `n` in decimal as a fresh string.
pub fn dec_string(n: u64) -> (r: String)
    ensures
        r@ == spec_dec(n as nat),
{
    let mut s = String::new();
    append_dec(&mut s, n);
    proof {
        assert(Seq::<char>::empty() + spec_dec(n as nat) =~= spec_dec(n as nat));
    }
    s
}


/// The low byte of each character: the identity on ASCII text, and the
/// encoding under which strings are fed to the fingerprint digest.
pub open spec fn low_bytes(s: Seq<char>) -> Seq<u8> {
    s.map_values(|c: char| ((c as u32) & 0xff) as u8)
}

/// Appends the low bytes of a string.
pub fn push_str_bytes(out: &mut Vec<u8>, s: &str)
    ensures
        final(out)@ == old(out)@ + low_bytes(s@),
{
    let len = s.unicode_len();
    let mut i: usize = 0;
    proof {
        assert(low_bytes(s@).len() == s@.len());
        assert(old(out)@ + low_bytes(s@).subrange(0, 0) =~= old(out)@);
    }
    while i < len
        invariant
            len == s@.len(),
            i <= len,
            out@ == old(out)@ + low_bytes(s@).subrange(0, i as int),
        decreases len - i,
    {
        let c = s.get_char(i);
        proof {
            assert(low_bytes(s@)[i as int] == ((s@[i as int] as u32) & 0xff) as u8);
            assert(low_bytes(s@).subrange(0, i as int + 1) =~= low_bytes(s@).subrange(
                0,
                i as int,
            ).push(low_bytes(s@)[i as int]));
        }
        out.push(((c as u32) & 0xff) as u8);
        i = i + 1;
    }
    proof {
        assert(low_bytes(s@).subrange(0, s@.len() as int) =~= low_bytes(s@));
    }
}


/// The position of the first occurrence of a character, if any.
pub open spec fn spec_find(s: Seq<char>, c: char) -> Option<int>
    decreases s.len(),
{
    if s.len() == 0 {
        None
    } else if s[0] == c {
        Some(0int)
    } else {
        match spec_find(s.skip(1), c) {
            Some(i) => Some(i + 1),
            None => None,
        }
    }
}

/// What `spec_find` returns: the first position holding the character,
/// or nothing when the character does not occur.
pub proof fn lemma_spec_find(s: Seq<char>, c: char)
    ensures
        match spec_find(s, c) {
            Some(i) => 0 <= i < s.len() && s[i] == c && forall|j: int| 0 <= j < i ==> s[j] != c,
            None => forall|j: int| 0 <= j < s.len() ==> s[j] != c,
        },
    decreases s.len(),
{
    if s.len() > 0 && s[0] != c {
        lemma_spec_find(s.skip(1), c);
        match spec_find(s.skip(1), c) {
            Some(i) => {
                assert(s.skip(1)[i] == c);
                assert(s[i + 1] == c);
                assert forall|j: int| 0 <= j < i + 1 implies s[j] != c by {
                    if j >= 1 {
                        assert(s.skip(1)[j - 1] != c);
                        assert(s.skip(1)[j - 1] == s[j]);
                    }
                }
            },
            None => {
                assert forall|j: int| 0 <= j < s.len() implies s[j] != c by {
                    if j >= 1 {
                        assert(s.skip(1)[j - 1] != c);
                        assert(s.skip(1)[j - 1] == s[j]);
                    }
                }
            },
        }
    }
}

/// Finds the first occurrence of a character.
pub fn find_char(s: &str, c: char) -> (r: Option<usize>)
    ensures
        match r {
            Some(i) => spec_find(s@, c) == Some(i as int),
            None => spec_find(s@, c) is None,
        },
{
    proof {
        lemma_spec_find(s@, c);
    }
    let len = s.unicode_len();
    let mut i: usize = 0;
    while i < len
        invariant
            len == s@.len(),
            i <= len,
            forall|j: int| 0 <= j < i ==> s@[j] != c,
        decreases len - i,
    {
        if s.get_char(i) == c {
            proof {
                lemma_spec_find(s@, c);
                match spec_find(s@, c) {
                    Some(k) => {
                        if k < i {
                            assert(s@[k] != c);
                        }
                        if k > i {
                            assert(s@[i as int] != c);
                        }
                    },
                    None => {
                        assert(s@[i as int] != c);
                    },
                }
            }
            return Some(i);
        }
        i = i + 1;
    }
    proof {
        lemma_spec_find(s@, c);
        match spec_find(s@, c) {
            Some(k) => {
                assert(s@[k] != c);
            },
            None => {},
        }
    }
    None
}

/// Compares two string slices by their characters.
pub fn str_eq(a: &str, b: &str) -> (r: bool)
    ensures
        r == (a@ == b@),
{
    let alen = a.unicode_len();
    let blen = b.unicode_len();
    if alen != blen {
        return false;
    }
    let mut i: usize = 0;
    while i < alen
        invariant
            alen == a@.len(),
            alen == b@.len(),
            i <= alen,
            forall|j: int| 0 <= j < i ==> a@[j] == b@[j],
        decreases alen - i,
    {
        if a.get_char(i) != b.get_char(i) {
            return false;
        }
        i = i + 1;
    }
    proof {
        assert(a@ =~= b@);
    }
    true
}

} // verus!
