//! The hasher: a file's project-relative path, written with forward
//! slashes whatever the host convention, is digested to a fixed 64-bit
//! value, rendered as lowercase hexadecimal and truncated to the
//! configured length.
use vstd::prelude::*;

use crate::bytes::B_BACKSLASH;
use crate::bytes::B_SLASH;
use crate::bytes::subvec;

verus! {

/// The 64-bit digest that SipHash-1-3 (with zero keys) assigns to a byte
/// sequence followed by a `0xff` terminator — the exact stream a
/// borrowed string feeds its hasher, so path text digests agree across
/// platforms and runs.
pub uninterp spec fn sip13_of(s: Seq<u8>) -> u64;

/// Relies on siphasher's `SipHasher13` (`new`, `Hasher::write`,
/// `Hasher::write_u8`, `Hasher::finish`): with the keys fixed at zero
/// the digest is a function of the written byte stream alone, stable
/// across runs and platforms.  The `0xff` terminator mirrors how `str`
/// hashes itself, keeping digests identical to hashing the path as text.
#[verifier::external_body]
pub fn hash_string(input: &[u8]) -> (r: u64)
    ensures
        r == sip13_of(input@),
{
    let mut hasher = siphasher::sip::SipHasher13::new();
    std::hash::Hasher::write(&mut hasher, input);
    std::hash::Hasher::write_u8(&mut hasher, 0xff);
    std::hash::Hasher::finish(&hasher)
}

/// The lowercase hexadecimal digit for a value below 16.
pub open spec fn hex_digit(n: int) -> u8 {
    if n < 10 {
        (48 + n) as u8
    } else {
        (87 + n) as u8
    }
}

/// Minimal-width lowercase hexadecimal rendering of `n` (no leading
/// zeros, a single `0` for zero).
pub open spec fn hex_of(n: int) -> Seq<u8>
    decreases n,
{
    if n < 16 {
        seq![hex_digit(if n < 0 {
            0
        } else {
            n
        })]
    } else {
        hex_of(n / 16) + seq![hex_digit(n % 16)]
    }
}

/// Render `n` in lowercase hexadecimal.
pub fn to_hex(n: u64) -> (r: Vec<u8>)
    ensures
        r@ == hex_of(n as int),
    decreases n,
{
    if n < 16 {
        let d: u8 = if n < 10 {
            48 + (n as u8)
        } else {
            87 + (n as u8)
        };
        let mut v: Vec<u8> = Vec::new();
        v.push(d);
        proof {
            assert(v@ =~= hex_of(n as int));
        }
        v
    } else {
        let mut v = to_hex(n / 16);
        let rem: u8 = (n % 16) as u8;
        let d: u8 = if rem < 10 {
            48 + rem
        } else {
            87 + rem
        };
        v.push(d);
        proof {
            assert(v@ =~= hex_of(n as int));
        }
        v
    }
}

/// A path with every backslash turned into a forward slash: the
/// platform-independent form that is displayed and digested.
pub open spec fn normalized(p: Seq<u8>) -> Seq<u8> {
    p.map_values(
        |b: u8|
            if b == B_BACKSLASH {
                B_SLASH
            } else {
                b
            },
    )
}

/// Rewrite `p` with forward-slash separators.
pub fn normalize_path(p: &[u8]) -> (r: Vec<u8>)
    ensures
        r@ == normalized(p@),
{
    let mut out: Vec<u8> = Vec::new();
    let mut k: usize = 0;
    while k < p.len()
        invariant
            k <= p@.len(),
            out@ =~= normalized(p@).take(k as int),
        decreases p@.len() - k,
    {
        if p[k] == B_BACKSLASH {
            out.push(B_SLASH);
        } else {
            out.push(p[k]);
        }
        proof {
            assert(out@ =~= normalized(p@).take(k + 1));
        }
        k = k + 1;
    }
    proof {
        assert(normalized(p@).take(p@.len() as int) =~= normalized(p@));
    }
    out
}

/// The digest string for a relative path: hex of the path's hash, cut to
/// at most `n` characters.
pub open spec fn digest_spec(p: Seq<u8>, n: int) -> Seq<u8> {
    let h = hex_of(sip13_of(normalized(p)) as int);
    if h.len() <= n {
        h
    } else {
        h.take(n)
    }
}

/// Digest a project-relative path: normalize its separators, hash, render
/// in lowercase hex, and keep at most `hash_len` characters.  The result
/// is a function of the path and the length alone: the same path gives
/// the same digest in every run and on every platform.
pub fn make_hash(rel_path: &[u8], hash_len: usize) -> (r: Vec<u8>)
    ensures
        r@ == digest_spec(rel_path@, hash_len as int),
{
    let norm = normalize_path(rel_path);
    let h = hash_string(norm.as_slice());
    let hex = to_hex(h);
    if hex.len() <= hash_len {
        hex
    } else {
        let cut = subvec(hex.as_slice(), 0, hash_len);
        proof {
            assert(hex@.subrange(0, hash_len as int) =~= hex@.take(hash_len as int));
        }
        cut
    }
}

/// A path written with backslash separators instead.
pub open spec fn with_backslashes(p: Seq<u8>) -> Seq<u8> {
    p.map_values(
        |b: u8|
            if b == B_SLASH {
                B_BACKSLASH
            } else {
                b
            },
    )
}

/// The digest does not depend on the separator style: a path written
/// with backslashes digests exactly as the same path written with
/// forward slashes.
pub proof fn lemma_digest_separator_insensitive(p: Seq<u8>, n: int)
    ensures
        digest_spec(with_backslashes(p), n) == digest_spec(p, n),
{
    assert(normalized(with_backslashes(p)) =~= normalized(p));
}

} // verus!
