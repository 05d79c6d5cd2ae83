//! The hashing side of content addressing: a 256-bit digest of raw
//! bytes, encoded as lowercase hexadecimal.  Every object id in the
//! engine is `hex(SHA3-256(bytes))` for some canonical byte framing
//! chosen by the caller.

use vstd::prelude::*;
use sha3::Digest;

verus! {

/// The SHA3-256 digest of a byte string.  The digest itself is opaque
/// here: only the outside hasher computes it, and the engine relies on
/// nothing about it beyond its length and its determinism.
pub uninterp spec fn sha3_256_of(bytes: Seq<u8>) -> Seq<u8>;

/// Relies on `sha3::Sha3_256` (through `digest::Digest::digest`): the
/// SHA3-256 digest, 32 bytes, a function of the input bytes alone.
#[verifier::external_body]
pub(crate) fn sha3_256(bytes: &Vec<u8>) -> (r: Vec<u8>)
    ensures
        r@ == sha3_256_of(bytes@),
        r@.len() == 32,
{
    sha3::Sha3_256::digest(bytes.as_slice()).to_vec()
}

/// The lowercase hexadecimal digit for a nibble.
pub open spec fn hex_digit(n: u8) -> u8 {
    if n < 10 {
        (n + 0x30) as u8
    } else {
        (n + 0x57) as u8
    }
}

/// Lowercase hexadecimal encoding: two digits for each byte.
pub open spec fn hex_of(bytes: Seq<u8>) -> Seq<u8> {
    Seq::new(
        2 * bytes.len(),
        |i: int| if i % 2 == 0 {
            hex_digit(bytes[i / 2] / 16)
        } else {
            hex_digit(bytes[i / 2] % 16)
        },
    )
}

/// Whether a byte is a lowercase hexadecimal digit.
pub open spec fn is_hex_byte(b: u8) -> bool {
    (0x30 <= b && b <= 0x39) || (0x61 <= b && b <= 0x66)
}

/// Whether a byte string is a well-formed object id: exactly 64
/// lowercase hexadecimal digits.
pub open spec fn is_hex_id(s: Seq<u8>) -> bool {
    s.len() == 64 && forall|i: int| 0 <= i < s.len() ==> is_hex_byte(#[trigger] s[i])
}

/// Encodes bytes as lowercase hexadecimal text.
pub fn hex_encode(bytes: &Vec<u8>) -> (r: Vec<u8>)
    ensures
        r@ == hex_of(bytes@),
{
    let mut out: Vec<u8> = Vec::new();
    let mut i: usize = 0;
    while i < bytes.len()
        invariant
            i <= bytes@.len(),
            out@.len() == 2 * i,
            out@ =~= hex_of(bytes@).take(2 * i as int),
        decreases bytes@.len() - i,
    {
        let b = bytes[i];
        let hi = b / 16;
        let lo = b % 16;
        out.push(if hi < 10 { hi + 0x30 } else { hi + 0x57 });
        out.push(if lo < 10 { lo + 0x30 } else { lo + 0x57 });
        proof {
            assert(out@ =~= hex_of(bytes@).take(2 * (i + 1 as int)));
        }
        i += 1;
    }
    proof {
        assert(hex_of(bytes@).take(2 * bytes@.len() as int) =~= hex_of(bytes@));
    }
    out
}

/// The object id of a byte string: lowercase hex of its SHA3-256
/// digest.
pub open spec fn id_of(bytes: Seq<u8>) -> Seq<u8> {
    hex_of(sha3_256_of(bytes))
}

/// The hex encoding of a 32-byte digest is a well-formed 64-digit hex
/// id.
pub proof fn lemma_hex_of_digest_is_hex_id(d: Seq<u8>)
    requires
        d.len() == 32,
    ensures
        is_hex_id(hex_of(d)),
{
    assert forall|i: int| 0 <= i < hex_of(d).len() implies is_hex_byte(#[trigger] hex_of(d)[i]) by {
        let n: u8 = if i % 2 == 0 { d[i / 2] / 16 } else { (d[i / 2] % 16) as u8 };
        assert(n < 16);
        assert(hex_of(d)[i] == hex_digit(n));
        assert(is_hex_byte(hex_digit(n)));
    }
}

/// Computes the object id of a byte string.
pub fn hash_id(bytes: &Vec<u8>) -> (r: Vec<u8>)
    ensures
        r@ == id_of(bytes@),
        is_hex_id(r@),
{
    let d = sha3_256(bytes);
    let r = hex_encode(&d);
    proof {
        lemma_hex_of_digest_is_hex_id(d@);
    }
    r
}

/// Checks that a byte string is a well-formed 64-digit lowercase hex
/// id, as the `HEAD` file and object references must hold.
pub fn check_hex_id(s: &Vec<u8>) -> (r: bool)
    ensures
        r == is_hex_id(s@),
{
    if s.len() != 64 {
        return false;
    }
    let mut i: usize = 0;
    while i < s.len()
        invariant
            i <= s@.len(),
            s@.len() == 64,
            forall|j: int| 0 <= j < i ==> is_hex_byte(#[trigger] s@[j]),
        decreases s@.len() - i,
    {
        let b = s[i];
        if !((0x30 <= b && b <= 0x39) || (0x61 <= b && b <= 0x66)) {
            return false;
        }
        i += 1;
    }
    true
}

} // verus!
