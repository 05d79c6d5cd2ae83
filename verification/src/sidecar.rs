//! The on-disk sidecar of an encrypted blob: the three KDF salts as
//! decimal byte lists, and the nonce and verifier digest in base64,
//! one `key = value` line each.

use vstd::prelude::*;
use crate::BackupError;
use crate::bytesutil::push_bytes;
use crate::crypto::{CryptoMetadata, CryptoMetadataV, base64_of, b64_encode, wf_metadata};

verus! {

/// The decimal text of one byte.
pub open spec fn dec_of(b: u8) -> Seq<u8> {
    if b < 10 {
        seq![(0x30 + b) as u8]
    } else if b < 100 {
        seq![(0x30 + b / 10) as u8, (0x30 + b % 10) as u8]
    } else {
        seq![(0x30 + b / 100) as u8, (0x30 + (b / 10) % 10) as u8, (0x30 + b % 10) as u8]
    }
}

/// The decimal texts of a byte list, comma-and-space separated.
pub open spec fn dec_list(s: Seq<u8>) -> Seq<u8>
    decreases s.len(),
{
    if s.len() == 0 {
        Seq::empty()
    } else if s.len() == 1 {
        dec_of(s[0])
    } else {
        dec_list(s.drop_last()) + seq![0x2cu8, 0x20u8] + dec_of(s.last())
    }
}

/// `salt1 = [`
pub open spec fn salt1_key() -> Seq<u8> {
    seq![0x73u8, 0x61u8, 0x6cu8, 0x74u8, 0x31u8, 0x20u8, 0x3du8, 0x20u8, 0x5bu8]
}

/// `salt2 = [`
pub open spec fn salt2_key() -> Seq<u8> {
    seq![0x73u8, 0x61u8, 0x6cu8, 0x74u8, 0x32u8, 0x20u8, 0x3du8, 0x20u8, 0x5bu8]
}

/// `salt3 = [`
pub open spec fn salt3_key() -> Seq<u8> {
    seq![0x73u8, 0x61u8, 0x6cu8, 0x74u8, 0x33u8, 0x20u8, 0x3du8, 0x20u8, 0x5bu8]
}

/// `]` and a newline
pub open spec fn list_close() -> Seq<u8> {
    seq![0x5du8, 0x0au8]
}

/// `nonce = "`
pub open spec fn nonce_key() -> Seq<u8> {
    seq![0x6eu8, 0x6fu8, 0x6eu8, 0x63u8, 0x65u8, 0x20u8, 0x3du8, 0x20u8, 0x22u8]
}

/// `dgst = "`
pub open spec fn dgst_key() -> Seq<u8> {
    seq![0x64u8, 0x67u8, 0x73u8, 0x74u8, 0x20u8, 0x3du8, 0x20u8, 0x22u8]
}

/// `"` and a newline
pub open spec fn str_close() -> Seq<u8> {
    seq![0x22u8, 0x0au8]
}

/// The whole sidecar text of persisted metadata.
pub open spec fn metadata_toml(m: CryptoMetadataV) -> Seq<u8> {
    salt1_key() + dec_list(m.salt1) + list_close() + salt2_key() + dec_list(m.salt2) + list_close()
        + salt3_key() + dec_list(m.salt3) + list_close() + nonce_key() + base64_of(match m.nonce {
        Some(nn) => nn,
        None => Seq::empty(),
    }) + str_close() + dgst_key() + base64_of(m.dgst) + str_close()
}

/// Appends the decimal text of one byte.
fn push_dec(out: &mut Vec<u8>, b: u8)
    ensures
        final(out)@ == old(out)@ + dec_of(b),
{
    if b < 10 {
        out.push(0x30 + b);
        proof {
            assert(out@ =~= old(out)@ + dec_of(b));
        }
    } else if b < 100 {
        out.push(0x30 + b / 10);
        out.push(0x30 + b % 10);
        proof {
            assert(out@ =~= old(out)@ + dec_of(b));
        }
    } else {
        out.push(0x30 + b / 100);
        out.push(0x30 + (b / 10) % 10);
        out.push(0x30 + b % 10);
        proof {
            assert(out@ =~= old(out)@ + dec_of(b));
        }
    }
}

/// Appends the decimal list of a byte string.
fn push_dec_list(out: &mut Vec<u8>, s: &Vec<u8>)
    ensures
        final(out)@ == old(out)@ + dec_list(s@),
{
    let mut i: usize = 0;
    proof {
        assert(dec_list(s@.take(0)) =~= Seq::<u8>::empty());
        assert(out@ =~= old(out)@ + dec_list(s@.take(0)));
    }
    while i < s.len()
        invariant
            i <= s@.len(),
            out@ == old(out)@ + dec_list(s@.take(i as int)),
        decreases s@.len() - i,
    {
        proof {
            assert(s@.take(i + 1).drop_last() =~= s@.take(i as int));
            assert(s@.take(i + 1).last() == s@[i as int]);
        }
        if i > 0 {
            out.push(0x2c);
            out.push(0x20);
        }
        push_dec(out, s[i]);
        proof {
            if i == 0 {
                assert(s@.take(1).len() == 1);
                assert(dec_list(s@.take(1)) == dec_of(s@[0]));
                assert(out@ =~= old(out)@ + dec_list(s@.take(1)));
            } else {
                assert(out@ =~= old(out)@ + dec_list(s@.take(i + 1)));
            }
        }
        i += 1;
    }
    proof {
        assert(s@.take(s@.len() as int) =~= s@);
    }
}

/// Serializes persisted metadata into its sidecar text; metadata
/// whose nonce was never set, or whose fields have the wrong
/// lengths, cannot be persisted.
pub fn metadata_toml_bytes(m: &CryptoMetadata) -> (r: Result<Vec<u8>, BackupError>)
    ensures
        match r {
            Ok(s) => {
                &&& wf_metadata(m@)
                &&& m@.nonce is Some
                &&& s@ == metadata_toml(m@)
            },
            Err(e) => e == BackupError::EncodingError && !(wf_metadata(m@) && m@.nonce is Some),
        },
{
    if !(m.salt1.len() == 16 && m.salt2.len() == 16 && m.salt3.len() == 16 && m.dgst.len() == 16) {
        return Err(BackupError::EncodingError);
    }
    let nonce = match &m.nonce {
        Some(nn) => {
            if nn.len() != 12 {
                return Err(BackupError::EncodingError);
            }
            nn
        },
        None => {
            return Err(BackupError::EncodingError);
        },
    };
    let mut out: Vec<u8> = Vec::new();
    let k1: [u8; 9] = [0x73, 0x61, 0x6c, 0x74, 0x31, 0x20, 0x3d, 0x20, 0x5b];
    crate::json::push_slice(&mut out, k1.as_slice());
    push_dec_list(&mut out, &m.salt1);
    let cl: [u8; 2] = [0x5d, 0x0a];
    crate::json::push_slice(&mut out, cl.as_slice());
    let k2: [u8; 9] = [0x73, 0x61, 0x6c, 0x74, 0x32, 0x20, 0x3d, 0x20, 0x5b];
    crate::json::push_slice(&mut out, k2.as_slice());
    push_dec_list(&mut out, &m.salt2);
    crate::json::push_slice(&mut out, cl.as_slice());
    let k3: [u8; 9] = [0x73, 0x61, 0x6c, 0x74, 0x33, 0x20, 0x3d, 0x20, 0x5b];
    crate::json::push_slice(&mut out, k3.as_slice());
    push_dec_list(&mut out, &m.salt3);
    crate::json::push_slice(&mut out, cl.as_slice());
    let nk: [u8; 9] = [0x6e, 0x6f, 0x6e, 0x63, 0x65, 0x20, 0x3d, 0x20, 0x22];
    crate::json::push_slice(&mut out, nk.as_slice());
    let nonce_text = b64_encode(nonce);
    push_bytes(&mut out, &nonce_text);
    let sc: [u8; 2] = [0x22, 0x0a];
    crate::json::push_slice(&mut out, sc.as_slice());
    let dk: [u8; 8] = [0x64, 0x67, 0x73, 0x74, 0x20, 0x3d, 0x20, 0x22];
    crate::json::push_slice(&mut out, dk.as_slice());
    let dgst_text = b64_encode(&m.dgst);
    push_bytes(&mut out, &dgst_text);
    crate::json::push_slice(&mut out, sc.as_slice());
    proof {
        assert(k1@ =~= salt1_key());
        assert(k2@ =~= salt2_key());
        assert(k3@ =~= salt3_key());
        assert(cl@ =~= list_close());
        assert(nk@ =~= nonce_key());
        assert(dk@ =~= dgst_key());
        assert(sc@ =~= str_close());
        assert(out@ =~= metadata_toml(m@));
    }
    Ok(out)
}

} // verus!
