//! The key schedule and the authenticated encryption of archive
//! blobs.
//!
//! A password is stretched to a master key by a memory-hard KDF over
//! a fresh random salt; a digest of the master key (under a second
//! salt) is persisted as the verifier, and a data-protection key
//! (under a third salt) feeds the AEAD cipher.  Each encryption uses
//! a fresh 96-bit nonce.  Unlocking recomputes the verifier first
//! and only then attempts decryption, so a wrong password is
//! reported as `AuthFailure` before any tag check.
//!
//! The KDF, the cipher and the system randomness are outside
//! collaborators; their calls stand behind the trusted declarations
//! below, and everything around them is verified.

use vstd::prelude::*;
use crate::BackupError;
use rand::TryRng;
use aes_gcm::aead::Aead;
use aes_gcm::KeyInit;
use base64::Engine;

verus! {

/// The yescrypt key derivation: a function of the password, the
/// salt, the cost parameters and the output length alone.
pub uninterp spec fn yescrypt_of(
    password: Seq<u8>,
    salt: Seq<u8>,
    n: int,
    r: int,
    p: int,
    t: int,
    out_len: int,
) -> Seq<u8>;

/// The AES-128-GCM sealing of a plaintext under a key and nonce:
/// ciphertext with the tag appended, a function of its arguments
/// alone.
pub uninterp spec fn aes_gcm_seal(key: Seq<u8>, nonce: Seq<u8>, plaintext: Seq<u8>) -> Seq<u8>;

/// The AES-128-GCM opening of a ciphertext: the plaintext when the
/// tag verifies, nothing otherwise; a function of its arguments
/// alone.
pub uninterp spec fn aes_gcm_open(key: Seq<u8>, nonce: Seq<u8>, ciphertext: Seq<u8>) -> Option<
    Seq<u8>,
>;

/// The standard base64 encoding of a byte string.
pub uninterp spec fn base64_of(bytes: Seq<u8>) -> Seq<u8>;

/// A cost parameter the KDF accepts here: a power of two of
/// moderate size.
pub open spec fn valid_cost(n: u64) -> bool {
    4 <= n <= 0x40000 && (n & (n - 1) as u64) == 0
}

/// Relies on `rand::rngs::SysRng` (`try_fill_bytes`): bytes from the
/// operating system's randomness source.  Nothing is promised of the
/// values; `None` reports an OS failure.
#[verifier::external_body]
fn sys_random_bytes(n: usize) -> (r: Option<Vec<u8>>)
    ensures
        r matches Some(v) ==> v@.len() == n,
{
    let mut buf = vec![0u8; n];
    match rand::rngs::SysRng.try_fill_bytes(&mut buf) {
        Ok(()) => Some(buf),
        Err(_) => None,
    }
}

/// Relies on `yescrypt::yescrypt` in its native read-write mode with
/// no cost upgrades: the derived key is a function of password,
/// salt, costs and length, `out_len` bytes long; the call succeeds
/// for the parameter shapes admitted below (`n` a power of two in
/// range, `r` small, `p = 1`, `t = 0`, a small output).
#[verifier::external_body]
fn yescrypt_derive(
    password: &Vec<u8>,
    salt: &Vec<u8>,
    n: u64,
    r: u32,
    p: u32,
    t: u32,
    out_len: usize,
) -> (key: Option<Vec<u8>>)
    requires
        1 <= p,
    ensures
        key matches Some(k) ==> {
            &&& k@ == yescrypt_of(password@, salt@, n as int, r as int, p as int, t as int, out_len as int)
            &&& k@.len() == out_len
        },
        (valid_cost(n) && 1 <= r <= 64 && p == 1 && t == 0 && 1 <= out_len <= 32) ==> key is Some,
{
    let params = match yescrypt::Params::new_with_all_params(yescrypt::Mode::Rw, n, r, p, t, 0) {
        Ok(params) => params,
        Err(_) => {
            return None;
        },
    };
    let mut out = vec![0u8; out_len];
    match yescrypt::yescrypt(password.as_slice(), salt.as_slice(), &params, &mut out) {
        Ok(()) => Some(out),
        Err(_) => None,
    }
}

/// Relies on `aes_gcm::Aes128Gcm` (`aead::Aead::encrypt`): the
/// ciphertext is the sealing of the plaintext under key and nonce,
/// plaintext length plus the 16-byte tag, deterministic in its
/// arguments; it succeeds up to the GCM length bound of 2^36 - 32
/// bytes.
#[verifier::external_body]
fn aes128_gcm_encrypt(key: &Vec<u8>, nonce: &Vec<u8>, plaintext: &Vec<u8>) -> (r: Option<Vec<u8>>)
    requires
        key@.len() == 16,
        nonce@.len() == 12,
    ensures
        r matches Some(ct) ==> {
            &&& ct@ == aes_gcm_seal(key@, nonce@, plaintext@)
            &&& aes_gcm_open(key@, nonce@, ct@) == Some(plaintext@)
            &&& ct@.len() == plaintext@.len() + 16
        },
        plaintext@.len() <= 0xFFFFFFFE0 ==> r is Some,
{
    let cipher = match aes_gcm::Aes128Gcm::new_from_slice(key.as_slice()) {
        Ok(c) => c,
        Err(_) => {
            return None;
        },
    };
    cipher.encrypt(aes_gcm::Nonce::from_slice(nonce.as_slice()), plaintext.as_slice()).ok()
}

/// Relies on `aes_gcm::Aes128Gcm` (`aead::Aead::decrypt`): the
/// opening of the ciphertext under key and nonce — the plaintext
/// exactly when the tag verifies.
#[verifier::external_body]
fn aes128_gcm_decrypt(key: &Vec<u8>, nonce: &Vec<u8>, ciphertext: &Vec<u8>) -> (r: Option<Vec<u8>>)
    requires
        key@.len() == 16,
        nonce@.len() == 12,
    ensures
        match r {
            Some(pt) => aes_gcm_open(key@, nonce@, ciphertext@) == Some(pt@),
            None => aes_gcm_open(key@, nonce@, ciphertext@) is None,
        },
{
    let cipher = match aes_gcm::Aes128Gcm::new_from_slice(key.as_slice()) {
        Ok(c) => c,
        Err(_) => {
            return None;
        },
    };
    cipher.decrypt(aes_gcm::Nonce::from_slice(nonce.as_slice()), ciphertext.as_slice()).ok()
}

/// Relies on `base64::engine::general_purpose::STANDARD`
/// (`Engine::encode`): standard base64 with padding, four output
/// bytes for every three input bytes, a function of the input alone.
#[verifier::external_body]
pub(crate) fn b64_encode(bytes: &Vec<u8>) -> (r: Vec<u8>)
    ensures
        r@ == base64_of(bytes@),
        r@.len() == 4 * ((bytes@.len() + 2) / 3),
{
    base64::engine::general_purpose::STANDARD.encode(bytes.as_slice()).into_bytes()
}

/// The per-blob crypto metadata: the three KDF salts, the nonce of
/// the one encryption, and the verifier digest of the master key.
#[derive(Debug)]
pub struct CryptoMetadata {
    pub salt1: Vec<u8>,
    pub salt2: Vec<u8>,
    pub salt3: Vec<u8>,
    pub nonce: Option<Vec<u8>>,
    pub dgst: Vec<u8>,
}

/// The mathematical value of the metadata.
pub ghost struct CryptoMetadataV {
    pub salt1: Seq<u8>,
    pub salt2: Seq<u8>,
    pub salt3: Seq<u8>,
    pub nonce: Option<Seq<u8>>,
    pub dgst: Seq<u8>,
}

impl View for CryptoMetadata {
    type V = CryptoMetadataV;

    open spec fn view(&self) -> CryptoMetadataV {
        CryptoMetadataV {
            salt1: self.salt1@,
            salt2: self.salt2@,
            salt3: self.salt3@,
            nonce: crate::objects::opt_bytes(self.nonce),
            dgst: self.dgst@,
        }
    }
}

/// Well-formed metadata: 128-bit salts, a 128-bit digest, and — once
/// set — a 96-bit nonce.
pub open spec fn wf_metadata(m: CryptoMetadataV) -> bool {
    &&& m.salt1.len() == 16
    &&& m.salt2.len() == 16
    &&& m.salt3.len() == 16
    &&& m.dgst.len() == 16
    &&& (m.nonce matches Some(nn) ==> nn.len() == 12)
}

impl CryptoMetadata {
    /// Metadata for a fresh key schedule; the nonce is set when the
    /// encryption happens.
    pub fn new(salt1: Vec<u8>, salt2: Vec<u8>, salt3: Vec<u8>, dgst: Vec<u8>) -> (r: CryptoMetadata)
        ensures
            r@.salt1 == salt1@,
            r@.salt2 == salt2@,
            r@.salt3 == salt3@,
            r@.dgst == dgst@,
            (r@.nonce is None),
    {
        CryptoMetadata { salt1, salt2, salt3, dgst, nonce: None }
    }

    /// Records the nonce of an encryption.
    pub fn set_nonce(&mut self, nonce: Vec<u8>)
        ensures
            (final(self)@ == CryptoMetadataV { nonce: Some(nonce@), ..old(self)@ }),
    {
        self.nonce = Some(nonce);
    }
}

/// The master key of a password under a salt.
pub open spec fn master_key_of(password: Seq<u8>, salt1: Seq<u8>, n_mk: int) -> Seq<u8> {
    yescrypt_of(password, salt1, n_mk, 32, 1, 0, 16)
}

/// The verifier digest of a master key under a salt.
pub open spec fn verifier_of(mk: Seq<u8>, salt2: Seq<u8>, n_dgst: int) -> Seq<u8> {
    yescrypt_of(mk, salt2, n_dgst, 32, 1, 0, 16)
}

/// The data-protection key of a master key under a salt.
pub open spec fn protection_key_of(mk: Seq<u8>, salt3: Seq<u8>, n_mk: int) -> Seq<u8> {
    yescrypt_of(mk, salt3, n_mk, 32, 1, 0, 16)
}

/// What a derived key pair and its metadata must satisfy: the
/// verifier and the protection key both derive from the master key
/// under the recorded salts.
pub open spec fn key_schedule(
    password: Seq<u8>,
    n_mk: int,
    n_dgst: int,
    dpk: Seq<u8>,
    m: CryptoMetadataV,
) -> bool {
    let mk = master_key_of(password, m.salt1, n_mk);
    &&& wf_metadata(m)
    &&& m.dgst == verifier_of(mk, m.salt2, n_dgst)
    &&& dpk == protection_key_of(mk, m.salt3, n_mk)
    &&& dpk.len() == 16
}

/// Derives one 16-byte key under a fresh random salt, handing the
/// salt back with the key.
fn derive_fresh(password: &Vec<u8>, n: u64) -> (r: Result<(Vec<u8>, Vec<u8>), BackupError>)
    requires
        valid_cost(n),
    ensures
        match r {
            Ok((key, salt)) => {
                &&& salt@.len() == 16
                &&& key@ == yescrypt_of(password@, salt@, n as int, 32, 1, 0, 16)
                &&& key@.len() == 16
            },
            Err(e) => e == BackupError::IoError,
        },
{
    let salt = match sys_random_bytes(16) {
        Some(s) => s,
        None => {
            return Err(BackupError::IoError);
        },
    };
    match yescrypt_derive(password, &salt, n, 32, 1, 0, 16) {
        Some(key) => Ok((key, salt)),
        None => Err(BackupError::IoError),
    }
}

/// The key schedule with explicit cost parameters: master key,
/// verifier, protection key, each under a fresh random salt.  The
/// master key is never returned; the protection key and the
/// metadata are.  A randomness or KDF failure is fatal (`IoError`).
pub fn keyder_with(password: &Vec<u8>, n_mk: u64, n_dgst: u64) -> (r: Result<
    (Vec<u8>, CryptoMetadata),
    BackupError,
>)
    requires
        valid_cost(n_mk),
        valid_cost(n_dgst),
    ensures
        match r {
            Ok((dpk, m)) => key_schedule(password@, n_mk as int, n_dgst as int, dpk@, m@) && m@.nonce is None,
            Err(e) => e == BackupError::IoError,
        },
{
    let (mk, salt1) = match derive_fresh(password, n_mk) {
        Ok(p) => p,
        Err(e) => {
            return Err(e);
        },
    };
    let (dgst, salt2) = match derive_fresh(&mk, n_dgst) {
        Ok(p) => p,
        Err(e) => {
            return Err(e);
        },
    };
    let (dpk, salt3) = match derive_fresh(&mk, n_mk) {
        Ok(p) => p,
        Err(e) => {
            return Err(e);
        },
    };
    let m = CryptoMetadata::new(salt1, salt2, salt3, dgst);
    Ok((dpk, m))
}

/// The key schedule at the engine's own costs: `N = 32768` for the
/// master and protection keys, `N = 4096` for the verifier, with
/// `r = 32`, `p = 1` throughout.
pub fn keyder(password: &Vec<u8>) -> (r: Result<(Vec<u8>, CryptoMetadata), BackupError>)
    ensures
        match r {
            Ok((dpk, m)) => key_schedule(password@, 32768, 4096, dpk@, m@) && m@.nonce is None,
            Err(e) => e == BackupError::IoError,
        },
{
    proof {
        assert((32768u64 & 32767u64) == 0) by (bit_vector);
        assert((4096u64 & 4095u64) == 0) by (bit_vector);
        assert(valid_cost(32768) && valid_cost(4096));
    }
    keyder_with(password, 32768, 4096)
}

/// What a produced ciphertext and its metadata must satisfy: the
/// schedule holds, the nonce is recorded, and the ciphertext is the
/// sealing of the plaintext under the protection key — so opening it
/// under that key gives the plaintext back.
pub open spec fn encrypted_archive(
    password: Seq<u8>,
    n_mk: int,
    n_dgst: int,
    plaintext: Seq<u8>,
    ct: Seq<u8>,
    m: CryptoMetadataV,
) -> bool {
    let mk = master_key_of(password, m.salt1, n_mk);
    let dpk = protection_key_of(mk, m.salt3, n_mk);
    &&& wf_metadata(m)
    &&& m.dgst == verifier_of(mk, m.salt2, n_dgst)
    &&& m.nonce matches Some(nn) && ct == aes_gcm_seal(dpk, nn, plaintext) && aes_gcm_open(
        dpk,
        nn,
        ct,
    ) == Some(plaintext)
    &&& ct.len() == plaintext.len() + 16
}

/// Encrypts an archive's bytes with explicit cost parameters: a
/// fresh schedule, a fresh nonce, one sealing.
pub fn encrypt_archive_with(plaintext: &Vec<u8>, password: &Vec<u8>, n_mk: u64, n_dgst: u64) -> (r:
    Result<(Vec<u8>, CryptoMetadata), BackupError>)
    requires
        valid_cost(n_mk),
        valid_cost(n_dgst),
        plaintext@.len() <= 0xFFFFFFFE0,
    ensures
        match r {
            Ok((ct, m)) => encrypted_archive(password@, n_mk as int, n_dgst as int, plaintext@, ct@, m@),
            Err(e) => e == BackupError::IoError,
        },
{
    let (dpk, mut m) = match keyder_with(password, n_mk, n_dgst) {
        Ok(p) => p,
        Err(e) => {
            return Err(e);
        },
    };
    let nonce = match sys_random_bytes(12) {
        Some(nn) => nn,
        None => {
            return Err(BackupError::IoError);
        },
    };
    let ct = match aes128_gcm_encrypt(&dpk, &nonce, plaintext) {
        Some(ct) => ct,
        None => {
            return Err(BackupError::IoError);
        },
    };
    m.set_nonce(nonce);
    Ok((ct, m))
}

/// Encrypts an archive's bytes at the engine's own costs.
pub fn encrypt_archive(plaintext: &Vec<u8>, password: &Vec<u8>) -> (r: Result<
    (Vec<u8>, CryptoMetadata),
    BackupError,
>)
    requires
        plaintext@.len() <= 0xFFFFFFFE0,
    ensures
        match r {
            Ok((ct, m)) => encrypted_archive(password@, 32768, 4096, plaintext@, ct@, m@),
            Err(e) => e == BackupError::IoError,
        },
{
    proof {
        assert((32768u64 & 32767u64) == 0) by (bit_vector);
        assert((4096u64 & 4095u64) == 0) by (bit_vector);
        assert(valid_cost(32768) && valid_cost(4096));
    }
    encrypt_archive_with(plaintext, password, 32768, 4096)
}

/// Unlocks a ciphertext with explicit cost parameters.  The password
/// is reduced to the master key, the verifier is recomputed and held
/// against the stored digest, and only on a match is decryption
/// attempted: a wrong verifier is `AuthFailure` before any tag
/// check, and a failed tag check is `AuthFailure` too.  Metadata of
/// the wrong shape is `EncodingError`; a KDF failure is `IoError`.
/// On the data an intact encryption produced, unlocking with the
/// right password succeeds.
pub fn unlock_archive_with(
    ciphertext: &Vec<u8>,
    password: &Vec<u8>,
    meta: &CryptoMetadata,
    n_mk: u64,
    n_dgst: u64,
) -> (r: Result<Vec<u8>, BackupError>)
    requires
        valid_cost(n_mk),
        valid_cost(n_dgst),
    ensures
        ({
            let mk = master_key_of(password@, meta@.salt1, n_mk as int);
            let dpk = protection_key_of(mk, meta@.salt3, n_mk as int);
            match r {
                Ok(pt) => {
                    &&& wf_metadata(meta@)
                    &&& meta@.dgst == verifier_of(mk, meta@.salt2, n_dgst as int)
                    &&& meta@.nonce matches Some(nn) && aes_gcm_open(dpk, nn, ciphertext@) == Some(pt@)
                },
                Err(e) => {
                    ||| e == BackupError::IoError
                    ||| (e == BackupError::EncodingError && !(wf_metadata(meta@) && meta@.nonce is Some))
                    ||| (e == BackupError::AuthFailure && wf_metadata(meta@) && (
                        meta@.dgst != verifier_of(mk, meta@.salt2, n_dgst as int)
                        || (meta@.nonce matches Some(nn) && aes_gcm_open(dpk, nn, ciphertext@) is None)))
                },
            }
        }),
        (wf_metadata(meta@)
            && meta@.dgst == verifier_of(
            master_key_of(password@, meta@.salt1, n_mk as int),
            meta@.salt2,
            n_dgst as int,
        )
            && meta@.nonce is Some
            && aes_gcm_open(
            protection_key_of(master_key_of(password@, meta@.salt1, n_mk as int), meta@.salt3, n_mk as int),
            meta@.nonce->0,
            ciphertext@,
        ) is Some) ==> r is Ok,
{
    if !(meta.salt1.len() == 16 && meta.salt2.len() == 16 && meta.salt3.len() == 16
        && meta.dgst.len() == 16) {
        return Err(BackupError::EncodingError);
    }
    let nonce = match &meta.nonce {
        Some(nn) => {
            if nn.len() != 12 {
                return Err(BackupError::EncodingError);
            }
            nn
        },
        None => {
            return Err(BackupError::EncodingError);
        },
    };
    let mk = match yescrypt_derive(password, &meta.salt1, n_mk, 32, 1, 0, 16) {
        Some(k) => k,
        None => {
            return Err(BackupError::IoError);
        },
    };
    let dgst = match yescrypt_derive(&mk, &meta.salt2, n_dgst, 32, 1, 0, 16) {
        Some(k) => k,
        None => {
            return Err(BackupError::IoError);
        },
    };
    if !crate::bytesutil::bytes_eq(&dgst, &meta.dgst) {
        // the verifier does not match: the password is wrong, and no
        // decryption is attempted
        return Err(BackupError::AuthFailure);
    }
    let dpk = match yescrypt_derive(&mk, &meta.salt3, n_mk, 32, 1, 0, 16) {
        Some(k) => k,
        None => {
            return Err(BackupError::IoError);
        },
    };
    match aes128_gcm_decrypt(&dpk, nonce, ciphertext) {
        Some(pt) => Ok(pt),
        None => Err(BackupError::AuthFailure),
    }
}

/// Unlocks a ciphertext at the engine's own costs.
pub fn unlock_archive(ciphertext: &Vec<u8>, password: &Vec<u8>, meta: &CryptoMetadata) -> (r:
    Result<Vec<u8>, BackupError>)
    ensures
        ({
            let mk = master_key_of(password@, meta@.salt1, 32768);
            let dpk = protection_key_of(mk, meta@.salt3, 32768);
            match r {
                Ok(pt) => {
                    &&& wf_metadata(meta@)
                    &&& meta@.dgst == verifier_of(mk, meta@.salt2, 4096)
                    &&& meta@.nonce matches Some(nn) && aes_gcm_open(dpk, nn, ciphertext@) == Some(pt@)
                },
                Err(e) => {
                    ||| e == BackupError::IoError
                    ||| (e == BackupError::EncodingError && !(wf_metadata(meta@) && meta@.nonce is Some))
                    ||| (e == BackupError::AuthFailure && wf_metadata(meta@) && (
                        meta@.dgst != verifier_of(mk, meta@.salt2, 4096)
                        || (meta@.nonce matches Some(nn) && aes_gcm_open(dpk, nn, ciphertext@) is None)))
                },
            }
        }),
        (wf_metadata(meta@)
            && meta@.dgst == verifier_of(
            master_key_of(password@, meta@.salt1, 32768),
            meta@.salt2,
            4096,
        )
            && meta@.nonce is Some
            && aes_gcm_open(
            protection_key_of(master_key_of(password@, meta@.salt1, 32768), meta@.salt3, 32768),
            meta@.nonce->0,
            ciphertext@,
        ) is Some) ==> r is Ok,
{
    proof {
        assert((32768u64 & 32767u64) == 0) by (bit_vector);
        assert((4096u64 & 4095u64) == 0) by (bit_vector);
        assert(valid_cost(32768) && valid_cost(4096));
    }
    unlock_archive_with(ciphertext, password, meta, 32768, 4096)
}

/// Encryption round trip: data an encryption produced satisfies
/// every condition under which unlocking with the same password is
/// promised to succeed, and any plaintext it then returns is the
/// original — while a stored verifier that does not match the
/// password's own forces `AuthFailure` before any decryption.
pub proof fn lemma_encrypt_unlock_round_trip(
    password: Seq<u8>,
    n_mk: int,
    n_dgst: int,
    plaintext: Seq<u8>,
    ct: Seq<u8>,
    m: CryptoMetadataV,
)
    requires
        encrypted_archive(password, n_mk, n_dgst, plaintext, ct, m),
    ensures
        wf_metadata(m),
        m.dgst == verifier_of(master_key_of(password, m.salt1, n_mk), m.salt2, n_dgst),
        m.nonce is Some,
        aes_gcm_open(
            protection_key_of(master_key_of(password, m.salt1, n_mk), m.salt3, n_mk),
            m.nonce->0,
            ct,
        ) == Some(plaintext),
{
}

} // verus!
