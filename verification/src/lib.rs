//! Core of a content-addressed backup engine.
//!
//! A snapshot of a file or directory tree is summarised by a root `Tree`
//! object; trees, blobs and commits are immutable values keyed by a
//! 256-bit content hash, written once into an object store and never
//! changed.  The modules below cover the object model and its canonical
//! serialization, the snapshot builder, the tree differ, the staging
//! rules, the key-derivation and authenticated-encryption scheme, and
//! the repository layout.  All file and network traffic is left to the
//! surrounding program: every function here maps plain values to plain
//! values, and the few calls into outside crates (hashing, the KDF, the
//! cipher, randomness) sit behind small trusted declarations.

use vstd::prelude::*;

pub mod bytesutil;
pub mod digest;
pub mod objects;
pub mod snapshot;
pub mod diff;
pub mod json;
pub mod layout;
pub mod stage;
pub mod archive;
pub mod crypto;
pub mod sidecar;
pub mod driver;

verus! {

/// The failure kinds surfaced by the engine.
///
/// `PathRejected`: the target path was absolute or does not exist.
/// `IoError`: a read or write on a source or object-store path failed.
/// `EncodingError`: an object could not be serialized, or stored text
/// (such as the `HEAD` file) was not well formed.
/// `NotFound`: a referenced object is missing from the store.
/// `AuthFailure`: the password verifier did not match, or an
/// authentication tag check failed on decryption.
/// `Corruption`: a stored object contradicts its own content hash or
/// the store's structure.
#[derive(Clone, Copy, Debug, PartialEq, Eq, Structural)]
pub enum BackupError {
    PathRejected,
    IoError,
    EncodingError,
    NotFound,
    AuthFailure,
    Corruption,
}

} // verus!
