use openbrs::crypto::{encrypt_archive_with, keyder_with, unlock_archive_with, CryptoMetadata};
use openbrs::sidecar::metadata_toml_bytes;
use openbrs::BackupError;

// small power-of-two costs keep the memory-hard KDF fast under test;
// the engine's own backups use N = 32768 / 4096
const N_MK: u64 = 8;
const N_DGST: u64 = 4;

#[test]
fn keyder_shapes() {
    let (dpk, m) = keyder_with(&b"test_passwd".to_vec(), N_MK, N_DGST).unwrap();
    assert_eq!(dpk.len(), 16);
    assert_eq!(m.salt1.len(), 16);
    assert_eq!(m.salt2.len(), 16);
    assert_eq!(m.salt3.len(), 16);
    assert_eq!(m.dgst.len(), 16);
    assert!(m.nonce.is_none());
    // fresh randomness: two schedules use different salts
    let (_, m2) = keyder_with(&b"test_passwd".to_vec(), N_MK, N_DGST).unwrap();
    assert_ne!(m.salt1, m2.salt1);
}

#[test]
fn encrypt_then_unlock_returns_plaintext() {
    let plaintext = b"the compressed archive bytes".to_vec();
    let password = b"correct horse".to_vec();
    let (ct, m) = encrypt_archive_with(&plaintext, &password, N_MK, N_DGST).unwrap();
    // ciphertext carries a 16-byte tag and is not the plaintext
    assert_eq!(ct.len(), plaintext.len() + 16);
    assert_ne!(&ct[..plaintext.len()], &plaintext[..]);
    let back = unlock_archive_with(&ct, &password, &m, N_MK, N_DGST).unwrap();
    assert_eq!(back, plaintext);
}

#[test]
fn wrong_password_fails_before_decryption() {
    let plaintext = b"secret".to_vec();
    let (ct, m) = encrypt_archive_with(&plaintext, &b"right".to_vec(), N_MK, N_DGST).unwrap();
    let r = unlock_archive_with(&ct, &b"wrong".to_vec(), &m, N_MK, N_DGST);
    assert!(matches!(r, Err(BackupError::AuthFailure)));
}

#[test]
fn tampered_ciphertext_fails_authentication() {
    let plaintext = b"payload".to_vec();
    let password = b"pw".to_vec();
    let (mut ct, m) = encrypt_archive_with(&plaintext, &password, N_MK, N_DGST).unwrap();
    ct[0] ^= 1;
    let r = unlock_archive_with(&ct, &password, &m, N_MK, N_DGST);
    assert!(matches!(r, Err(BackupError::AuthFailure)));
}

#[test]
fn metadata_without_nonce_cannot_be_persisted() {
    let (_, m) = keyder_with(&b"pw".to_vec(), N_MK, N_DGST).unwrap();
    assert!(matches!(metadata_toml_bytes(&m), Err(BackupError::EncodingError)));
}

#[test]
fn sidecar_text_exact() {
    let m = CryptoMetadata {
        salt1: vec![0u8; 16],
        salt2: vec![255u8; 16],
        salt3: (0u8..16).collect(),
        nonce: Some((0u8..12).collect()),
        dgst: vec![0xABu8; 16],
    };
    let s = metadata_toml_bytes(&m).unwrap();
    let mut expected = String::new();
    expected.push_str("salt1 = [0, 0, 0, 0, 0, 0, 0, 0, 0, 0, 0, 0, 0, 0, 0, 0]\n");
    expected.push_str("salt2 = [255, 255, 255, 255, 255, 255, 255, 255, 255, 255, 255, 255, 255, 255, 255, 255]\n");
    expected.push_str("salt3 = [0, 1, 2, 3, 4, 5, 6, 7, 8, 9, 10, 11, 12, 13, 14, 15]\n");
    expected.push_str("nonce = \"AAECAwQFBgcICQoL\"\n");
    expected.push_str("dgst = \"q6urq6urq6urq6urq6urqw==\"\n");
    assert_eq!(s, expected.as_bytes().to_vec());
}

#[test]
fn sidecar_of_real_encryption_round_trips_through_unlock() {
    // the persisted sidecar carries everything unlocking needs
    let plaintext = b"blob".to_vec();
    let password = b"pw".to_vec();
    let (ct, m) = encrypt_archive_with(&plaintext, &password, N_MK, N_DGST).unwrap();
    let text = metadata_toml_bytes(&m).unwrap();
    assert!(text.starts_with(b"salt1 = ["));
    let back = unlock_archive_with(&ct, &password, &m, N_MK, N_DGST).unwrap();
    assert_eq!(back, plaintext);
}
