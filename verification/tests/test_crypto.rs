use keystore::{KeyComponents, KeyDetails, KeyEntry, KeyStore};

#[test]
fn generated_key_has_expected_shape() {
    let mut store = KeyStore::new();
    store.generate_key(KeyDetails::new("k1", None, 512)).unwrap();
    let entry = store.find("k1").unwrap();
    // a 512-bit modulus is 64 bytes, the public exponent is 65537
    assert_eq!(entry.key.n.len(), 64);
    assert_ne!(entry.key.n[63], 0);
    assert_eq!(entry.key.e, vec![1, 0, 1]);
    assert_eq!(entry.key.primes.len(), 2);
}

#[test]
fn generate_key_rejects_tiny_strength() {
    let mut store = KeyStore::new();
    let result = store.generate_key(KeyDetails::new("weak", None, 4));
    assert!(result.is_err());
    assert_eq!(store.entries.len(), 0);
}

#[test]
fn generate_key_succeeds_from_twelve_bits_up() {
    let mut store = KeyStore::new();
    assert!(store.generate_key(KeyDetails::new("eleven", None, 11)).is_err());
    assert_eq!(store.entries.len(), 0);
    assert!(store.generate_key(KeyDetails::new("twelve", None, 12)).is_ok());
    assert_eq!(store.entries.len(), 1);
}

#[test]
fn generate_key_rejects_oversized_strength() {
    let mut store = KeyStore::new();
    let err = store.generate_key(KeyDetails::new("huge", None, 65537)).unwrap_err();
    assert_eq!(err.message(), "key generation failed: strength too large");
    assert_eq!(store.entries.len(), 0);
}

#[test]
fn encrypt_changes_the_payload() {
    let mut store = KeyStore::new();
    store.generate_key(KeyDetails::new("k1", None, 512)).unwrap();
    let message = b"short and secret";
    let ciphertext = store.encrypt("k1", message).unwrap();
    assert_eq!(ciphertext.len(), 64);
    assert_ne!(&ciphertext[..], &message[..]);
}

#[test]
fn encrypt_rejects_oversized_payload() {
    let mut store = KeyStore::new();
    store.generate_key(KeyDetails::new("k1", None, 512)).unwrap();
    // a 512-bit key carries at most 64 - 11 = 53 bytes
    let payload = [42u8; 54];
    assert!(store.encrypt("k1", &payload).is_err());
    let fits = [42u8; 53];
    assert!(store.encrypt("k1", &fits).is_ok());
    assert_eq!(store.entries.len(), 1);
}

#[test]
fn encrypt_and_decrypt_fail_on_missing_name() {
    let mut store = KeyStore::new();
    assert!(store.encrypt("ghost", b"payload").is_err());
    assert!(store.decrypt("ghost", b"payload").is_err());
    store.generate_key(KeyDetails::new("k1", None, 512)).unwrap();
    assert!(store.encrypt("ghost", b"payload").is_err());
    let err = store.find("ghost").unwrap_err();
    assert_eq!(err.message(), "key: 'ghost' not found");
    let enc_err = store.encrypt("ghost", b"payload").unwrap_err();
    assert_eq!(enc_err.message(), "key: 'ghost' not found");
    let dec_err = store.decrypt("ghost", b"payload").unwrap_err();
    assert_eq!(dec_err.message(), "key: 'ghost' not found");
}

#[test]
fn decrypt_rejects_malformed_ciphertext() {
    let mut store = KeyStore::new();
    store.generate_key(KeyDetails::new("k1", None, 512)).unwrap();
    assert!(store.decrypt("k1", b"not a ciphertext").is_err());
}

#[test]
fn decrypt_rejects_ciphertext_of_wrong_length() {
    let mut store = KeyStore::new();
    store.generate_key(KeyDetails::new("k1", None, 512)).unwrap();
    let ciphertext = store.encrypt("k1", b"payload").unwrap();
    let truncated = &ciphertext[..ciphertext.len() - 1];
    assert!(store.decrypt("k1", truncated).is_err());
    // a leading zero byte keeps the numeric value but not the length
    let mut padded = vec![0u8];
    padded.extend_from_slice(&ciphertext);
    assert!(store.decrypt("k1", &padded).is_err());
    assert!(store.decrypt("k1", &ciphertext).is_ok());
}

#[test]
fn decrypt_rejects_key_without_usable_primes() {
    let store = KeyStore {
        entries: vec![KeyEntry {
            name: "broken".to_owned(),
            description: None,
            key: KeyComponents { primes: vec![], n: vec![5], e: vec![3], d: vec![3] },
        }],
    };
    assert!(store.decrypt("broken", &[0u8; 64]).is_err());
}

#[test]
fn encrypt_rejects_tiny_modulus() {
    let store = KeyStore {
        entries: vec![KeyEntry {
            name: "tiny".to_owned(),
            description: None,
            key: KeyComponents { primes: vec![vec![3], vec![5]], n: vec![15], e: vec![3], d: vec![3] },
        }],
    };
    assert!(store.encrypt("tiny", b"x").is_err());
}

#[test]
fn first_entry_wins_on_duplicate_names() {
    let mut store = KeyStore::new();
    store.generate_key(KeyDetails::new("dup", None, 512)).unwrap();
    store.generate_key(KeyDetails::new("dup", None, 512)).unwrap();
    assert_eq!(store.entries.len(), 2);
    let first_n = store.entries[0].key.n.clone();
    let found = store.find("dup").unwrap();
    assert_eq!(found.key.n, first_n);
}

#[test]
fn description_is_not_retained_on_generation() {
    let mut store = KeyStore::new();
    store.generate_key(KeyDetails::new("k1", Some("ignored"), 512)).unwrap();
    assert!(store.entries[0].description.is_none());
}

#[test]
fn end_to_end_scenario() {
    let mut store = KeyStore::new();
    store.generate_key(KeyDetails::new("k1", None, 512)).unwrap();
    let persisted = store.serialize().unwrap();

    let reloaded = KeyStore::deserialize(&persisted).unwrap();
    let message = b"this is a secret message";
    let ciphertext = reloaded.encrypt("k1", message).unwrap();
    let plaintext = reloaded.decrypt("k1", &ciphertext).unwrap();
    assert_eq!(&plaintext[..], &message[..]);
}
