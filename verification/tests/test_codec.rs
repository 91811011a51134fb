use keystore::{KeyComponents, KeyEntry, KeyStore};

fn sample_store(name: &str, description: Option<&str>) -> KeyStore {
    let key = KeyComponents {
        primes: vec![vec![7], vec![11]],
        n: vec![0, 10, 255],
        e: vec![1, 0, 1],
        d: vec![77],
    };
    KeyStore {
        entries: vec![KeyEntry {
            name: name.to_owned(),
            description: description.map(|d| d.to_owned()),
            key,
        }],
    }
}

#[test]
fn empty_store_serializes_to_exact_text() {
    let store = KeyStore::new();
    let text = store.serialize().unwrap();
    assert_eq!(text, "{\"entries\":[]}");
}

#[test]
fn one_entry_serializes_to_exact_text() {
    let store = sample_store("k", None);
    let text = store.serialize().unwrap();
    assert_eq!(
        text,
        "{\"entries\":[{\"name\":\"k\",\"description\":null,\"key\":\
         {\"primes\":[[7],[11]],\"n\":[0,10,255],\"e\":[1,0,1],\"d\":[77]}}]}"
    );
}

#[test]
fn empty_store_round_trips() {
    let store = KeyStore::new();
    let text = store.serialize().unwrap();
    let back = KeyStore::deserialize(&text).unwrap();
    assert_eq!(back.entries.len(), 0);
}

#[test]
fn entries_round_trip_losslessly() {
    let store = sample_store("k1", Some("a spare key"));
    let text = store.serialize().unwrap();
    let back = KeyStore::deserialize(&text).unwrap();
    assert_eq!(back.entries.len(), 1);
    let entry = &back.entries[0];
    assert_eq!(entry.name, "k1");
    assert_eq!(entry.description.as_deref(), Some("a spare key"));
    assert_eq!(entry.key.primes, vec![vec![7], vec![11]]);
    assert_eq!(entry.key.n, vec![0, 10, 255]);
    assert_eq!(entry.key.e, vec![1, 0, 1]);
    assert_eq!(entry.key.d, vec![77]);
}

#[test]
fn names_with_quotes_and_backslashes_round_trip() {
    let store = sample_store("a\"b\\c", None);
    let text = store.serialize().unwrap();
    let back = KeyStore::deserialize(&text).unwrap();
    assert_eq!(back.entries[0].name, "a\"b\\c");
    assert!(back.find("a\"b\\c").is_ok());
}

#[test]
fn serialized_store_is_valid_json() {
    let store = sample_store("k1", None);
    let text = store.serialize().unwrap();
    let value: serde_json::Value = serde_json::from_str(&text).unwrap();
    assert_eq!(value["entries"][0]["name"], serde_json::Value::String("k1".to_owned()));
    assert_eq!(value["entries"][0]["key"]["n"][2], serde_json::Value::from(255u8));
}

#[test]
fn deserialize_rejects_empty_object() {
    assert!(KeyStore::deserialize("{}").is_err());
}

#[test]
fn deserialize_rejects_missing_modulus_field() {
    let text = "{\"entries\":[{\"name\":\"k\",\"description\":null,\"key\":\
                {\"primes\":[[7],[11]],\"e\":[1,0,1],\"d\":[77]}}]}";
    assert!(KeyStore::deserialize(text).is_err());
}

#[test]
fn deserialize_rejects_truncated_text() {
    let store = sample_store("k", None);
    let text = store.serialize().unwrap();
    let truncated = &text[..text.len() - 2];
    assert!(KeyStore::deserialize(truncated).is_err());
}

#[test]
fn deserialize_rejects_trailing_text() {
    let store = sample_store("k", None);
    let mut text = store.serialize().unwrap();
    text.push_str(" ");
    assert!(KeyStore::deserialize(&text).is_err());
}

#[test]
fn deserialize_rejects_out_of_range_byte() {
    let text = "{\"entries\":[{\"name\":\"k\",\"description\":null,\"key\":\
                {\"primes\":[[7],[11]],\"n\":[256],\"e\":[1,0,1],\"d\":[77]}}]}";
    assert!(KeyStore::deserialize(text).is_err());
}

#[test]
fn deserialize_accepts_handwritten_canonical_text() {
    let text = "{\"entries\":[]}";
    let store = KeyStore::deserialize(text).unwrap();
    assert_eq!(store.entries.len(), 0);
}
