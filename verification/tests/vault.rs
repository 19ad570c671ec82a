use vault::codec::{materialize, serialize};
use vault::crypto::{cipher, decipher};
use vault::entry::Entry;
use vault::errors::VaultError;
use vault::store::{add_entry, delete_entry, read_entry, VaultMap};

fn sample_entry() -> Entry {
    Entry {
        salt: "salt".as_bytes().to_vec(),
        nonce: "nonce".as_bytes().to_vec(),
        cipher_text: "Very_top_secret_text!_@#".as_bytes().to_vec(),
    }
}

#[test]
fn test_create_empty_vault() {
    let empty_vault = materialize(None).unwrap();

    assert!(empty_vault.is_empty());
}

#[test]
fn test_add_delete_cycle() {
    let label: String = String::from("Very top secret entry !_@#");
    let mut entries = VaultMap::new();
    let entry = sample_entry();

    add_entry(&mut entries, label.clone(), entry);

    assert!(delete_entry(&mut entries, label), "Failed to delete the entry");
    assert!(entries.is_empty(), "'Entries' was not empty after deletion");
}

#[test]
fn test_write_read_cycle() {
    let label: String = String::from("Very top secret entry !_@#");
    let mut entries = VaultMap::new();
    let entry = sample_entry();

    add_entry(&mut entries, label.clone(), entry.clone());
    let blob = serialize(&entries);

    let entries_disk = materialize(Some(&blob)).unwrap();
    let entry_read = read_entry(&entries_disk, &label).unwrap();

    assert_eq!(entry.cipher_text, entry_read.cipher_text);
}

#[test]
fn seal_open_round_trip() {
    let text = String::from("Very_top_secret_text!_@#");
    let password = String::from("correct horse battery staple");

    let record = cipher(text.clone(), password.clone()).unwrap();
    assert_eq!(record.salt.len(), 16);
    assert_eq!(record.nonce.len(), 12);
    assert_eq!(record.cipher_text.len(), text.len() + 16);
    assert_ne!(record.cipher_text, text.as_bytes().to_vec());

    let opened = decipher(&record, password).unwrap();
    assert_eq!(opened, text);
}

#[test]
fn wrong_password_rejected() {
    let record = cipher(String::from("secret"), String::from("password one")).unwrap();

    let err = decipher(&record, String::from("password two")).unwrap_err();
    assert_eq!(err, VaultError::AuthenticationFailure);
}

#[test]
fn tampered_record_rejected() {
    let password = String::from("pw");
    let record = cipher(String::from("secret"), password.clone()).unwrap();

    let positions = [0, record.cipher_text.len() / 2, record.cipher_text.len() - 1];
    for &pos in positions.iter() {
        let mut tampered = record.clone();
        tampered.cipher_text[pos] ^= 1;
        let err = decipher(&tampered, password.clone()).unwrap_err();
        assert_eq!(err, VaultError::AuthenticationFailure);
    }

    let mut tampered = record.clone();
    tampered.nonce[0] ^= 0x80;
    let err = decipher(&tampered, password).unwrap_err();
    assert_eq!(err, VaultError::AuthenticationFailure);
}

#[test]
fn seal_twice_differs() {
    let text = String::from("same text");
    let password = String::from("same password");

    let first = cipher(text.clone(), password.clone()).unwrap();
    let second = cipher(text, password).unwrap();

    assert_ne!(first.salt, second.salt);
    assert_ne!(first.nonce, second.nonce);
    assert_ne!(first.cipher_text, second.cipher_text);
}

#[test]
fn short_salt_is_key_derivation_failure() {
    let record = Entry {
        salt: "ab".as_bytes().to_vec(),
        nonce: vec![0u8; 12],
        cipher_text: vec![1u8; 20],
    };

    let err = decipher(&record, String::from("pw")).unwrap_err();
    assert_eq!(err, VaultError::KeyDerivationFailure);
}

#[test]
fn upsert_overwrites() {
    let mut entries = VaultMap::new();
    let first = Entry { salt: vec![1u8; 16], nonce: vec![2u8; 12], cipher_text: vec![3u8; 20] };
    let second = Entry { salt: vec![4u8; 16], nonce: vec![5u8; 12], cipher_text: vec![6u8; 20] };

    add_entry(&mut entries, String::from("L"), first);
    add_entry(&mut entries, String::from("L"), second.clone());

    assert_eq!(entries.len(), 1);
    let read = read_entry(&entries, &String::from("L")).unwrap();
    assert_eq!(read.salt, second.salt);
    assert_eq!(read.nonce, second.nonce);
    assert_eq!(read.cipher_text, second.cipher_text);
}

#[test]
fn empty_store_bootstrap() {
    let empty = materialize(None).unwrap();
    assert!(empty.is_empty());

    let blob = serialize(&empty);
    assert_eq!(blob, "{}".as_bytes().to_vec());

    let again = materialize(Some(&blob)).unwrap();
    assert!(again.is_empty());
}

#[test]
fn exact_serialized_form() {
    let mut entries = VaultMap::new();
    add_entry(&mut entries, String::from("L"), sample_entry());

    let blob = serialize(&entries);
    let expected = "{\"L\":{\"salt\":\"c2FsdA==\",\"nonce\":\"bm9uY2U=\",\"cipherText\":\"VmVyeV90b3Bfc2VjcmV0X3RleHQhX0Aj\"}}";
    assert_eq!(blob, expected.as_bytes().to_vec());
}

#[test]
fn label_escaping_round_trip() {
    let label = String::from("he\"ll\\o \u{00e9}\u{4e16}");
    let mut entries = VaultMap::new();
    add_entry(&mut entries, label.clone(), sample_entry());

    let blob = serialize(&entries);
    let back = materialize(Some(&blob)).unwrap();

    assert_eq!(back.len(), 1);
    let read = read_entry(&back, &label).unwrap();
    assert_eq!(read.cipher_text, sample_entry().cipher_text);
}

#[test]
fn corrupt_input_rejected() {
    let truncated = "{\"L\":{\"salt\":\"c2FsdA==\"".as_bytes().to_vec();
    assert_eq!(materialize(Some(&truncated)).unwrap_err(), VaultError::VaultCorrupt);

    let garbage = "not a vault at all".as_bytes().to_vec();
    assert_eq!(materialize(Some(&garbage)).unwrap_err(), VaultError::VaultCorrupt);

    let bad_b64 = "{\"L\":{\"salt\":\"c2FsdA=\",\"nonce\":\"bm9uY2U=\",\"cipherText\":\"AA==\"}}"
        .as_bytes()
        .to_vec();
    assert_eq!(materialize(Some(&bad_b64)).unwrap_err(), VaultError::VaultCorrupt);

    let mut entries = VaultMap::new();
    add_entry(&mut entries, String::from("L"), sample_entry());
    let mut blob = serialize(&entries);
    blob.pop();
    assert_eq!(materialize(Some(&blob)).unwrap_err(), VaultError::VaultCorrupt);
}

#[test]
fn duplicate_label_rejected() {
    let one = "{\"L\":{\"salt\":\"c2FsdA==\",\"nonce\":\"bm9uY2U=\",\"cipherText\":\"AA==\"}";
    let blob = format!("{},{}}}", one, &one[1..]);
    assert_eq!(materialize(Some(&blob.into_bytes())).unwrap_err(), VaultError::VaultCorrupt);
}

#[test]
fn delete_semantics() {
    let mut entries = VaultMap::new();
    add_entry(&mut entries, String::from("L"), sample_entry());

    assert!(!delete_entry(&mut entries, String::from("missing")));
    assert_eq!(entries.len(), 1);
    assert!(read_entry(&entries, &String::from("L")).is_some());

    assert!(delete_entry(&mut entries, String::from("L")));
    assert!(read_entry(&entries, &String::from("L")).is_none());
    assert!(entries.is_empty());
}

#[test]
fn whitespace_tolerated() {
    let spaced = "{ }".as_bytes().to_vec();
    assert!(materialize(Some(&spaced)).unwrap().is_empty());

    let pretty = "{\n  \"L\": {\n    \"salt\": \"c2FsdA==\",\n    \"nonce\": \"bm9uY2U=\",\n    \"cipherText\": \"VmVyeV90b3Bfc2VjcmV0X3RleHQhX0Aj\"\n  }\n}\n"
        .as_bytes()
        .to_vec();
    let back = materialize(Some(&pretty)).unwrap();
    let read = read_entry(&back, &String::from("L")).unwrap();
    assert_eq!(read.salt, "salt".as_bytes().to_vec());
    assert_eq!(read.nonce, "nonce".as_bytes().to_vec());
    assert_eq!(read.cipher_text, "Very_top_secret_text!_@#".as_bytes().to_vec());
}

#[test]
fn field_order_free() {
    let reordered =
        "{\"L\":{\"cipherText\":\"VmVyeV90b3Bfc2VjcmV0X3RleHQhX0Aj\",\"nonce\":\"bm9uY2U=\",\"salt\":\"c2FsdA==\"}}"
            .as_bytes()
            .to_vec();
    let back = materialize(Some(&reordered)).unwrap();
    let read = read_entry(&back, &String::from("L")).unwrap();
    assert_eq!(read.salt, "salt".as_bytes().to_vec());
    assert_eq!(read.cipher_text, "Very_top_secret_text!_@#".as_bytes().to_vec());

    let missing = "{\"L\":{\"salt\":\"c2FsdA==\",\"nonce\":\"bm9uY2U=\"}}".as_bytes().to_vec();
    assert_eq!(materialize(Some(&missing)).unwrap_err(), VaultError::VaultCorrupt);

    let repeated =
        "{\"L\":{\"salt\":\"c2FsdA==\",\"salt\":\"c2FsdA==\",\"cipherText\":\"AA==\"}}"
            .as_bytes()
            .to_vec();
    assert_eq!(materialize(Some(&repeated)).unwrap_err(), VaultError::VaultCorrupt);
}

#[test]
fn string_escapes_accepted() {
    let escaped =
        "{\"a\\n\\t\\\"b\\u0041\\uD83D\\uDE00\":{\"salt\":\"c2FsdA==\",\"nonce\":\"bm9uY2U=\",\"cipherText\":\"AA==\"}}"
            .as_bytes()
            .to_vec();
    let back = materialize(Some(&escaped)).unwrap();
    let label = String::from("a\n\t\"bA\u{1F600}");
    assert!(read_entry(&back, &label).is_some());

    let lone_surrogate =
        "{\"a\\uD800b\":{\"salt\":\"c2FsdA==\",\"nonce\":\"bm9uY2U=\",\"cipherText\":\"AA==\"}}"
            .as_bytes()
            .to_vec();
    assert_eq!(materialize(Some(&lone_surrogate)).unwrap_err(), VaultError::VaultCorrupt);
}

#[test]
fn control_chars_in_label_round_trip() {
    let label = String::from("tab\tnewline\nbell\u{0007}");
    let mut entries = VaultMap::new();
    add_entry(&mut entries, label.clone(), sample_entry());

    let blob = serialize(&entries);
    let text = String::from_utf8(blob.clone()).unwrap();
    assert!(text.contains("\\u0009"));
    assert!(text.contains("\\u000a"));
    assert!(text.contains("\\u0007"));

    let back = materialize(Some(&blob)).unwrap();
    assert!(read_entry(&back, &label).is_some());
}
