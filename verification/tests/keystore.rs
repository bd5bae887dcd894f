use chunkvault::error::Error;
use chunkvault::keystore::{ChunkRecord, KeyStore, KeyStoreDocument};

const KEY: &str = "0123456789abcdef0123456789abcdef";

fn store() -> KeyStore {
    KeyStore::with_key(String::from("plain.txt"), String::from("chunks"), String::from(KEY))
        .unwrap()
}

fn nonce(n: usize) -> String {
    format!("nonce-{:06}", n)
}

fn names_of(store: &KeyStore) -> Vec<String> {
    store.chunk_records().iter().map(|record| record.name.clone()).collect()
}

#[test]
fn new_key_store_is_empty_and_has_a_key_of_32_bytes() {
    let store = KeyStore::new(String::from("file.test"), String::from("dir"));
    assert_eq!(store.source_identity(), "file.test");
    assert_eq!(store.storage_location(), "dir");
    assert!(store.chunk_records().is_empty());
    let key = store.master_key();
    assert_eq!(key.len(), 32);
    for (at, c) in key.chars().enumerate() {
        if at == 8 || at == 13 || at == 18 || at == 23 {
            assert_eq!(c, '-');
        } else {
            assert!(c.is_ascii_digit() || ('a'..='f').contains(&c));
        }
    }
}

#[test]
fn keys_are_drawn_anew() {
    let first = KeyStore::new(String::from("a"), String::from("d"));
    let second = KeyStore::new(String::from("a"), String::from("d"));
    assert_ne!(first.master_key(), second.master_key());
}

#[test]
fn with_key_keeps_what_it_is_given() {
    let store = store();
    assert_eq!(store.source_identity(), "plain.txt");
    assert_eq!(store.storage_location(), "chunks");
    assert_eq!(store.master_key(), KEY);
    assert!(store.chunk_records().is_empty());
}

#[test]
fn with_key_refuses_a_key_of_another_size() {
    for key in ["", "short", "0123456789abcdef0123456789abcde", "0123456789abcdef0123456789abcdef0"] {
        let res = KeyStore::with_key(String::from("p"), String::from("d"), String::from(key));
        assert!(matches!(res, Err(Error::CryptoError)));
    }
    // 32 characters, 33 bytes
    let res = KeyStore::with_key(
        String::from("p"),
        String::from("d"),
        String::from("0123456789abcdef0123456789abcd\u{e9}f"),
    );
    assert!(matches!(res, Err(Error::CryptoError)));
}

#[test]
fn record_adds_one_entry() {
    let mut store = store();
    assert!(store.record(String::from("chunks/0_a.bin"), nonce(0)).is_ok());
    assert!(store.record(String::from("chunks/1_b.bin"), nonce(1)).is_ok());
    assert_eq!(store.chunk_records().len(), 2);
    assert_eq!(names_of(&store), vec!["chunks/0_a.bin", "chunks/1_b.bin"]);
    assert_eq!(store.nonce(&String::from("chunks/0_a.bin")), Some(&nonce(0)));
    assert_eq!(store.nonce(&String::from("chunks/1_b.bin")), Some(&nonce(1)));
    assert_eq!(store.nonce(&String::from("chunks/2_c.bin")), None);
    assert!(store.has_name(&String::from("chunks/1_b.bin")));
    assert!(!store.has_name(&String::from("chunks/2_c.bin")));
    assert!(store.has_nonce(&nonce(1)));
    assert!(!store.has_nonce(&nonce(2)));
}

#[test]
fn record_refuses_a_name_twice() {
    let mut store = store();
    store.record(String::from("0_a"), nonce(0)).unwrap();
    let res = store.record(String::from("0_a"), nonce(1));
    assert!(matches!(res, Err(Error::ConfigError)));
    assert_eq!(store.chunk_records().len(), 1);
    assert_eq!(store.nonce(&String::from("0_a")), Some(&nonce(0)));
}

#[test]
fn record_refuses_a_nonce_twice() {
    let mut store = store();
    store.record(String::from("0_a"), nonce(0)).unwrap();
    let res = store.record(String::from("1_b"), nonce(0));
    assert!(matches!(res, Err(Error::ConfigError)));
    assert_eq!(names_of(&store), vec!["0_a"]);
}

#[test]
fn record_refuses_a_nonce_of_another_size() {
    let mut store = store();
    for bad in ["", "eleven byte", "thirteen byte", "twenty-four bytes long!!"] {
        let res = store.record(String::from("0_a"), String::from(bad));
        assert!(matches!(res, Err(Error::ConfigError)));
    }
    assert!(store.chunk_records().is_empty());
}

#[test]
fn no_two_records_share_a_nonce() {
    let mut store = store();
    for n in 0..20usize {
        // every third nonce repeats an earlier one
        let drawn = if n % 3 == 2 { nonce(n - 1) } else { nonce(n) };
        let _ = store.record(format!("{n}_x"), drawn);
    }
    let records = store.chunk_records();
    assert_eq!(records.len(), 14);
    for i in 0..records.len() {
        for j in 0..records.len() {
            if i != j {
                assert_ne!(records[i].nonce, records[j].nonce);
                assert_ne!(records[i].name, records[j].name);
            }
        }
    }
}

#[test]
fn names_come_out_in_alphanumeric_order() {
    let mut store = store();
    for (n, name) in ["0_a", "1_b", "10_c", "2_d", "11_e"].iter().enumerate() {
        store.record(String::from(*name), nonce(n)).unwrap();
    }
    assert_eq!(store.ordered_chunk_names(), vec!["0_a", "1_b", "2_d", "10_c", "11_e"]);
    assert_eq!(store.chunk_names(), vec!["0_a", "1_b", "10_c", "2_d", "11_e"]);
}

#[test]
fn plain_string_order_would_be_wrong() {
    let mut store = store();
    for (n, name) in ["0_x", "1_x", "10_x", "2_x"].iter().enumerate() {
        store.record(String::from(*name), nonce(n)).unwrap();
    }
    let mut plain = store.chunk_names();
    plain.sort();
    assert_eq!(plain, vec!["0_x", "10_x", "1_x", "2_x"]);
    assert_eq!(store.ordered_chunk_names(), vec!["0_x", "1_x", "2_x", "10_x"]);
}

#[test]
fn order_does_not_depend_on_the_order_of_recording() {
    let names = ["d/7_a.bin", "d/30_b.bin", "d/3_c.bin", "d/0_d.bin", "d/100_e.bin", "d/29_f.bin"];
    let mut store = store();
    for (n, name) in names.iter().enumerate() {
        store.record(String::from(*name), nonce(n)).unwrap();
    }
    let mut backwards = KeyStore::with_key(String::new(), String::new(), String::from(KEY)).unwrap();
    for (n, name) in names.iter().rev().enumerate() {
        backwards.record(String::from(*name), nonce(n)).unwrap();
    }
    let expected =
        vec!["d/0_d.bin", "d/3_c.bin", "d/7_a.bin", "d/29_f.bin", "d/30_b.bin", "d/100_e.bin"];
    assert_eq!(store.ordered_chunk_names(), expected);
    assert_eq!(backwards.ordered_chunk_names(), expected);
}

#[test]
fn ordered_names_of_an_empty_store() {
    assert!(store().ordered_chunk_names().is_empty());
}

#[test]
fn document_round_trips() {
    let mut store = store();
    store.record(String::from("chunks/0_a.bin"), nonce(0)).unwrap();
    store.record(String::from("chunks/1_b.bin"), nonce(1)).unwrap();
    let document = store.to_document();
    assert_eq!(document.source_identity, "plain.txt");
    assert_eq!(document.master_key, KEY);
    assert_eq!(document.storage_location, "chunks");
    assert_eq!(document.chunk_records.len(), 2);
    assert_eq!(document.chunk_records[1].name, "chunks/1_b.bin");
    assert_eq!(document.chunk_records[1].nonce, nonce(1));
    let back = KeyStore::from_document(document).unwrap();
    assert_eq!(back.source_identity(), store.source_identity());
    assert_eq!(back.master_key(), store.master_key());
    assert_eq!(back.storage_location(), store.storage_location());
    assert_eq!(names_of(&back), names_of(&store));
    assert_eq!(back.nonce(&String::from("chunks/0_a.bin")), Some(&nonce(0)));
}

fn document(key: &str, records: &[(&str, &str)]) -> KeyStoreDocument {
    KeyStoreDocument {
        source_identity: String::from("plain.txt"),
        master_key: String::from(key),
        chunk_records: records
            .iter()
            .map(|(name, nonce)| ChunkRecord { name: String::from(*name), nonce: String::from(*nonce) })
            .collect(),
        storage_location: String::from("chunks"),
    }
}

#[test]
fn document_without_chunks_is_accepted() {
    let store = KeyStore::from_document(document(KEY, &[])).unwrap();
    assert!(store.chunk_records().is_empty());
}

#[test]
fn document_with_a_key_of_another_size_is_refused() {
    let res = KeyStore::from_document(document("too short", &[("0_a", "nonce-000000")]));
    assert!(matches!(res, Err(Error::SerializationError)));
    let res = KeyStore::from_document(document("", &[]));
    assert!(matches!(res, Err(Error::SerializationError)));
}

#[test]
fn document_with_a_nonce_of_another_size_is_refused() {
    let res = KeyStore::from_document(document(
        KEY,
        &[("0_a", "nonce-000000"), ("1_b", "twenty-four bytes long!!")],
    ));
    assert!(matches!(res, Err(Error::SerializationError)));
}

#[test]
fn document_with_a_nonce_twice_is_refused() {
    let res = KeyStore::from_document(document(
        KEY,
        &[("0_a", "nonce-000000"), ("1_b", "nonce-000001"), ("2_c", "nonce-000000")],
    ));
    assert!(matches!(res, Err(Error::SerializationError)));
}

#[test]
fn document_with_a_name_twice_is_refused() {
    let res = KeyStore::from_document(document(
        KEY,
        &[("0_a", "nonce-000000"), ("0_a", "nonce-000001")],
    ));
    assert!(matches!(res, Err(Error::SerializationError)));
}
