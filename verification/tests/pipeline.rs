use std::collections::HashMap;

use chunkvault::cli_args::{DecryptCommand, EncryptCommand};
use chunkvault::crypto::{decrypt, Cipher};
use chunkvault::decryption::{cleanup_plan, decrypt_chunks, decrypt_to_file};
use chunkvault::encryption::{add_chunk, encrypt_file, encrypt_with, EncryptedFile, StoredObject};
use chunkvault::error::Error;
use chunkvault::keystore::KeyStore;
use chunkvault::storage::Request;

const KEY: &str = "0123456789abcdef0123456789abcdef";

fn encrypt_command(chunk_size: usize, output_dir: Option<&str>) -> EncryptCommand {
    EncryptCommand {
        file_path: String::from("plain.txt"),
        chunk_size,
        output_dir: output_dir.map(String::from),
        use_aws: false,
    }
}

fn decrypt_command(output_file: Option<&str>, delete_dir: bool) -> DecryptCommand {
    DecryptCommand {
        keystore_path: String::from("keystore-out.json"),
        output_file: output_file.map(String::from),
        use_aws: false,
        delete_dir,
    }
}

/// What a backend would hand back: the objects by name, in the order in which
/// the key store asks for them.
fn fetch(file: &EncryptedFile) -> Vec<Vec<u8>> {
    let stored: HashMap<&str, &Vec<u8>> =
        file.objects.iter().map(|object| (object.key.as_str(), &object.bytes)).collect();
    file.keystore
        .ordered_chunk_names()
        .iter()
        .map(|name| stored[name.as_str()].clone())
        .collect()
}

fn round_trip(content: &[u8], chunk_size: usize, output_dir: Option<&str>) -> Vec<u8> {
    let file = encrypt_file(&encrypt_command(chunk_size, output_dir), content).unwrap();
    let fetched = fetch(&file);
    decrypt_chunks(&file.keystore, &fetched).unwrap()
}

#[test]
fn hello_world_scenario() {
    let file = encrypt_file(&encrypt_command(5, Some("out")), b"Hello, World!").unwrap();
    assert_eq!(file.objects.len(), 3);
    assert_eq!(file.keystore.chunk_records().len(), 3);
    assert_eq!(file.document_name, "keystore-out.json");
    assert_eq!(file.keystore.source_identity(), "plain.txt");
    assert_eq!(file.keystore.storage_location(), "out");

    let cipher = Cipher::new(file.keystore.master_key().as_bytes()).unwrap();
    let spans: [&[u8]; 3] = [b"Hello", b", Wor", b"ld!"];
    let records = file.keystore.chunk_records();
    for index in 0..3 {
        let object = &file.objects[index];
        assert_eq!(object.key, records[index].name);
        assert!(object.key.starts_with(&format!("out/{index}_")));
        assert!(object.key.ends_with(".bin"));
        assert_eq!(object.key.len(), "out/0_".len() + 36 + ".bin".len());
        assert_eq!(records[index].nonce.len(), 12);
        assert_eq!(object.bytes.len(), spans[index].len() + 16);
        let plain = decrypt(&object.bytes, &cipher, &records[index].nonce).unwrap();
        assert_eq!(plain, spans[index]);
    }
    for i in 0..3 {
        for j in 0..i {
            assert_ne!(records[i].name, records[j].name);
            assert_ne!(records[i].nonce, records[j].nonce);
        }
    }

    let fetched = fetch(&file);
    let out = decrypt_to_file(&decrypt_command(None, false), &file.keystore, &fetched).unwrap();
    assert_eq!(out.bytes, b"Hello, World!");
    assert_eq!(out.output_path, "plain.txt");
    assert!(out.cleanup.is_empty());
}

#[test]
fn round_trip_of_the_empty_buffer() {
    let file = encrypt_file(&encrypt_command(5, Some("out")), b"").unwrap();
    assert!(file.objects.is_empty());
    assert!(file.keystore.chunk_records().is_empty());
    assert_eq!(decrypt_chunks(&file.keystore, &Vec::new()).unwrap(), Vec::<u8>::new());
}

#[test]
fn round_trip_over_many_chunks() {
    let content: Vec<u8> = (0..1000usize).map(|i| (i * 7 + 3) as u8).collect();
    for chunk_size in [1usize, 2, 3, 7, 9, 10, 11, 64, 99, 100, 101, 999, 1000, 1001, 5000] {
        assert_eq!(round_trip(&content, chunk_size, Some("out")), content);
    }
}

#[test]
fn round_trip_where_the_location_holds_digits() {
    let content: Vec<u8> = (0..300usize).map(|i| i as u8).collect();
    for dir in ["out2", "2024-01-31", "a/b/c9", "007", ""] {
        assert_eq!(round_trip(&content, 13, Some(dir)), content);
    }
}

#[test]
fn round_trip_with_a_random_location() {
    let content = b"The fox jumped over the fence.".to_vec();
    let file = encrypt_file(&encrypt_command(4, None), &content).unwrap();
    let location = file.keystore.storage_location().clone();
    assert_eq!(location.len(), 36);
    assert_eq!(file.document_name, format!("keystore-{location}.json"));
    for object in &file.objects {
        assert!(object.key.starts_with(&format!("{location}/")));
    }
    assert_eq!(decrypt_chunks(&file.keystore, &fetch(&file)).unwrap(), content);
}

#[test]
fn chunk_count_of_an_encryption() {
    for (len, size, count) in [(0usize, 5usize, 0usize), (13, 5, 3), (10, 5, 2), (1, 5, 1), (5, 1, 5), (11, 10, 2)] {
        let content = vec![1u8; len];
        let file = encrypt_file(&encrypt_command(size, Some("d")), &content).unwrap();
        assert_eq!(file.keystore.chunk_records().len(), count);
        assert_eq!(file.objects.len(), count);
    }
}

#[test]
fn chunk_size_of_zero_ends_the_session() {
    let res = encrypt_file(&encrypt_command(0, Some("out")), b"Hello, World!");
    assert!(matches!(res, Err(Error::ConfigError)));
    let res = encrypt_file(&encrypt_command(0, None), b"");
    assert!(matches!(res, Err(Error::ConfigError)));
}

#[test]
fn sessions_do_not_share_keys() {
    let first = encrypt_file(&encrypt_command(5, Some("out")), b"Hello, World!").unwrap();
    let second = encrypt_file(&encrypt_command(5, Some("out")), b"Hello, World!").unwrap();
    assert_ne!(first.keystore.master_key(), second.keystore.master_key());
    let res = decrypt_chunks(&second.keystore, &fetch(&first));
    assert!(res.is_err());
}

fn store() -> KeyStore {
    KeyStore::with_key(String::from("plain.txt"), String::from("out"), String::from(KEY)).unwrap()
}

#[test]
fn add_chunk_records_and_stores_one_chunk() {
    let mut store = store();
    let mut objects: Vec<StoredObject> = Vec::new();
    add_chunk(&mut store, &mut objects, 0, b"Hello", String::from("nonce-000000"), "s0").unwrap();
    add_chunk(&mut store, &mut objects, 1, b", Wor", String::from("nonce-000001"), "s1").unwrap();
    assert_eq!(objects.len(), 2);
    assert_eq!(objects[0].key, "out/0_s0.bin");
    assert_eq!(objects[1].key, "out/1_s1.bin");
    assert_eq!(store.nonce(&String::from("out/1_s1.bin")), Some(&String::from("nonce-000001")));
    let cipher = store.cipher();
    assert_eq!(decrypt(&objects[0].bytes, &cipher, "nonce-000000").unwrap(), b"Hello");
    assert_eq!(decrypt(&objects[1].bytes, &cipher, "nonce-000001").unwrap(), b", Wor");
}

#[test]
fn add_chunk_refuses_what_the_key_store_holds() {
    let mut store = store();
    let mut objects: Vec<StoredObject> = Vec::new();
    add_chunk(&mut store, &mut objects, 0, b"Hello", String::from("nonce-000000"), "s").unwrap();
    // the nonce again
    let res = add_chunk(&mut store, &mut objects, 1, b"abc", String::from("nonce-000000"), "s");
    assert!(matches!(res, Err(Error::ConfigError)));
    // the name again
    let res = add_chunk(&mut store, &mut objects, 0, b"abc", String::from("nonce-000001"), "s");
    assert!(matches!(res, Err(Error::ConfigError)));
    assert_eq!(objects.len(), 1);
    assert_eq!(store.chunk_records().len(), 1);
}

#[test]
fn add_chunk_refuses_a_nonce_of_another_size() {
    let mut store = store();
    let mut objects: Vec<StoredObject> = Vec::new();
    let res = add_chunk(&mut store, &mut objects, 0, b"abc", String::from("short"), "s");
    assert!(matches!(res, Err(Error::CryptoError)));
    assert!(objects.is_empty());
    assert!(store.chunk_records().is_empty());
}

fn two_chunks() -> (KeyStore, Vec<Vec<u8>>) {
    let mut store = store();
    let mut objects: Vec<StoredObject> = Vec::new();
    // recorded out of order: the order of names decides
    add_chunk(&mut store, &mut objects, 10, b"second", String::from("nonce-000010"), "a").unwrap();
    add_chunk(&mut store, &mut objects, 2, b"first ", String::from("nonce-000002"), "b").unwrap();
    assert_eq!(store.ordered_chunk_names(), vec!["out/2_b.bin", "out/10_a.bin"]);
    let fetched = vec![objects[1].bytes.clone(), objects[0].bytes.clone()];
    (store, fetched)
}

#[test]
fn chunks_are_joined_in_the_order_of_their_names() {
    let (store, fetched) = two_chunks();
    assert_eq!(decrypt_chunks(&store, &fetched).unwrap(), b"first second");
}

#[test]
fn objects_in_another_order_do_not_decrypt() {
    let (store, mut fetched) = two_chunks();
    fetched.swap(0, 1);
    assert!(matches!(decrypt_chunks(&store, &fetched), Err(Error::CryptoError)));
}

#[test]
fn a_wrong_number_of_objects_is_a_storage_error() {
    let (store, mut fetched) = two_chunks();
    fetched.pop();
    assert!(matches!(decrypt_chunks(&store, &fetched), Err(Error::StorageError)));
    fetched.push(Vec::new());
    fetched.push(Vec::new());
    assert!(matches!(decrypt_chunks(&store, &fetched), Err(Error::StorageError)));
    assert!(matches!(
        decrypt_to_file(&decrypt_command(None, true), &store, &Vec::new()),
        Err(Error::StorageError)
    ));
}

#[test]
fn a_tampered_object_ends_the_decryption() {
    let (store, mut fetched) = two_chunks();
    fetched[1][3] ^= 0x80;
    assert!(matches!(decrypt_chunks(&store, &fetched), Err(Error::CryptoError)));
    assert!(matches!(
        decrypt_to_file(&decrypt_command(None, false), &store, &fetched),
        Err(Error::CryptoError)
    ));
}

#[test]
fn output_path_is_the_one_named_or_that_of_the_key_store() {
    let (store, fetched) = two_chunks();
    let out = decrypt_to_file(&decrypt_command(Some("copy.txt"), false), &store, &fetched).unwrap();
    assert_eq!(out.output_path, "copy.txt");
    assert_eq!(out.bytes, b"first second");
    let out = decrypt_to_file(&decrypt_command(None, false), &store, &fetched).unwrap();
    assert_eq!(out.output_path, "plain.txt");
}

fn step_text(step: &Request) -> String {
    match step {
        Request::DeleteDocument { path } => format!("document {path}"),
        Request::Delete { key } => format!("object {key}"),
        Request::RemoveLocation { location } => format!("location {location}"),
        other => format!("{other:?}"),
    }
}

#[test]
fn cleanup_names_the_document_every_chunk_and_the_location() {
    let (store, fetched) = two_chunks();
    let out = decrypt_to_file(&decrypt_command(None, true), &store, &fetched).unwrap();
    let steps: Vec<String> = out.cleanup.iter().map(step_text).collect();
    assert_eq!(
        steps,
        vec![
            "document keystore-out.json",
            "object out/10_a.bin",
            "object out/2_b.bin",
            "location out"
        ]
    );
    let plan: Vec<String> =
        cleanup_plan(&String::from("k.json"), &store).iter().map(step_text).collect();
    assert_eq!(plan, vec!["document k.json", "object out/10_a.bin", "object out/2_b.bin", "location out"]);
}

#[test]
fn cleanup_is_empty_where_none_is_asked_for() {
    let (store, fetched) = two_chunks();
    let out = decrypt_to_file(&decrypt_command(None, false), &store, &fetched).unwrap();
    assert!(out.cleanup.is_empty());
}

#[test]
fn cleanup_of_a_session_without_chunks() {
    let plan: Vec<String> =
        cleanup_plan(&String::from("k.json"), &store()).iter().map(step_text).collect();
    assert_eq!(plan, vec!["document k.json", "location out"]);
}

#[test]
fn key_store_read_back_from_its_document_decrypts() {
    let content: Vec<u8> = (0..200usize).map(|i| (i * 3) as u8).collect();
    let file = encrypt_file(&encrypt_command(16, Some("out")), &content).unwrap();
    let fetched = fetch(&file);
    let mut document = file.keystore.to_document();
    // a document keeps no order
    document.chunk_records.reverse();
    let read = KeyStore::from_document(document).unwrap();
    assert_eq!(decrypt_chunks(&read, &fetched).unwrap(), content);
}

fn draws(list: &[&str]) -> Vec<String> {
    list.iter().map(|text| String::from(*text)).collect()
}

#[test]
fn session_with_given_draws() {
    let nonces = draws(&["nonce-000000", "nonce-000001", "nonce-000002"]);
    let suffixes = draws(&["a", "b", "c"]);
    let file = encrypt_with(store(), b"Hello, World!", 5, &nonces, &suffixes).unwrap();
    assert_eq!(file.document_name, "keystore-out.json");
    assert_eq!(file.keystore.chunk_names(), vec!["out/0_a.bin", "out/1_b.bin", "out/2_c.bin"]);
    assert_eq!(file.keystore.master_key(), KEY);
    assert_eq!(file.keystore.source_identity(), "plain.txt");
    let records = file.keystore.chunk_records();
    let cipher = file.keystore.cipher();
    let spans: [&[u8]; 3] = [b"Hello", b", Wor", b"ld!"];
    for index in 0..3 {
        assert_eq!(records[index].nonce, nonces[index]);
        assert_eq!(file.objects[index].key, records[index].name);
        assert_eq!(decrypt(&file.objects[index].bytes, &cipher, &nonces[index]).unwrap(), spans[index]);
    }
    assert_eq!(decrypt_chunks(&file.keystore, &fetch(&file)).unwrap(), b"Hello, World!");
}

#[test]
fn session_is_a_function_of_its_draws() {
    let nonces = draws(&["nonce-000000", "nonce-000001"]);
    let suffixes = draws(&["a", "b"]);
    let first = encrypt_with(store(), b"abcdefgh", 4, &nonces, &suffixes).unwrap();
    let second = encrypt_with(store(), b"abcdefgh", 4, &nonces, &suffixes).unwrap();
    assert_eq!(first.objects.len(), 2);
    for index in 0..2 {
        assert_eq!(first.objects[index].key, second.objects[index].key);
        assert_eq!(first.objects[index].bytes, second.objects[index].bytes);
    }
}

#[test]
fn session_with_a_nonce_twice_fails() {
    let nonces = draws(&["nonce-000000", "nonce-000001", "nonce-000000"]);
    let suffixes = draws(&["a", "b", "c"]);
    let res = encrypt_with(store(), b"Hello, World!", 5, &nonces, &suffixes);
    assert!(matches!(res, Err(Error::ConfigError)));
}

#[test]
fn session_with_the_same_suffix_for_every_chunk_succeeds() {
    let nonces = draws(&["nonce-000000", "nonce-000001", "nonce-000002"]);
    let suffixes = draws(&["same", "same", "same"]);
    let file = encrypt_with(store(), b"Hello, World!", 5, &nonces, &suffixes).unwrap();
    assert_eq!(
        file.keystore.chunk_names(),
        vec!["out/0_same.bin", "out/1_same.bin", "out/2_same.bin"]
    );
}

#[test]
fn session_with_a_nonce_of_another_size_fails() {
    let nonces = draws(&["nonce-000000", "short", "nonce-000002"]);
    let suffixes = draws(&["a", "b", "c"]);
    let res = encrypt_with(store(), b"Hello, World!", 5, &nonces, &suffixes);
    assert!(matches!(res, Err(Error::CryptoError)));
    // the cipher's refusal comes before that of a nonce drawn twice
    let nonces = draws(&["nonce-000000", "nonce-000000", "short"]);
    let res = encrypt_with(store(), b"Hello, World!", 5, &nonces, &suffixes);
    assert!(matches!(res, Err(Error::CryptoError)));
}

#[test]
fn session_with_draws_that_do_not_match_the_chunks_fails() {
    let res = encrypt_with(
        store(),
        b"Hello, World!",
        5,
        &draws(&["nonce-000000", "nonce-000001"]),
        &draws(&["a", "b", "c"]),
    );
    assert!(matches!(res, Err(Error::ConfigError)));
    let res = encrypt_with(
        store(),
        b"Hello, World!",
        5,
        &draws(&["nonce-000000", "nonce-000001", "nonce-000002"]),
        &draws(&["a", "b", "c", "d"]),
    );
    assert!(matches!(res, Err(Error::ConfigError)));
    let res = encrypt_with(store(), b"Hello, World!", 0, &draws(&[]), &draws(&[]));
    assert!(matches!(res, Err(Error::ConfigError)));
    // draws of the wrong number and of the wrong size: the number is told first
    let res = encrypt_with(store(), b"Hello, World!", 5, &draws(&["short"]), &draws(&["a"]));
    assert!(matches!(res, Err(Error::ConfigError)));
}

#[test]
fn session_on_a_key_store_that_holds_records_fails() {
    let mut begun = store();
    begun.record(String::from("out/9_z.bin"), String::from("nonce-000009")).unwrap();
    let res = encrypt_with(begun, b"abc", 5, &draws(&["nonce-000000"]), &draws(&["a"]));
    assert!(matches!(res, Err(Error::ConfigError)));
}

#[test]
fn session_on_the_empty_buffer() {
    let file = encrypt_with(store(), b"", 5, &draws(&[]), &draws(&[])).unwrap();
    assert!(file.objects.is_empty());
    assert!(file.keystore.chunk_records().is_empty());
}
