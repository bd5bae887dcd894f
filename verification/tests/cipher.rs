use chunkvault::crypto::{
    cipher_takes, decrypt, encrypt, Cipher, KEY_SIZE, NONCE_SIZE, TAG_SIZE,
};
use chunkvault::error::Error;
use chunkvault::keystore::KeyStore;
use uuid::Uuid;

const KEY: &[u8] = b"an example very very secret key.";
const NONCE: &str = "unique nonce";

#[test]
fn test_encrypt_and_decrypt() {
    let test_string = "The fox jumped over the fence.";

    let keystore = KeyStore::new(String::from("file.test"), String::from("chunks"));

    let cipher = Cipher::new(keystore.master_key().as_bytes()).unwrap();

    let nonce_key = Uuid::new_v4().to_string()[24..].to_string();

    let bytes = encrypt(test_string.as_bytes(), &cipher, nonce_key.as_ref()).unwrap();

    let decrypted_string = decrypt(&bytes, &cipher, nonce_key.as_ref()).unwrap();

    assert_eq!(test_string.as_bytes(), decrypted_string.as_slice());
}

#[test]
fn sizes_are_those_of_the_cipher() {
    assert_eq!(KEY_SIZE, 32);
    assert_eq!(NONCE_SIZE, 12);
    assert_eq!(TAG_SIZE, 16);
}

#[test]
fn cipher_refuses_a_key_of_another_size() {
    assert!(Cipher::new(KEY).is_ok());
    assert!(matches!(Cipher::new(&KEY[..31]), Err(Error::CryptoError)));
    assert!(matches!(Cipher::new(b""), Err(Error::CryptoError)));
    let long = [7u8; 33];
    assert!(matches!(Cipher::new(&long), Err(Error::CryptoError)));
}

#[test]
fn ciphertext_is_the_plaintext_and_a_tag_long() {
    let cipher = Cipher::new(KEY).unwrap();
    for len in [0usize, 1, 5, 64, 65, 1000] {
        let plain = vec![0x5au8; len];
        let sealed = encrypt(&plain, &cipher, NONCE).unwrap();
        assert_eq!(sealed.len(), len + 16);
    }
}

#[test]
fn ciphertext_is_not_the_plaintext() {
    let cipher = Cipher::new(KEY).unwrap();
    let plain = b"plaintext message".to_vec();
    let sealed = encrypt(&plain, &cipher, NONCE).unwrap();
    assert_ne!(sealed, plain);
    assert_ne!(&sealed[..plain.len()], plain.as_slice());
    let opened = decrypt(&sealed, &cipher, NONCE).unwrap();
    assert_eq!(opened, plain);
    assert_ne!(opened, sealed);
}

#[test]
fn encryption_is_a_function_of_key_nonce_and_plaintext() {
    let cipher = Cipher::new(KEY).unwrap();
    let again = Cipher::new(KEY).unwrap();
    let plain = b"the same bytes".to_vec();
    let first = encrypt(&plain, &cipher, NONCE).unwrap();
    let second = encrypt(&plain, &again, NONCE).unwrap();
    assert_eq!(first, second);
    let other = encrypt(&plain, &cipher, "another 12 b").unwrap();
    assert_ne!(first, other);
}

#[test]
fn known_keystream_of_the_cipher() {
    // key, nonce and plaintext of the worked example in RFC 8439, section 2.8.2;
    // the ciphertext's body does not depend on the associated data
    let key: Vec<u8> = (0x80u8..=0x9f).collect();
    let cipher = Cipher::new(&key).unwrap();
    let nonce = "\u{7}\0\0\0@ABCDEFG";
    assert_eq!(nonce.as_bytes(), &[0x07, 0, 0, 0, 0x40, 0x41, 0x42, 0x43, 0x44, 0x45, 0x46, 0x47]);
    let plain = b"Ladies and Gentlemen of the class of '99: If I could offer you only one tip for the future, sunscreen would be it.";
    let sealed = encrypt(plain, &cipher, nonce).unwrap();
    assert_eq!(sealed.len(), plain.len() + 16);
    assert_eq!(
        &sealed[..16],
        &[
            0xd3, 0x1a, 0x8d, 0x34, 0x64, 0x8e, 0x60, 0xdb, 0x7b, 0x86, 0xaf, 0xbc, 0x53, 0xef,
            0x7e, 0xc2
        ]
    );
}

#[test]
fn empty_plaintext_round_trips() {
    let cipher = Cipher::new(KEY).unwrap();
    let sealed = encrypt(b"", &cipher, NONCE).unwrap();
    assert_eq!(sealed.len(), 16);
    assert_eq!(decrypt(&sealed, &cipher, NONCE).unwrap(), Vec::<u8>::new());
}

#[test]
fn nonce_of_another_size_is_refused() {
    let cipher = Cipher::new(KEY).unwrap();
    assert!(matches!(encrypt(b"abc", &cipher, "short"), Err(Error::CryptoError)));
    assert!(matches!(encrypt(b"abc", &cipher, ""), Err(Error::CryptoError)));
    assert!(matches!(
        encrypt(b"abc", &cipher, "twenty-four bytes long!!"),
        Err(Error::CryptoError)
    ));
    // twelve characters, but more than twelve bytes
    assert!(matches!(encrypt(b"abc", &cipher, "unique nonc\u{e9}"), Err(Error::CryptoError)));
    let sealed = encrypt(b"abc", &cipher, NONCE).unwrap();
    assert!(matches!(decrypt(&sealed, &cipher, "short"), Err(Error::CryptoError)));
}

#[test]
fn tampered_ciphertext_does_not_decrypt() {
    let cipher = Cipher::new(KEY).unwrap();
    let plain = b"Hello, World!".to_vec();
    let sealed = encrypt(&plain, &cipher, NONCE).unwrap();
    for at in 0..sealed.len() {
        let mut tampered = sealed.clone();
        tampered[at] ^= 0x01;
        assert!(matches!(decrypt(&tampered, &cipher, NONCE), Err(Error::CryptoError)));
    }
    assert_eq!(decrypt(&sealed, &cipher, NONCE).unwrap(), plain);
}

#[test]
fn wrong_key_does_not_decrypt() {
    let cipher = Cipher::new(KEY).unwrap();
    let other = Cipher::new(b"another key of thirty-two bytes!").unwrap();
    let sealed = encrypt(b"Hello, World!", &cipher, NONCE).unwrap();
    assert!(matches!(decrypt(&sealed, &other, NONCE), Err(Error::CryptoError)));
}

#[test]
fn wrong_nonce_does_not_decrypt() {
    let cipher = Cipher::new(KEY).unwrap();
    let sealed = encrypt(b"Hello, World!", &cipher, NONCE).unwrap();
    assert!(matches!(decrypt(&sealed, &cipher, "unique nonc3"), Err(Error::CryptoError)));
}

#[test]
fn ciphertext_shorter_than_a_tag_does_not_decrypt() {
    let cipher = Cipher::new(KEY).unwrap();
    for len in 0..16usize {
        let short = vec![0u8; len];
        assert!(matches!(decrypt(&short, &cipher, NONCE), Err(Error::CryptoError)));
    }
}

#[test]
fn truncated_ciphertext_does_not_decrypt() {
    let cipher = Cipher::new(KEY).unwrap();
    let mut sealed = encrypt(b"Hello, World!", &cipher, NONCE).unwrap();
    sealed.pop();
    assert!(matches!(decrypt(&sealed, &cipher, NONCE), Err(Error::CryptoError)));
}

#[test]
fn errors_are_described_by_their_names() {
    assert_eq!(Error::ConfigError.describe(), "ConfigError");
    assert_eq!(Error::IOError.describe(), "IOError");
    assert_eq!(Error::CryptoError.describe(), "CryptoError");
    assert_eq!(Error::SerializationError.describe(), "SerializationError");
    assert_eq!(Error::StorageError.describe(), "StorageError");
}

#[test]
fn cipher_takes_what_its_block_counter_can_count() {
    assert!(cipher_takes(0));
    assert!(cipher_takes(1));
    assert!(cipher_takes(1 << 30));
    if usize::BITS >= 64 {
        let limit = (0xFFFF_FFFFu64 * 64) as usize;
        assert!(cipher_takes(limit - 1));
        assert!(!cipher_takes(limit));
        assert!(!cipher_takes(usize::MAX));
    }
}
