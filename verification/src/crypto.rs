//! The cipher: ChaCha20-Poly1305 under one session key.
//!
//! The cipher itself is the work of the `chacha20poly1305` crate. What it returns
//! is named here, [`sealed`] and [`opened`], and the contracts of [`encrypt`] and
//! [`decrypt`] are stated over those names.

use vstd::prelude::*;
use vstd::string::StringSliceAdditionalSpecFns;
use chacha20poly1305::aead::{Aead, NewAead};
use chacha20poly1305::{ChaCha20Poly1305, Key, Nonce};
use crate::error::Error;

verus! {

/// Bytes in a key.
pub const KEY_SIZE: usize = 32;

/// Bytes in a nonce.
pub const NONCE_SIZE: usize = 12;

/// Bytes in the authentication tag that ends every ciphertext.
pub const TAG_SIZE: usize = 16;

/// Bytes in one block of the key stream.
pub const BLOCK_SIZE: usize = 64;

/// The number of blocks at which the cipher's block counter would wrap.
pub const MAX_BLOCKS: usize = 0xFFFF_FFFF;

/// What ChaCha20-Poly1305 encryption gives for a key of 32 bytes, a nonce of 12
/// bytes and a plaintext, with no associated data: the ciphertext followed by its
/// tag, or `None` where the cipher refuses the plaintext.
pub uninterp spec fn sealed(key: Seq<u8>, nonce: Seq<u8>, plaintext: Seq<u8>) -> Option<Seq<u8>>;

/// What ChaCha20-Poly1305 decryption gives for a key of 32 bytes, a nonce of 12
/// bytes and a ciphertext that ends with its tag, with no associated data: the
/// plaintext, or `None` where the ciphertext does not authenticate.
pub uninterp spec fn opened(key: Seq<u8>, nonce: Seq<u8>, ciphertext: Seq<u8>) -> Option<Seq<u8>>;

/// Whether the cipher takes a plaintext or ciphertext body of `len` bytes: it
/// must stay under the number of blocks that the block counter can count.
pub open spec fn fits_cipher(len: nat) -> bool {
    len / (BLOCK_SIZE as nat) < MAX_BLOCKS
}

/// Whether the cipher takes a plaintext or ciphertext body of `len` bytes.
pub fn cipher_takes(len: usize) -> (takes: bool)
    ensures
        takes == fits_cipher(len as nat),
{
    len / BLOCK_SIZE < MAX_BLOCKS
}

/// The bytes of an optional byte vector.
pub open spec fn bytes_of(value: Option<Vec<u8>>) -> Option<Seq<u8>> {
    match value {
        Some(bytes) => Some(bytes@),
        None => None,
    }
}

/// Calls `Aead::encrypt` of `chacha20poly1305::ChaCha20Poly1305`, on a cipher
/// made by `NewAead::new` from `key`.
///
/// Believed of it: the result is a function of key, nonce and plaintext alone; it
/// is refused exactly when the plaintext reaches the block counter's limit; the
/// ciphertext is the plaintext's length plus the tag; and decryption under the
/// same key and nonce gives the plaintext back. The lengths of key and nonce are
/// demanded because the crate panics on any other.
#[verifier::external_body]
fn aead_encrypt(key: &[u8], nonce: &[u8], plaintext: &[u8]) -> (res: Option<Vec<u8>>)
    requires
        key@.len() == KEY_SIZE,
        nonce@.len() == NONCE_SIZE,
    ensures
        bytes_of(res) == sealed(key@, nonce@, plaintext@),
        res is Some <==> fits_cipher(plaintext@.len()),
        res matches Some(ciphertext) ==> ciphertext@.len() == plaintext@.len() + TAG_SIZE,
        res matches Some(ciphertext) ==> opened(key@, nonce@, ciphertext@) == Some(plaintext@),
{
    let cipher = ChaCha20Poly1305::new(Key::from_slice(key));
    cipher.encrypt(Nonce::from_slice(nonce), plaintext).ok()
}

/// Calls `Aead::decrypt` of `chacha20poly1305::ChaCha20Poly1305`, on a cipher
/// made by `NewAead::new` from `key`.
///
/// Believed of it: the result is a function of key, nonce and ciphertext alone;
/// a ciphertext shorter than a tag is refused; and a plaintext that comes out is
/// the ciphertext's length less the tag. The lengths of key and nonce are
/// demanded because the crate panics on any other.
#[verifier::external_body]
fn aead_decrypt(key: &[u8], nonce: &[u8], ciphertext: &[u8]) -> (res: Option<Vec<u8>>)
    requires
        key@.len() == KEY_SIZE,
        nonce@.len() == NONCE_SIZE,
    ensures
        bytes_of(res) == opened(key@, nonce@, ciphertext@),
        ciphertext@.len() < TAG_SIZE ==> res is None,
        res matches Some(plaintext) ==> plaintext@.len() + TAG_SIZE == ciphertext@.len(),
{
    let cipher = ChaCha20Poly1305::new(Key::from_slice(key));
    cipher.decrypt(Nonce::from_slice(nonce), ciphertext).ok()
}

/// The cipher bound to one key. It has no other state.
pub struct Cipher {
    key: Vec<u8>,
}

impl Cipher {
    #[verifier::type_invariant]
    spec fn well_formed(&self) -> bool {
        self.key@.len() == KEY_SIZE
    }

    /// The key.
    pub closed spec fn key(&self) -> Seq<u8> {
        self.key@
    }

    /// Binds the cipher to `key`, which must have [`KEY_SIZE`] bytes; any other
    /// length is refused with [`Error::CryptoError`].
    pub fn new(key: &[u8]) -> (res: Result<Cipher, Error>)
        ensures
            key@.len() == KEY_SIZE ==> res is Ok && res->Ok_0.key() == key@,
            key@.len() != KEY_SIZE ==> res is Err && res->Err_0 == Error::CryptoError,
    {
        if key.len() != KEY_SIZE {
            return Err(Error::CryptoError);
        }
        Ok(Cipher { key: vstd::slice::slice_to_vec(key) })
    }

    /// Binds the cipher to a key that is known to have [`KEY_SIZE`] bytes.
    pub(crate) fn with_key(key: &[u8]) -> (cipher: Cipher)
        requires
            key@.len() == KEY_SIZE,
        ensures
            cipher.key() == key@,
    {
        Cipher { key: vstd::slice::slice_to_vec(key) }
    }
}

/// What [`encrypt`] returns.
pub open spec fn encrypt_spec(key: Seq<u8>, nonce: Seq<u8>, plaintext: Seq<u8>) -> Result<
    Seq<u8>,
    Error,
> {
    if nonce.len() != NONCE_SIZE {
        Err(Error::CryptoError)
    } else {
        match sealed(key, nonce, plaintext) {
            Some(ciphertext) => Ok(ciphertext),
            None => Err(Error::CryptoError),
        }
    }
}

/// What [`decrypt`] returns.
pub open spec fn decrypt_spec(key: Seq<u8>, nonce: Seq<u8>, ciphertext: Seq<u8>) -> Result<
    Seq<u8>,
    Error,
> {
    if nonce.len() != NONCE_SIZE {
        Err(Error::CryptoError)
    } else {
        match opened(key, nonce, ciphertext) {
            Some(plaintext) => Ok(plaintext),
            None => Err(Error::CryptoError),
        }
    }
}

/// The bytes of an outcome that carries a byte vector.
pub open spec fn outcome_bytes(res: Result<Vec<u8>, Error>) -> Result<Seq<u8>, Error> {
    match res {
        Ok(bytes) => Ok(bytes@),
        Err(e) => Err(e),
    }
}

/// Encrypts `bytes` under the cipher's key and the nonce whose bytes are those of
/// `nonce_key`. The ciphertext ends with the tag, so it is [`TAG_SIZE`] bytes
/// longer than `bytes`, and [`decrypt`] under the same key and nonce gives `bytes`
/// back. A nonce that has not [`NONCE_SIZE`] bytes, or a buffer too long for the
/// cipher, is refused with [`Error::CryptoError`]; nothing else is.
pub fn encrypt(bytes: &[u8], cipher: &Cipher, nonce_key: &str) -> (res: Result<Vec<u8>, Error>)
    ensures
        outcome_bytes(res) == encrypt_spec(cipher.key(), nonce_key.spec_bytes(), bytes@),
        res is Ok <==> nonce_key.spec_bytes().len() == NONCE_SIZE && fits_cipher(bytes@.len()),
        res matches Ok(ciphertext) ==> ciphertext@.len() == bytes@.len() + TAG_SIZE
            && decrypt_spec(cipher.key(), nonce_key.spec_bytes(), ciphertext@) == Ok::<
            Seq<u8>,
            Error,
        >(bytes@),
{
    proof {
        use_type_invariant(cipher);
    }
    let nonce = nonce_key.as_bytes();
    if nonce.len() != NONCE_SIZE {
        return Err(Error::CryptoError);
    }
    match aead_encrypt(cipher.key.as_slice(), nonce, bytes) {
        Some(ciphertext) => Ok(ciphertext),
        None => Err(Error::CryptoError),
    }
}

/// Decrypts `bytes` under the cipher's key and the nonce whose bytes are those of
/// `nonce_key`. Either the whole plaintext comes back or
/// [`Error::CryptoError`]: a ciphertext that does not authenticate under this key
/// and nonce, one shorter than a tag, or a nonce that has not [`NONCE_SIZE`]
/// bytes gives the error and no byte of plaintext.
pub fn decrypt(bytes: &Vec<u8>, cipher: &Cipher, nonce_key: &str) -> (res: Result<Vec<u8>, Error>)
    ensures
        outcome_bytes(res) == decrypt_spec(cipher.key(), nonce_key.spec_bytes(), bytes@),
        bytes@.len() < TAG_SIZE ==> res is Err,
        res matches Ok(plaintext) ==> plaintext@.len() + TAG_SIZE == bytes@.len(),
{
    proof {
        use_type_invariant(cipher);
    }
    let nonce = nonce_key.as_bytes();
    if nonce.len() != NONCE_SIZE {
        return Err(Error::CryptoError);
    }
    match aead_decrypt(cipher.key.as_slice(), nonce, bytes.as_slice()) {
        Some(plaintext) => Ok(plaintext),
        None => Err(Error::CryptoError),
    }
}

} // verus!
