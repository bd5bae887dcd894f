//! Chunked authenticated-encryption store.
//!
//! A byte buffer is cut into fixed-size chunks, every chunk is sealed under one
//! session key with a nonce of its own, and a key store records what is needed to
//! put the buffer together again: the key, the nonce of every chunk and the place
//! where the chunks live.
//!
//! Nothing here reads or writes. What is computed is verified: [`splitter`],
//! [`crypto`], [`keystore`], [`encryption`] and [`decryption`]. What is to be
//! stored, fetched and deleted, and in which order, is decided by the sessions
//! [`upload`] and [`download`], which hand their requests to the caller one at a
//! time ([`storage`]).

pub mod error;
pub mod cli_args;
pub mod crypto;
pub mod decryption;
pub mod download;
pub mod encryption;
pub mod identifier;
pub mod keystore;
pub mod naming;
pub mod ordering;
pub mod splitter;
pub mod storage;
pub mod upload;
