//! A local, password-protected secrets vault.
//!
//! Named credential records are kept in a directory of three files: a
//! plaintext `config` file holding the salt, a `key` file holding the
//! data-encryption key sealed under a passphrase-derived key, and a
//! `storage` file holding the record collection sealed under the
//! data-encryption key. All sealed files use the ChaCha20-Poly1305
//! envelope `nonce (12 bytes) || ciphertext || tag (16 bytes)`.
//!
//! The library itself never touches the filesystem: every operation takes
//! file contents as byte vectors and returns the byte vectors to be
//! written, so that a thin caller can do the reading and writing.

pub mod json;
pub mod keys;
pub mod record;
pub mod rng;
pub mod storage;
pub mod vault;
