//! File-backed blob containers: an authenticated-encryption container and
//! a plaintext one with the same shape.
//!
//! The encrypted on-disk envelope is `nonce (12 bytes) || ciphertext ||
//! tag (16 bytes)`, sealed with ChaCha20-Poly1305 and empty associated
//! data, so a sealed file is exactly 28 bytes longer than its payload.
//! The containers hold a path and a key but never open the path
//! themselves: `read` takes the bytes found in the file, and `write`
//! returns the bytes to put there.

use vstd::prelude::*;
use vstd::slice::slice_subrange;
use vstd::slice::slice_to_vec;

verus! {

/// Key length of ChaCha20-Poly1305, in bytes.
pub const KEY_LEN: usize = 32;

/// Nonce length of ChaCha20-Poly1305, in bytes.
pub const NONCE_LEN: usize = 12;

/// Tag length of ChaCha20-Poly1305, in bytes.
pub const TAG_LEN: usize = 16;

/// The least length of a sealed file: a nonce and a tag around an empty
/// payload.
pub const ENVELOPE_OVERHEAD: usize = 28;

/// The errors of reading and writing blob containers. The variants that
/// wrap an outside cause in the storage layer of a running program
/// (`FileError` for the operating system's error, `StringError` and
/// `SerializationError` for malformed contents) carry no payload here;
/// the caller that performed the transfer keeps the cause.
#[derive(Debug, PartialEq, Eq, Structural, Clone, Copy)]
pub enum StorageError {
    KeyLengthError,
    KeyError,
    NonceGenerationError,
    DecryptionError,
    EncryptionError,
    StringError,
    FileError,
    SerializationError,
}

impl StorageError {
    /// A short account of the error, for a caller that reports it.
    pub fn description(&self) -> (r: &'static str)
        ensures
            r@ == (match *self {
                StorageError::KeyLengthError => "The key was not the right length for the encryption algorithm"@,
                StorageError::KeyError => "There was a problem with the key to access the encrypted storage."@,
                StorageError::NonceGenerationError => "There was a problem generating the nonce."@,
                StorageError::DecryptionError => "The encrypted data could not be decrypted."@,
                StorageError::EncryptionError => "The plaintext data could not be encrypted."@,
                StorageError::StringError => "The file contents were not valid UTF-8."@,
                StorageError::FileError => "There was an error accessing the file."@,
                StorageError::SerializationError => "The file contents could not be interpreted."@,
            }),
    {
        match *self {
            StorageError::KeyLengthError => "The key was not the right length for the encryption algorithm",
            StorageError::KeyError => "There was a problem with the key to access the encrypted storage.",
            StorageError::NonceGenerationError => "There was a problem generating the nonce.",
            StorageError::DecryptionError => "The encrypted data could not be decrypted.",
            StorageError::EncryptionError => "The plaintext data could not be encrypted.",
            StorageError::StringError => "The file contents were not valid UTF-8.",
            StorageError::FileError => "There was an error accessing the file.",
            StorageError::SerializationError => "The file contents could not be interpreted.",
        }
    }
}

/// The ciphertext-and-tag that ChaCha20-Poly1305 with empty associated
/// data produces for the given key, nonce and plaintext.
pub uninterp spec fn chacha20_poly1305_seal(
    key: Seq<u8>,
    nonce: Seq<u8>,
    plaintext: Seq<u8>,
) -> Seq<u8>;

/// Relies on ring's ChaCha20-Poly1305 sealing (aead::CHACHA20_POLY1305
/// with LessSafeKey::seal_in_place_append_tag): the ciphertext-and-tag is
/// a deterministic function of key, nonce and plaintext (RFC 8439, empty
/// associated data), 16 bytes longer than the plaintext. No other
/// plaintext seals to the same bytes under the same key and nonce, since
/// decryption inverts the cipher. Sealing fails only on inputs beyond
/// the cipher's per-nonce cap of roughly 2^38 bytes, so it succeeds on
/// every plaintext within the stated bound.
#[verifier::external_body]
fn aead_seal(key: &[u8], nonce: &[u8], plaintext: &[u8]) -> (r: Result<Vec<u8>, StorageError>)
    requires
        key@.len() == 32,
        nonce@.len() == 12,
    ensures
        r matches Ok(sealed) ==> sealed@ == chacha20_poly1305_seal(key@, nonce@, plaintext@)
            && sealed@.len() == plaintext@.len() + 16,
        r matches Ok(sealed) ==> forall|other: Seq<u8>|
            sealed@ == chacha20_poly1305_seal(key@, nonce@, other) ==> other == plaintext@,
        r matches Err(e) ==> e == StorageError::EncryptionError,
        plaintext@.len() <= 0xFFFF_FFFF ==> r is Ok,
{
    let unbound = match ring::aead::UnboundKey::new(&ring::aead::CHACHA20_POLY1305, key) {
        Ok(k) => k,
        Err(_) => return Err(StorageError::EncryptionError),
    };
    let sealing_key = ring::aead::LessSafeKey::new(unbound);
    let nonce = ring::aead::Nonce::assume_unique_for_key(nonce.try_into().unwrap());
    let mut data = plaintext.to_vec();
    match sealing_key.seal_in_place_append_tag(nonce, ring::aead::Aad::empty(), &mut data) {
        Ok(()) => Ok(data),
        Err(_) => Err(StorageError::EncryptionError),
    }
}

/// Relies on ring's ChaCha20-Poly1305 opening (aead::CHACHA20_POLY1305
/// with LessSafeKey::open_in_place, empty associated data): opening
/// succeeds exactly on what sealing under the same key and nonce
/// produces, and then returns the sealed plaintext; any other input fails
/// the authentication check (RFC 8439).
#[verifier::external_body]
fn aead_open(key: &[u8], nonce: &[u8], sealed: &[u8]) -> (r: Result<Vec<u8>, StorageError>)
    requires
        key@.len() == 32,
        nonce@.len() == 12,
    ensures
        r matches Ok(plaintext) ==> sealed@ == chacha20_poly1305_seal(key@, nonce@, plaintext@),
        r is Err ==> forall|plaintext: Seq<u8>|
            sealed@ != chacha20_poly1305_seal(key@, nonce@, plaintext),
        r matches Err(e) ==> e == StorageError::DecryptionError,
{
    let unbound = match ring::aead::UnboundKey::new(&ring::aead::CHACHA20_POLY1305, key) {
        Ok(k) => k,
        Err(_) => return Err(StorageError::DecryptionError),
    };
    let opening_key = ring::aead::LessSafeKey::new(unbound);
    let nonce = ring::aead::Nonce::assume_unique_for_key(nonce.try_into().unwrap());
    let mut data = sealed.to_vec();
    let plaintext_len = match opening_key.open_in_place(nonce, ring::aead::Aad::empty(), &mut data)
    {
        Ok(plaintext) => plaintext.len(),
        Err(_) => return Err(StorageError::DecryptionError),
    };
    data.truncate(plaintext_len);
    Ok(data)
}

/// True when `file` is a well-formed envelope under `key` whose payload
/// is `plaintext`: it starts with a 12-byte nonce, and the rest is what
/// sealing `plaintext` under `key` and that nonce produces.
pub open spec fn envelope_opens_to(key: Seq<u8>, file: Seq<u8>, plaintext: Seq<u8>) -> bool {
    &&& file.len() >= ENVELOPE_OVERHEAD
    &&& file.skip(NONCE_LEN as int) == chacha20_poly1305_seal(
        key,
        file.take(NONCE_LEN as int),
        plaintext,
    )
}

/// True when `file` is an envelope under `key` whose payload is
/// `plaintext` and no other payload: what a fresh `write` of `plaintext`
/// produces.
pub open spec fn envelope_seals(key: Seq<u8>, file: Seq<u8>, plaintext: Seq<u8>) -> bool {
    &&& envelope_opens_to(key, file, plaintext)
    &&& forall|other: Seq<u8>| envelope_opens_to(key, file, other) ==> other == plaintext
}

/// A reference to an encrypted file.
///
/// An instance of `EncryptedStorage` holds the path of a file and the key
/// for its contents; `read` and `write` handle the bytes of that file,
/// which the caller transfers.
#[derive(Debug)]
pub struct EncryptedStorage {
    path: String,
    key: Vec<u8>,
}

impl EncryptedStorage {
    /// The path of the file this storage stands for.
    pub closed spec fn spec_path(&self) -> Seq<char> {
        self.path@
    }

    /// The key this storage seals and opens with.
    pub closed spec fn spec_key(&self) -> Seq<u8> {
        self.key@
    }

    /// Creates a new `EncryptedStorage` with the given path and key. The
    /// key should be a valid ChaCha20-Poly1305 key, 32 bytes long.
    pub fn new(path: String, key: Vec<u8>) -> (storage: EncryptedStorage)
        ensures
            storage.spec_path() == path@,
            storage.spec_key() == key@,
    {
        EncryptedStorage { path, key }
    }

    /// The path of the file this storage stands for.
    pub fn path(&self) -> (path: &String)
        ensures
            path@ == self.spec_path(),
    {
        &self.path
    }

    /// Opens the contents of the storage's file. The payload comes back
    /// exactly when the file is an envelope under this storage's key:
    /// anything else - in particular a file sealed under a different key,
    /// a tampered file, or one shorter than a nonce and a tag - is
    /// rejected with `StorageError::DecryptionError`. A key that is not
    /// 32 bytes long is rejected with `StorageError::KeyLengthError`.
    pub fn read(&self, file: &[u8]) -> (r: Result<Vec<u8>, StorageError>)
        ensures
            r matches Ok(plaintext) ==> envelope_opens_to(self.spec_key(), file@, plaintext@),
            forall|plaintext: Seq<u8>|
                self.spec_key().len() == 32 && envelope_opens_to(self.spec_key(), file@, plaintext)
                    ==> r is Ok,
            forall|plaintext: Seq<u8>|
                self.spec_key().len() == 32 && envelope_seals(self.spec_key(), file@, plaintext)
                    ==> (r matches Ok(p) && p@ == plaintext),
            self.spec_key().len() != 32 <==> r == Err::<Vec<u8>, StorageError>(
                StorageError::KeyLengthError,
            ),
            self.spec_key().len() == 32 && r is Err ==> r == Err::<Vec<u8>, StorageError>(
                StorageError::DecryptionError,
            ),
            self.spec_key().len() == 32 && file@.len() < ENVELOPE_OVERHEAD ==> r == Err::<
                Vec<u8>,
                StorageError,
            >(StorageError::DecryptionError),
    {
        if self.key.len() != 32 {
            return Err(StorageError::KeyLengthError);
        }
        if file.len() < ENVELOPE_OVERHEAD {
            return Err(StorageError::DecryptionError);
        }
        let nonce = slice_subrange(file, 0, NONCE_LEN);
        let sealed = slice_subrange(file, NONCE_LEN, file.len());
        proof {
            assert(nonce@ =~= file@.take(NONCE_LEN as int));
            assert(sealed@ =~= file@.skip(NONCE_LEN as int));
        }
        let r = aead_open(self.key.as_slice(), nonce, sealed);
        proof {
            assert forall|plaintext: Seq<u8>|
                envelope_opens_to(self.spec_key(), file@, plaintext) implies r is Ok by {
                assert(sealed@ == chacha20_poly1305_seal(self.spec_key(), nonce@, plaintext));
            }
            assert forall|plaintext: Seq<u8>|
                envelope_seals(self.spec_key(), file@, plaintext) implies (r matches Ok(p) && p@
                == plaintext) by {
                assert(envelope_opens_to(self.spec_key(), file@, plaintext));
                assert(r is Ok);
                let p = r->Ok_0;
                assert(envelope_opens_to(self.spec_key(), file@, p@));
            }
        }
        r
    }

    /// Seals the given payload into a fresh envelope: a newly drawn
    /// random 12-byte nonce, then the ciphertext and tag that this
    /// storage's key produces for the payload under that nonce. A key
    /// that is not 32 bytes long is rejected with
    /// `StorageError::KeyLengthError`; a failing random source gives
    /// `StorageError::NonceGenerationError`, and with a well-formed key
    /// that is the only way sealing a payload within the cipher's
    /// bounds can fail.
    pub fn write(&self, buffer: &[u8], random: &ring::rand::SystemRandom) -> (r: Result<
        Vec<u8>,
        StorageError,
    >)
        ensures
            r matches Ok(file) ==> file@.len() == buffer@.len() + ENVELOPE_OVERHEAD
                && envelope_seals(self.spec_key(), file@, buffer@),
            self.spec_key().len() != 32 <==> r == Err::<Vec<u8>, StorageError>(
                StorageError::KeyLengthError,
            ),
            r is Err ==> (r == Err::<Vec<u8>, StorageError>(StorageError::KeyLengthError) || r
                == Err::<Vec<u8>, StorageError>(StorageError::NonceGenerationError) || r == Err::<
                Vec<u8>,
                StorageError,
            >(StorageError::EncryptionError)),
            self.spec_key().len() == 32 && buffer@.len() <= 0xFFFF_FFFF && r is Err ==> r == Err::<
                Vec<u8>,
                StorageError,
            >(StorageError::NonceGenerationError),
    {
        if self.key.len() != 32 {
            return Err(StorageError::KeyLengthError);
        }
        let nonce = match crate::rng::random_bytes(random, NONCE_LEN) {
            Some(nonce) => nonce,
            None => return Err(StorageError::NonceGenerationError),
        };
        let sealed = match aead_seal(self.key.as_slice(), nonce.as_slice(), buffer) {
            Ok(sealed) => sealed,
            Err(e) => return Err(e),
        };
        let ghost nonce_view = nonce@;
        let ghost sealed_view = sealed@;
        let mut file = nonce;
        let mut sealed = sealed;
        file.append(&mut sealed);
        proof {
            assert(file@.take(NONCE_LEN as int) =~= nonce_view);
            assert(file@.skip(NONCE_LEN as int) =~= sealed_view);
            assert forall|other: Seq<u8>|
                envelope_opens_to(self.spec_key(), file@, other) implies other == buffer@ by {
                assert(sealed_view == chacha20_poly1305_seal(self.spec_key(), nonce_view, other));
            }
        }
        Ok(file)
    }
}

/// A reference to a plaintext file.
///
/// An instance of `PlaintextStorage` holds the path of a file whose
/// contents pass through unchanged: there is no envelope around the
/// payload.
#[derive(Debug)]
pub struct PlaintextStorage {
    path: String,
}

impl PlaintextStorage {
    /// The path of the file this storage stands for.
    pub closed spec fn spec_path(&self) -> Seq<char> {
        self.path@
    }

    /// Creates a new `PlaintextStorage` with the given path.
    pub fn new(path: String) -> (storage: PlaintextStorage)
        ensures
            storage.spec_path() == path@,
    {
        PlaintextStorage { path }
    }

    /// The path of the file this storage stands for.
    pub fn path(&self) -> (path: &String)
        ensures
            path@ == self.spec_path(),
    {
        &self.path
    }

    /// Reads the payload of the storage's file: the contents unchanged.
    pub fn read(&self, file: &[u8]) -> (r: Result<Vec<u8>, StorageError>)
        ensures
            r matches Ok(plaintext) && plaintext@ == file@,
    {
        Ok(slice_to_vec(file))
    }

    /// Writes the given payload to the storage's file: the contents
    /// unchanged.
    pub fn write(&self, buffer: &[u8]) -> (r: Result<Vec<u8>, StorageError>)
        ensures
            r matches Ok(file) && file@ == buffer@,
    {
        Ok(slice_to_vec(buffer))
    }
}

} // verus!
