//! Key generation, salt generation and passphrase-based key derivation.

use vstd::prelude::*;
use vstd::string::StrSliceExecFns;
use vstd::utf8::encode_utf8;
use vstd::utf8::encode_scalar;

verus! {

/// The FNV-1a 64-bit offset basis.
pub const FNV_OFFSET_BASIS: u64 = 0xcbf29ce484222325;

/// The FNV-1a 64-bit prime.
pub const FNV_PRIME: u64 = 0x100000001b3;

/// Base iteration count for key derivation.
pub const ITERATIONS_BASE_COUNT: u32 = 100000;

/// Size of the per-passphrase extension to the iteration count.
pub const ITERATIONS_EXTENSION_COUNT: u32 = 10000;

/// Length in bytes of a freshly generated salt.
pub const SALT_LEN: usize = 16;

/// The errors of key and salt handling.
#[derive(Debug, PartialEq, Eq, Structural, Clone, Copy)]
pub enum KeyError {
    KeyGenerationError,
    SaltGenerationError,
    SaltLengthError,
}

impl KeyError {
    /// A short account of the error, for a caller that reports it.
    pub fn description(&self) -> (r: &'static str)
        ensures
            r@ == (match *self {
                KeyError::KeyGenerationError => "There was a problem generating the key from the system's random values."@,
                KeyError::SaltGenerationError => "There was a problem generating the salt from the system's random values."@,
                KeyError::SaltLengthError => "The given salt was too short."@,
            }),
    {
        match *self {
            KeyError::KeyGenerationError => "There was a problem generating the key from the system's random values.",
            KeyError::SaltGenerationError => "There was a problem generating the salt from the system's random values.",
            KeyError::SaltLengthError => "The given salt was too short.",
        }
    }
}

/// The AEAD algorithms a key can be generated or derived for. The vault
/// itself seals with `ChaCha20Poly1305`; the others exist so that key
/// generation covers every algorithm the storage layer could be asked
/// about.
#[derive(Debug, PartialEq, Eq, Structural, Clone, Copy)]
pub enum AeadAlgorithm {
    ChaCha20Poly1305,
    Aes128Gcm,
    Aes256Gcm,
}

impl AeadAlgorithm {
    /// The key length of the algorithm, in bytes.
    pub open spec fn spec_key_len(self) -> nat {
        match self {
            AeadAlgorithm::ChaCha20Poly1305 => 32,
            AeadAlgorithm::Aes128Gcm => 16,
            AeadAlgorithm::Aes256Gcm => 32,
        }
    }

    /// The key length of the algorithm, in bytes.
    pub fn key_len(&self) -> (n: usize)
        ensures
            n == self.spec_key_len(),
    {
        match self {
            AeadAlgorithm::ChaCha20Poly1305 => 32,
            AeadAlgorithm::Aes128Gcm => 16,
            AeadAlgorithm::Aes256Gcm => 32,
        }
    }
}

/// The FNV-1a hash of a byte sequence, 64 bits wide.
pub open spec fn fnv1a64(bytes: Seq<u8>) -> u64
    decreases bytes.len(),
{
    if bytes.len() == 0 {
        FNV_OFFSET_BASIS
    } else {
        vstd::wrapping::u64_specs::wrapping_mul(
            fnv1a64(bytes.drop_last()) ^ (bytes.last() as u64),
            FNV_PRIME,
        )
    }
}

/// Computes the FNV-1a 64-bit hash of `bytes`.
fn fnv1a64_exec(bytes: &[u8]) -> (hash: u64)
    ensures
        hash == fnv1a64(bytes@),
{
    let mut hash: u64 = FNV_OFFSET_BASIS;
    let mut i: usize = 0;
    while i < bytes.len()
        invariant
            i <= bytes@.len(),
            hash == fnv1a64(bytes@.take(i as int)),
        decreases bytes@.len() - i,
    {
        hash = (hash ^ (bytes[i] as u64)).wrapping_mul(FNV_PRIME);
        i = i + 1;
        assert(bytes@.take(i as int).drop_last() =~= bytes@.take(i - 1));
        assert(bytes@.take(i as int).last() == bytes@[i - 1]);
    }
    assert(bytes@.take(bytes@.len() as int) =~= bytes@);
    hash
}

/// The iteration count that key derivation uses for a given passphrase.
pub open spec fn spec_iterations(password: Seq<char>) -> u32 {
    (ITERATIONS_BASE_COUNT + ((fnv1a64(encode_utf8(password)) as u32)
        % ITERATIONS_EXTENSION_COUNT)) as u32
}

/// Determine the total number of iterations to use for the given password:
/// a base count of 100,000 plus an extension of 0 to 9,999 chosen by a
/// per-passphrase hash. A passphrase-dependent count is intended to make
/// massively parallel guessing attacks branch on passphrase-dependent
/// state; the hash is pinned to FNV-1a over the UTF-8 bytes of the
/// passphrase so that the count is stable across platforms and runs.
pub fn iterations(password: String) -> (count: u32)
    ensures
        count == spec_iterations(password@),
        ITERATIONS_BASE_COUNT <= count
            < ITERATIONS_BASE_COUNT + ITERATIONS_EXTENSION_COUNT,
{
    let hash64 = fnv1a64_exec(password.as_str().as_bytes());
    let hash = #[verifier::truncate] (hash64 as u32);
    let extensions = hash % ITERATIONS_EXTENSION_COUNT;
    ITERATIONS_BASE_COUNT + extensions
}

/// The UTF-8 encoding of a character sequence takes at most four bytes
/// per character.
pub proof fn lemma_encode_utf8_len(chars: Seq<char>)
    ensures
        encode_utf8(chars).len() <= 4 * chars.len(),
    decreases chars.len(),
{
    if chars.len() > 0 {
        assert(encode_scalar(chars[0] as u32).len() <= 4);
        lemma_encode_utf8_len(chars.drop_first());
    }
}

/// The key that PBKDF2 with HMAC-SHA256 as the pseudo-random function
/// derives from the given iteration count, salt and secret, at the given
/// output length.
pub uninterp spec fn pbkdf2_hmac_sha256(
    iterations: u32,
    salt: Seq<u8>,
    secret: Seq<u8>,
    out_len: nat,
) -> Seq<u8>;

/// Relies on ring::pbkdf2::derive with the PBKDF2_HMAC_SHA256 algorithm:
/// it fills the whole output buffer with a key that is a deterministic
/// function of the iteration count, the salt and the secret (RFC 2898).
/// ring's derive panics only when the salt or the secret come near
/// SHA-256's input-length limit or the requested output exceeds
/// 2^32 - 1 blocks; the bounds in `requires` keep far inside all three.
#[verifier::external_body]
fn pbkdf2_derive(iterations: u32, salt: &[u8], secret: &[u8], out_len: usize) -> (key: Vec<u8>)
    requires
        1 <= iterations,
        salt@.len() <= 0xFFFF_FFFF,
        secret@.len() <= 0xFFFF_FFFF,
        out_len <= 64,
    ensures
        key@.len() == out_len,
        key@ == pbkdf2_hmac_sha256(iterations, salt@, secret@, out_len as nat),
{
    let mut key = vec![0u8; out_len];
    let iterations = core::num::NonZeroU32::new(iterations).unwrap();
    ring::pbkdf2::derive(ring::pbkdf2::PBKDF2_HMAC_SHA256, iterations, salt, secret, &mut key);
    key
}

/// The key that `derive_key` returns for the given algorithm, salt and
/// passphrase.
pub open spec fn spec_derived_key(
    algorithm: AeadAlgorithm,
    salt: Seq<u8>,
    password: Seq<char>,
) -> Seq<u8> {
    pbkdf2_hmac_sha256(
        spec_iterations(password),
        salt,
        encode_utf8(password),
        algorithm.spec_key_len(),
    )
}

/// Generate a new key for the given algorithm using the given source of
/// randomness. Fails with `KeyError::KeyGenerationError` only if the
/// source of randomness fails.
pub fn generate_key(algorithm: AeadAlgorithm, random: &ring::rand::SystemRandom) -> (r: Result<
    Vec<u8>,
    KeyError,
>)
    ensures
        r matches Ok(key) ==> key@.len() == algorithm.spec_key_len(),
        r matches Err(e) ==> e == KeyError::KeyGenerationError,
{
    match crate::rng::random_bytes(random, algorithm.key_len()) {
        Some(key) => Ok(key),
        None => Err(KeyError::KeyGenerationError),
    }
}

/// Generates a salt that can be used when deriving a key. Fails with
/// `KeyError::SaltGenerationError` only if the source of randomness fails.
pub fn generate_salt(random: &ring::rand::SystemRandom) -> (r: Result<Vec<u8>, KeyError>)
    ensures
        r matches Ok(salt) ==> salt@.len() == SALT_LEN,
        r matches Err(e) ==> e == KeyError::SaltGenerationError,
{
    match crate::rng::random_bytes(random, SALT_LEN) {
        Some(salt) => Ok(salt),
        None => Err(KeyError::SaltGenerationError),
    }
}

/// Derives a key for the given algorithm from the provided salt and
/// password, using PBKDF2 with HMAC-SHA256 and `iterations(password)`
/// rounds. The result is a deterministic function of the algorithm, the
/// salt and the password. Salts of four bytes or fewer are rejected with
/// `KeyError::SaltLengthError`, and that is the only error.
pub fn derive_key(algorithm: AeadAlgorithm, salt: &[u8], password: String) -> (r: Result<
    Vec<u8>,
    KeyError,
>)
    requires
        salt@.len() <= 0xFFFF_FFFF,
        password@.len() <= 0x3FFF_FFFF,
    ensures
        r is Err <==> salt@.len() <= 4,
        r matches Err(e) ==> e == KeyError::SaltLengthError,
        r matches Ok(key) ==> key@ == spec_derived_key(algorithm, salt@, password@)
            && key@.len() == algorithm.spec_key_len(),
{
    if salt.len() <= 4 {
        return Err(KeyError::SaltLengthError);
    }
    let secret = password.as_str().as_bytes_vec();
    proof {
        lemma_encode_utf8_len(password@);
    }
    let count = iterations(password);
    Ok(pbkdf2_derive(count, salt, secret.as_slice(), algorithm.key_len()))
}

} // verus!
