use vstd::prelude::*;

use crate::errors::BlobError;
use chacha20poly1305::aead::Aead;
use chacha20poly1305::KeyInit;

verus! {

/// The 32-byte key that the Argon2id key derivation (64 MiB memory, 3
/// iterations, parallelism 1, version 0x13) produces from a password and a
/// salt. A function of the two arguments alone.
pub uninterp spec fn kdf_of(password: Seq<u8>, salt: Seq<u8>) -> Seq<u8>;

/// The ciphertext (body followed by the 16-byte tag) that XChaCha20-Poly1305
/// produces from a key, a nonce and a plaintext. A function of the three
/// arguments alone.
pub uninterp spec fn aead_seal(key: Seq<u8>, nonce: Seq<u8>, plaintext: Seq<u8>) -> Seq<u8>;

/// The CRC-32 (IEEE) checksum of a byte sequence, a function of the bytes
/// alone.
pub uninterp spec fn crc32_of(data: Seq<u8>) -> u32;

/// Relies on argon2's `Argon2::hash_password_into` with Argon2id, version
/// 0x13 and parameters (65536, 3, 1): a deterministic function of password
/// and salt. With a 16-byte salt and a password within the length limit it
/// fails only when the working memory cannot be allocated; every failure is
/// reported as the generic unlock error.
#[verifier::external_body]
pub fn derive_key(password: &[u8], salt: &[u8]) -> (r: Result<[u8; 32], BlobError>)
    requires
        password@.len() <= 0xFFFF_FFFF,
        salt@.len() == 16,
    ensures
        r matches Ok(k) ==> k@ == kdf_of(password@, salt@),
        r matches Err(e) ==> e == BlobError::InvalidPassword,
{
    let params = match argon2::Params::new(65536, 3, 1, None) {
        Ok(p) => p,
        Err(_) => return Err(BlobError::InvalidPassword),
    };
    let ctx = argon2::Argon2::new(argon2::Algorithm::Argon2id, argon2::Version::V0x13, params);
    let mut key = [0u8; 32];
    match ctx.hash_password_into(password, salt, &mut key) {
        Ok(()) => Ok(key),
        Err(_) => Err(BlobError::InvalidPassword),
    }
}

/// Relies on chacha20poly1305's `XChaCha20Poly1305::encrypt`: deterministic
/// in key, nonce and plaintext; appends a 16-byte tag; its only failure is a
/// plaintext of 2^32 - 1 or more 64-byte blocks, which the precondition
/// rules out.
#[verifier::external_body]
pub(crate) fn aead_encrypt(key: &[u8; 32], nonce: &[u8], plaintext: &[u8]) -> (r: Vec<u8>)
    requires
        plaintext@.len() < 0x3F_FFFF_FF00,
        nonce@.len() == 24,
    ensures
        r@ == aead_seal(key@, nonce@, plaintext@),
        r@.len() == plaintext@.len() + 16,
{
    let nonce_arr: [u8; 24] = core::convert::TryInto::try_into(nonce).expect(
        "nonce is 24 bytes",
    );
    let cipher = chacha20poly1305::XChaCha20Poly1305::new(&chacha20poly1305::Key::from(*key));
    cipher.encrypt(&chacha20poly1305::XNonce::from(nonce_arr), plaintext).expect(
        "plaintext within AEAD length limit",
    )
}

/// Relies on chacha20poly1305's `XChaCha20Poly1305::decrypt`: it succeeds
/// exactly on ciphertexts whose Poly1305 tag verifies, and then returns the
/// plaintext whose sealing under the same key and nonce is this ciphertext;
/// the sealing of any plaintext therefore decrypts back to it.
#[verifier::external_body]
pub(crate) fn aead_decrypt(key: &[u8; 32], nonce: &[u8], ciphertext: &[u8]) -> (r: Option<
    Vec<u8>,
>)
    requires
        ciphertext@.len() < 0x3F_FFFF_FF00,
        nonce@.len() == 24,
    ensures
        r matches Some(p) ==> ciphertext@ == aead_seal(key@, nonce@, p@) && p@.len() + 16
            == ciphertext@.len(),
        forall|p: Seq<u8>|
            p.len() + 16 == ciphertext@.len() && ciphertext@ == aead_seal(key@, nonce@, p)
                ==> r is Some && r->Some_0@ == p,
{
    let nonce_arr: [u8; 24] = core::convert::TryInto::try_into(nonce).expect(
        "nonce is 24 bytes",
    );
    let cipher = chacha20poly1305::XChaCha20Poly1305::new(&chacha20poly1305::Key::from(*key));
    cipher.decrypt(&chacha20poly1305::XNonce::from(nonce_arr), ciphertext).ok()
}

/// Relies on rand's `fill_bytes` on the thread-local CSPRNG: fills a buffer
/// of the requested length. Nothing is assumed of the values drawn.
#[verifier::external_body]
pub(crate) fn random_bytes(n: usize) -> (r: Vec<u8>)
    ensures
        r@.len() == n,
{
    let mut buf = vec![0u8; n];
    rand::Rng::fill_bytes(&mut rand::rng(), &mut buf);
    buf
}

/// Relies on crc32fast::hash: the CRC-32 (IEEE) checksum of the input.
#[verifier::external_body]
pub fn crc32(data: &[u8]) -> (r: u32)
    ensures
        r == crc32_of(data@),
{
    crc32fast::hash(data)
}

} // verus!
