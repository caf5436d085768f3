//! Calls into std and into the hashing, signature, key-derivation,
//! encryption, compression and text-encoding crates. Each item states what
//! the called code documents of its result; nothing here is proved.

use vstd::prelude::*;
use crate::base64url::{base64url_decoded, base64url_text};
use vstd::utf8::*;
use ed25519_dalek::Signer;
use ed25519_dalek::Verifier;
use std::io::Read;
use std::io::Write;

verus! {

/// The blake3 digest (32 bytes) of `data`.
pub uninterp spec fn blake3_hash(data: Seq<u8>) -> Seq<u8>;

/// The Ed25519 signature (64 bytes) that the secret key `secret` gives `msg`.
pub uninterp spec fn ed25519_signature(secret: Seq<u8>, msg: Seq<u8>) -> Seq<u8>;

/// The Ed25519 public key (32 bytes) of the secret key `secret`.
pub uninterp spec fn ed25519_public(secret: Seq<u8>) -> Seq<u8>;

/// Whether `public` is a valid Ed25519 point under which `sig` is a valid
/// signature of `msg`.
pub uninterp spec fn ed25519_valid(public: Seq<u8>, msg: Seq<u8>, sig: Seq<u8>) -> bool;

/// HKDF-SHA256 with no salt: 32 bytes of output key material expanded
/// from input key material `ikm` under the label `info`.
pub uninterp spec fn hkdf_sha256(ikm: Seq<u8>, info: Seq<u8>) -> Seq<u8>;

/// AES-256-GCM ciphertext (with tag) of `plaintext` under `key` and `nonce`,
/// no associated data.
pub uninterp spec fn aes256gcm_seal(key: Seq<u8>, nonce: Seq<u8>, plaintext: Seq<u8>) -> Seq<u8>;

/// AES-256-GCM decryption of `ciphertext` under `key` and `nonce`; `None`
/// when authentication fails.
pub uninterp spec fn aes256gcm_open(key: Seq<u8>, nonce: Seq<u8>, ciphertext: Seq<u8>) -> Option<
    Seq<u8>,
>;


/// Raw deflate stream of `data` at the fast compression level.
pub uninterp spec fn deflate_fast(data: Seq<u8>) -> Seq<u8>;

/// Bytes that the raw deflate stream `data` inflates to; `None` when the
/// stream is corrupt.
pub uninterp spec fn inflated(data: Seq<u8>) -> Option<Seq<u8>>;

/// `blake3::hash`: the 32-byte digest of `data`.
#[verifier::external_body]
pub(crate) fn blake3_digest(data: &[u8]) -> (res: [u8; 32])
    ensures
        res@ == blake3_hash(data@),
{
    *blake3::hash(data).as_bytes()
}

/// `SigningKey::sign` of ed25519-dalek. Ed25519 signing is deterministic, and
/// a signature it makes verifies under the key's own public key.
#[verifier::external_body]
pub(crate) fn ed25519_sign(secret: &[u8; 32], msg: &[u8]) -> (res: [u8; 64])
    ensures
        res@ == ed25519_signature(secret@, msg@),
        ed25519_valid(ed25519_public(secret@), msg@, res@),
{
    let key = ed25519_dalek::SigningKey::from_bytes(secret);
    key.sign(msg).to_bytes()
}

/// `SigningKey::verifying_key` of ed25519-dalek, as bytes.
#[verifier::external_body]
pub(crate) fn ed25519_public_key(secret: &[u8; 32]) -> (res: [u8; 32])
    ensures
        res@ == ed25519_public(secret@),
{
    ed25519_dalek::SigningKey::from_bytes(secret).verifying_key().to_bytes()
}

/// `VerifyingKey::from_bytes` followed by `VerifyingKey::verify` of
/// ed25519-dalek: true when the key bytes decode to a point and the
/// signature verifies.
#[verifier::external_body]
pub(crate) fn ed25519_verify(public: &[u8; 32], msg: &[u8], sig: &[u8; 64]) -> (res: bool)
    ensures
        res == ed25519_valid(public@, msg@, sig@),
{
    match ed25519_dalek::VerifyingKey::from_bytes(public) {
        Ok(key) => key.verify(msg, &ed25519_dalek::Signature::from_bytes(sig)).is_ok(),
        Err(_) => false,
    }
}

/// `Hkdf::<Sha256>::new(None, ikm)` then `expand(info, ..)` into 32 bytes,
/// a length that HKDF-SHA256 always accepts.
#[verifier::external_body]
pub(crate) fn hkdf_sha256_expand(ikm: &[u8; 32], info: &[u8]) -> (res: [u8; 32])
    ensures
        res@ == hkdf_sha256(ikm@, info@),
{
    let hk = hkdf::Hkdf::<sha2::Sha256>::new(None, ikm);
    let mut out = [0u8; 32];
    let _ = hk.expand(info, &mut out);
    out
}

/// Largest plaintext that AES-GCM encrypts (`aes_gcm::P_MAX`).
pub open spec fn aes_plaintext_max() -> nat {
    0x10_0000_0000
}

/// `Aead::encrypt` of `Aes256Gcm`: fails only on a plaintext longer than
/// `P_MAX`; the ciphertext is the plaintext's length plus the 16-byte tag,
/// and what it seals, decryption under the same key and nonce opens.
#[verifier::external_body]
pub(crate) fn aes256gcm_encrypt(key: &[u8; 32], nonce: &[u8; 12], plaintext: &[u8]) -> (res: Option<
    Vec<u8>,
>)
    ensures
        res is Some <==> plaintext@.len() <= aes_plaintext_max(),
        res matches Some(c) ==> c@ == aes256gcm_seal(key@, nonce@, plaintext@),
        res matches Some(c) ==> c@.len() == plaintext@.len() + 16,
        res matches Some(c) ==> aes256gcm_open(key@, nonce@, c@) == Some(plaintext@),
{
    let cipher = <aes_gcm::Aes256Gcm as aes_gcm::KeyInit>::new(key.into());
    <aes_gcm::Aes256Gcm as aes_gcm::aead::Aead>::encrypt(&cipher, nonce.into(), plaintext).ok()
}

/// `Aead::decrypt` of `Aes256Gcm`.
#[verifier::external_body]
pub(crate) fn aes256gcm_decrypt(key: &[u8; 32], nonce: &[u8; 12], ciphertext: &[u8]) -> (res: Option<
    Vec<u8>,
>)
    ensures
        res is Some <==> aes256gcm_open(key@, nonce@, ciphertext@) is Some,
        res matches Some(p) ==> aes256gcm_open(key@, nonce@, ciphertext@) == Some(p@),
{
    let cipher = <aes_gcm::Aes256Gcm as aes_gcm::KeyInit>::new(key.into());
    <aes_gcm::Aes256Gcm as aes_gcm::aead::Aead>::decrypt(&cipher, nonce.into(), ciphertext).ok()
}

/// `BASE64URL_NOPAD.encode` of data-encoding: URL-safe base64 of `data`
/// without padding.
#[verifier::external_body]
pub(crate) fn base64url_encode(data: &[u8]) -> (res: String)
    ensures
        res@ == base64url_text(data@),
{
    data_encoding::BASE64URL_NOPAD.encode(data)
}

/// `BASE64URL_NOPAD.decode` of data-encoding, which checks trailing bits:
/// it accepts exactly the texts that encoding some bytes gives and then
/// returns those bytes; on failure, the text of the crate's error.
#[verifier::external_body]
pub(crate) fn base64url_decode(text: &[u8]) -> (res: Result<Vec<u8>, String>)
    ensures
        res is Ok <==> base64url_decoded(text@) is Some,
        res matches Ok(d) ==> base64url_decoded(text@) == Some(d@),
{
    match data_encoding::BASE64URL_NOPAD.decode(text) {
        Ok(d) => Ok(d),
        Err(e) => Err(e.to_string()),
    }
}

/// `DeflateEncoder` of flate2 at `Compression::fast()` writing into a
/// vector (writing into a vector does not fail); what it produces,
/// `DeflateDecoder` inflates back to `data`.
#[verifier::external_body]
pub(crate) fn deflate_compress(data: &[u8]) -> (res: Vec<u8>)
    ensures
        res@ == deflate_fast(data@),
        inflated(res@) == Some(data@),
{
    let mut encoder = flate2::write::DeflateEncoder::new(Vec::new(), flate2::Compression::fast());
    match encoder.write_all(data) {
        Ok(()) => {},
        Err(_) => {},
    }
    match encoder.finish() {
        Ok(v) => v,
        Err(_) => Vec::new(),
    }
}

/// `DeflateDecoder` of flate2 read to its end; on a corrupt stream, the
/// text of the I/O error it reports, which the contract leaves open.
#[verifier::external_body]
pub(crate) fn deflate_decompress(data: &[u8]) -> (res: Result<Vec<u8>, String>)
    ensures
        res is Ok <==> inflated(data@) is Some,
        res matches Ok(d) ==> inflated(data@) == Some(d@),
{
    let mut decoder = flate2::read::DeflateDecoder::new(data);
    let mut out = Vec::new();
    match decoder.read_to_end(&mut out) {
        Ok(_) => Ok(out),
        Err(e) => Err(e.to_string()),
    }
}

/// 32 bytes from the operating system's random source (`OsRng` of rand).
/// Nothing is promised of their value.
#[verifier::external_body]
pub(crate) fn random_bytes32() -> (res: [u8; 32]) {
    let mut out = [0u8; 32];
    rand::RngCore::fill_bytes(&mut rand::rngs::OsRng, &mut out);
    out
}

/// Seconds since the UNIX epoch by the system clock, 0 when the clock is
/// before the epoch. Nothing is promised of its value.
#[verifier::external_body]
pub(crate) fn unix_time_secs() -> (res: u64) {
    match std::time::SystemTime::now().duration_since(std::time::UNIX_EPOCH) {
        Ok(d) => d.as_secs(),
        Err(_) => 0,
    }
}

/// Milliseconds since the UNIX epoch by the system clock, 0 when the clock
/// is before the epoch. Nothing is promised of its value.
#[verifier::external_body]
pub(crate) fn unix_time_millis() -> (res: u64) {
    match std::time::SystemTime::now().duration_since(std::time::UNIX_EPOCH) {
        Ok(d) => d.as_millis() as u64,
        Err(_) => 0,
    }
}

/// `String::from_utf8`: succeeds exactly on valid UTF-8 and then holds the
/// decoded characters.
#[verifier::external_body]
pub(crate) fn utf8_to_string(b: &[u8]) -> (res: Option<String>)
    ensures
        res is Some <==> valid_utf8(b@),
        res matches Some(t) ==> t@ == decode_utf8(b@),
{
    String::from_utf8(b.to_vec()).ok()
}

/// `String::from(char)`: the text of the one character `c`.
#[verifier::external_body]
pub(crate) fn char_text(c: char) -> (res: String)
    ensures
        res@ == seq![c],
{
    String::from(c)
}

} // verus!
