use std::io::{Read, Write};

use aes_gcm::aead::Aead;
use aes_gcm::KeyInit;
use ed25519_dalek::Signer;
use murmur::pairing::{PairingError, PairingToken};
use murmur::types::{BlobHash, DeviceId};
use murmur::wire::{compress_wire, decompress_wire};

fn invite_key(nonce: &[u8; 32]) -> [u8; 32] {
    let hk = hkdf::Hkdf::<sha2::Sha256>::new(None, nonce);
    let mut out = [0u8; 32];
    hk.expand(b"murmur/pair-invite/v1", &mut out).unwrap();
    out
}

fn payload(nonce: &[u8; 32], exp: u64, issuer: &DeviceId, ct: &[u8]) -> Vec<u8> {
    let mut v = Vec::new();
    v.extend_from_slice(nonce);
    v.extend_from_slice(&exp.to_be_bytes());
    v.extend_from_slice(issuer.as_bytes());
    v.extend_from_slice(ct);
    v
}

#[test]
fn test_blake3_known_value() {
    let h = BlobHash::from_data(b"abc");
    let expected = blake3::hash(b"abc");
    assert_eq!(h.as_bytes(), expected.as_bytes());
    assert_eq!(
        murmur::text::hex(h.as_bytes()),
        "6437b3ac38465133ffb63b75273a8db548c558465d79db03fd359c6cd5bd9d85"
    );
}

#[test]
fn test_ed25519_public_key_known_value() {
    let sk: [u8; 32] = [
        0x9d, 0x61, 0xb1, 0x9d, 0xef, 0xfd, 0x5a, 0x60, 0xba, 0x84, 0x4a, 0xf4, 0x92, 0xec, 0x2c,
        0xc4, 0x44, 0x49, 0xc5, 0x69, 0x7b, 0x32, 0x69, 0x19, 0x70, 0x3b, 0xac, 0x03, 0x1c, 0xae,
        0x7f, 0x60,
    ];
    let id = DeviceId::from_secret_key(&sk);
    assert_eq!(
        murmur::text::hex(id.as_bytes()),
        "d75a980182b10ab7d54bfed3c964073a0ee172f3daa62325af021a68f707511a"
    );
}

#[test]
fn test_issued_ciphertext_opens_with_real_key() {
    let sk: [u8; 32] = rand::random();
    let id = DeviceId::from_secret_key(&sk);
    let t = PairingToken::issue("words of the network", id, &sk, 5000);
    let cipher = aes_gcm::Aes256Gcm::new((&invite_key(&t.nonce)).into());
    let plain = cipher.decrypt((&[0u8; 12]).into(), t.mnemonic_ciphertext.as_slice()).unwrap();
    assert_eq!(plain, b"words of the network");
    let vk = ed25519_dalek::SigningKey::from_bytes(&sk).verifying_key();
    let sig = ed25519_dalek::Signature::from_slice(&t.signature).unwrap();
    let p = payload(&t.nonce, t.expires_at_unix, &id, &t.mnemonic_ciphertext);
    assert!(vk.verify_strict(&p, &sig).is_ok());
}

fn forged_token(plain: &[u8]) -> PairingToken {
    let sk: [u8; 32] = rand::random();
    let signing = ed25519_dalek::SigningKey::from_bytes(&sk);
    let id = DeviceId::from_bytes(signing.verifying_key().to_bytes());
    let nonce: [u8; 32] = rand::random();
    let cipher = aes_gcm::Aes256Gcm::new((&invite_key(&nonce)).into());
    let ct = cipher.encrypt((&[0u8; 12]).into(), plain).unwrap();
    let sig = signing.sign(&payload(&nonce, 5000, &id, &ct));
    PairingToken {
        nonce,
        expires_at_unix: 5000,
        issued_by: id,
        mnemonic_ciphertext: ct,
        signature: sig.to_bytes().to_vec(),
    }
}

#[test]
fn test_redeem_token_made_elsewhere() {
    let t = forged_token(b"made elsewhere");
    assert_eq!(t.redeem(10).unwrap(), "made elsewhere");
}

#[test]
fn test_redeem_non_utf8_mnemonic() {
    let t = forged_token(&[0xff, 0xfe, 0x00]);
    assert!(matches!(t.redeem(10), Err(PairingError::BadMnemonic)));
}

#[test]
fn test_url_token_is_base64url_of_encoding() {
    let t = forged_token(b"x");
    let mut bytes = Vec::new();
    t.encode(&mut bytes);
    let expected = format!("murmur://join?token={}", data_encoding::BASE64URL_NOPAD.encode(&bytes));
    assert_eq!(t.to_url(), expected);
}

#[test]
fn test_deflate_interop() {
    let data: Vec<u8> = std::iter::repeat(b"murmur ".iter().copied()).take(100).flatten().collect();
    let frame = compress_wire(&data);
    assert_eq!(frame[0], 1);
    let mut dec = flate2::read::DeflateDecoder::new(&frame[1..]);
    let mut out = Vec::new();
    dec.read_to_end(&mut out).unwrap();
    assert_eq!(out, data);

    let mut enc = flate2::write::DeflateEncoder::new(Vec::new(), flate2::Compression::best());
    enc.write_all(&data).unwrap();
    let mut other = vec![1u8];
    other.extend(enc.finish().unwrap());
    assert_eq!(decompress_wire(&other).unwrap(), data);
}
