//! The library's byte encodings against postcard's, built from plain
//! tuples in the field order of each record (an enum variant is its index
//! followed by its fields).

use murmur::message::MurmurMessage;
use murmur::pairing::PairingToken;
use murmur::types::{BlobHash, DeviceId};

fn check(m: MurmurMessage, expected: Vec<u8>) {
    assert_eq!(m.to_bytes(), expected);
    let back = MurmurMessage::from_bytes(&expected).unwrap();
    assert_eq!(back.to_bytes(), expected);
}

#[test]
fn test_messages_match_postcard() {
    let h = [0xabu8; 32];
    let long: Vec<u8> = (0..300u32).map(|i| i as u8).collect();
    check(
        MurmurMessage::DagEntryBroadcast { entry_bytes: long.clone() },
        postcard::to_allocvec(&(0u32, long.clone())).unwrap(),
    );
    check(
        MurmurMessage::DagSyncRequest { tips: vec![[1; 32], [2; 32]] },
        postcard::to_allocvec(&(1u32, vec![[1u8; 32], [2u8; 32]])).unwrap(),
    );
    check(
        MurmurMessage::DagSyncResponse { entries: vec![vec![], vec![9, 8], long.clone()] },
        postcard::to_allocvec(&(2u32, vec![vec![], vec![9u8, 8], long.clone()])).unwrap(),
    );
    check(
        MurmurMessage::BlobPush { blob_hash: BlobHash(h), data: vec![5; 200] },
        postcard::to_allocvec(&(3u32, h, vec![5u8; 200])).unwrap(),
    );
    check(
        MurmurMessage::BlobPushAck { blob_hash: BlobHash(h), ok: true },
        postcard::to_allocvec(&(4u32, h, true)).unwrap(),
    );
    check(
        MurmurMessage::BlobRequest { blob_hash: BlobHash(h) },
        postcard::to_allocvec(&(5u32, h)).unwrap(),
    );
    check(
        MurmurMessage::BlobResponse { blob_hash: BlobHash(h), data: Some(vec![1, 2, 3]) },
        postcard::to_allocvec(&(6u32, h, Some(vec![1u8, 2, 3]))).unwrap(),
    );
    check(
        MurmurMessage::BlobResponse { blob_hash: BlobHash(h), data: None },
        postcard::to_allocvec(&(6u32, h, None::<Vec<u8>>)).unwrap(),
    );
    check(
        MurmurMessage::Ping { timestamp: 1_700_000_000_123 },
        postcard::to_allocvec(&(9u32, 1_700_000_000_123u64)).unwrap(),
    );
    check(MurmurMessage::Pong { timestamp: 0 }, postcard::to_allocvec(&(10u32, 0u64)).unwrap());
    check(MurmurMessage::Pong { timestamp: u64::MAX }, postcard::to_allocvec(&(10u32, u64::MAX)).unwrap());
}

#[test]
fn test_pairing_token_matches_postcard() {
    let sk: [u8; 32] = [7; 32];
    let id = DeviceId::from_secret_key(&sk);
    let t = PairingToken::issue("abandon about", id, &sk, 1_800_000_000);
    let mut mine = Vec::new();
    t.encode(&mut mine);
    let theirs = postcard::to_allocvec(&(
        t.nonce,
        t.expires_at_unix,
        t.issued_by.0,
        t.mnemonic_ciphertext.clone(),
        t.signature.clone(),
    ))
    .unwrap();
    assert_eq!(mine, theirs);
}
