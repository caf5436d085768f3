use murmur::dag::Dag;
use murmur::message::{
    broadcast_payloads, frame_length, frame_message, gossip_step, handle_gossip_message,
    GossipEvent, MurmurMessage,
};
use murmur::types::{AccessGrant, AccessScope, Action, BlobHash, DeviceId};
use murmur::wire::NetError;

fn make_dag() -> Dag {
    let sk: [u8; 32] = rand::random();
    Dag::new(DeviceId::from_secret_key(&sk), sk)
}

fn roundtrip(m: &MurmurMessage) -> MurmurMessage {
    let bytes = m.to_bytes();
    MurmurMessage::from_bytes(&bytes).unwrap()
}

#[test]
fn test_message_roundtrip_all_variants() {
    let h = BlobHash::from_data(b"blob");
    let d = DeviceId::from_bytes([3; 32]);
    let grant = AccessGrant {
        to: d,
        from: DeviceId::from_bytes([4; 32]),
        scope: AccessScope::SingleFile(h),
        expires_at: 77,
        signature_r: [5; 32],
        signature_s: [6; 32],
    };
    let msgs = vec![
        MurmurMessage::DagEntryBroadcast { entry_bytes: vec![1, 2, 3] },
        MurmurMessage::DagSyncRequest { tips: vec![[9; 32], [8; 32]] },
        MurmurMessage::DagSyncResponse { entries: vec![vec![], vec![1], vec![2, 3]] },
        MurmurMessage::BlobPush { blob_hash: h, data: vec![0; 300] },
        MurmurMessage::BlobPushAck { blob_hash: h, ok: true },
        MurmurMessage::BlobPushAck { blob_hash: h, ok: false },
        MurmurMessage::BlobRequest { blob_hash: h },
        MurmurMessage::BlobResponse { blob_hash: h, data: None },
        MurmurMessage::BlobResponse { blob_hash: h, data: Some(vec![7, 7]) },
        MurmurMessage::AccessRequest { from: d, scope: AccessScope::AllFiles },
        MurmurMessage::AccessResponse { grant: None },
        MurmurMessage::AccessResponse { grant: Some(grant) },
        MurmurMessage::Ping { timestamp: 1 },
        MurmurMessage::Pong { timestamp: u64::MAX },
    ];
    for m in &msgs {
        let back = roundtrip(m);
        assert_eq!(back.to_bytes(), m.to_bytes());
    }
}

#[test]
fn test_message_encoding_exact() {
    assert_eq!(MurmurMessage::Ping { timestamp: 300 }.to_bytes(), vec![9, 0xac, 0x02]);
    assert_eq!(
        MurmurMessage::DagEntryBroadcast { entry_bytes: vec![5, 6] }.to_bytes(),
        vec![0, 2, 5, 6]
    );
}

#[test]
fn test_message_decode_errors() {
    assert!(matches!(MurmurMessage::from_bytes(&[]), Err(NetError::Deserialization(_))));
    assert!(matches!(MurmurMessage::from_bytes(&[11]), Err(NetError::Deserialization(_))));
    assert!(matches!(MurmurMessage::from_bytes(&[4, 1, 2]), Err(NetError::Deserialization(_))));
    let mut ack = MurmurMessage::BlobPushAck { blob_hash: BlobHash::from_bytes([0; 32]), ok: true }
        .to_bytes();
    *ack.last_mut().unwrap() = 2;
    assert!(matches!(MurmurMessage::from_bytes(&ack), Err(NetError::Deserialization(_))));
}

#[test]
fn test_frames() {
    let m = MurmurMessage::Pong { timestamp: 5 };
    let f = frame_message(&m, 100).unwrap();
    assert_eq!(f, vec![0, 0, 0, 2, 10, 5]);
    match frame_message(&m, 1) {
        Err(NetError::MessageTooLarge { size, max }) => {
            assert_eq!(size, 2);
            assert_eq!(max, 1);
        }
        other => panic!("unexpected {other:?}"),
    }
    assert_eq!(frame_length(&[0, 0, 1, 2], 1000).unwrap(), 258);
    assert!(matches!(frame_length(&[0, 1, 0, 0], 1000), Err(NetError::MessageTooLarge { .. })));
}

#[test]
fn test_handle_gossip_message_receives_entry() {
    let mut a = make_dag();
    let mut b = make_dag();
    let e = a.append(Action::Merge);
    let payload = MurmurMessage::DagEntryBroadcast { entry_bytes: e.to_bytes() }.to_bytes();
    handle_gossip_message(&payload, &mut b);
    assert_eq!(b.len(), 1);
    assert!(b.get_entry(&e.hash).is_some());
    handle_gossip_message(&payload, &mut b);
    assert_eq!(b.len(), 1);
}

#[test]
fn test_handle_gossip_message_ignores_others() {
    let mut b = make_dag();
    handle_gossip_message(&[0xff, 0x00], &mut b);
    handle_gossip_message(&MurmurMessage::Ping { timestamp: 1 }.to_bytes(), &mut b);
    handle_gossip_message(
        &MurmurMessage::DagEntryBroadcast { entry_bytes: vec![1, 2, 3] }.to_bytes(),
        &mut b,
    );
    assert!(b.is_empty());
}

#[test]
fn test_broadcast_payloads_carry_every_entry() {
    let mut a = make_dag();
    a.append(Action::Merge);
    a.append(Action::Merge);
    let payloads = broadcast_payloads(&a);
    assert_eq!(payloads.len(), 2);
    let mut b = make_dag();
    for p in &payloads {
        handle_gossip_message(p, &mut b);
    }
    assert_eq!(b.len(), 2);
}

#[test]
fn test_gossip_step() {
    let mut a = make_dag();
    let e = a.append(Action::Merge);
    let mut b = make_dag();

    let (n, out) = gossip_step(&mut b, 0, GossipEvent::NeighborUp);
    assert_eq!(n, 1);
    assert!(out.is_empty());

    let (n, out) = gossip_step(&mut a, 0, GossipEvent::NeighborUp);
    assert_eq!(n, 1);
    assert_eq!(out.len(), 1);

    let (n, none) = gossip_step(&mut b, 1, GossipEvent::Received(out[0].clone()));
    assert_eq!(n, 1);
    assert!(none.is_empty());
    assert!(b.get_entry(&e.hash).is_some());

    let (n, _) = gossip_step(&mut b, 1, GossipEvent::NeighborDown);
    assert_eq!(n, 0);

    let (n, out) = gossip_step(&mut b, 3, GossipEvent::Announce(vec![1, 2]));
    assert_eq!(n, 3);
    assert_eq!(out, vec![vec![0, 2, 1, 2]]);
}

#[test]
fn test_frame_read_back_gives_message() {
    let m = MurmurMessage::DagSyncRequest { tips: vec![[3; 32]] };
    let f = frame_message(&m, 1 << 20).unwrap();
    let len_buf: [u8; 4] = [f[0], f[1], f[2], f[3]];
    let n = frame_length(&len_buf, 1 << 20).unwrap();
    assert_eq!(n, f.len() - 4);
    let back = MurmurMessage::from_bytes(&f[4..4 + n]).unwrap();
    assert_eq!(back.to_bytes(), m.to_bytes());
}
