use murmur::dag::Dag;
use murmur::entry::{DagEntry, DagError};
use murmur::topo::topological_sort;
use murmur::types::{AccessGrant, AccessScope, Action, BlobHash, DeviceId, DeviceRole, FileMetadata};

fn make_keypair() -> (DeviceId, [u8; 32]) {
    let sk: [u8; 32] = rand::random();
    let id = DeviceId::from_secret_key(&sk);
    (id, sk)
}

fn make_dag() -> Dag {
    let (id, sk) = make_keypair();
    Dag::new(id, sk)
}

fn sample_file_metadata(device_id: DeviceId) -> FileMetadata {
    FileMetadata {
        blob_hash: BlobHash::from_data(b"test file content"),
        filename: "photo.jpg".to_string(),
        size: 1024,
        mime_type: Some("image/jpeg".to_string()),
        created_at: 1700000000,
        device_origin: device_id,
    }
}

// --- Entry basics ---

#[test]
fn test_append_single_entry_verify() {
    let mut dag = make_dag();
    let entry = dag.append(Action::Merge);
    assert!(entry.verify_hash().is_ok());
    assert!(entry.verify_signature().is_ok());
}

#[test]
fn test_append_multiple_entries_parents_correct() {
    let mut dag = make_dag();
    let e1 = dag.append(Action::Merge);
    let e2 = dag.append(Action::Merge);
    assert!(e2.parents.contains(&e1.hash));
    assert_eq!(dag.tips().len(), 1);
    assert!(dag.tips().contains(&e2.hash));
}

#[test]
fn test_receive_remote_entry() {
    let mut dag_a = make_dag();
    let mut dag_b = make_dag();

    let entry = dag_a.append(Action::Merge);
    let received = dag_b.receive_entry(entry.clone()).unwrap();
    assert_eq!(received.hash, entry.hash);
    assert_eq!(dag_b.len(), 1);
}

#[test]
fn test_reject_bad_hash() {
    let mut dag_a = make_dag();
    let mut dag_b = make_dag();

    let mut entry = dag_a.append(Action::Merge);
    entry.hash[0] ^= 0xff;
    let result = dag_b.receive_entry(entry);
    assert!(matches!(result, Err(DagError::InvalidHash)));
}

#[test]
fn test_reject_bad_signature() {
    let mut dag_a = make_dag();
    let mut dag_b = make_dag();

    let mut entry = dag_a.append(Action::Merge);
    entry.signature_s[0] ^= 0xff;
    let result = dag_b.receive_entry(entry);
    assert!(matches!(result, Err(DagError::InvalidSignature)));
}

#[test]
fn test_reject_missing_parents() {
    let mut dag_a = make_dag();
    let mut dag_b = make_dag();

    let _e1 = dag_a.append(Action::Merge);
    let e2 = dag_a.append(Action::Merge);
    let result = dag_b.receive_entry(e2);
    assert!(matches!(result, Err(DagError::MissingParents(_))));
}

// --- Concurrent append & merge ---

#[test]
fn test_two_devices_concurrent_merge() {
    let (id_a, sk_a) = make_keypair();
    let (id_b, sk_b) = make_keypair();

    let mut dag_a = Dag::new(id_a, sk_a);
    let mut dag_b = Dag::new(id_b, sk_b);

    let ea = dag_a.append(Action::Merge);
    let eb = dag_b.append(Action::Merge);

    dag_a.receive_entry(eb).unwrap();
    assert_eq!(dag_a.tips().len(), 2);

    dag_b.receive_entry(ea).unwrap();
    assert_eq!(dag_b.tips().len(), 2);

    let merge = dag_a.maybe_merge().unwrap();
    assert_eq!(dag_a.tips().len(), 1);
    assert!(dag_a.tips().contains(&merge.hash));

    dag_b.receive_entry(merge).unwrap();
    assert_eq!(dag_b.tips().len(), 1);
}

#[test]
fn test_no_merge_single_tip() {
    let mut dag = make_dag();
    dag.append(Action::Merge);
    assert!(dag.maybe_merge().is_none());
}

// --- Delta computation ---

#[test]
fn test_delta_computation() {
    let (id_a, sk_a) = make_keypair();
    let (id_b, sk_b) = make_keypair();

    let mut dag_a = Dag::new(id_a, sk_a);
    let mut dag_b = Dag::new(id_b, sk_b);

    let e1 = dag_a.append(Action::Merge);
    let _e2 = dag_a.append(Action::Merge);
    let _e3 = dag_a.append(Action::Merge);

    dag_b.receive_entry(e1).unwrap();

    let delta = dag_a.compute_delta(dag_b.tips());
    assert_eq!(delta.len(), 2);
}

// --- Topological sort ---

#[test]
fn test_topological_sort_ordering() {
    let mut dag = make_dag();
    let e1 = dag.append(Action::Merge);
    let e2 = dag.append(Action::Merge);
    let e3 = dag.append(Action::Merge);

    let entries = vec![e3.clone(), e1.clone(), e2.clone()];
    let sorted = topological_sort(entries).unwrap();
    assert_eq!(sorted[0].hash, e1.hash);
    assert_eq!(sorted[1].hash, e2.hash);
    assert_eq!(sorted[2].hash, e3.hash);
}

// --- Materialized state: devices ---

#[test]
fn test_state_approve_device() {
    let mut dag = make_dag();
    let (new_id, _) = make_keypair();

    dag.append(Action::DeviceApproved { device_id: new_id, role: DeviceRole::Source });

    let info = dag.state().device(&new_id);
    assert!(info.is_some());
    let info = info.unwrap();
    assert!(info.approved);
    assert_eq!(info.role, DeviceRole::Source);
}

#[test]
fn test_state_revoke_device() {
    let mut dag = make_dag();
    let (new_id, _) = make_keypair();

    dag.append(Action::DeviceApproved { device_id: new_id, role: DeviceRole::Backup });
    dag.append(Action::DeviceRevoked { device_id: new_id });

    let info = dag.state().device(&new_id).unwrap();
    assert!(!info.approved);
}

#[test]
fn test_state_device_name_changed() {
    let mut dag = make_dag();
    let (new_id, _) = make_keypair();

    dag.append(Action::DeviceJoinRequest { device_id: new_id, name: "Old Name".to_string() });
    dag.append(Action::DeviceApproved { device_id: new_id, role: DeviceRole::Full });
    dag.append(Action::DeviceNameChanged { device_id: new_id, name: "New Name".to_string() });

    assert_eq!(dag.state().device(&new_id).unwrap().name, "New Name");
}

// --- Materialized state: files ---

#[test]
fn test_state_add_file() {
    let mut dag = make_dag();
    let meta = sample_file_metadata(dag.device_id());

    dag.append(Action::FileAdded { metadata: meta.clone() });

    assert!(dag.state().has_file(&meta.blob_hash));
}

#[test]
fn test_state_delete_file() {
    let mut dag = make_dag();
    let meta = sample_file_metadata(dag.device_id());
    let hash = meta.blob_hash;

    dag.append(Action::FileAdded { metadata: meta });
    dag.append(Action::FileDeleted { blob_hash: hash });

    assert!(!dag.state().has_file(&hash));
}

// --- Materialized state: access ---

#[test]
fn test_state_grant_access() {
    let mut dag = make_dag();
    let (to_id, _) = make_keypair();

    let grant = AccessGrant {
        to: to_id,
        from: dag.device_id(),
        scope: AccessScope::AllFiles,
        expires_at: 9999999999,
        signature_r: [0xab; 32],
        signature_s: [0xcd; 32],
    };

    dag.append(Action::AccessGranted { grant: grant.clone() });

    assert_eq!(dag.state().grants.len(), 1);
    assert_eq!(dag.state().grants[0].to, to_id);
}

#[test]
fn test_state_revoke_access() {
    let mut dag = make_dag();
    let (to_id, _) = make_keypair();

    let grant = AccessGrant {
        to: to_id,
        from: dag.device_id(),
        scope: AccessScope::AllFiles,
        expires_at: 9999999999,
        signature_r: [0xab; 32],
        signature_s: [0xcd; 32],
    };

    dag.append(Action::AccessGranted { grant });
    dag.append(Action::AccessRevoked { to: to_id });

    assert!(dag.state().grants.is_empty());
}

// --- Serialization roundtrip ---

#[test]
fn test_entry_serialization_roundtrip_merge() {
    let mut dag = make_dag();
    let entry = dag.append(Action::Merge);
    let bytes = entry.to_bytes();
    let decoded = DagEntry::from_bytes(&bytes).unwrap();
    assert_eq!(entry.hash, decoded.hash);
    assert_eq!(entry.hlc, decoded.hlc);
    assert!(decoded.verify_hash().is_ok());
    assert!(decoded.verify_signature().is_ok());
}

#[test]
fn test_entry_serialization_roundtrip_file_added() {
    let mut dag = make_dag();
    let meta = sample_file_metadata(dag.device_id());
    let entry = dag.append(Action::FileAdded { metadata: meta });
    let bytes = entry.to_bytes();
    let decoded = DagEntry::from_bytes(&bytes).unwrap();
    assert_eq!(entry, decoded);
}

#[test]
fn test_entry_serialization_roundtrip_all_variants() {
    let mut dag = make_dag();
    let (other_id, _) = make_keypair();

    let actions = vec![
        Action::DeviceJoinRequest { device_id: other_id, name: "Phone".to_string() },
        Action::DeviceApproved { device_id: other_id, role: DeviceRole::Source },
        Action::DeviceRevoked { device_id: other_id },
        Action::DeviceNameChanged { device_id: other_id, name: "New".to_string() },
        Action::FileAdded { metadata: sample_file_metadata(dag.device_id()) },
        Action::FileDeleted { blob_hash: BlobHash::from_data(b"x") },
        Action::AccessGranted {
            grant: AccessGrant {
                to: other_id,
                from: dag.device_id(),
                scope: AccessScope::SingleFile(BlobHash::from_data(b"f")),
                expires_at: 42,
                signature_r: [1; 32],
                signature_s: [2; 32],
            },
        },
        Action::AccessRevoked { to: other_id },
        Action::Merge,
        Action::Snapshot { state_hash: [0xfe; 32] },
    ];

    for action in actions {
        let entry = dag.append(action);
        let bytes = entry.to_bytes();
        let decoded = DagEntry::from_bytes(&bytes).unwrap();
        assert_eq!(entry, decoded);
    }
}

// --- Load entries on startup ---

#[test]
fn test_load_entries_reconstructs_state() {
    let mut dag = make_dag();
    let device_id = dag.device_id();
    let (new_id, _) = make_keypair();

    let e1 = dag.append(Action::DeviceApproved { device_id: new_id, role: DeviceRole::Backup });
    let meta = sample_file_metadata(device_id);
    let e2 = dag.append(Action::FileAdded { metadata: meta.clone() });

    let (id2, sk2) = make_keypair();
    let mut fresh = Dag::new(id2, sk2);
    fresh.load_entry(e1).unwrap();
    fresh.load_entry(e2).unwrap();

    assert!(fresh.state().device(&new_id).is_some());
    assert!(fresh.state().has_file(&meta.blob_hash));
    assert_eq!(fresh.len(), 2);
}

// --- Sync roundtrip ---

#[test]
fn test_sync_roundtrip_two_dags_converge() {
    let (id_a, sk_a) = make_keypair();
    let (id_b, sk_b) = make_keypair();

    let mut dag_a = Dag::new(id_a, sk_a);
    let mut dag_b = Dag::new(id_b, sk_b);

    dag_a.append(Action::DeviceApproved { device_id: id_b, role: DeviceRole::Source });
    dag_a.append(Action::FileAdded {
        metadata: FileMetadata {
            blob_hash: BlobHash::from_data(b"file1"),
            filename: "a.txt".to_string(),
            size: 10,
            mime_type: None,
            created_at: 0,
            device_origin: id_a,
        },
    });

    dag_b.append(Action::FileAdded {
        metadata: FileMetadata {
            blob_hash: BlobHash::from_data(b"file2"),
            filename: "b.txt".to_string(),
            size: 20,
            mime_type: None,
            created_at: 0,
            device_origin: id_b,
        },
    });

    let delta_a = dag_a.compute_delta(dag_b.tips());
    dag_b.apply_sync_entries(delta_a).unwrap();

    let delta_b = dag_b.compute_delta(dag_a.tips());
    dag_a.apply_sync_entries(delta_b).unwrap();

    assert!(dag_a.state().has_file(&BlobHash::from_data(b"file1")));
    assert!(dag_a.state().has_file(&BlobHash::from_data(b"file2")));
    assert!(dag_b.state().has_file(&BlobHash::from_data(b"file1")));
    assert!(dag_b.state().has_file(&BlobHash::from_data(b"file2")));

    dag_a.maybe_merge();
    dag_b.maybe_merge();
}

// --- LWW conflict resolution ---

#[test]
fn test_lww_higher_hlc_wins() {
    let mut dag = make_dag();
    let (target, _) = make_keypair();

    dag.append(Action::DeviceApproved { device_id: target, role: DeviceRole::Full });
    dag.append(Action::DeviceNameChanged { device_id: target, name: "First".to_string() });
    dag.append(Action::DeviceNameChanged { device_id: target, name: "Second".to_string() });

    assert_eq!(dag.state().device(&target).unwrap().name, "Second");
}

#[test]
fn test_lww_tiebreak_by_device_id() {
    let (id_a, sk_a) = make_keypair();
    let (id_b, sk_b) = make_keypair();
    let (target, _) = make_keypair();

    let (high_id, high_sk, low_id, low_sk) =
        if id_a > id_b { (id_a, sk_a, id_b, sk_b) } else { (id_b, sk_b, id_a, sk_a) };

    let hlc = 1000u64;

    let entry_low = DagEntry::new_signed(
        hlc,
        low_id,
        Action::DeviceNameChanged { device_id: target, name: "ByLow".to_string() },
        vec![],
        &low_sk,
    );
    let entry_high = DagEntry::new_signed(
        hlc,
        high_id,
        Action::DeviceNameChanged { device_id: target, name: "ByHigh".to_string() },
        vec![],
        &high_sk,
    );

    let (viewer_id, viewer_sk) = make_keypair();
    let mut dag = Dag::new(viewer_id, viewer_sk);

    dag.append(Action::DeviceApproved { device_id: target, role: DeviceRole::Full });

    dag.load_entry(entry_low).unwrap();
    dag.load_entry(entry_high).unwrap();

    assert_eq!(dag.state().device(&target).unwrap().name, "ByHigh");
}

// --- Snapshot ---

#[test]
fn test_snapshot_entry() {
    let mut dag = make_dag();
    let entry = dag.append(Action::Snapshot { state_hash: [0xab; 32] });
    assert!(entry.verify_hash().is_ok());
    let bytes = entry.to_bytes();
    let decoded = DagEntry::from_bytes(&bytes).unwrap();
    assert_eq!(entry, decoded);
}

// --- Edge cases ---

#[test]
fn test_empty_dag() {
    let dag = make_dag();
    assert!(dag.is_empty());
    assert_eq!(dag.tips().len(), 0);
}

#[test]
fn test_receive_duplicate_entry() {
    let mut dag_a = make_dag();
    let mut dag_b = make_dag();

    let entry = dag_a.append(Action::Merge);
    dag_b.receive_entry(entry.clone()).unwrap();
    dag_b.receive_entry(entry).unwrap();
    assert_eq!(dag_b.len(), 1);
}

#[test]
fn test_apply_sync_entries_batch() {
    let mut dag_a = make_dag();
    let mut dag_b = make_dag();

    let e1 = dag_a.append(Action::Merge);
    let e2 = dag_a.append(Action::Merge);
    let e3 = dag_a.append(Action::Merge);

    let new = dag_b.apply_sync_entries(vec![e3.clone(), e1.clone(), e2.clone()]).unwrap();
    assert_eq!(new.len(), 3);
    assert_eq!(dag_b.len(), 3);
}

#[test]
fn test_delta_empty_when_synced() {
    let (id_a, sk_a) = make_keypair();
    let (id_b, sk_b) = make_keypair();

    let mut dag_a = Dag::new(id_a, sk_a);
    let mut dag_b = Dag::new(id_b, sk_b);

    let e1 = dag_a.append(Action::Merge);
    dag_b.receive_entry(e1).unwrap();

    let delta = dag_a.compute_delta(dag_b.tips());
    assert!(delta.is_empty());
}

#[test]
fn test_device_join_request_in_state() {
    let mut dag = make_dag();
    let (new_id, _) = make_keypair();

    dag.append(Action::DeviceJoinRequest { device_id: new_id, name: "Phone".to_string() });

    let info = dag.state().device(&new_id).unwrap();
    assert!(!info.approved);
    assert_eq!(info.name, "Phone");
}

// --- Further checks of the DAG ---

#[test]
fn test_hlc_increases_with_each_append() {
    let mut dag = make_dag();
    let e1 = dag.append(Action::Merge);
    let e2 = dag.append(Action::Merge);
    assert!(e2.hlc > e1.hlc);
}

#[test]
fn test_load_entry_rejects_bad_hash() {
    let mut dag_a = make_dag();
    let mut dag_b = make_dag();
    let mut entry = dag_a.append(Action::Merge);
    entry.hash[5] ^= 1;
    assert!(matches!(dag_b.load_entry(entry), Err(DagError::InvalidHash)));
    assert!(dag_b.is_empty());
}

#[test]
fn test_from_bytes_rejects_truncated() {
    let mut dag = make_dag();
    let entry = dag.append(Action::Merge);
    let bytes = entry.to_bytes();
    let cut = &bytes[..bytes.len() - 1];
    assert!(matches!(DagEntry::from_bytes(cut), Err(DagError::Deserialization(_))));
}

#[test]
fn test_apply_sync_entries_reports_missing_parent() {
    let mut dag_a = make_dag();
    let mut dag_b = make_dag();
    let _e1 = dag_a.append(Action::Merge);
    let e2 = dag_a.append(Action::Merge);
    let result = dag_b.apply_sync_entries(vec![e2]);
    assert!(matches!(result, Err(DagError::MissingParents(_))));
    assert!(dag_b.is_empty());
}

#[test]
fn test_compute_delta_everything_for_empty_remote() {
    let mut dag = make_dag();
    let e1 = dag.append(Action::Merge);
    let e2 = dag.append(Action::Merge);
    let delta = dag.compute_delta(&Vec::new());
    assert_eq!(delta.len(), 2);
    assert_eq!(delta[0].hash, e1.hash);
    assert_eq!(delta[1].hash, e2.hash);
}

#[test]
fn test_get_entry_and_all_entries() {
    let mut dag = make_dag();
    let e1 = dag.append(Action::Merge);
    assert_eq!(dag.get_entry(&e1.hash).unwrap().hash, e1.hash);
    assert!(dag.get_entry(&[7u8; 32]).is_none());
    assert_eq!(dag.all_entries().len(), 1);
}

#[test]
fn test_topological_sort_keeps_last_of_equal_hashes() {
    let mut dag = make_dag();
    let e1 = dag.append(Action::Merge);
    let sorted = topological_sort(vec![e1.clone(), e1.clone()]).unwrap();
    assert_eq!(sorted.len(), 1);
    assert_eq!(sorted[0], e1);
}

#[test]
fn test_rebuild_tips_after_loads() {
    let mut dag_a = make_dag();
    let e1 = dag_a.append(Action::Merge);
    let e2 = dag_a.append(Action::Merge);
    let mut dag_b = make_dag();
    dag_b.load_entry(e2.clone()).unwrap();
    dag_b.load_entry(e1).unwrap();
    dag_b.rebuild_tips();
    assert_eq!(dag_b.tips().len(), 1);
    assert!(dag_b.tips().contains(&e2.hash));
}

#[test]
fn test_topological_sort_roots_first_by_clock_then_author() {
    let (id_a, sk_a) = make_keypair();
    let (id_b, sk_b) = make_keypair();
    let r1 = DagEntry::new_signed(30, id_a, Action::Merge, vec![], &sk_a);
    let r2 = DagEntry::new_signed(10, id_b, Action::Merge, vec![], &sk_b);
    let r3 = DagEntry::new_signed(20, id_a, Action::Merge, vec![], &sk_a);
    let child = DagEntry::new_signed(5, id_a, Action::Merge, vec![r2.hash], &sk_a);
    let sorted = topological_sort(vec![child.clone(), r1.clone(), r2.clone(), r3.clone()]).unwrap();
    let hashes: Vec<[u8; 32]> = sorted.iter().map(|e| e.hash).collect();
    assert_eq!(hashes, vec![r2.hash, r3.hash, r1.hash, child.hash]);

    // Equal clock values: the smaller author comes first.
    let (lo, lo_sk, hi, hi_sk) = if id_a.0 < id_b.0 { (id_a, sk_a, id_b, sk_b) } else { (id_b, sk_b, id_a, sk_a) };
    let x = DagEntry::new_signed(7, hi, Action::Merge, vec![], &hi_sk);
    let y = DagEntry::new_signed(7, lo, Action::Merge, vec![], &lo_sk);
    let sorted = topological_sort(vec![x.clone(), y.clone()]).unwrap();
    assert_eq!(sorted[0].hash, y.hash);
    assert_eq!(sorted[1].hash, x.hash);
}

#[test]
fn test_parent_named_twice_is_kept() {
    let (id, sk) = make_keypair();
    let p = DagEntry::new_signed(1, id, Action::Merge, vec![], &sk);
    let c = DagEntry::new_signed(2, id, Action::Merge, vec![p.hash, p.hash], &sk);
    let sorted = topological_sort(vec![c.clone(), p.clone()]).unwrap();
    assert_eq!(sorted.len(), 2);
    assert_eq!(sorted[0].hash, p.hash);
    assert_eq!(sorted[1].hash, c.hash);

    let mut dag = Dag::new(id, sk);
    dag.receive_entry(p.clone()).unwrap();
    dag.receive_entry(c.clone()).unwrap();
    let delta = dag.compute_delta(&Vec::new());
    assert_eq!(delta.len(), 2);
    assert_eq!(delta[1].hash, c.hash);
}

#[test]
fn test_apply_sync_entries_keeps_entries_before_refused_one() {
    let (id, sk) = make_keypair();
    let a = DagEntry::new_signed(1, id, Action::Merge, vec![], &sk);
    let b = DagEntry::new_signed(2, id, Action::Merge, vec![a.hash], &sk);
    let mut bad = DagEntry::new_signed(3, id, Action::Merge, vec![b.hash], &sk);
    bad.signature_s[0] ^= 1;
    let mut dag = make_dag();
    let result = dag.apply_sync_entries(vec![bad.clone(), b.clone(), a.clone()]);
    assert!(matches!(result, Err(DagError::InvalidSignature)));
    assert_eq!(dag.len(), 2);
    assert!(dag.get_entry(&a.hash).is_some());
    assert!(dag.get_entry(&b.hash).is_some());
    assert!(dag.get_entry(&bad.hash).is_none());
}

#[test]
fn test_apply_sync_entries_bad_hash_error() {
    let (id, sk) = make_keypair();
    let mut a = DagEntry::new_signed(1, id, Action::Merge, vec![], &sk);
    a.hash[0] ^= 1;
    let mut dag = make_dag();
    assert!(matches!(dag.apply_sync_entries(vec![a]), Err(DagError::InvalidHash)));
    assert!(dag.is_empty());
}

#[test]
fn test_append_after_receive_is_later() {
    let (id_a, sk_a) = make_keypair();
    let remote = DagEntry::new_signed(5_000_000_000_000_000, id_a, Action::Merge, vec![], &sk_a);
    let mut dag = make_dag();
    dag.receive_entry(remote.clone()).unwrap();
    let mine = dag.append(Action::Merge);
    assert!(mine.hlc > remote.hlc);
    assert!(mine.parents.contains(&remote.hash));
}

#[test]
fn test_load_order_gives_same_tips() {
    let (id, sk) = make_keypair();
    let e1 = DagEntry::new_signed(1, id, Action::Merge, vec![], &sk);
    let e2 = DagEntry::new_signed(2, id, Action::Merge, vec![e1.hash], &sk);
    let e3 = DagEntry::new_signed(3, id, Action::Merge, vec![e1.hash], &sk);
    let mut a = Dag::new(id, sk);
    for e in [e1.clone(), e2.clone(), e3.clone()] {
        a.load_entry(e).unwrap();
    }
    let mut b = Dag::new(id, sk);
    for e in [e3.clone(), e2.clone(), e1.clone(), e2.clone()] {
        b.load_entry(e).unwrap();
    }
    assert_eq!(a.len(), 3);
    assert_eq!(b.len(), 3);
    let mut ta = a.tips().clone();
    let mut tb = b.tips().clone();
    ta.sort();
    tb.sort();
    assert_eq!(ta, tb);
    assert_eq!(ta.len(), 2);
    assert!(ta.contains(&e2.hash) && ta.contains(&e3.hash));
}
