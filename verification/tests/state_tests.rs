use murmur::clock::HybridClock;
use murmur::state::MaterializedState;
use murmur::types::{Action, DeviceId, DeviceRole};

#[test]
fn test_name_changes_commute() {
    let target = DeviceId::from_bytes([1; 32]);
    let a = DeviceId::from_bytes([2; 32]);
    let b = DeviceId::from_bytes([3; 32]);
    let approve = Action::DeviceApproved { device_id: target, role: DeviceRole::Full };
    let n1 = Action::DeviceNameChanged { device_id: target, name: "One".to_string() };
    let n2 = Action::DeviceNameChanged { device_id: target, name: "Two".to_string() };

    let mut s1 = MaterializedState::new();
    s1.apply(1, &a, &approve);
    s1.apply(10, &a, &n1);
    s1.apply(10, &b, &n2);

    let mut s2 = MaterializedState::new();
    s2.apply(1, &a, &approve);
    s2.apply(10, &b, &n2);
    s2.apply(10, &a, &n1);

    assert_eq!(s1.device(&target).unwrap().name, "Two");
    assert_eq!(s2.device(&target).unwrap().name, "Two");
}

#[test]
fn test_older_name_write_ignored() {
    let target = DeviceId::from_bytes([1; 32]);
    let a = DeviceId::from_bytes([2; 32]);
    let mut s = MaterializedState::new();
    s.apply(5, &a, &Action::DeviceJoinRequest { device_id: target, name: "New".to_string() });
    s.apply(4, &a, &Action::DeviceNameChanged { device_id: target, name: "Old".to_string() });
    let d = s.device(&target).unwrap();
    assert_eq!(d.name, "New");
    assert!(!d.approved);
    assert_eq!(d.role, DeviceRole::Source);
}

#[test]
fn test_clock_tick_and_witness() {
    let mut c = HybridClock::new();
    let t1 = c.tick();
    let t2 = c.tick();
    assert!(t2 > t1);
    c.witness(u64::MAX - 1);
    assert_eq!(c.latest(), u64::MAX - 1);
    assert_eq!(c.tick(), u64::MAX);
}
