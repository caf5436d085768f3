use murmur::config::{
    config_path, device_key_path, join_config, mnemonic_path, parse_device_id, validate_role,
};
use murmur::types::DeviceId;

#[test]
fn test_parse_device_id_valid() {
    let hex = "ab".repeat(32);
    let id = parse_device_id(&hex).unwrap();
    assert_eq!(id, DeviceId::from_bytes([0xab; 32]));
}

#[test]
fn test_parse_device_id_invalid_length() {
    assert!(parse_device_id("abcd").is_err());
}

#[test]
fn test_parse_device_id_invalid_hex() {
    let hex = "zz".repeat(32);
    assert!(parse_device_id(&hex).is_err());
}

#[test]
fn test_parse_device_id_trims_and_reports() {
    let hex = format!("  {}\n", "0F".repeat(32));
    assert_eq!(parse_device_id(&hex).unwrap(), DeviceId::from_bytes([0x0f; 32]));
    assert_eq!(
        parse_device_id("abcd").unwrap_err(),
        "device ID must be 64 hex characters (32 bytes), got 4"
    );
    assert_eq!(parse_device_id(&"zz".repeat(32)).unwrap_err(), "invalid hex in device ID");
    let plus = format!("+a{}", "00".repeat(31));
    assert_eq!(parse_device_id(&plus).unwrap_err(), "invalid hex in device ID");
}

#[test]
fn test_validate_role() {
    assert!(validate_role("source").is_ok());
    assert!(validate_role("backup").is_ok());
    assert!(validate_role("full").is_ok());
    assert_eq!(
        validate_role("bogus").unwrap_err(),
        "unknown device role: \"bogus\" (expected source, backup, or full)"
    );
}

#[test]
fn test_paths_and_join_config() {
    assert_eq!(config_path("/tmp/m"), "/tmp/m/config.toml");
    assert_eq!(mnemonic_path("/tmp/m/"), "/tmp/m/mnemonic");
    assert_eq!(device_key_path(""), "device.key");
    let cfg = join_config("/data", "Phone", "source");
    assert_eq!(cfg.device.name, "Phone");
    assert_eq!(cfg.device.role, "source");
    assert_eq!(cfg.storage.blob_dir, "/data/blobs");
    assert_eq!(cfg.storage.data_dir, "/data/db");
    assert!(!cfg.network.auto_approve);
}
