use murmur::display::{
    format_changes, format_unified_diff, format_relative_time, format_uptime, hex_short, relative_time_label, truncate_hex, EventLog,
    MAX_EVENT_LOG,
};
use murmur::text::{decimal, hex};

#[test]
fn test_format_uptime() {
    assert_eq!(format_uptime(0), "0m 0s");
    assert_eq!(format_uptime(5), "0m 5s");
    assert_eq!(format_uptime(30), "0m 30s");
    assert_eq!(format_uptime(59), "0m 59s");
    assert_eq!(format_uptime(150), "2m 30s");
    assert_eq!(format_uptime(61), "1m 1s");
    assert_eq!(format_uptime(3700), "1h 1m");
    assert_eq!(format_uptime(90061), "1d 1h");
}

#[test]
fn test_relative_time_label() {
    assert_eq!(relative_time_label(1000, 990), "Just now");
    assert_eq!(relative_time_label(1000, 2000), "Just now");
    assert_eq!(relative_time_label(1000, 880), "2 min ago");
    assert_eq!(relative_time_label(10000, 2000), "2 hours ago");
    assert_eq!(relative_time_label(300000, 0), "3 days ago");
    assert_eq!(format_relative_time(u64::MAX), "Just now");
}

#[test]
fn test_truncate_hex() {
    assert_eq!(truncate_hex("abcdef", 4), "abcd...");
    assert_eq!(truncate_hex("abcd", 4), "abcd");
    assert_eq!(truncate_hex("", 0), "");
}

#[test]
fn test_hex_and_decimal() {
    assert_eq!(hex_short(&[0xde, 0xad, 0xbe, 0xef, 1, 2, 3, 4, 5, 6, 7, 8, 9, 10, 11, 12, 13, 14, 15, 16, 17, 18, 19, 20, 21, 22, 23, 24, 25, 26, 27, 28]), "deadbeef");
    assert_eq!(hex(&[0x00, 0x0f, 0xa0]), "000fa0");
    assert_eq!(decimal(0), "0");
    assert_eq!(decimal(1234567890), "1234567890");
    assert_eq!(decimal(u64::MAX), u64::MAX.to_string());
}

#[test]
fn test_event_log_keeps_latest() {
    let mut log = EventLog::new();
    for i in 0..(MAX_EVENT_LOG + 3) {
        log.push_event(format!("e{i}"));
    }
    assert_eq!(log.events().len(), MAX_EVENT_LOG);
    assert_eq!(log.events()[0], "e3");
    assert_eq!(log.events()[MAX_EVENT_LOG - 1], format!("e{}", MAX_EVENT_LOG + 2));
    log.clear();
    assert!(log.events().is_empty());
}

#[test]
fn test_format_changes_exact() {
    let changes = vec![(2u8, "a\n".to_string()), (0u8, "b".to_string()), (1u8, "c\n".to_string())];
    assert_eq!(format_changes(&changes), " a\n-b\n+c\n");
    assert_eq!(format_changes(&Vec::new()), "");
}

#[test]
fn test_format_unified_diff() {
    assert_eq!(format_unified_diff("a\nb\n", "a\nc\n"), " a\n-b\n+c\n");
    assert_eq!(format_unified_diff("same\n", "same\n"), " same\n");
    assert_eq!(format_unified_diff("x", "y"), "-x\n+y\n");
}
