use ununlink::util::{
    device_for_trimmed, humanize_bytes, is_root_key, normalize_and_canonicalize_for_key,
    normalize_candidate_path, normalize_device, unix_ts_to_system_time, DeviceError,
};

#[test]
fn key_is_lowercase_and_rooted() {
    assert_eq!(normalize_and_canonicalize_for_key("\\Dir\\A.TXT"), "\\dir\\a.txt");
    assert_eq!(normalize_and_canonicalize_for_key("dir/sub"), "\\dir\\sub");
    assert_eq!(normalize_and_canonicalize_for_key(""), "\\");
    assert_eq!(normalize_and_canonicalize_for_key("\\"), "\\");
}

#[test]
fn key_strips_device_and_drive_prefixes() {
    assert_eq!(normalize_and_canonicalize_for_key("\\??\\C:\\Users\\Me"), "\\users\\me");
    assert_eq!(normalize_and_canonicalize_for_key("\\\\?\\C:\\Users"), "\\users");
    assert_eq!(normalize_and_canonicalize_for_key("\\\\.\\X:\\a"), "\\a");
    assert_eq!(normalize_and_canonicalize_for_key("C:\\a\\b"), "\\a\\b");
    assert_eq!(normalize_and_canonicalize_for_key("\\C:\\a\\b"), "\\a\\b");
    assert_eq!(normalize_and_canonicalize_for_key("R:\\"), "\\");
}

#[test]
fn key_resolves_dot_components_without_leaving_the_root() {
    assert_eq!(normalize_and_canonicalize_for_key("\\a\\.\\b"), "\\a\\b");
    assert_eq!(normalize_and_canonicalize_for_key("\\a\\..\\b"), "\\b");
    assert_eq!(normalize_and_canonicalize_for_key("\\..\\..\\a"), "\\a");
    assert_eq!(normalize_and_canonicalize_for_key("\\a\\\\b\\"), "\\a\\b");
    assert_eq!(normalize_and_canonicalize_for_key("\\a\\.."), "\\");
}

#[test]
fn key_lowercases_beyond_ascii() {
    assert_eq!(normalize_and_canonicalize_for_key("\\ÄÖ\\Straße"), "\\äö\\straße");
    assert_eq!(normalize_and_canonicalize_for_key("\\ΟΔΟΣ"), "\\οδος");
}

#[test]
fn key_normalization_is_idempotent_on_examples() {
    for raw in ["\\Dir\\A.TXT", "C:\\x\\..\\Y", "a/b/c", "", "\\\\?\\D:\\Ä\\.\\b", "\\a\\Σ"] {
        let once = normalize_and_canonicalize_for_key(raw);
        let twice = normalize_and_canonicalize_for_key(&once);
        assert_eq!(once, twice);
        assert!(once.starts_with('\\'));
        assert!(!once.starts_with("\\\\"));
    }
}

#[test]
fn key_never_begins_with_a_prefix() {
    assert_eq!(normalize_and_canonicalize_for_key("\\\\c:\\foo"), "\\foo");
    assert_eq!(normalize_and_canonicalize_for_key(".\\c:\\foo"), "\\foo");
    assert_eq!(normalize_and_canonicalize_for_key("\\??\\\\??\\x"), "\\x");
    assert_eq!(normalize_and_canonicalize_for_key("c:\\d:\\e:\\foo"), "\\foo");
    assert_eq!(normalize_and_canonicalize_for_key(".\\:\\foo"), "\\foo");
    assert_eq!(normalize_and_canonicalize_for_key("\\\\c:"), "\\c:");
    assert_eq!(normalize_and_canonicalize_for_key("\\\\??"), "\\??");
    assert_eq!(normalize_and_canonicalize_for_key("\\\u{212a}:\\foo"), "\\foo");
}

#[test]
fn key_normalization_is_idempotent_on_prefixed_paths() {
    for raw in [
        "\\\\c:\\foo",
        ".\\c:\\foo",
        "\\??\\\\??\\x",
        "c:\\d:\\e:\\foo",
        "a\\c:\\foo",
        "\\\\??\\c:\\d:\\x",
        "\\\u{212a}:\\foo",
    ] {
        let once = normalize_and_canonicalize_for_key(raw);
        assert_eq!(normalize_and_canonicalize_for_key(&once), once);
    }
}

#[test]
fn root_key_is_recognized() {
    assert!(is_root_key("\\"));
    assert!(is_root_key(""));
    assert!(is_root_key("\\a\\.."));
    assert!(is_root_key("R:\\"));
    assert!(!is_root_key("\\a"));
}

#[test]
fn candidate_path_keeps_case_and_components() {
    assert_eq!(normalize_candidate_path("Dir/A.TXT"), "\\Dir\\A.TXT");
    assert_eq!(normalize_candidate_path("\\a\\..\\b"), "\\a\\..\\b");
    assert_eq!(normalize_candidate_path("orphan.bin"), "\\orphan.bin");
    assert_eq!(normalize_candidate_path(""), "\\");
}

#[test]
fn candidate_path_strips_prefixes() {
    assert_eq!(normalize_candidate_path("\\??\\C:\\a"), "\\a");
    assert_eq!(normalize_candidate_path("\\??\\\\??\\x"), "\\x");
    assert_eq!(normalize_candidate_path("\\\\?\\\\\\?\\x"), "\\x");
    assert_eq!(normalize_candidate_path("\\\\.\\C:\\a"), "\\a");
    assert_eq!(normalize_candidate_path("C:\\a"), "\\a");
    assert_eq!(normalize_candidate_path("\\C:\\a"), "\\a");
    assert_eq!(normalize_candidate_path("\\\\\\a"), "\\a");
    assert_eq!(normalize_candidate_path("é:\\a"), "\\é:\\a");
}

#[test]
fn device_from_letter() {
    assert_eq!(normalize_device("c").unwrap(), "\\\\.\\C:");
    assert_eq!(normalize_device(" d: ").unwrap(), "\\\\.\\D:");
    assert_eq!(normalize_device("\\\\.\\E:").unwrap(), "\\\\.\\E:");
    assert_eq!(normalize_device("\\\\?\\Volume{1}").unwrap(), "\\\\?\\Volume{1}");
    assert_eq!(device_for_trimmed("Z").unwrap(), "\\\\.\\Z:");
}

#[test]
fn device_errors() {
    assert!(matches!(normalize_device("   "), Err(DeviceError::Empty)));
    assert!(matches!(normalize_device(""), Err(DeviceError::Empty)));
    match normalize_device(" 1: ") {
        Err(DeviceError::Unsupported(s)) => assert_eq!(s, "1:"),
        other => panic!("unexpected: {:?}", other),
    }
    assert!(matches!(normalize_device("cd"), Err(DeviceError::Unsupported(_))));
    assert!(matches!(normalize_device("c;"), Err(DeviceError::Unsupported(_))));
    assert!(matches!(device_for_trimmed(" c"), Err(DeviceError::Unsupported(_))));
}

#[test]
fn timestamps_clamp_at_the_epoch() {
    assert_eq!(unix_ts_to_system_time(0).secs, 0);
    assert_eq!(unix_ts_to_system_time(-5).secs, 0);
    assert_eq!(unix_ts_to_system_time(1_700_000_000).secs, 1_700_000_000);
    assert_eq!(unix_ts_to_system_time(i64::MAX).secs, i64::MAX as u64);
}

#[test]
fn byte_counts_are_shown_in_the_largest_unit() {
    assert_eq!(humanize_bytes(0), "0 B");
    assert_eq!(humanize_bytes(1023), "1023 B");
    assert_eq!(humanize_bytes(1024), "1 KB");
    assert_eq!(humanize_bytes(1536), "1 KB");
    assert_eq!(humanize_bytes(1048576), "1 MB");
    assert_eq!(humanize_bytes(5 * 1073741824), "5 GB");
    assert_eq!(humanize_bytes(1099511627776), "1 TB");
    assert_eq!(humanize_bytes(u64::MAX), "16777215 TB");
}
