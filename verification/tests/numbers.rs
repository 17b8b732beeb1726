use tab_hoarder::dates::{format_date, format_date_short, session_name};
use tab_hoarder::numbers::{export_file_name, quota_warning, session_file_name};

#[test]
fn dates_are_padded_with_zeros() {
    assert_eq!(format_date(2024, 9, 28, 10, 30, 0), "2024-10-28T10:30:00");
    assert_eq!(format_date(2025, 0, 1, 0, 0, 9), "2025-01-01T00:00:09");
    assert_eq!(format_date(987, 11, 31, 23, 59, 59), "0987-12-31T23:59:59");
    assert_eq!(format_date(0, 0, 0, 0, 0, 0), "0000-01-00T00:00:00");
    assert_eq!(format_date_short(2024, 9, 28, 10, 30), "2024-10-28 10:30");
    assert_eq!(format_date_short(2024, 1, 3, 4, 5), "2024-02-03 04:05");
}

#[test]
fn numbers_wider_than_the_field_are_written_in_full() {
    assert_eq!(format_date(12345, 99, 100, 123, 4, 5), "12345-100-100T123:04:05");
    assert_eq!(
        format_date(u32::MAX, u32::MAX, u32::MAX, 0, 0, 0),
        "4294967295-4294967296-4294967295T00:00:00"
    );
}

#[test]
fn session_names_carry_the_date() {
    assert_eq!(session_name(2024, 9, 28, 10, 30, 0), "Session 2024-10-28T10:30:00");
}

#[test]
fn quota_warning_starts_at_ninety() {
    assert_eq!(quota_warning(0), None);
    assert_eq!(quota_warning(89), None);
    assert_eq!(quota_warning(90), Some("Storage 90% full!".to_string()));
    assert_eq!(quota_warning(100), Some("Storage 100% full!".to_string()));
    assert_eq!(quota_warning(u64::MAX), Some("Storage 18446744073709551615% full!".to_string()));
}

#[test]
fn export_files_are_named_after_time_and_session() {
    assert_eq!(export_file_name(1698508200000), "tab-hoarder-export-1698508200000.json");
    assert_eq!(export_file_name(0), "tab-hoarder-export-0.json");
    assert_eq!(export_file_name(-15), "tab-hoarder-export--15.json");
    assert_eq!(export_file_name(i64::MIN), "tab-hoarder-export--9223372036854775808.json");
    assert_eq!(export_file_name(i64::MAX), "tab-hoarder-export-9223372036854775807.json");
    assert_eq!(session_file_name("test-123"), "session-test-123.json");
    assert_eq!(session_file_name(""), "session-.json");
}
