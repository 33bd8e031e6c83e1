//! The partitioner: decimal parsing and owner resolution.
use slde::partition::get_owner_id;
use slde::partition::owner_of;
use slde::partition::parse_u32;

#[test]
fn owner_covers_the_full_node_range_for_cluster_six() {
    assert_eq!(owner_of("0", 6), Some(0));
    assert_eq!(owner_of("1", 6), Some(1));
    assert_eq!(owner_of("2", 6), Some(2));
    assert_eq!(owner_of("3", 6), Some(3));
    assert_eq!(owner_of("4", 6), Some(4));
    assert_eq!(owner_of("5", 6), Some(5));
    assert_eq!(owner_of("6", 6), Some(0));
    assert_eq!(owner_of("7", 6), Some(1));
}

#[test]
fn owner_is_deterministic() {
    assert_eq!(owner_of("123456", 6), owner_of("123456", 6));
    assert_eq!(get_owner_id("13", 6), Some(String::from("1")));
    assert_eq!(get_owner_id("13", 6), Some(String::from("1")));
}

#[test]
fn non_numeric_ids_have_no_owner() {
    assert_eq!(owner_of("", 6), None);
    assert_eq!(owner_of("abc", 6), None);
    assert_eq!(owner_of("12a", 6), None);
    assert_eq!(owner_of("-1", 6), None);
    assert_eq!(get_owner_id("milk", 6), None);
}

#[test]
fn parse_u32_reads_plain_decimal_numerals() {
    assert_eq!(parse_u32("0"), Some(0));
    assert_eq!(parse_u32("007"), Some(7));
    assert_eq!(parse_u32("4294967295"), Some(4294967295));
}

#[test]
fn parse_u32_rejects_overflow_and_junk() {
    assert_eq!(parse_u32("4294967296"), None);
    assert_eq!(parse_u32("99999999999999999999"), None);
    assert_eq!(parse_u32(""), None);
    assert_eq!(parse_u32("+3"), None);
    assert_eq!(parse_u32(" 3"), None);
}
