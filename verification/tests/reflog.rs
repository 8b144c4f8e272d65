use gitmeta::object_id::ObjectId;
use gitmeta::refs::ReflogEntry;
use gitmeta::time::{decimal_string, Time};

fn id(n: u8) -> ObjectId {
    ObjectId::from_bytes(vec![n; 20]).unwrap()
}

#[test]
fn decimal_string_writes_natural_numbers() {
    assert_eq!(decimal_string(0), "0");
    assert_eq!(decimal_string(7), "7");
    assert_eq!(decimal_string(10), "10");
    assert_eq!(decimal_string(1660874655), "1660874655");
    assert_eq!(decimal_string(u64::MAX), "18446744073709551615");
}

#[test]
fn raw_time_is_seconds_and_offset() {
    assert_eq!(Time::new(1660874655, 28800).to_raw(), "1660874655 +0800");
    assert_eq!(Time::new(0, 0).to_raw(), "0 +0000");
    assert_eq!(Time::new(1, -5400).to_raw(), "1 -0130");
    assert_eq!(Time::new(-1, 59).to_raw(), "-1 +0000");
    assert_eq!(Time::new(123, 60).to_raw(), "123 +0001");
    assert_eq!(Time::new(123, -60 * 60 * 12 - 60 * 45).to_raw(), "123 -1245");
}

#[test]
fn raw_time_covers_the_whole_range() {
    assert_eq!(Time::new(i64::MAX, 0).to_raw(), "9223372036854775807 +0000");
    assert_eq!(Time::new(i64::MIN, 0).to_raw(), "-9223372036854775808 +0000");
    assert_eq!(Time::new(0, 99 * 3600 + 59 * 60 + 59).to_raw(), "0 +9959");
    assert_eq!(Time::new(0, i32::MAX).to_raw(), "0 +59652314");
    assert_eq!(Time::new(0, i32::MIN).to_raw(), "0 -59652314");
}

#[test]
fn first_entry_names_no_object_by_zeros() {
    let entry = ReflogEntry {
        old: None,
        new: id(0xab),
        message: "create: refs/heads/test".to_string(),
        timestamp: Time::new(1660874655, 7200),
    };
    let expected = format!(
        "{} {} A U Thor <author@example.com> 1660874655 +0200\tcreate: refs/heads/test\n",
        "0".repeat(40),
        "ab".repeat(20)
    );
    assert_eq!(entry.to_line("A U Thor <author@example.com>"), expected);
}

#[test]
fn later_entry_names_the_previous_object() {
    let entry = ReflogEntry {
        old: Some(id(1)),
        new: id(2),
        message: String::new(),
        timestamp: Time::new(5, -3600),
    };
    let expected = format!("{} {} me 5 -0100\t\n", "01".repeat(20), "02".repeat(20));
    assert_eq!(entry.to_line("me"), expected);
}

#[test]
fn zeros_are_as_wide_as_the_new_id() {
    let wide = ObjectId::from_bytes(vec![0xcd; 32]).unwrap();
    let entry = ReflogEntry { old: None, new: wide, message: "m".to_string(), timestamp: Time::new(0, 0) };
    let expected = format!("{} {} x 0 +0000\tm\n", "0".repeat(64), "cd".repeat(32));
    assert_eq!(entry.to_line("x"), expected);
    assert_eq!(id(7).null_like(), ObjectId::from_bytes(vec![0; 20]).unwrap());
}
