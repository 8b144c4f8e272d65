use gitmeta::time::{CustomFormat, Format, Time};

#[test]
fn default_time_is_not_set() {
    assert!(!Time::default().is_set());
    assert!(!Time::new(0, 0).is_set());
}

#[test]
fn any_part_sets_the_time() {
    assert!(Time::new(1, 0).is_set());
    assert!(Time::new(0, -3600).is_set());
    assert!(Time::new(1660874655, 28800).is_set());
    assert!(Time::new(-1, 0).is_set());
}

#[test]
fn custom_format_keeps_its_string() {
    let custom = CustomFormat::new("%Y-%m-%d");
    assert_eq!(custom.as_str(), "%Y-%m-%d");
}

#[test]
fn custom_format_becomes_a_format() {
    let format = Format::from(CustomFormat::new("%H:%M"));
    match format {
        Format::Custom(custom) => assert_eq!(custom.as_str(), "%H:%M"),
        _ => panic!("a custom format stays custom"),
    }
}
