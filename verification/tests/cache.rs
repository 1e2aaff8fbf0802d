use weathercast::cache::cache_path;
use weathercast::cache::key_for;
use weathercast::date::CalendarDate;

#[test]
fn key_for_is_zero_padded_and_stable() {
    let d = CalendarDate::new(2024, 1, 5).unwrap();
    assert_eq!(key_for("ABC", d), "2024/01/05/ABC");
    assert_eq!(key_for("ABC", d), "2024/01/05/ABC");
}

#[test]
fn key_for_keeps_two_digit_fields_as_they_are() {
    let d = CalendarDate::new(2023, 12, 31).unwrap();
    assert_eq!(key_for("12345", d), "2023/12/31/12345");
}

#[test]
fn cache_path_adds_root_and_extension() {
    let d = CalendarDate::new(2024, 1, 5).unwrap();
    assert_eq!(cache_path("ABC", d), "share/2024/01/05/ABC.json");
}

#[test]
fn calendar_date_rejects_out_of_range_fields() {
    assert!(CalendarDate::new(2024, 0, 1).is_none());
    assert!(CalendarDate::new(2024, 13, 1).is_none());
    assert!(CalendarDate::new(2024, 1, 0).is_none());
    assert!(CalendarDate::new(2024, 1, 32).is_none());
    assert!(CalendarDate::new(10000, 1, 1).is_none());
    assert!(CalendarDate::new(2024, 2, 29).is_some());
}
