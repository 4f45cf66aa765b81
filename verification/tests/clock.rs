use dashchat::{timestamp_now, whole_seconds};

#[test]
fn clock_is_past_the_epoch() {
    let t = timestamp_now().unwrap();
    assert!(t > 1_600_000_000);
}

#[test]
fn whole_seconds_drop_the_nanoseconds() {
    assert_eq!(whole_seconds(Some((1_700_000_000, 999_999_999))), Some(1_700_000_000));
    assert_eq!(whole_seconds(None), None);
}
