use dashchat::cleanup::{
    cleanup_plan, cutoff_secs, expired_keys, CleanupError, CleanupOutcome,
    MESSAGE_MAX_AGE_SECS,
};

fn v7_at(secs: u64) -> uuid::Uuid {
    uuid::Uuid::new_v7(uuid::Timestamp::from_unix(uuid::NoContext, secs, 0))
}

fn now_secs() -> u64 {
    std::time::SystemTime::now()
        .duration_since(std::time::UNIX_EPOCH)
        .unwrap()
        .as_secs()
}

#[test]
fn test_cleanup_old_messages() {
    // An old message (8 days ago) and a recent one
    let now = now_secs();
    let old_uuid = v7_at(now - 8 * 24 * 60 * 60);
    let old_key = format!("test-topic:log-1:0:{}", old_uuid);
    let recent_uuid = uuid::Uuid::now_v7();
    let recent_key = format!("test-topic:log-1:1:{}", recent_uuid);

    let keys = vec![old_key.clone(), recent_key.clone()];
    match cleanup_plan(&keys, now) {
        CleanupOutcome::Delete(v) => {
            assert!(v.contains(&old_key));
            assert!(!v.contains(&recent_key));
        }
        other => panic!("unexpected outcome {:?}", other),
    }
}

#[test]
fn cutoff_is_seven_days_back() {
    assert_eq!(MESSAGE_MAX_AGE_SECS, 7 * 24 * 60 * 60);
    assert_eq!(cutoff_secs(1_000_000), Some(1_000_000 - 604_800));
    assert_eq!(cutoff_secs(604_800), Some(0));
    assert_eq!(cutoff_secs(604_799), None);
}

#[test]
fn cutoff_falls_exactly_seven_days_back() {
    let now = 1_700_000_000u64;
    let cutoff = now - MESSAGE_MAX_AGE_SECS;
    let before = format!("t:a:0:{}", v7_at(cutoff - 1));
    let after = format!("t:a:1:{}", v7_at(cutoff + 1));
    let keys = vec![before.clone(), after.clone()];
    assert_eq!(cleanup_plan(&keys, now), CleanupOutcome::Delete(vec![before]));
}

#[test]
fn expired_keys_in_order() {
    let cutoff = v7_at(2_000).as_u128();
    let keys = vec![
        format!("t:a:0:{}", v7_at(1_000)),
        format!("t:a:1:{}", v7_at(3_000)),
        format!("t:b:0:{}", v7_at(1_500)),
    ];
    let v = expired_keys(&keys, cutoff).unwrap();
    assert_eq!(v, vec![keys[0].clone(), keys[2].clone()]);
}

#[test]
fn expired_keys_reports_first_bad_key() {
    let keys = vec![
        format!("t:a:0:{}", v7_at(1_000)),
        "t:a:0".to_string(),
        "t:a:0:nope".to_string(),
    ];
    assert_eq!(
        expired_keys(&keys, 0),
        Err(CleanupError::InvalidKeyFormat { key: "t:a:0".to_string(), parts: 3 })
    );
    let keys = vec!["t:a:0:nope".to_string()];
    assert_eq!(
        expired_keys(&keys, 0),
        Err(CleanupError::InvalidUuid { key: "t:a:0:nope".to_string(), text: "nope".to_string() })
    );
}

#[test]
fn cleanup_before_the_epoch_week_deletes_nothing() {
    let keys = vec!["bad".to_string()];
    assert_eq!(cleanup_plan(&keys, 10), CleanupOutcome::ClockBeforeCutoff);
}

#[test]
fn cleanup_stops_on_unreadable_key() {
    let keys = vec!["bad".to_string()];
    assert!(matches!(cleanup_plan(&keys, 1_000_000), CleanupOutcome::Invalid(_)));
}
