use dashchat::interleave::interleave_by_timestamp;

#[test]
fn logs_interleave_by_time_keeping_ties_in_order() {
    let alice = vec![(1u64, "a1"), (5, "a5"), (5, "a5'")];
    let bobbi = vec![(2u64, "b2"), (5, "b5"), (9, "b9")];
    let carol: Vec<(u64, &str)> = vec![];
    let out = interleave_by_timestamp(vec![alice, bobbi, carol]);
    assert_eq!(
        out,
        vec![(1, "a1"), (2, "b2"), (5, "a5"), (5, "a5'"), (5, "b5"), (9, "b9")]
    );
}

#[test]
fn no_logs_no_entries() {
    let out: Vec<(u64, u8)> = interleave_by_timestamp(vec![]);
    assert!(out.is_empty());
}
