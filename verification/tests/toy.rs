use dashchat::topic::LogId;
use dashchat::toy::{
    blobs_request, device_bytes_from_string, device_id_to_log_id, log_id_from_string,
    log_id_to_topic_id, store_uploads, DeviceIdError,
};

#[test]
fn identifiers_travel_as_hex() {
    let log = LogId([0xab; 32]);
    let text = log_id_to_topic_id(&log);
    assert_eq!(text, "ab".repeat(32));
    assert_eq!(log_id_from_string(&text).unwrap().0, [0xab; 32]);
    assert_eq!(device_id_to_log_id(&[1u8; 32]), "01".repeat(32));
    assert_eq!(device_bytes_from_string(&"01".repeat(32)).unwrap(), [1u8; 32]);
    assert_eq!(device_bytes_from_string("0102"), Err(DeviceIdError::InvalidLength(2)));
    assert!(log_id_from_string("xyz").is_err());
}

#[test]
fn fetch_request_in_server_terms() {
    let req = vec![(LogId([2u8; 32]), vec![([3u8; 32], 7)])];
    let out = blobs_request(&req);
    assert_eq!(out, vec![("02".repeat(32), vec![("03".repeat(32), 7)])]);
}

#[test]
fn uploads_keep_last_blob_of_each_slot() {
    let t = LogId([1u8; 32]);
    let a = [2u8; 32];
    let ops = vec![
        (LogId([1u8; 32]), a, 0, b"first".to_vec()),
        (LogId([1u8; 32]), a, 1, b"one".to_vec()),
        (t, a, 0, b"again".to_vec()),
    ];
    let up = store_uploads(&ops);
    assert_eq!(up.len(), 2);
    let zero = up.iter().find(|u| u.seq_num == 0).unwrap();
    assert_eq!(zero.blob, b"again".to_vec());
    assert_eq!(zero.topic_id, "01".repeat(32));
    assert_eq!(zero.log_id, "02".repeat(32));
    let one = up.iter().find(|u| u.seq_num == 1).unwrap();
    assert_eq!(one.blob, b"one".to_vec());
}
