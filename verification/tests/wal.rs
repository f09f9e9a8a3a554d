use koshadb::{decode_record, encode_record, frame_record, replay_bytes, DbError, WalRecord};

fn corruption(result: Result<WalRecord, DbError>) -> &'static str {
    match result {
        Err(DbError::Corruption(message)) => message,
        other => panic!("expected a corruption error, got {:?}", other),
    }
}

fn frame(record: &WalRecord) -> Vec<u8> {
    frame_record(record).unwrap()
}

#[test]
fn put_record_payload_layout() {
    let payload = encode_record(&WalRecord::Put(b"k".to_vec(), b"vv".to_vec())).unwrap();
    assert_eq!(payload, vec![1, 1, 0, 0, 0, b'k', 2, 0, 0, 0, b'v', b'v']);
}

#[test]
fn delete_record_payload_layout() {
    let payload = encode_record(&WalRecord::Delete(b"abc".to_vec())).unwrap();
    assert_eq!(payload, vec![2, 3, 0, 0, 0, b'a', b'b', b'c']);
}

#[test]
fn decode_inverts_encode_on_examples() {
    let records = vec![
        WalRecord::Put(b"name".to_vec(), b"kosha".to_vec()),
        WalRecord::Put(Vec::new(), Vec::new()),
        WalRecord::Delete(b"name".to_vec()),
        WalRecord::Delete(Vec::new()),
    ];
    for record in records {
        let payload = encode_record(&record).unwrap();
        assert_eq!(decode_record(&payload).unwrap(), record);
    }
}

#[test]
fn frame_is_length_payload_and_checksum() {
    let record = WalRecord::Put(b"k".to_vec(), b"v".to_vec());
    let payload = encode_record(&record).unwrap();
    let mut expected = Vec::new();
    expected.extend_from_slice(&(payload.len() as u32).to_le_bytes());
    expected.extend_from_slice(&payload);
    expected.extend_from_slice(&crc32fast::hash(&payload).to_le_bytes());
    assert_eq!(frame(&record), expected);
    // The checksum is not the payload's bytes passed through.
    assert_eq!(&frame(&record)[15..], &0xa3fe_0732_u32.to_le_bytes()[..]);
}

#[test]
fn decode_errors_name_their_cause() {
    assert_eq!(corruption(decode_record(&[])), "wal payload is empty");
    assert_eq!(corruption(decode_record(&[1, 0, 0])), "wal key length is truncated");
    assert_eq!(corruption(decode_record(&[1, 5, 0, 0, 0, b'a'])), "wal key bytes are truncated");
    assert_eq!(
        corruption(decode_record(&[1, 1, 0, 0, 0, b'a', 0])),
        "wal value length is truncated"
    );
    assert_eq!(
        corruption(decode_record(&[1, 1, 0, 0, 0, b'a', 2, 0, 0, 0, b'b'])),
        "wal value bytes are truncated"
    );
    assert_eq!(
        corruption(decode_record(&[1, 1, 0, 0, 0, b'a', 1, 0, 0, 0, b'b', 9])),
        "wal put record has trailing bytes"
    );
    assert_eq!(
        corruption(decode_record(&[2, 1, 0, 0, 0, b'a', 9])),
        "wal delete record has trailing bytes"
    );
    assert_eq!(corruption(decode_record(&[99, 0, 0, 0, 0])), "unknown wal operation");
    // The key is read before the operation is checked.
    assert_eq!(corruption(decode_record(&[99, 0])), "wal key length is truncated");
}

#[test]
fn replay_reads_frames_in_order() {
    let records = vec![
        WalRecord::Put(b"a".to_vec(), b"1".to_vec()),
        WalRecord::Delete(b"a".to_vec()),
        WalRecord::Put(b"b".to_vec(), b"2".to_vec()),
    ];
    let mut log = Vec::new();
    for record in &records {
        log.extend_from_slice(&frame(record));
    }
    assert_eq!(replay_bytes(&log), records);
    assert_eq!(replay_bytes(&[]), Vec::<WalRecord>::new());
}

#[test]
fn replay_stops_at_first_bad_frame() {
    let first = WalRecord::Put(b"a".to_vec(), b"1".to_vec());
    let second = WalRecord::Put(b"b".to_vec(), b"2".to_vec());
    let mut log = frame(&first);
    let mut bad = frame(&second);
    let last = bad.len() - 1;
    bad[last] ^= 0xff;
    log.extend_from_slice(&bad);
    log.extend_from_slice(&frame(&second));
    assert_eq!(replay_bytes(&log), vec![first]);
}

#[test]
fn replay_stops_at_oversized_length() {
    let first = WalRecord::Delete(b"a".to_vec());
    let mut log = frame(&first);
    log.extend_from_slice(&(64 * 1024 * 1024 + 1_u32).to_le_bytes());
    log.extend_from_slice(&[0; 16]);
    assert_eq!(replay_bytes(&log), vec![first]);
}

#[test]
fn replay_ignores_every_torn_prefix() {
    let record = WalRecord::Put(b"key".to_vec(), b"value".to_vec());
    let full = frame(&record);
    for cut in 0..full.len() {
        assert_eq!(replay_bytes(&full[..cut]), Vec::<WalRecord>::new());
    }
    assert_eq!(replay_bytes(&full), vec![record]);
}

#[test]
fn replay_stops_at_malformed_payload_with_valid_checksum() {
    let payload = vec![99_u8, 0, 0, 0, 0];
    let mut log = Vec::new();
    log.extend_from_slice(&(payload.len() as u32).to_le_bytes());
    log.extend_from_slice(&payload);
    log.extend_from_slice(&crc32fast::hash(&payload).to_le_bytes());
    log.extend_from_slice(&frame(&WalRecord::Delete(b"x".to_vec())));
    assert_eq!(replay_bytes(&log), Vec::<WalRecord>::new());
}

#[test]
fn appending_never_takes_back_a_record() {
    let first = frame(&WalRecord::Put(b"a".to_vec(), b"1".to_vec()));
    let second = frame(&WalRecord::Delete(b"a".to_vec()));
    let mut log = first.clone();
    log.extend_from_slice(&second[..5]);
    let before = replay_bytes(&log);
    log.extend_from_slice(&second[5..]);
    let after = replay_bytes(&log);
    assert_eq!(before.len(), 1);
    assert_eq!(after.len(), 2);
    assert_eq!(&after[..before.len()], &before[..]);
}

#[test]
fn decoded_payload_is_the_encoding_of_its_record() {
    let payload = vec![1_u8, 2, 0, 0, 0, b'h', b'i', 0, 0, 0, 0];
    let record = decode_record(&payload).unwrap();
    assert_eq!(record, WalRecord::Put(b"hi".to_vec(), Vec::new()));
    assert_eq!(encode_record(&record).unwrap(), payload);
}
