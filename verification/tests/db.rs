use koshadb::{directory_action, DbError, DbOptions, DbState, DirectoryAction};

fn open(log: &[u8]) -> DbState {
    DbState::open(DbOptions::default(), log).unwrap()
}

fn logged_put(db: &mut DbState, log: &mut Vec<u8>, key: &[u8], value: &[u8]) {
    let frame = DbState::put_frame(&key.to_vec(), &value.to_vec()).unwrap();
    log.extend_from_slice(&frame);
    db.put(key.to_vec(), value.to_vec()).unwrap();
}

fn logged_delete(db: &mut DbState, log: &mut Vec<u8>, key: &[u8]) {
    let frame = DbState::delete_frame(&key.to_vec()).unwrap();
    log.extend_from_slice(&frame);
    db.delete(key.to_vec()).unwrap();
}

fn encode_put_payload(key: &[u8], value: &[u8]) -> Vec<u8> {
    let mut payload = Vec::with_capacity(1 + 4 + key.len() + 4 + value.len());
    payload.push(1_u8);
    payload.extend_from_slice(&(key.len() as u32).to_le_bytes());
    payload.extend_from_slice(key);
    payload.extend_from_slice(&(value.len() as u32).to_le_bytes());
    payload.extend_from_slice(value);
    payload
}

#[test]
fn open_fails_when_directory_missing_and_create_if_missing_disabled() {
    let options = DbOptions {
        create_if_missing: false,
        ..DbOptions::default()
    };

    let action = directory_action(false, false, options.create_if_missing);

    assert_eq!(action, DirectoryAction::Missing);
}

#[test]
fn directory_actions_cover_every_case() {
    assert_eq!(directory_action(true, true, false), DirectoryAction::Use);
    assert_eq!(directory_action(true, true, true), DirectoryAction::Use);
    assert_eq!(directory_action(true, false, true), DirectoryAction::NotADirectory);
    assert_eq!(directory_action(false, false, true), DirectoryAction::Create);
    assert_eq!(directory_action(false, false, false), DirectoryAction::Missing);
}

#[test]
fn put_get_delete_work_through_db_api() {
    let mut log = Vec::new();
    let mut db = open(&log);

    assert!(db.is_empty());

    logged_put(&mut db, &mut log, b"name", b"kosha");
    assert_eq!(db.get(b"name"), Some(b"kosha".to_vec()));
    assert_eq!(db.len(), 1);

    logged_delete(&mut db, &mut log, b"name");
    assert_eq!(db.get(b"name"), None);
    assert_eq!(db.len(), 1);
}

#[test]
fn reopen_recovers_puts_and_deletes_from_wal() {
    let mut log = Vec::new();

    {
        let mut db = open(&log);
        logged_put(&mut db, &mut log, b"k1", b"v1");
        logged_put(&mut db, &mut log, b"k2", b"v2");
        logged_delete(&mut db, &mut log, b"k2");
    }

    let mut recovered = open(&log);

    assert_eq!(recovered.get(b"k1"), Some(b"v1".to_vec()));
    assert_eq!(recovered.get(b"k2"), None);
    assert_eq!(recovered.len(), 2);
}

#[test]
fn reopen_ignores_partial_wal_tail() {
    let mut log = Vec::new();

    {
        let mut db = open(&log);
        logged_put(&mut db, &mut log, b"stable", b"value");
    }

    log.extend_from_slice(&32_u32.to_le_bytes());
    log.extend_from_slice(&[1_u8, 0_u8, 0_u8]);

    let mut recovered = open(&log);

    assert_eq!(recovered.get(b"stable"), Some(b"value".to_vec()));
}

#[test]
fn reopen_ignores_checksum_mismatch_tail() {
    let mut log = Vec::new();

    {
        let mut db = open(&log);
        logged_put(&mut db, &mut log, b"stable", b"value");
    }

    let payload = encode_put_payload(b"bad", b"tail");
    log.extend_from_slice(&(payload.len() as u32).to_le_bytes());
    log.extend_from_slice(&payload);
    log.extend_from_slice(&0_u32.to_le_bytes());

    let mut recovered = open(&log);

    assert_eq!(recovered.get(b"stable"), Some(b"value".to_vec()));
    assert_eq!(recovered.get(b"bad"), None);
}

#[test]
fn reopen_ignores_malformed_but_checksum_valid_tail() {
    let mut log = Vec::new();

    {
        let mut db = open(&log);
        logged_put(&mut db, &mut log, b"stable", b"value");
    }

    let payload = vec![99_u8, 0_u8, 0_u8, 0_u8, 0_u8];
    let checksum = crc32fast::hash(&payload);
    log.extend_from_slice(&(payload.len() as u32).to_le_bytes());
    log.extend_from_slice(&payload);
    log.extend_from_slice(&checksum.to_le_bytes());

    let mut recovered = open(&log);

    assert_eq!(recovered.get(b"stable"), Some(b"value".to_vec()));
    assert_eq!(recovered.len(), 1);
}

#[test]
fn reopen_after_torn_write_keeps_every_complete_write() {
    let mut log = Vec::new();
    {
        let mut db = open(&log);
        logged_put(&mut db, &mut log, b"a", b"1");
        logged_put(&mut db, &mut log, b"b", b"2");
        logged_delete(&mut db, &mut log, b"a");
    }
    let torn = DbState::put_frame(&b"c".to_vec(), &b"3".to_vec()).unwrap();
    for cut in 0..torn.len() {
        let mut crashed = log.clone();
        crashed.extend_from_slice(&torn[..cut]);
        let mut recovered = open(&crashed);
        assert_eq!(recovered.get(b"a"), None);
        assert_eq!(recovered.get(b"b"), Some(b"2".to_vec()));
        assert_eq!(recovered.get(b"c"), None);
        assert_eq!(recovered.len(), 2);
    }
}

#[test]
fn logged_empty_key_fails_reopen() {
    let mut log = Vec::new();
    let mut db = open(&log);
    let frame = DbState::put_frame(&Vec::new(), &b"v".to_vec()).unwrap();
    log.extend_from_slice(&frame);
    assert!(matches!(db.put(Vec::new(), b"v".to_vec()), Err(DbError::EmptyKey)));
    assert!(db.is_empty());

    assert!(matches!(
        DbState::open(DbOptions::default(), &log),
        Err(DbError::EmptyKey)
    ));
}

#[test]
fn get_after_put_and_delete_on_other_keys() {
    let mut log = Vec::new();
    let mut db = open(&log);
    logged_put(&mut db, &mut log, b"x", b"1");
    logged_put(&mut db, &mut log, b"y", b"2");
    logged_delete(&mut db, &mut log, b"y");
    logged_put(&mut db, &mut log, b"x", b"3");
    assert_eq!(db.get(b"x"), Some(b"3".to_vec()));
    assert_eq!(db.get(b"y"), None);
    assert_eq!(db.get(b"z"), None);
    assert_eq!(db.len(), 2);
    assert!(!db.is_empty());
    assert!(db.options().sync_write);
}

#[test]
fn corruption_error_message_names_the_problem() {
    assert_eq!(
        DbError::Corruption("wal payload is empty").to_string(),
        "message: wal payload is empty"
    );
    let io = DbError::from(std::io::Error::new(std::io::ErrorKind::Other, "disk"));
    assert!(matches!(io, DbError::Io(_)));
    assert_eq!(io.to_string(), "io error: disk");
}
