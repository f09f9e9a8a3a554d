use koshadb::{
    recover_memtable, BytewiseComparator, Comparator, EntryValue, KeyOrder, MemTable,
    SkipListMemTable,
};
use std::cmp::Ordering;

#[test]
fn bytewise_order_is_lexicographic() {
    let comparator = BytewiseComparator;
    assert_eq!(comparator.name(), "byteswise");
    assert_eq!(comparator.order(b"ab", b"abc"), KeyOrder::Less);
    assert_eq!(comparator.order(b"abc", b"ab"), KeyOrder::Greater);
    assert_eq!(comparator.order(b"", b""), KeyOrder::Equal);
    assert_eq!(comparator.order(b"b", b"abc"), KeyOrder::Greater);
    assert_eq!(comparator.compare(b"", b"a"), Ordering::Less);
    assert_eq!(comparator.compare(&[0xff], &[0x00, 0x01]), Ordering::Greater);
}

#[test]
fn many_keys_in_scrambled_order() {
    let mut memtable = SkipListMemTable::default();
    let count: u32 = 2000;
    for i in 0..count {
        let k = (i * 7919) % count;
        memtable
            .put(format!("key{:05}", k).into_bytes(), k.to_le_bytes().to_vec())
            .unwrap();
    }
    assert_eq!(memtable.len(), count as usize);
    for k in 0..count {
        assert_eq!(
            memtable.get(format!("key{:05}", k).as_bytes()),
            Some(&EntryValue::Value(k.to_le_bytes().to_vec()))
        );
    }
    assert_eq!(memtable.get(b"key"), None);
    assert_eq!(memtable.get(b"key99999"), None);
    assert_eq!(memtable.get(b"a"), None);
    assert_eq!(memtable.get(b"z"), None);
}

#[test]
fn overwrite_keeps_len_and_new_key_adds_one() {
    let mut memtable = SkipListMemTable::new();
    memtable.put(b"a".to_vec(), b"1".to_vec()).unwrap();
    memtable.delete(b"a".to_vec()).unwrap();
    memtable.put(b"a".to_vec(), b"2".to_vec()).unwrap();
    assert_eq!(memtable.len(), 1);
    memtable.delete(b"b".to_vec()).unwrap();
    assert_eq!(memtable.len(), 2);
    assert_eq!(memtable.get(b"a"), Some(&EntryValue::Value(b"2".to_vec())));
    assert_eq!(memtable.get(b"b"), Some(&EntryValue::Tombstone));
}

#[test]
fn writes_to_distinct_keys_commute_on_example() {
    let mut first = SkipListMemTable::new();
    first.put(b"x".to_vec(), b"1".to_vec()).unwrap();
    first.delete(b"y".to_vec()).unwrap();
    let mut second = SkipListMemTable::new();
    second.delete(b"y".to_vec()).unwrap();
    second.put(b"x".to_vec(), b"1".to_vec()).unwrap();
    for key in [b"x".as_slice(), b"y".as_slice(), b"z".as_slice()] {
        assert_eq!(first.get(key).cloned(), second.get(key).cloned());
    }
    assert_eq!(first.len(), second.len());
}

#[test]
fn rejected_empty_key_changes_nothing() {
    let mut memtable = SkipListMemTable::new();
    memtable.put(b"a".to_vec(), b"1".to_vec()).unwrap();
    assert!(memtable.put(Vec::new(), b"v".to_vec()).is_err());
    assert!(memtable.delete(Vec::new()).is_err());
    assert_eq!(memtable.len(), 1);
    assert_eq!(memtable.get(b""), None);
}

#[test]
fn custom_comparator_table() {
    let mut memtable = SkipListMemTable::with_comparator(BytewiseComparator);
    memtable.put(b"b".to_vec(), b"2".to_vec()).unwrap();
    memtable.put(b"a".to_vec(), b"1".to_vec()).unwrap();
    assert_eq!(memtable.get(b"a"), Some(&EntryValue::Value(b"1".to_vec())));
    assert!(!memtable.is_empty());
}

#[test]
fn recover_memtable_from_empty_log() {
    let memtable = recover_memtable(&[]).unwrap();
    assert!(memtable.is_empty());
}
