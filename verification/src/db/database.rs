use crate::common::types::{entries_view, EntryValue, Key, Value};
use crate::db::errors::{DbError, Result};
use crate::db::options::DbOptions;
use crate::db::recovery::{apply_writes, keys_present, recover_memtable};
use crate::common::types::EntryView;
use crate::db::wal::{
    encode_failure, frame_record, record_frame, record_key, replay_records, WalRecord, WalRecordView,
};
use crate::memtable::memtable::MemTable;
use crate::memtable::skiplist::SkipListMemTable;
use vstd::prelude::*;
use vstd::slice::slice_to_vec;

verus! {

/// What opening a database does about its directory.
#[derive(Debug, Clone, Copy, PartialEq, Eq)]
pub enum DirectoryAction {
    /// The directory exists: use it.
    Use,
    /// The directory is missing and may be created: create it.
    Create,
    /// The path exists but is not a directory: fail.
    NotADirectory,
    /// The directory is missing and may not be created: fail.
    Missing,
}

/// Decides what opening a database does about its directory, from whether
/// the path exists, whether it is a directory, and whether a missing
/// directory may be created.
pub fn directory_action(exists: bool, is_dir: bool, create_if_missing: bool) -> (r: DirectoryAction)
    ensures
        exists && is_dir ==> r == DirectoryAction::Use,
        exists && !is_dir ==> r == DirectoryAction::NotADirectory,
        !exists && create_if_missing ==> r == DirectoryAction::Create,
        !exists && !create_if_missing ==> r == DirectoryAction::Missing,
{
    if exists {
        if is_dir {
            return DirectoryAction::Use;
        }
        return DirectoryAction::NotADirectory;
    }
    if !create_if_missing {
        return DirectoryAction::Missing;
    }
    DirectoryAction::Create
}

/// The value that a table gives for `key`: the bytes of a value, and
/// nothing for a tombstone or a missing key.
pub open spec fn lookup(entries: Map<Seq<u8>, EntryValue>, key: Seq<u8>) -> Option<Seq<u8>> {
    if entries.contains_key(key) {
        match entries[key] {
            EntryValue::Value(value) => Some(value@),
            EntryValue::Tombstone => None,
        }
    } else {
        None
    }
}

/// The state of an open database that lives in memory: its options and
/// its memtable. Each write is logged before it is applied here.
#[derive(Debug)]
pub struct DbState {
    options: DbOptions,
    memtable: SkipListMemTable,
}

impl DbState {
    /// The database's contents.
    pub closed spec fn entries(&self) -> Map<Seq<u8>, EntryValue> {
        self.memtable.contents()
    }

    /// The database's invariant.
    pub closed spec fn valid(&self) -> bool {
        self.memtable.valid()
    }

    /// The options the database was opened with.
    pub closed spec fn options_spec(&self) -> DbOptions {
        self.options
    }

    /// Opens a database from the bytes of its write-ahead log: replays the
    /// log's records, in order, into an empty memtable. A record with an
    /// empty key is refused with `EmptyKey`.
    pub fn open(options: DbOptions, wal: &[u8]) -> (r: Result<DbState>)
        ensures
            keys_present(replay_records(wal@)) ==> (r matches Ok(db) && db.valid() && db.options_spec()
                == options && entries_view(db.entries()) == apply_writes(
                Map::empty(),
                replay_records(wal@),
            )),
            !keys_present(replay_records(wal@)) ==> (r matches Err(DbError::EmptyKey)),
    {
        let memtable = recover_memtable(wal)?;
        Ok(DbState { options, memtable })
    }

    /// The options the database was opened with.
    pub fn options(&self) -> (r: &DbOptions)
        ensures
            *r == self.options_spec(),
    {
        &self.options
    }

    /// The bytes to append to the log for a put of `key` and `value`, or
    /// why the write cannot be logged.
    pub fn put_frame(key: &Key, value: &Value) -> (r: Result<Vec<u8>>)
        ensures
            match encode_failure(WalRecordView::Put(key@, value@)) {
                None => r matches Ok(bytes) && bytes@ == record_frame(
                    WalRecordView::Put(key@, value@),
                ),
                Some(why) => r matches Err(DbError::Corruption(message)) && message@ == why,
            },
    {
        let record = WalRecord::Put(slice_to_vec(key.as_slice()), slice_to_vec(value.as_slice()));
        frame_record(&record)
    }

    /// The bytes to append to the log for a delete of `key`, or why the
    /// write cannot be logged.
    pub fn delete_frame(key: &Key) -> (r: Result<Vec<u8>>)
        ensures
            match encode_failure(WalRecordView::Delete(key@)) {
                None => r matches Ok(bytes) && bytes@ == record_frame(WalRecordView::Delete(key@)),
                Some(why) => r matches Err(DbError::Corruption(message)) && message@ == why,
            },
    {
        let record = WalRecord::Delete(slice_to_vec(key.as_slice()));
        frame_record(&record)
    }

    /// Applies a logged put: maps `key` to `value`. An empty key is refused
    /// with `EmptyKey` and changes nothing.
    pub fn put(&mut self, key: Key, value: Value) -> (r: Result<()>)
        requires
            old(self).valid(),
        ensures
            final(self).valid(),
            final(self).options_spec() == old(self).options_spec(),
            key@.len() == 0 ==> (r matches Err(DbError::EmptyKey)) && final(self).entries()
                == old(self).entries(),
            key@.len() > 0 ==> r is Ok && final(self).entries() == old(self).entries().insert(
                key@,
                EntryValue::Value(value),
            ),
    {
        self.memtable.put(key, value)
    }

    /// Applies a logged delete: maps `key` to a tombstone. An empty key is
    /// refused with `EmptyKey` and changes nothing.
    pub fn delete(&mut self, key: Key) -> (r: Result<()>)
        requires
            old(self).valid(),
        ensures
            final(self).valid(),
            final(self).options_spec() == old(self).options_spec(),
            key@.len() == 0 ==> (r matches Err(DbError::EmptyKey)) && final(self).entries()
                == old(self).entries(),
            key@.len() > 0 ==> r is Ok && final(self).entries() == old(self).entries().insert(
                key@,
                EntryValue::Tombstone,
            ),
    {
        self.memtable.delete(key)
    }

    /// The value stored for `key`: nothing when the key is missing or was
    /// deleted.
    pub fn get(&mut self, key: &[u8]) -> (r: Option<Value>)
        requires
            old(self).valid(),
        ensures
            final(self).valid(),
            final(self).entries() == old(self).entries(),
            final(self).options_spec() == old(self).options_spec(),
            match r {
                Some(value) => lookup(old(self).entries(), key@) == Some(value@),
                None => lookup(old(self).entries(), key@) is None,
            },
    {
        match self.memtable.get(key) {
            Some(EntryValue::Value(value)) => Some(slice_to_vec(value.as_slice())),
            Some(EntryValue::Tombstone) | None => None,
        }
    }

    /// The number of keys in the database, deleted keys included.
    pub fn len(&self) -> (r: usize)
        requires
            self.valid(),
        ensures
            self.entries().dom().finite(),
            r == self.entries().len(),
    {
        self.memtable.len()
    }

    /// Whether the database holds no key.
    pub fn is_empty(&self) -> (r: bool)
        requires
            self.valid(),
        ensures
            r == (self.entries().len() == 0),
    {
        self.memtable.is_empty()
    }
}


/// Reading a key after putting it gives the value put.
pub proof fn get_after_put(entries: Map<Seq<u8>, EntryValue>, key: Seq<u8>, value: Value)
    ensures
        lookup(entries.insert(key, EntryValue::Value(value)), key) == Some(value@),
{
}

/// Reading a key after deleting it gives nothing.
pub proof fn get_after_delete(entries: Map<Seq<u8>, EntryValue>, key: Seq<u8>)
    ensures
        lookup(entries.insert(key, EntryValue::Tombstone), key) is None,
{
}

/// A write to one key does not change what another key reads.
pub proof fn write_leaves_other_keys(
    entries: Map<Seq<u8>, EntryValue>,
    written: Seq<u8>,
    entry: EntryValue,
    other: Seq<u8>,
)
    requires
        written != other,
    ensures
        lookup(entries.insert(written, entry), other) == lookup(entries, other),
{
}


/// What `key` reads after a history of writes: the value of its last put,
/// and nothing when its last write is a delete or it was never written.
pub open spec fn last_value(history: Seq<WalRecordView>, key: Seq<u8>) -> Option<Seq<u8>>
    decreases history.len(),
{
    if history.len() == 0 {
        None
    } else {
        match history.last() {
            WalRecordView::Put(k, v) => if k == key {
                Some(v)
            } else {
                last_value(history.drop_last(), key)
            },
            WalRecordView::Delete(k) => if k == key {
                None
            } else {
                last_value(history.drop_last(), key)
            },
        }
    }
}

/// Some write of a history is to `key`.
pub open spec fn written(history: Seq<WalRecordView>, key: Seq<u8>) -> bool {
    exists|i: int| 0 <= i < history.len() && #[trigger] record_key(history[i]) == key
}

proof fn lemma_apply_writes_reads(history: Seq<WalRecordView>, key: Seq<u8>)
    ensures
        apply_writes(Map::empty(), history).contains_key(key) <==> written(history, key),
        match last_value(history, key) {
            Some(v) => apply_writes(Map::empty(), history).contains_key(key) && apply_writes(
                Map::empty(),
                history,
            )[key] == EntryView::Value(v),
            None => !apply_writes(Map::empty(), history).contains_key(key) || apply_writes(
                Map::empty(),
                history,
            )[key] == EntryView::Tombstone,
        },
    decreases history.len(),
{
    if history.len() > 0 {
        let prefix = history.drop_last();
        lemma_apply_writes_reads(prefix, key);
        let last = history.last();
        if written(history, key) && record_key(last) != key {
            let i = choose|i: int| 0 <= i < history.len() && #[trigger] record_key(history[i]) == key;
            assert(i < prefix.len());
            assert(record_key(prefix[i]) == key);
        }
        if written(prefix, key) {
            let i = choose|i: int| 0 <= i < prefix.len() && #[trigger] record_key(prefix[i]) == key;
            assert(record_key(history[i]) == key);
        }
        if record_key(last) == key {
            assert(record_key(history[history.len() - 1]) == key);
        }
    }
}

/// After a history of writes, a key reads the value of its last put, or
/// nothing when its last write was a delete or it was never written; the
/// table holds exactly the keys written.
pub proof fn get_after_history(
    entries: Map<Seq<u8>, EntryValue>,
    history: Seq<WalRecordView>,
    key: Seq<u8>,
)
    requires
        entries_view(entries) == apply_writes(Map::empty(), history),
    ensures
        lookup(entries, key) == last_value(history, key),
        entries.contains_key(key) <==> written(history, key),
{
    lemma_apply_writes_reads(history, key);
    assert(entries_view(entries).contains_key(key) == entries.contains_key(key));
    if entries.contains_key(key) {
        assert(entries_view(entries)[key] == entries[key]@);
    }
}

} // verus!
