use crate::common::types::{EntryValue, Key, Value};
use crate::db::errors::{DbError, Result};
use vstd::prelude::*;

verus! {

/// An in-memory table of the most recent writes: each key maps to its
/// latest value, or to a tombstone once it has been deleted.
///
/// `entries` is the table's contents; `well_formed` is the implementation's
/// internal invariant, which every operation keeps.
pub trait MemTable: Sized {
    /// The table's contents.
    spec fn entries(&self) -> Map<Seq<u8>, EntryValue>;

    /// The implementation's internal invariant.
    spec fn well_formed(&self) -> bool;

    /// Maps `key` to `value`, replacing what it held. An empty key is
    /// refused with `EmptyKey` and leaves the table as it was.
    fn put(&mut self, key: Key, value: Value) -> (r: Result<()>)
        requires
            old(self).well_formed(),
        ensures
            final(self).well_formed(),
            key@.len() == 0 ==> (r matches Err(DbError::EmptyKey)) && final(self).entries()
                == old(self).entries(),
            key@.len() > 0 ==> r is Ok && final(self).entries() == old(self).entries().insert(
                key@,
                EntryValue::Value(value),
            ),
    ;

    /// The entry that `key` maps to, if any. The table is not changed.
    fn get(&mut self, key: &[u8]) -> (r: Option<&EntryValue>)
        requires
            old(self).well_formed(),
        ensures
            final(self).well_formed(),
            final(self).entries() == old(self).entries(),
            match r {
                Some(entry) => old(self).entries().contains_key(key@) && *entry == old(
                    self,
                ).entries()[key@],
                None => !old(self).entries().contains_key(key@),
            },
    ;

    /// Maps `key` to a tombstone, whether or not it held anything. An empty
    /// key is refused with `EmptyKey` and leaves the table as it was.
    fn delete(&mut self, key: Key) -> (r: Result<()>)
        requires
            old(self).well_formed(),
        ensures
            final(self).well_formed(),
            key@.len() == 0 ==> (r matches Err(DbError::EmptyKey)) && final(self).entries()
                == old(self).entries(),
            key@.len() > 0 ==> r is Ok && final(self).entries() == old(self).entries().insert(
                key@,
                EntryValue::Tombstone,
            ),
    ;

    /// The number of keys in the table, tombstones included.
    fn len(&self) -> (r: usize)
        requires
            self.well_formed(),
        ensures
            self.entries().dom().finite(),
            r == self.entries().len(),
    ;

    /// Whether the table holds no key.
    fn is_empty(&self) -> (r: bool)
        requires
            self.well_formed(),
        ensures
            r == (self.entries().len() == 0),
    {
        self.len() == 0
    }
}


/// Writing a key that the table holds leaves the number of keys as it was,
/// whatever entry the key held and whatever it now holds.
pub proof fn overwrite_keeps_len(
    entries: Map<Seq<u8>, EntryValue>,
    key: Seq<u8>,
    first: EntryValue,
    second: EntryValue,
)
    requires
        entries.dom().finite(),
    ensures
        entries.insert(key, first).insert(key, second).len() == entries.insert(key, first).len(),
{
    assert(entries.insert(key, first).insert(key, second).dom() =~= entries.insert(
        key,
        first,
    ).dom());
}

/// Writing a key that the table does not hold, a tombstone included, adds
/// one key.
pub proof fn new_key_adds_one(entries: Map<Seq<u8>, EntryValue>, key: Seq<u8>, entry: EntryValue)
    requires
        entries.dom().finite(),
        !entries.contains_key(key),
    ensures
        entries.insert(key, entry).len() == entries.len() + 1,
{
}

/// Writes to two different keys give the same table in either order.
pub proof fn writes_to_distinct_keys_commute(
    entries: Map<Seq<u8>, EntryValue>,
    first_key: Seq<u8>,
    first: EntryValue,
    second_key: Seq<u8>,
    second: EntryValue,
)
    requires
        first_key != second_key,
    ensures
        entries.insert(first_key, first).insert(second_key, second) == entries.insert(
            second_key,
            second,
        ).insert(first_key, first),
{
    assert(entries.insert(first_key, first).insert(second_key, second) =~= entries.insert(
        second_key,
        second,
    ).insert(first_key, first));
}


/// A table after a history of writes, each a key and the entry written to
/// it, applied in order.
pub open spec fn apply_entries(
    entries: Map<Seq<u8>, EntryValue>,
    writes: Seq<(Seq<u8>, EntryValue)>,
) -> Map<Seq<u8>, EntryValue>
    decreases writes.len(),
{
    if writes.len() == 0 {
        entries
    } else {
        apply_entries(entries, writes.drop_last()).insert(writes.last().0, writes.last().1)
    }
}

/// The entry of the last write to `key` in a history, if any.
pub open spec fn last_write(writes: Seq<(Seq<u8>, EntryValue)>, key: Seq<u8>) -> Option<EntryValue>
    decreases writes.len(),
{
    if writes.len() == 0 {
        None
    } else if writes.last().0 == key {
        Some(writes.last().1)
    } else {
        last_write(writes.drop_last(), key)
    }
}

/// A successful put or delete extends the history that a table is the
/// result of.
pub proof fn write_extends_history(
    entries: Map<Seq<u8>, EntryValue>,
    writes: Seq<(Seq<u8>, EntryValue)>,
    key: Seq<u8>,
    entry: EntryValue,
)
    requires
        entries == apply_entries(Map::empty(), writes),
    ensures
        entries.insert(key, entry) == apply_entries(Map::empty(), writes.push((key, entry))),
{
    assert(writes.push((key, entry)).drop_last() =~= writes);
}

/// After a history of writes into an empty table, a key holds the entry of
/// its last write, and nothing if it was never written; the table holds
/// one key per key written.
pub proof fn get_after_writes(writes: Seq<(Seq<u8>, EntryValue)>, key: Seq<u8>)
    ensures
        apply_entries(Map::empty(), writes).contains_key(key) <==> last_write(writes, key) is Some,
        last_write(writes, key) matches Some(entry) ==> apply_entries(Map::empty(), writes)[key]
            == entry,
        apply_entries(Map::empty(), writes).dom() == Set::new(
            |k: Seq<u8>| exists|i: int| 0 <= i < writes.len() && #[trigger] writes[i].0 == k,
        ),
    decreases writes.len(),
{
    if writes.len() > 0 {
        let prefix = writes.drop_last();
        get_after_writes(prefix, key);
        let table = apply_entries(Map::empty(), writes);
        let keys = Set::new(
            |k: Seq<u8>| exists|i: int| 0 <= i < writes.len() && #[trigger] writes[i].0 == k,
        );
        assert forall|k: Seq<u8>| table.dom().contains(k) <==> keys.contains(k) by {
            get_after_writes(prefix, k);
            if table.dom().contains(k) && k != writes.last().0 {
                let i = choose|i: int| 0 <= i < prefix.len() && #[trigger] prefix[i].0 == k;
                assert(writes[i].0 == k);
            }
            if keys.contains(k) {
                let i = choose|i: int| 0 <= i < writes.len() && #[trigger] writes[i].0 == k;
                if i < prefix.len() {
                    assert(prefix[i].0 == k);
                }
            }
            if k == writes.last().0 {
                assert(writes[writes.len() - 1].0 == k);
            }
        }
        assert(table.dom() =~= keys);
    } else {
        assert(apply_entries(Map::empty(), writes).dom() =~= Set::new(
            |k: Seq<u8>| exists|i: int| 0 <= i < writes.len() && #[trigger] writes[i].0 == k,
        ));
    }
}

} // verus!
