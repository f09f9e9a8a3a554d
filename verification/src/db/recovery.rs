use crate::common::types::{entries_view, EntryValue, EntryView};
use crate::db::errors::{DbError, Result};
use crate::common::types::{Key, Value};
use crate::db::wal::{
    encode_failure, frames, frames_of_concat, record_frame, record_key, records_view, replay_bytes,
    replay_reads_frames_back, replay_records, replay_recovers_complete_writes, WalRecord,
    WalRecordView,
};
use crate::memtable::memtable::MemTable;
use crate::memtable::skiplist::SkipListMemTable;
use vstd::prelude::*;

verus! {

/// A table after one more write.
pub open spec fn apply_write(entries: Map<Seq<u8>, EntryView>, record: WalRecordView) -> Map<
    Seq<u8>,
    EntryView,
> {
    match record {
        WalRecordView::Put(key, value) => entries.insert(key, EntryView::Value(value)),
        WalRecordView::Delete(key) => entries.insert(key, EntryView::Tombstone),
    }
}

/// A table after a sequence of writes, in order.
pub open spec fn apply_writes(entries: Map<Seq<u8>, EntryView>, records: Seq<WalRecordView>) -> Map<
    Seq<u8>,
    EntryView,
>
    decreases records.len(),
{
    if records.len() == 0 {
        entries
    } else {
        apply_write(apply_writes(entries, records.drop_last()), records.last())
    }
}

/// Every record writes a non-empty key.
pub open spec fn keys_present(records: Seq<WalRecordView>) -> bool {
    forall|i: int| 0 <= i < records.len() ==> #[trigger] record_key(records[i]).len() > 0
}

/// Rebuilds the memtable from the bytes of a write-ahead log: replays its
/// records in order into an empty table. A record with an empty key is
/// refused with `EmptyKey`.
pub fn recover_memtable(data: &[u8]) -> (r: Result<SkipListMemTable>)
    ensures
        keys_present(replay_records(data@)) ==> (r matches Ok(table) && table.valid() && entries_view(
            table.contents(),
        ) == apply_writes(Map::empty(), replay_records(data@))),
        !keys_present(replay_records(data@)) ==> (r matches Err(DbError::EmptyKey)),
{
    let records = replay_bytes(data);
    let ghost all = records_view(records@);
    let mut memtable = SkipListMemTable::new();
    assert(entries_view(memtable.contents()) =~= Map::<Seq<u8>, EntryView>::empty());
    for record in it: records.into_iter()
        invariant
            memtable.valid(),
            all == records_view(it.seq()),
            all == replay_records(data@),
            entries_view(memtable.contents()) == apply_writes(
                Map::empty(),
                all.take(it.index() as int),
            ),
            keys_present(all.take(it.index() as int)),
    {
        let ghost done = all.take(it.index() as int);
        let ghost before = memtable.contents();
        assert(record@ == all[it.index() as int]);
        match record {
            WalRecord::Put(key, value) => {
                let ghost pair = (key@, value@);
                if let Err(err) = memtable.put(key, value) {
                    assert(record_key(all[it.index() as int]).len() == 0);
                    return Err(err);
                }
                assert(entries_view(memtable.contents()) =~= entries_view(before).insert(
                    pair.0,
                    EntryView::Value(pair.1),
                ));
            },
            WalRecord::Delete(key) => {
                let ghost k = key@;
                if let Err(err) = memtable.delete(key) {
                    assert(record_key(all[it.index() as int]).len() == 0);
                    return Err(err);
                }
                assert(entries_view(memtable.contents()) =~= entries_view(before).insert(
                    k,
                    EntryView::Tombstone,
                ));
            },
        }
        assert(all.take(it.index() + 1).drop_last() =~= done);
    }
    assert(all.take(all.len() as int) =~= all);
    Ok(memtable)
}


/// A put changes a table as replaying its log record does.
pub proof fn put_matches_replay(entries: Map<Seq<u8>, EntryValue>, key: Key, value: Value)
    ensures
        entries_view(entries.insert(key@, EntryValue::Value(value))) == apply_write(
            entries_view(entries),
            WalRecord::Put(key, value)@,
        ),
{
    assert(entries_view(entries.insert(key@, EntryValue::Value(value))) =~= apply_write(
        entries_view(entries),
        WalRecord::Put(key, value)@,
    ));
}

/// A delete changes a table as replaying its log record does.
pub proof fn delete_matches_replay(entries: Map<Seq<u8>, EntryValue>, key: Key)
    ensures
        entries_view(entries.insert(key@, EntryValue::Tombstone)) == apply_write(
            entries_view(entries),
            WalRecord::Delete(key)@,
        ),
{
    assert(entries_view(entries.insert(key@, EntryValue::Tombstone)) =~= apply_write(
        entries_view(entries),
        WalRecord::Delete(key)@,
    ));
}

/// Reopening a log of writes, whose last write may have been cut short by
/// a crash, replays every complete write in order, and each of them has a
/// key, so the database opens with the table those writes made.
pub proof fn reopen_replays_complete_writes(
    records: Seq<WalRecordView>,
    torn: WalRecordView,
    cut: int,
)
    requires
        forall|i: int|
            0 <= i < records.len() ==> #[trigger] encode_failure(records[i]) is None && record_key(
                records[i],
            ).len() > 0,
        encode_failure(torn) is None,
        0 <= cut < record_frame(torn).len(),
    ensures
        replay_records(frames(records) + record_frame(torn).take(cut)) == records,
        keys_present(records),
{
    replay_recovers_complete_writes(records, torn, cut);
    assert forall|i: int| 0 <= i < records.len() implies #[trigger] record_key(records[i]).len()
        > 0 by {
        assert(encode_failure(records[i]) is None);
    }
}


/// Applying two sequences of writes, one after the other, is applying the
/// two joined.
pub proof fn apply_writes_concat(
    entries: Map<Seq<u8>, EntryView>,
    first: Seq<WalRecordView>,
    second: Seq<WalRecordView>,
)
    ensures
        apply_writes(entries, first + second) == apply_writes(apply_writes(entries, first), second),
    decreases second.len(),
{
    if second.len() == 0 {
        assert(first + second =~= first);
    } else {
        apply_writes_concat(entries, first, second.drop_last());
        assert((first + second).drop_last() =~= first + second.drop_last());
        assert((first + second).last() == second.last());
    }
}

/// A logged put extends the history of writes that a table is the result of.
pub proof fn put_extends_history(
    entries: Map<Seq<u8>, EntryValue>,
    history: Seq<WalRecordView>,
    key: Key,
    value: Value,
)
    requires
        entries_view(entries) == apply_writes(Map::empty(), history),
    ensures
        entries_view(entries.insert(key@, EntryValue::Value(value))) == apply_writes(
            Map::empty(),
            history.push(WalRecord::Put(key, value)@),
        ),
{
    put_matches_replay(entries, key, value);
    assert(history.push(WalRecord::Put(key, value)@).drop_last() =~= history);
}

/// A logged delete extends the history of writes that a table is the
/// result of.
pub proof fn delete_extends_history(
    entries: Map<Seq<u8>, EntryValue>,
    history: Seq<WalRecordView>,
    key: Key,
)
    requires
        entries_view(entries) == apply_writes(Map::empty(), history),
    ensures
        entries_view(entries.insert(key@, EntryValue::Tombstone)) == apply_writes(
            Map::empty(),
            history.push(WalRecord::Delete(key)@),
        ),
{
    delete_matches_replay(entries, key);
    assert(history.push(WalRecord::Delete(key)@).drop_last() =~= history);
}

/// Every acknowledged write is recovered. A database opened from a log of
/// whole frames of `earlier` writes holds `apply_writes` of them; each
/// write acknowledged after that appended its frame and was applied. The
/// log then holds the frames of both, its replay gives both in order, every
/// key is present, and the table reopening builds is the table the writes
/// left.
pub proof fn reopen_recovers_acknowledged_writes(
    earlier: Seq<WalRecordView>,
    acknowledged: Seq<WalRecordView>,
)
    requires
        forall|i: int|
            0 <= i < earlier.len() ==> #[trigger] encode_failure(earlier[i]) is None && record_key(
                earlier[i],
            ).len() > 0,
        forall|i: int|
            0 <= i < acknowledged.len() ==> #[trigger] encode_failure(acknowledged[i]) is None
                && record_key(acknowledged[i]).len() > 0,
    ensures
        replay_records(frames(earlier) + frames(acknowledged)) == earlier + acknowledged,
        keys_present(earlier + acknowledged),
        apply_writes(Map::empty(), replay_records(frames(earlier) + frames(acknowledged)))
            == apply_writes(apply_writes(Map::empty(), earlier), acknowledged),
{
    let all = earlier + acknowledged;
    assert forall|i: int| 0 <= i < all.len() implies #[trigger] encode_failure(all[i]) is None
        && record_key(all[i]).len() > 0 by {
        if i < earlier.len() {
            assert(all[i] == earlier[i]);
        } else {
            assert(all[i] == acknowledged[i - earlier.len()]);
        }
    }
    assert forall|i: int| 0 <= i < all.len() implies #[trigger] record_key(all[i]).len() > 0 by {
        assert(encode_failure(all[i]) is None);
    }
    frames_of_concat(earlier, acknowledged);
    replay_reads_frames_back(all, Seq::empty());
    assert(frames(all) + Seq::<u8>::empty() =~= frames(all));
    assert(replay_records(Seq::<u8>::empty()) =~= Seq::<WalRecordView>::empty());
    assert(all + Seq::<WalRecordView>::empty() =~= all);
    apply_writes_concat(Map::empty(), earlier, acknowledged);
}

} // verus!
