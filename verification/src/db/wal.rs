use crate::common::types::{Key, Value};
use crate::db::errors::{DbError, Result};
use vstd::bytes::{lemma_auto_spec_u32_to_from_le_bytes, spec_u32_from_le_bytes, spec_u32_to_le_bytes, u32_from_le_bytes, u32_to_le_bytes};
use vstd::slice::{slice_subrange, slice_to_vec};
use vstd::prelude::*;

verus! {

/// The operation byte of a put record.
pub const OP_PUT: u8 = 1;

/// The operation byte of a delete record.
pub const OP_DELETE: u8 = 2;

/// The largest payload that a log record may have.
pub const MAX_RECORD_SIZE: usize = 64 * 1024 * 1024;

/// One write, as the write-ahead log records it.
#[derive(Debug, Clone, PartialEq, Eq)]
pub enum WalRecord {
    Put(Key, Value),
    Delete(Key),
}

/// A log record with its byte strings as sequences.
pub enum WalRecordView {
    Put(Seq<u8>, Seq<u8>),
    Delete(Seq<u8>),
}

impl View for WalRecord {
    type V = WalRecordView;

    open spec fn view(&self) -> WalRecordView {
        match self {
            WalRecord::Put(key, value) => WalRecordView::Put(key@, value@),
            WalRecord::Delete(key) => WalRecordView::Delete(key@),
        }
    }
}

/// The key that a record writes.
pub open spec fn record_key(record: WalRecordView) -> Seq<u8> {
    match record {
        WalRecordView::Put(key, _) => key,
        WalRecordView::Delete(key) => key,
    }
}

/// The crc32 (IEEE) checksum of `data`, as `crc32fast::hash` computes it.
pub uninterp spec fn crc32(data: Seq<u8>) -> u32;

/// `crc32fast::hash`: the crc32 checksum of `data`.
#[verifier::external_body]
fn checksum(data: &[u8]) -> (r: u32)
    ensures
        r == crc32(data@),
{
    crc32fast::hash(data)
}

/// A field as the log stores it: its length as four little-endian bytes,
/// then its bytes.
pub open spec fn field_bytes(bytes: Seq<u8>) -> Seq<u8> {
    spec_u32_to_le_bytes(bytes.len() as u32) + bytes
}

/// The payload of a record: its operation byte, then its key and, for a
/// put, its value, each as a field.
pub open spec fn record_payload(record: WalRecordView) -> Seq<u8> {
    match record {
        WalRecordView::Put(key, value) => seq![OP_PUT] + field_bytes(key) + field_bytes(value),
        WalRecordView::Delete(key) => seq![OP_DELETE] + field_bytes(key),
    }
}

/// Why a record cannot be written to the log, if it cannot: a field longer
/// than a `u32` can count, or a payload over `MAX_RECORD_SIZE`.
pub open spec fn encode_failure(record: WalRecordView) -> Option<Seq<char>> {
    match record {
        WalRecordView::Put(key, value) => if key.len() > u32::MAX {
            Some("key is too large for wal record"@)
        } else if value.len() > u32::MAX {
            Some("value is too large for wal record"@)
        } else if record_payload(record).len() > MAX_RECORD_SIZE {
            Some("wal record is too large"@)
        } else {
            None
        },
        WalRecordView::Delete(key) => if key.len() > u32::MAX {
            Some("key is too large for wal record"@)
        } else if record_payload(record).len() > MAX_RECORD_SIZE {
            Some("wal record is too large"@)
        } else {
            None
        },
    }
}

/// A record as the log stores it: the payload's length as four
/// little-endian bytes, the payload, then its crc32 as four little-endian
/// bytes.
pub open spec fn record_frame(record: WalRecordView) -> Seq<u8> {
    let payload = record_payload(record);
    spec_u32_to_le_bytes(payload.len() as u32) + payload + spec_u32_to_le_bytes(crc32(payload))
}

/// The value of the four little-endian bytes of `data` at `at`.
pub open spec fn u32_at(data: Seq<u8>, at: int) -> int {
    spec_u32_from_le_bytes(data.subrange(at, at + 4)) as int
}

/// Reads the field at `at` of a payload: its bytes and the position after
/// it, or why it cannot be read.
pub open spec fn read_field(payload: Seq<u8>, at: int, is_key: bool) -> std::result::Result<
    (Seq<u8>, int),
    Seq<char>,
> {
    if payload.len() - at < 4 {
        Err(
            if is_key {
                "wal key length is truncated"@
            } else {
                "wal value length is truncated"@
            },
        )
    } else {
        let start = at + 4;
        let end = start + u32_at(payload, at);
        if end > usize::MAX {
            Err("wal field length overflow"@)
        } else if end > payload.len() {
            Err(
                if is_key {
                    "wal key bytes are truncated"@
                } else {
                    "wal value bytes are truncated"@
                },
            )
        } else {
            Ok((payload.subrange(start, end), end))
        }
    }
}

/// Decodes a payload into the record it holds, or says why it holds none.
pub open spec fn decode_payload(payload: Seq<u8>) -> std::result::Result<WalRecordView, Seq<char>> {
    if payload.len() == 0 {
        Err("wal payload is empty"@)
    } else {
        match read_field(payload, 1, true) {
            Err(message) => Err(message),
            Ok((key, after_key)) => if payload[0] == OP_PUT {
                match read_field(payload, after_key, false) {
                    Err(message) => Err(message),
                    Ok((value, end)) => if end != payload.len() {
                        Err("wal put record has trailing bytes"@)
                    } else {
                        Ok(WalRecordView::Put(key, value))
                    },
                }
            } else if payload[0] == OP_DELETE {
                if after_key != payload.len() {
                    Err("wal delete record has trailing bytes"@)
                } else {
                    Ok(WalRecordView::Delete(key))
                }
            } else {
                Err("unknown wal operation"@)
            },
        }
    }
}

/// The records of a log from position `at` on: frame after frame, up to
/// the first one that is cut short, too long, fails its checksum or does
/// not decode.
pub open spec fn replay_from(data: Seq<u8>, at: int) -> Seq<WalRecordView>
    decreases data.len() - at,
{
    if at < 0 || data.len() - at < 4 {
        Seq::empty()
    } else {
        let n = u32_at(data, at);
        let payload_end = at + 4 + n;
        if n > MAX_RECORD_SIZE || payload_end > data.len() || data.len() - payload_end < 4 {
            Seq::empty()
        } else {
            let payload = data.subrange(at + 4, payload_end);
            if crc32(payload) as int != u32_at(data, payload_end) {
                Seq::empty()
            } else {
                match decode_payload(payload) {
                    Ok(record) => seq![record] + replay_from(data, payload_end + 4),
                    Err(_) => Seq::empty(),
                }
            }
        }
    }
}

/// The records that a whole log holds.
pub open spec fn replay_records(data: Seq<u8>) -> Seq<WalRecordView> {
    replay_from(data, 0)
}

/// The field of a record that a length check is about.
#[derive(Clone, Copy)]
enum WalField {
    Key,
    Value,
}

/// Appends `bytes` to `buffer`.
fn push_bytes(buffer: &mut Vec<u8>, bytes: &[u8])
    ensures
        final(buffer)@ == old(buffer)@ + bytes@,
{
    let mut i: usize = 0;
    while i < bytes.len()
        invariant
            i <= bytes@.len(),
            buffer@ == old(buffer)@ + bytes@.take(i as int),
        decreases bytes@.len() - i,
    {
        buffer.push(bytes[i]);
        i = i + 1;
        assert(bytes@.take(i as int) =~= bytes@.take(i - 1).push(bytes@[i - 1]));
    }
    assert(bytes@.take(i as int) =~= bytes@);
}

/// Appends `bytes` to `buffer` as a field: its length, then its bytes.
fn push_bytes_with_len(buffer: &mut Vec<u8>, bytes: &[u8])
    requires
        bytes@.len() <= u32::MAX,
    ensures
        final(buffer)@ == old(buffer)@ + field_bytes(bytes@),
{
    let len = bytes.len() as u32;
    let len_bytes = u32_to_le_bytes(len);
    push_bytes(buffer, len_bytes.as_slice());
    push_bytes(buffer, bytes);
    assert(old(buffer)@ + len_bytes@ + bytes@ =~= old(buffer)@ + field_bytes(bytes@));
}

/// Refuses a field longer than a `u32` can count.
fn ensure_len_u32(len: usize, field: WalField) -> (r: Result<()>)
    ensures
        len <= u32::MAX ==> r is Ok,
        len > u32::MAX ==> (r matches Err(DbError::Corruption(message)) && message@ == (
        match field {
            WalField::Key => "key is too large for wal record"@,
            WalField::Value => "value is too large for wal record"@,
        })),
{
    if len > u32::MAX as usize {
        return Err(
            DbError::Corruption(
                match field {
                    WalField::Key => "key is too large for wal record",
                    WalField::Value => "value is too large for wal record",
                },
            ),
        );
    }
    Ok(())
}

/// Refuses a payload over `MAX_RECORD_SIZE`.
fn ensure_payload_size(len: usize) -> (r: Result<()>)
    ensures
        len <= MAX_RECORD_SIZE ==> r is Ok,
        len > MAX_RECORD_SIZE ==> (r matches Err(DbError::Corruption(message)) && message@
            == "wal record is too large"@),
{
    if len > MAX_RECORD_SIZE {
        return Err(DbError::Corruption("wal record is too large"));
    }
    Ok(())
}

/// The payload of `record`, or why it cannot be written to the log.
pub fn encode_record(record: &WalRecord) -> (r: Result<Vec<u8>>)
    ensures
        match encode_failure(record@) {
            None => r matches Ok(payload) && payload@ == record_payload(record@),
            Some(why) => r matches Err(DbError::Corruption(message)) && message@ == why,
        },
{
    match record {
        WalRecord::Put(key, value) => {
            ensure_len_u32(key.len(), WalField::Key)?;
            ensure_len_u32(value.len(), WalField::Value)?;
            let mut payload: Vec<u8> = Vec::new();
            payload.push(OP_PUT);
            push_bytes_with_len(&mut payload, key.as_slice());
            push_bytes_with_len(&mut payload, value.as_slice());
            assert(payload@ =~= record_payload(record@));
            ensure_payload_size(payload.len())?;
            Ok(payload)
        },
        WalRecord::Delete(key) => {
            ensure_len_u32(key.len(), WalField::Key)?;
            let mut payload: Vec<u8> = Vec::new();
            payload.push(OP_DELETE);
            push_bytes_with_len(&mut payload, key.as_slice());
            assert(payload@ =~= record_payload(record@));
            ensure_payload_size(payload.len())?;
            Ok(payload)
        },
    }
}


/// Reads the field at `*cursor` of a payload and moves the cursor past
/// it, or says why the field cannot be read. On an error the cursor stays
/// where it was if the length itself is cut short, and is past the length
/// otherwise.
fn read_len_prefixed_bytes(payload: &[u8], cursor: &mut usize, field: WalField) -> (r: Result<
    Vec<u8>,
>)
    ensures
        match read_field(payload@, *old(cursor) as int, field is Key) {
            Ok((bytes, end)) => (r matches Ok(v) && v@ == bytes) && *final(cursor) == end,
            Err(why) => (r matches Err(DbError::Corruption(message)) && message@ == why)
                && *final(cursor) == (if payload@.len() - *old(cursor) < 4 {
                *old(cursor) as int
            } else {
                *old(cursor) + 4
            }),
        },
{
    if payload.len().saturating_sub(*cursor) < 4 {
        return Err(
            DbError::Corruption(
                match field {
                    WalField::Key => "wal key length is truncated",
                    WalField::Value => "wal value length is truncated",
                },
            ),
        );
    }
    let len_bytes = slice_subrange(payload, *cursor, *cursor + 4);
    *cursor += 4;
    let field_len = u32_from_le_bytes(len_bytes) as usize;
    let end = match cursor.checked_add(field_len) {
        Some(end) => end,
        None => {
            return Err(DbError::Corruption("wal field length overflow"));
        },
    };
    if end > payload.len() {
        return Err(
            DbError::Corruption(
                match field {
                    WalField::Key => "wal key bytes are truncated",
                    WalField::Value => "wal value bytes are truncated",
                },
            ),
        );
    }
    let bytes = slice_to_vec(slice_subrange(payload, *cursor, end));
    *cursor = end;
    Ok(bytes)
}

/// The record that a payload holds, or why it holds none.
pub fn decode_record(payload: &[u8]) -> (r: Result<WalRecord>)
    ensures
        match decode_payload(payload@) {
            Ok(record) => r matches Ok(decoded) && decoded@ == record,
            Err(why) => r matches Err(DbError::Corruption(message)) && message@ == why,
        },
{
    if payload.len() == 0 {
        return Err(DbError::Corruption("wal payload is empty"));
    }
    let op = payload[0];
    let mut cursor: usize = 1;
    let key = read_len_prefixed_bytes(payload, &mut cursor, WalField::Key)?;
    if op == OP_PUT {
        let value = read_len_prefixed_bytes(payload, &mut cursor, WalField::Value)?;
        if cursor != payload.len() {
            return Err(DbError::Corruption("wal put record has trailing bytes"));
        }
        Ok(WalRecord::Put(key, value))
    } else if op == OP_DELETE {
        if cursor != payload.len() {
            return Err(DbError::Corruption("wal delete record has trailing bytes"));
        }
        Ok(WalRecord::Delete(key))
    } else {
        Err(DbError::Corruption("unknown wal operation"))
    }
}


/// The bytes that the log appends for `record`: the payload's length, the
/// payload and its checksum, or why the record cannot be written.
pub fn frame_record(record: &WalRecord) -> (r: Result<Vec<u8>>)
    ensures
        match encode_failure(record@) {
            None => r matches Ok(bytes) && bytes@ == record_frame(record@),
            Some(why) => r matches Err(DbError::Corruption(message)) && message@ == why,
        },
{
    let payload = encode_record(record)?;
    if payload.len() > u32::MAX as usize {
        return Err(DbError::Corruption("wal payload length overflow"));
    }
    let payload_len = payload.len() as u32;
    let sum = checksum(payload.as_slice());
    let mut bytes: Vec<u8> = Vec::new();
    push_bytes(&mut bytes, u32_to_le_bytes(payload_len).as_slice());
    push_bytes(&mut bytes, payload.as_slice());
    push_bytes(&mut bytes, u32_to_le_bytes(sum).as_slice());
    assert(bytes@ =~= record_frame(record@));
    Ok(bytes)
}

/// The views of a sequence of records.
pub open spec fn records_view(records: Seq<WalRecord>) -> Seq<WalRecordView> {
    records.map_values(|record: WalRecord| record@)
}

/// The records that a log holds, read frame after frame up to the first
/// frame that is cut short, too long, fails its checksum or does not decode.
pub fn replay_bytes(data: &[u8]) -> (records: Vec<WalRecord>)
    ensures
        records_view(records@) == replay_records(data@),
{
    let mut records: Vec<WalRecord> = Vec::new();
    let mut pos: usize = 0;
    loop
        invariant
            pos <= data@.len(),
            records_view(records@) + replay_from(data@, pos as int) == replay_records(data@),
        ensures
            records_view(records@) == replay_records(data@),
        decreases data@.len() - pos,
    {
        if data.len() - pos < 4 {
            assert(replay_from(data@, pos as int) =~= Seq::<WalRecordView>::empty());
            assert(records_view(records@) + Seq::<WalRecordView>::empty() =~= records_view(records@));
            break ;
        }
        let payload_len = u32_from_le_bytes(slice_subrange(data, pos, pos + 4)) as usize;
        let payload_start = pos + 4;
        if payload_len > MAX_RECORD_SIZE || data.len() - payload_start < payload_len {
            assert(replay_from(data@, pos as int) =~= Seq::<WalRecordView>::empty());
            assert(records_view(records@) + Seq::<WalRecordView>::empty() =~= records_view(records@));
            break ;
        }
        let payload_end = payload_start + payload_len;
        if data.len() - payload_end < 4 {
            assert(replay_from(data@, pos as int) =~= Seq::<WalRecordView>::empty());
            assert(records_view(records@) + Seq::<WalRecordView>::empty() =~= records_view(records@));
            break ;
        }
        let payload = slice_subrange(data, payload_start, payload_end);
        let expected = u32_from_le_bytes(slice_subrange(data, payload_end, payload_end + 4));
        let actual = checksum(payload);
        if actual != expected {
            assert(replay_from(data@, pos as int) =~= Seq::<WalRecordView>::empty());
            assert(records_view(records@) + Seq::<WalRecordView>::empty() =~= records_view(records@));
            break ;
        }
        match decode_record(payload) {
            Ok(record) => {
                let ghost before = records@;
                records.push(record);
                assert(records_view(records@) =~= records_view(before) + seq![record@]);
                assert(replay_from(data@, pos as int) == seq![record@] + replay_from(
                    data@,
                    payload_end + 4,
                ));
                assert(records_view(records@) + replay_from(data@, payload_end + 4) =~= records_view(
                    before,
                ) + replay_from(data@, pos as int));
            },
            Err(_) => {
                assert(replay_from(data@, pos as int) =~= Seq::<WalRecordView>::empty());
                assert(records_view(records@) + Seq::<WalRecordView>::empty() =~= records_view(
                    records@,
                ));
                break ;
            },
        }
        pos = payload_end + 4;
    }
    records
}


/// The frames of a sequence of records, one after the other.
pub open spec fn frames(records: Seq<WalRecordView>) -> Seq<u8>
    decreases records.len(),
{
    if records.len() == 0 {
        Seq::empty()
    } else {
        record_frame(records[0]) + frames(records.drop_first())
    }
}

/// Reading a field that was written as `field_bytes` gives it back.
proof fn lemma_read_field_back(prefix: Seq<u8>, bytes: Seq<u8>, rest: Seq<u8>, is_key: bool)
    requires
        bytes.len() <= u32::MAX,
        prefix.len() + 4 + bytes.len() + rest.len() <= usize::MAX,
    ensures
        read_field(prefix + field_bytes(bytes) + rest, prefix.len() as int, is_key) == Ok::<
            (Seq<u8>, int),
            Seq<char>,
        >((bytes, (prefix.len() + 4 + bytes.len()) as int)),
{
    lemma_auto_spec_u32_to_from_le_bytes();
    let data = prefix + field_bytes(bytes) + rest;
    let at = prefix.len() as int;
    assert(data.subrange(at, at + 4) =~= spec_u32_to_le_bytes(bytes.len() as u32));
    assert(data.subrange(at + 4, at + 4 + bytes.len()) =~= bytes);
}

/// Decoding the payload of a record that can be written gives the record
/// back.
pub proof fn decode_inverts_encode(record: WalRecordView)
    requires
        encode_failure(record) is None,
    ensures
        decode_payload(record_payload(record)) == Ok::<WalRecordView, Seq<char>>(record),
{
    lemma_auto_spec_u32_to_from_le_bytes();
    let payload = record_payload(record);
    match record {
        WalRecordView::Put(key, value) => {
            let op = seq![OP_PUT];
            assert(payload =~= op + field_bytes(key) + field_bytes(value));
            lemma_read_field_back(op, key, field_bytes(value), true);
            assert(payload =~= (op + field_bytes(key)) + field_bytes(value) + Seq::empty());
            lemma_read_field_back(op + field_bytes(key), value, Seq::empty(), false);
        },
        WalRecordView::Delete(key) => {
            let op = seq![OP_DELETE];
            assert(payload =~= op + field_bytes(key) + Seq::empty());
            lemma_read_field_back(op, key, Seq::empty(), true);
        },
    }
}

/// Reading a log from a position inside its second part is reading the
/// second part alone.
proof fn lemma_replay_shift(prefix: Seq<u8>, rest: Seq<u8>, at: int)
    requires
        0 <= at,
    ensures
        replay_from(prefix + rest, prefix.len() + at) == replay_from(rest, at),
    decreases rest.len() - at,
{
    let data = prefix + rest;
    let pos = prefix.len() + at;
    if rest.len() - at >= 4 {
        assert(data.subrange(pos, pos + 4) =~= rest.subrange(at, at + 4));
        let n = u32_at(rest, at);
        let end = at + 4 + n;
        if n <= MAX_RECORD_SIZE && end <= rest.len() && rest.len() - end >= 4 {
            assert(data.subrange(pos + 4, prefix.len() + end) =~= rest.subrange(at + 4, end));
            assert(data.subrange(prefix.len() + end, prefix.len() + end + 4) =~= rest.subrange(
                end,
                end + 4,
            ));
            lemma_replay_shift(prefix, rest, end + 4);
        }
    }
}

/// Reading a log that begins with the frame of a record that can be
/// written gives that record, then the records of the rest.
pub proof fn replay_reads_frame_back(record: WalRecordView, rest: Seq<u8>)
    requires
        encode_failure(record) is None,
    ensures
        replay_records(record_frame(record) + rest) == seq![record] + replay_records(rest),
{
    lemma_auto_spec_u32_to_from_le_bytes();
    decode_inverts_encode(record);
    let payload = record_payload(record);
    let n = payload.len() as int;
    let frame = record_frame(record);
    let data = frame + rest;
    assert(data.subrange(0, 4) =~= spec_u32_to_le_bytes(n as u32));
    assert(data.subrange(4, 4 + n) =~= payload);
    assert(data.subrange(4 + n, 8 + n) =~= spec_u32_to_le_bytes(crc32(payload)));
    lemma_replay_shift(frame, rest, 0);
    assert(frame.len() == 8 + n);
}

/// Reading a log of frames, followed by anything, gives the framed
/// records, then the records of what follows.
pub proof fn replay_reads_frames_back(records: Seq<WalRecordView>, tail: Seq<u8>)
    requires
        forall|i: int| 0 <= i < records.len() ==> #[trigger] encode_failure(records[i]) is None,
    ensures
        replay_records(frames(records) + tail) == records + replay_records(tail),
    decreases records.len(),
{
    if records.len() == 0 {
        assert(frames(records) + tail =~= tail);
        assert(records + replay_records(tail) =~= replay_records(tail));
    } else {
        let rest = records.drop_first();
        assert forall|i: int| 0 <= i < rest.len() implies #[trigger] encode_failure(rest[i]) is None by {
            assert(encode_failure(records[i + 1]) is None);
        }
        replay_reads_frames_back(rest, tail);
        assert(encode_failure(records[0]) is None);
        assert(frames(records) + tail =~= record_frame(records[0]) + (frames(rest) + tail));
        replay_reads_frame_back(records[0], frames(rest) + tail);
        assert(records =~= seq![records[0]] + rest);
        assert(seq![records[0]] + (rest + replay_records(tail)) =~= records + replay_records(tail));
    }
}

/// A frame that was cut short holds no record.
pub proof fn replay_ignores_torn_frame(record: WalRecordView, cut: int)
    requires
        encode_failure(record) is None,
        0 <= cut < record_frame(record).len(),
    ensures
        replay_records(record_frame(record).take(cut)) == Seq::<WalRecordView>::empty(),
{
    lemma_auto_spec_u32_to_from_le_bytes();
    let payload = record_payload(record);
    let n = payload.len() as int;
    let torn = record_frame(record).take(cut);
    if cut >= 4 {
        assert(torn.subrange(0, 4) =~= spec_u32_to_le_bytes(n as u32));
    }
}

/// After a crash that cut the last write short, the log gives back every
/// write before it, in order.
pub proof fn replay_recovers_complete_writes(
    records: Seq<WalRecordView>,
    torn: WalRecordView,
    cut: int,
)
    requires
        forall|i: int| 0 <= i < records.len() ==> #[trigger] encode_failure(records[i]) is None,
        encode_failure(torn) is None,
        0 <= cut < record_frame(torn).len(),
    ensures
        replay_records(frames(records) + record_frame(torn).take(cut)) == records,
{
    replay_reads_frames_back(records, record_frame(torn).take(cut));
    replay_ignores_torn_frame(torn, cut);
    assert(records + Seq::<WalRecordView>::empty() =~= records);
}

/// A frame whose stored checksum is not that of its payload ends the log.
pub proof fn replay_stops_at_bad_checksum(payload: Seq<u8>, stored: u32, rest: Seq<u8>)
    requires
        payload.len() <= MAX_RECORD_SIZE,
        stored != crc32(payload),
    ensures
        replay_records(
            spec_u32_to_le_bytes(payload.len() as u32) + payload + spec_u32_to_le_bytes(stored)
                + rest,
        ) == Seq::<WalRecordView>::empty(),
{
    lemma_auto_spec_u32_to_from_le_bytes();
    let n = payload.len() as int;
    let data = spec_u32_to_le_bytes(payload.len() as u32) + payload + spec_u32_to_le_bytes(stored)
        + rest;
    assert(data.subrange(0, 4) =~= spec_u32_to_le_bytes(n as u32));
    assert(data.subrange(4, 4 + n) =~= payload);
    assert(data.subrange(4 + n, 8 + n) =~= spec_u32_to_le_bytes(stored));
}


/// A payload that decodes is the encoding of the record it decodes to, and
/// within `MAX_RECORD_SIZE` that record can be written.
pub proof fn decode_accepts_only_encodings(payload: Seq<u8>)
    ensures
        decode_payload(payload) matches Ok(record) ==> payload == record_payload(record) && (
        payload.len() <= MAX_RECORD_SIZE ==> encode_failure(record) is None),
{
    if decode_payload(payload) is Err {
        return;
    }
    lemma_auto_spec_u32_to_from_le_bytes();
    let key_len = u32_at(payload, 1);
    let after_key = 5 + key_len;
    assert(payload.subrange(1, 5).len() == 4);
    assert(spec_u32_to_le_bytes(spec_u32_from_le_bytes(payload.subrange(1, 5))) == payload.subrange(
        1,
        5,
    ));
    let key = payload.subrange(5, after_key);
    assert(field_bytes(key) =~= payload.subrange(1, after_key));
    if payload[0] == OP_PUT {
        let value_len = u32_at(payload, after_key);
        assert(payload.subrange(after_key, after_key + 4).len() == 4);
        assert(spec_u32_to_le_bytes(
            spec_u32_from_le_bytes(payload.subrange(after_key, after_key + 4)),
        ) == payload.subrange(after_key, after_key + 4));
        let value = payload.subrange(after_key + 4, after_key + 4 + value_len);
        assert(field_bytes(value) =~= payload.subrange(after_key, payload.len() as int));
        assert(payload =~= seq![OP_PUT] + payload.subrange(1, after_key) + payload.subrange(
            after_key,
            payload.len() as int,
        ));
    } else {
        assert(payload =~= seq![OP_DELETE] + payload.subrange(1, after_key));
    }
}

/// Up to `MAX_RECORD_SIZE`, a payload decodes to a record exactly when it is
/// that record's encoding.
pub proof fn decode_exactly_encodings(payload: Seq<u8>, record: WalRecordView)
    requires
        payload.len() <= MAX_RECORD_SIZE,
    ensures
        decode_payload(payload) == Ok::<WalRecordView, Seq<char>>(record) <==> (encode_failure(
            record,
        ) is None && payload == record_payload(record)),
{
    if decode_payload(payload) == Ok::<WalRecordView, Seq<char>>(record) {
        decode_accepts_only_encodings(payload);
    }
    if encode_failure(record) is None && payload == record_payload(record) {
        decode_inverts_encode(record);
    }
}

/// Reading a log from `at` gives a prefix of what reading it with more
/// bytes appended gives.
proof fn lemma_replay_from_prefix(data: Seq<u8>, more: Seq<u8>, at: int)
    ensures
        replay_from(data, at).is_prefix_of(replay_from(data + more, at)),
    decreases data.len() - at,
{
    let longer = data + more;
    if at < 0 || data.len() - at < 4 {
        return;
    }
    assert(longer.subrange(at, at + 4) =~= data.subrange(at, at + 4));
    let n = u32_at(data, at);
    let payload_end = at + 4 + n;
    if n > MAX_RECORD_SIZE || payload_end > data.len() || data.len() - payload_end < 4 {
        return;
    }
    assert(longer.subrange(at + 4, payload_end) =~= data.subrange(at + 4, payload_end));
    assert(longer.subrange(payload_end, payload_end + 4) =~= data.subrange(
        payload_end,
        payload_end + 4,
    ));
    lemma_replay_from_prefix(data, more, payload_end + 4);
    let payload = data.subrange(at + 4, payload_end);
    if crc32(payload) as int == u32_at(data, payload_end) {
        if let Ok(record) = decode_payload(payload) {
            let short = replay_from(data, payload_end + 4);
            let long = replay_from(longer, payload_end + 4);
            assert((seq![record] + long).take((seq![record] + short).len() as int) =~= seq![record]
                + long.take(short.len() as int));
        }
    }
}

/// The records of a log are a prefix of the records of the log with more
/// bytes appended: appending never takes back a record.
pub proof fn replay_is_prefix_after_append(data: Seq<u8>, more: Seq<u8>)
    ensures
        replay_records(data).is_prefix_of(replay_records(data + more)),
{
    lemma_replay_from_prefix(data, more, 0);
}

/// The frames of two sequences of records, one after the other, are the
/// frames of the two sequences joined.
pub proof fn frames_of_concat(first: Seq<WalRecordView>, second: Seq<WalRecordView>)
    ensures
        frames(first + second) == frames(first) + frames(second),
    decreases first.len(),
{
    if first.len() == 0 {
        assert(first + second =~= second);
        assert(frames(first) + frames(second) =~= frames(second));
    } else {
        frames_of_concat(first.drop_first(), second);
        assert((first + second).drop_first() =~= first.drop_first() + second);
        assert((first + second)[0] == first[0]);
        assert(frames(first + second) =~= frames(first) + frames(second));
    }
}


/// A put can be written whenever its key and value lengths fit a `u32`
/// and its payload, nine header bytes plus the key and the value, fits
/// `MAX_RECORD_SIZE`; its payload then has exactly that length and decodes
/// back to the same key and value.
pub proof fn put_within_limits_is_written(key: Seq<u8>, value: Seq<u8>)
    requires
        key.len() <= u32::MAX,
        value.len() <= u32::MAX,
        9 + key.len() + value.len() <= MAX_RECORD_SIZE,
    ensures
        encode_failure(WalRecordView::Put(key, value)) is None,
        record_payload(WalRecordView::Put(key, value)).len() == 9 + key.len() + value.len(),
        decode_payload(record_payload(WalRecordView::Put(key, value))) == Ok::<
            WalRecordView,
            Seq<char>,
        >(WalRecordView::Put(key, value)),
{
    lemma_auto_spec_u32_to_from_le_bytes();
    assert(spec_u32_to_le_bytes(key.len() as u32).len() == 4);
    assert(spec_u32_to_le_bytes(value.len() as u32).len() == 4);
    decode_inverts_encode(WalRecordView::Put(key, value));
}

/// A delete can be written whenever its key length fits a `u32` and its
/// payload, five header bytes plus the key, fits `MAX_RECORD_SIZE`; its
/// payload then has exactly that length and decodes back to the same key.
pub proof fn delete_within_limits_is_written(key: Seq<u8>)
    requires
        key.len() <= u32::MAX,
        5 + key.len() <= MAX_RECORD_SIZE,
    ensures
        encode_failure(WalRecordView::Delete(key)) is None,
        record_payload(WalRecordView::Delete(key)).len() == 5 + key.len(),
        decode_payload(record_payload(WalRecordView::Delete(key))) == Ok::<
            WalRecordView,
            Seq<char>,
        >(WalRecordView::Delete(key)),
{
    lemma_auto_spec_u32_to_from_le_bytes();
    assert(spec_u32_to_le_bytes(key.len() as u32).len() == 4);
    decode_inverts_encode(WalRecordView::Delete(key));
}

} // verus!
