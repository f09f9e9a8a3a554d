pub mod common;
pub mod db;
pub mod memtable;

pub use common::comparator::{BytewiseComparator, Comparator, KeyOrder};
pub use common::types::{EntryValue, EntryView, Key, Value};
pub use db::database::{directory_action, DbState, DirectoryAction};
pub use db::errors::{DbError, Result};
pub use db::options::DbOptions;
pub use db::recovery::recover_memtable;
pub use db::wal::{decode_record, encode_record, frame_record, replay_bytes, WalRecord};
pub use memtable::memtable::MemTable;
pub use memtable::skiplist::SkipListMemTable;
