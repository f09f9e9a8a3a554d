pub mod memtable;
pub mod skiplist;
