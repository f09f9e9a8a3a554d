pub mod errors;
pub mod options;
pub mod wal;
pub mod recovery;
pub mod database;
