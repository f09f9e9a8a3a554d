use vstd::prelude::*;

verus! {

/// How a database is opened and written.
#[derive(Debug, Clone)]
pub struct DbOptions {
    /// Create the database directory when it does not exist.
    pub create_if_missing: bool,
    /// Sync the write-ahead log to disk after each write.
    pub sync_write: bool,
}

impl Default for DbOptions {
    /// Both options are on by default.
    fn default() -> (r: Self)
        ensures
            r.create_if_missing,
            r.sync_write,
    {
        DbOptions { create_if_missing: true, sync_write: true }
    }
}

} // verus!
