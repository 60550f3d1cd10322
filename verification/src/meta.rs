//! Metadata records: what the file system reports about an entry, and the
//! record the backend hands back for it.
use vstd::prelude::*;
use std::time::SystemTime;

verus! {

/// `std::time::SystemTime`, carried through unchanged.
#[verifier::external_type_specification]
#[verifier::external_body]
pub struct ExSystemTime(SystemTime);

/// What the file system reports about one entry.
pub struct FileStat {
    pub is_dir: bool,
    pub len: u64,
    pub modified: Option<SystemTime>,
    pub accessed: Option<SystemTime>,
    pub created: Option<SystemTime>,
}

/// The metadata record of one entry, as the backend reports it.
pub struct EntryInfo {
    pub path: String,
    pub is_dir: bool,
    pub ctime: Option<SystemTime>,
    pub mtime: Option<SystemTime>,
    pub atime: Option<SystemTime>,
    pub size: u64,
}

} // verus!
