use vstd::prelude::*;

verus! {

/// Metadata snapshot taken once when a document is registered and never
/// refreshed afterwards; it goes stale if the underlying file changes.
///
/// Times are seconds since a fixed epoch. Fields a platform cannot supply
/// default to `0` (times, permissions) or `false` (`is_dir`); the caller
/// that stats the filesystem fills them in.
#[derive(Clone, Copy, Debug)]
pub struct DocMetaData {
    pub create_time: u64,
    pub modified_time: u64,
    pub permissions: u32,
    pub is_dir: bool,
}

impl DocMetaData {
    pub fn new(create_time: u64, modified_time: u64, permissions: u32, is_dir: bool) -> (r:
        DocMetaData)
        ensures
            r.create_time == create_time,
            r.modified_time == modified_time,
            r.permissions == permissions,
            r.is_dir == is_dir,
    {
        DocMetaData { create_time, modified_time, permissions, is_dir }
    }
}

/// One registered document: a unique id assigned by the registry and never
/// reused, the (informational) path it was read from, a metadata snapshot,
/// and the total number of tokens extracted from its content, used to
/// normalize relevance scores.
pub struct DocumentEntry {
    pub id: usize,
    pub path: String,
    pub metadata: DocMetaData,
    pub token_count: usize,
}

impl DocumentEntry {
    pub fn new(id: usize, path: String, metadata: DocMetaData, token_count: usize) -> (r:
        DocumentEntry)
        ensures
            r.id == id,
            r.path == path,
            r.metadata == metadata,
            r.token_count == token_count,
    {
        DocumentEntry { id, path, metadata, token_count }
    }
}

} // verus!
