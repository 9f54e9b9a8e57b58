//! The file scanner's per-file logic: decide from the change-detection
//! cache whether a file must be rehashed, and emit one `FileEntry` per
//! regular file of the run, either from fresh content or from the cache.
//!
//! The traversal itself (walking a root, reading metadata and content) is
//! outside work; it hands each file's path, size, modified time and, when a
//! rehash is needed, content to these functions.

use vstd::prelude::*;
use crate::hashing::{digest_bytes, is_digest, sha256_hex};
use crate::records::{FileEntry, FileEntryModel, FileRecord, FileRecordModel};
use crate::store::{find_file, upsert_file, Store};

verus! {

/// A file must be rehashed when the cache has no record for its path, or
/// when the recorded modified-time differs from the current one (exact
/// equality; second resolution is an accepted limitation).
pub open spec fn needs_rehash_spec(
    files: Seq<FileRecordModel>,
    path: Seq<char>,
    modified: i64,
) -> bool {
    match find_file(files, path) {
        None => true,
        Some(rec) => rec.modified_time != modified,
    }
}

/// The change-detection predicate: true exactly when the file at `path`
/// with current modified-time `modified` has to be read and rehashed.
pub fn needs_rehash(store: &Store, path: &String, modified: i64) -> (r: bool)
    ensures
        r == needs_rehash_spec(store.files_view(), path@, modified),
{
    match store.lookup_file(path) {
        None => true,
        Some(rec) => rec.modified_time != modified,
    }
}

/// The file entries emitted so far in the current run, in traversal order,
/// for hand-off to the directory aggregator.
pub struct ScanState {
    pub entries: Vec<FileEntry>,
}

impl ScanState {
    /// The emitted entries, abstractly.
    pub open spec fn entries_view(&self) -> Seq<FileEntryModel> {
        self.entries.deep_view()
    }

    /// A scan with nothing emitted yet.
    pub fn new() -> (r: ScanState)
        ensures
            r.entries_view() == Seq::<FileEntryModel>::empty(),
    {
        let r = ScanState { entries: Vec::new() };
        proof {
            assert(r.entries_view() =~= Seq::<FileEntryModel>::empty());
        }
        r
    }
}

/// Records a freshly read file: digests its content, writes the record
/// through to the store (insert-or-replace by path), and emits the entry.
pub fn record_fresh_file(
    store: &mut Store,
    scan: &mut ScanState,
    path: &String,
    content: &Vec<u8>,
    size: u64,
    modified: i64,
)
    ensures
        final(store).files_view() == upsert_file(
            old(store).files_view(),
            FileRecordModel {
                path: path@,
                digest: sha256_hex(content@),
                size: size,
                modified_time: modified,
            },
        ),
        final(store).dirs_view() == old(store).dirs_view(),
        final(scan).entries_view() == old(scan).entries_view().push(
            FileEntryModel { path: path@, hash: sha256_hex(content@), size: size },
        ),
{
    let digest = digest_bytes(content);
    let entry = FileEntry { path: path.clone(), hash: digest.clone(), size: size };
    let record = FileRecord {
        path: path.clone(),
        digest: digest,
        size: size,
        modified_time: modified,
    };
    store.upsert_file(record);
    let ghost before = scan.entries.deep_view();
    scan.entries.push(entry);
    proof {
        assert(scan.entries.deep_view() =~= before.push(
            FileEntryModel { path: path@, hash: sha256_hex(content@), size: size },
        ));
    }
}

/// Emits the entry for an unchanged file from its cached record, without
/// reading the file's bytes. Returns false when the cache unexpectedly has
/// no record for the path — the caller then treats the file as changed and
/// rehashes it — and true otherwise.
pub fn record_cached_file(store: &Store, scan: &mut ScanState, path: &String) -> (found: bool)
    ensures
        found == (find_file(store.files_view(), path@) is Some),
        match find_file(store.files_view(), path@) {
            Some(rec) => final(scan).entries_view() == old(scan).entries_view().push(
                FileEntryModel { path: path@, hash: rec.digest, size: rec.size },
            ),
            None => final(scan).entries_view() == old(scan).entries_view(),
        },
{
    match store.lookup_file(path) {
        None => false,
        Some(rec) => {
            let entry = FileEntry { path: path.clone(), hash: rec.digest.clone(), size: rec.size };
            let ghost before = scan.entries.deep_view();
            let ghost ev = entry@;
            scan.entries.push(entry);
            proof {
                assert(scan.entries.deep_view() =~= before.push(ev));
            }
            true
        },
    }
}

} // verus!
