//! The data model: one record per regular file, one per directory, and the
//! transient per-run entry the scanner emits for the aggregator.

use vstd::prelude::*;

verus! {

/// The one failure the in-memory engine itself can produce: a size total
/// that does not fit in 64 bits. (Store and per-file I/O failures belong to
/// the surrounding program.)
#[derive(Clone, Copy, Debug, PartialEq, Eq, Structural)]
pub enum DedupError {
    SizeOverflow,
}

/// A scanned regular file: absolute normalized path, content digest (hex),
/// byte size, and last-modified time in seconds since the epoch. Persisted
/// as the change-detection cache.
pub struct FileRecord {
    pub path: String,
    pub digest: String,
    pub size: u64,
    pub modified_time: i64,
}

/// Mathematical image of a `FileRecord`.
pub ghost struct FileRecordModel {
    pub path: Seq<char>,
    pub digest: Seq<char>,
    pub size: u64,
    pub modified_time: i64,
}

impl View for FileRecord {
    type V = FileRecordModel;

    open spec fn view(&self) -> FileRecordModel {
        FileRecordModel {
            path: self.path@,
            digest: self.digest@,
            size: self.size,
            modified_time: self.modified_time,
        }
    }
}

impl DeepView for FileRecord {
    type V = FileRecordModel;

    open spec fn deep_view(&self) -> FileRecordModel {
        self.view()
    }
}

/// A directory's composite identity: path, composite digest of its
/// immediate children, and total size of its immediate children.
pub struct DirectoryRecord {
    pub path: String,
    pub digest: String,
    pub total_size: u64,
}

/// Mathematical image of a `DirectoryRecord`.
pub ghost struct DirectoryRecordModel {
    pub path: Seq<char>,
    pub digest: Seq<char>,
    pub total_size: u64,
}

impl View for DirectoryRecord {
    type V = DirectoryRecordModel;

    open spec fn view(&self) -> DirectoryRecordModel {
        DirectoryRecordModel {
            path: self.path@,
            digest: self.digest@,
            total_size: self.total_size,
        }
    }
}

impl DeepView for DirectoryRecord {
    type V = DirectoryRecordModel;

    open spec fn deep_view(&self) -> DirectoryRecordModel {
        self.view()
    }
}

/// What the scanner emits for each file of the current run, for grouping by
/// parent directory and aggregation.
pub struct FileEntry {
    pub path: String,
    pub hash: String,
    pub size: u64,
}

/// Mathematical image of a `FileEntry`.
pub ghost struct FileEntryModel {
    pub path: Seq<char>,
    pub hash: Seq<char>,
    pub size: u64,
}

impl View for FileEntry {
    type V = FileEntryModel;

    open spec fn view(&self) -> FileEntryModel {
        FileEntryModel { path: self.path@, hash: self.hash@, size: self.size }
    }
}

impl DeepView for FileEntry {
    type V = FileEntryModel;

    open spec fn deep_view(&self) -> FileEntryModel {
        self.view()
    }
}

} // verus!
