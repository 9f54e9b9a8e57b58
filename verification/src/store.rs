//! The record store: a keyed, upsert-capable store of file and directory
//! records, the one place scan results live. Both tables are keyed by path;
//! an upsert inserts a new row or replaces the row with the same path.

use vstd::prelude::*;
use crate::records::{DirectoryRecord, DirectoryRecordModel, FileRecord, FileRecordModel};

verus! {

/// The file record whose path is `p`, looked up from index `i` on.
pub open spec fn find_file_from(s: Seq<FileRecordModel>, p: Seq<char>, i: nat) -> Option<
    FileRecordModel,
>
    decreases s.len() - i,
{
    if i >= s.len() {
        None
    } else if s[i as int].path == p {
        Some(s[i as int])
    } else {
        find_file_from(s, p, i + 1)
    }
}

/// The file record whose path is `p`, if any.
pub open spec fn find_file(s: Seq<FileRecordModel>, p: Seq<char>) -> Option<FileRecordModel> {
    find_file_from(s, p, 0)
}

/// Insert-or-replace keyed by path, from index `i` on.
pub open spec fn upsert_file_from(s: Seq<FileRecordModel>, r: FileRecordModel, i: nat) -> Seq<
    FileRecordModel,
>
    decreases s.len() - i,
{
    if i >= s.len() {
        s.push(r)
    } else if s[i as int].path == r.path {
        s.update(i as int, r)
    } else {
        upsert_file_from(s, r, i + 1)
    }
}

/// Insert-or-replace of a file record, keyed by path.
pub open spec fn upsert_file(s: Seq<FileRecordModel>, r: FileRecordModel) -> Seq<FileRecordModel> {
    upsert_file_from(s, r, 0)
}

/// The directory record whose path is `p`, looked up from index `i` on.
pub open spec fn find_dir_from(s: Seq<DirectoryRecordModel>, p: Seq<char>, i: nat) -> Option<
    DirectoryRecordModel,
>
    decreases s.len() - i,
{
    if i >= s.len() {
        None
    } else if s[i as int].path == p {
        Some(s[i as int])
    } else {
        find_dir_from(s, p, i + 1)
    }
}

/// The directory record whose path is `p`, if any.
pub open spec fn find_dir(s: Seq<DirectoryRecordModel>, p: Seq<char>) -> Option<
    DirectoryRecordModel,
> {
    find_dir_from(s, p, 0)
}

/// Insert-or-replace keyed by path, from index `i` on.
pub open spec fn upsert_dir_from(s: Seq<DirectoryRecordModel>, r: DirectoryRecordModel, i: nat) -> Seq<
    DirectoryRecordModel,
>
    decreases s.len() - i,
{
    if i >= s.len() {
        s.push(r)
    } else if s[i as int].path == r.path {
        s.update(i as int, r)
    } else {
        upsert_dir_from(s, r, i + 1)
    }
}

/// Insert-or-replace of a directory record, keyed by path.
pub open spec fn upsert_dir(s: Seq<DirectoryRecordModel>, r: DirectoryRecordModel) -> Seq<
    DirectoryRecordModel,
> {
    upsert_dir_from(s, r, 0)
}

/// The in-memory record store for one invocation: all file records (the
/// change-detection cache included) and all directory records, across every
/// scanned root.
///
/// Rows are only ever inserted or replaced, never deleted: a record for a
/// path that has since vanished from disk stays. That is a deliberate,
/// visible choice — harmless for correctness, since lookups are by path and
/// every directory is recomputed each run, but the store grows with every
/// distinct path ever scanned.
pub struct Store {
    files: Vec<FileRecord>,
    dirs: Vec<DirectoryRecord>,
}

impl Store {
    /// All file records, as the store's abstract state.
    pub closed spec fn files_view(&self) -> Seq<FileRecordModel> {
        self.files.deep_view()
    }

    /// All directory records, as the store's abstract state.
    pub closed spec fn dirs_view(&self) -> Seq<DirectoryRecordModel> {
        self.dirs.deep_view()
    }

    /// An empty store.
    pub fn new() -> (r: Store)
        ensures
            r.files_view() == Seq::<FileRecordModel>::empty(),
            r.dirs_view() == Seq::<DirectoryRecordModel>::empty(),
    {
        let r = Store { files: Vec::new(), dirs: Vec::new() };
        proof {
            assert(r.files_view() =~= Seq::<FileRecordModel>::empty());
            assert(r.dirs_view() =~= Seq::<DirectoryRecordModel>::empty());
        }
        r
    }

    /// All file records, readable in place.
    pub fn files(&self) -> (r: &Vec<FileRecord>)
        ensures
            r.deep_view() == self.files_view(),
    {
        &self.files
    }

    /// All directory records, readable in place.
    pub fn dirs(&self) -> (r: &Vec<DirectoryRecord>)
        ensures
            r.deep_view() == self.dirs_view(),
    {
        &self.dirs
    }

    /// Insert-or-replace of a file record, keyed by path.
    pub fn upsert_file(&mut self, r: FileRecord)
        ensures
            final(self).files_view() == upsert_file(old(self).files_view(), r@),
            final(self).dirs_view() == old(self).dirs_view(),
    {
        let ghost s = old(self).files_view();
        let ghost rv = r@;
        let mut i: usize = 0;
        while i < self.files.len()
            invariant
                i <= self.files.len(),
                self.files == old(self).files,
                self.dirs == old(self).dirs,
                s == self.files.deep_view(),
                s.len() == self.files@.len(),
                rv == r@,
                upsert_file(s, rv) == upsert_file_from(s, rv, i as nat),
            decreases self.files.len() - i,
        {
            if self.files[i].path == r.path {
                proof {
                    assert(s[i as int] == self.files@[i as int]@);
                    assert(upsert_file_from(s, rv, i as nat) == s.update(i as int, rv));
                }
                self.files.set(i, r);
                proof {
                    assert(self.files.deep_view() =~= s.update(i as int, rv));
                }
                return ;
            }
            proof {
                assert(s[i as int] == self.files@[i as int]@);
                assert(upsert_file_from(s, rv, i as nat) == upsert_file_from(
                    s,
                    rv,
                    (i + 1) as nat,
                ));
            }
            i = i + 1;
        }
        proof {
            assert(upsert_file_from(s, rv, i as nat) == s.push(rv));
        }
        self.files.push(r);
        proof {
            assert(self.files.deep_view() =~= s.push(rv));
        }
    }

    /// Insert-or-replace of a directory record, keyed by path.
    pub fn upsert_dir(&mut self, r: DirectoryRecord)
        ensures
            final(self).dirs_view() == upsert_dir(old(self).dirs_view(), r@),
            final(self).files_view() == old(self).files_view(),
    {
        let ghost s = old(self).dirs_view();
        let ghost rv = r@;
        let mut i: usize = 0;
        while i < self.dirs.len()
            invariant
                i <= self.dirs.len(),
                self.dirs == old(self).dirs,
                self.files == old(self).files,
                s == self.dirs.deep_view(),
                s.len() == self.dirs@.len(),
                rv == r@,
                upsert_dir(s, rv) == upsert_dir_from(s, rv, i as nat),
            decreases self.dirs.len() - i,
        {
            if self.dirs[i].path == r.path {
                proof {
                    assert(s[i as int] == self.dirs@[i as int]@);
                    assert(upsert_dir_from(s, rv, i as nat) == s.update(i as int, rv));
                }
                self.dirs.set(i, r);
                proof {
                    assert(self.dirs.deep_view() =~= s.update(i as int, rv));
                }
                return ;
            }
            proof {
                assert(s[i as int] == self.dirs@[i as int]@);
                assert(upsert_dir_from(s, rv, i as nat) == upsert_dir_from(
                    s,
                    rv,
                    (i + 1) as nat,
                ));
            }
            i = i + 1;
        }
        proof {
            assert(upsert_dir_from(s, rv, i as nat) == s.push(rv));
        }
        self.dirs.push(r);
        proof {
            assert(self.dirs.deep_view() =~= s.push(rv));
        }
    }

    /// Lookup of a file record by path.
    pub fn lookup_file(&self, path: &String) -> (r: Option<&FileRecord>)
        ensures
            match r {
                Some(rec) => find_file(self.files_view(), path@) == Some(rec@),
                None => find_file(self.files_view(), path@) == None::<FileRecordModel>,
            },
    {
        let ghost s = self.files.deep_view();
        let mut i: usize = 0;
        while i < self.files.len()
            invariant
                i <= self.files.len(),
                s == self.files.deep_view(),
                s.len() == self.files@.len(),
                find_file(s, path@) == find_file_from(s, path@, i as nat),
            decreases self.files.len() - i,
        {
            if self.files[i].path == *path {
                return Some(&self.files[i]);
            }
            i = i + 1;
        }
        None
    }

    /// Lookup of a directory record by path.
    pub fn lookup_dir(&self, path: &String) -> (r: Option<&DirectoryRecord>)
        ensures
            match r {
                Some(rec) => find_dir(self.dirs_view(), path@) == Some(rec@),
                None => find_dir(self.dirs_view(), path@) == None::<DirectoryRecordModel>,
            },
    {
        let ghost s = self.dirs.deep_view();
        let mut i: usize = 0;
        while i < self.dirs.len()
            invariant
                i <= self.dirs.len(),
                s == self.dirs.deep_view(),
                s.len() == self.dirs@.len(),
                find_dir(s, path@) == find_dir_from(s, path@, i as nat),
            decreases self.dirs.len() - i,
        {
            if self.dirs[i].path == *path {
                return Some(&self.dirs[i]);
            }
            i = i + 1;
        }
        None
    }
}

} // verus!
