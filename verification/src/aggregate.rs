//! The directory aggregator: for one directory, collect its immediate
//! children (the run's file entries grouped by parent, and already
//! finalized subdirectory records), sort them by name for determinism,
//! compute the composite digest over a canonical byte encoding of the
//! sorted `(relative_name, digest)` pairs, sum the children's sizes, and
//! upsert the resulting directory record.
//!
//! Directories must be processed deepest-first (`paths::sort_dirs_by_depth`)
//! so every subdirectory record is finalized before its parent reads it.

use vstd::prelude::*;
use vstd::relations::{sorted_by, total_ordering};
use vstd::seq_lib::lemma_sorted_unique;
use vstd::string::StringSliceAdditionalSpecFns;
use vstd::utf8::encode_utf8;
use crate::hashing::{digest_bytes, sha256_hex};
use crate::lex::{
    chars_lt, lemma_chars_lt_asym, lemma_chars_lt_connected, lemma_chars_lt_irrefl,
    lemma_chars_lt_trans, str_lt,
};
use crate::paths::{base_name, base_name_of, parent_dir, parent_of};
use crate::records::{DedupError, DirectoryRecord, DirectoryRecordModel, FileEntryModel};
use crate::scanner::ScanState;
use crate::store::{upsert_dir, Store};

verus! {

/// An immediate child of a directory, reduced to what the composite digest
/// and the size sum depend on: its name relative to the directory, its
/// digest, its size, and its kind.
pub struct Child {
    pub name: String,
    pub digest: String,
    pub size: u64,
    pub is_dir: bool,
}

/// Mathematical image of a `Child`.
pub ghost struct ChildModel {
    pub name: Seq<char>,
    pub digest: Seq<char>,
    pub size: u64,
    pub is_dir: bool,
}

impl View for Child {
    type V = ChildModel;

    open spec fn view(&self) -> ChildModel {
        ChildModel {
            name: self.name@,
            digest: self.digest@,
            size: self.size,
            is_dir: self.is_dir,
        }
    }
}

impl DeepView for Child {
    type V = ChildModel;

    open spec fn deep_view(&self) -> ChildModel {
        self.view()
    }
}

impl Clone for Child {
    fn clone(&self) -> (r: Self)
        ensures
            r@ == self@,
    {
        Child {
            name: self.name.clone(),
            digest: self.digest.clone(),
            size: self.size,
            is_dir: self.is_dir,
        }
    }
}

/// The order children are hashed in: by name, a file before a directory of
/// the same name, further fields only as determinism tie-breaks.
pub open spec fn child_le(a: ChildModel, b: ChildModel) -> bool {
    if a.name != b.name {
        chars_lt(a.name, b.name)
    } else if a.is_dir != b.is_dir {
        !a.is_dir
    } else if a.digest != b.digest {
        chars_lt(a.digest, b.digest)
    } else {
        a.size <= b.size
    }
}

/// `child_le` as a relation value, for sorting.
pub open spec fn child_leq() -> spec_fn(ChildModel, ChildModel) -> bool {
    |a: ChildModel, b: ChildModel| child_le(a, b)
}

/// The child order is a total ordering, so a sorted permutation is unique.
pub proof fn lemma_child_le_total_ordering()
    ensures
        total_ordering(child_leq()),
{
    let leq = child_leq();
    assert forall|x: ChildModel| #[trigger] leq(x, x) by {
        lemma_chars_lt_irrefl(x.name);
    }
    assert forall|x: ChildModel, y: ChildModel| #[trigger] leq(x, y) && #[trigger] leq(y, x)
        implies x == y by {
        lemma_chars_lt_asym(x.name, y.name);
        lemma_chars_lt_asym(x.digest, y.digest);
    }
    assert forall|x: ChildModel, y: ChildModel, z: ChildModel|
        #[trigger] leq(x, y) && #[trigger] leq(y, z) implies leq(x, z) by {
        if x.name != y.name || y.name != z.name {
            if x.name != y.name && y.name != z.name {
                lemma_chars_lt_trans(x.name, y.name, z.name);
                lemma_chars_lt_asym(x.name, y.name);
                if x.name == z.name {
                    lemma_chars_lt_asym(x.name, y.name);
                    assert(chars_lt(x.name, y.name) && chars_lt(y.name, x.name));
                }
            }
        } else {
            if x.is_dir == y.is_dir && y.is_dir == z.is_dir {
                if x.digest != y.digest && y.digest != z.digest {
                    lemma_chars_lt_trans(x.digest, y.digest, z.digest);
                    if x.digest == z.digest {
                        lemma_chars_lt_asym(x.digest, y.digest);
                        assert(chars_lt(x.digest, y.digest) && chars_lt(y.digest, x.digest));
                    }
                }
            }
        }
    }
    assert forall|x: ChildModel, y: ChildModel| #[trigger] leq(x, y) || #[trigger] leq(y, x) by {
        lemma_chars_lt_connected(x.name, y.name);
        lemma_chars_lt_connected(x.digest, y.digest);
    }
}

/// The child a scanned file entry contributes to its parent.
pub open spec fn file_child(e: FileEntryModel) -> ChildModel {
    ChildModel { name: base_name(e.path), digest: e.hash, size: e.size, is_dir: false }
}

/// The child a finalized directory record contributes to its parent.
pub open spec fn dir_child(r: DirectoryRecordModel) -> ChildModel {
    ChildModel { name: base_name(r.path), digest: r.digest, size: r.total_size, is_dir: true }
}

/// The immediate children of directory `d`: the run's file entries whose
/// parent is `d`, then the stored directory records whose parent is `d`,
/// in store order (the composite digest does not depend on that order,
/// since the children are sorted before hashing).
pub open spec fn children_of(
    entries: Seq<FileEntryModel>,
    dirs: Seq<DirectoryRecordModel>,
    d: Seq<char>,
) -> Seq<ChildModel> {
    entries.filter(|e: FileEntryModel| parent_of(e.path) == d).map_values(
        |e: FileEntryModel| file_child(e),
    ) + dirs.filter(|r: DirectoryRecordModel| parent_of(r.path) == d).map_values(
        |r: DirectoryRecordModel| dir_child(r),
    )
}

/// The canonical byte encoding of one child: its relative name, a
/// separator byte `:`, its digest, and a terminator byte `\n`.
pub open spec fn encode_child(c: ChildModel) -> Seq<u8> {
    encode_utf8(c.name) + seq![58u8] + encode_utf8(c.digest) + seq![10u8]
}

/// The canonical byte encoding of a child list, in the given order.
pub open spec fn encode_children(s: Seq<ChildModel>) -> Seq<u8>
    decreases s.len(),
{
    if s.len() == 0 {
        Seq::empty()
    } else {
        encode_children(s.drop_last()) + encode_child(s.last())
    }
}

/// Total size of a child list.
pub open spec fn sum_sizes(s: Seq<ChildModel>) -> int
    decreases s.len(),
{
    if s.len() == 0 {
        0
    } else {
        sum_sizes(s.drop_last()) + s.last().size
    }
}

/// The composite digest of a directory with the given children: SHA-256
/// over the canonical encoding of the name-sorted child list.
pub open spec fn dir_digest(children: Seq<ChildModel>) -> Seq<char> {
    sha256_hex(encode_children(children.sort_by(child_leq())))
}

/// The directory record the aggregator produces for directory `d`.
pub open spec fn aggregated_record(
    entries: Seq<FileEntryModel>,
    dirs: Seq<DirectoryRecordModel>,
    d: Seq<char>,
) -> DirectoryRecordModel {
    (DirectoryRecordModel {
        path: d,
        digest: dir_digest(children_of(entries, dirs, d)),
        total_size: sum_sizes(children_of(entries, dirs, d)) as u64,
    })
}

/// Executable child order.
fn child_le_exec(a: &Child, b: &Child) -> (r: bool)
    ensures
        r == child_le(a@, b@),
{
    let names_eq = a.name == b.name;
    if !names_eq {
        str_lt(a.name.as_str(), b.name.as_str())
    } else if a.is_dir != b.is_dir {
        !a.is_dir
    } else {
        let digests_eq = a.digest == b.digest;
        if !digests_eq {
            str_lt(a.digest.as_str(), b.digest.as_str())
        } else {
            a.size <= b.size
        }
    }
}

/// Position at which a child is inserted to keep a sorted sequence sorted:
/// after everything that is `child_le` it.
fn child_insert_pos(out: &Vec<Child>, x: &Child) -> (j: usize)
    ensures
        j <= out.deep_view().len(),
        forall|k: int| 0 <= k < j ==> child_le(#[trigger] out.deep_view()[k], x@),
        j < out.deep_view().len() ==> !child_le(out.deep_view()[j as int], x@),
{
    let mut j: usize = 0;
    while j < out.len()
        invariant
            j <= out.deep_view().len(),
            out.deep_view().len() == out@.len(),
            forall|k: int| 0 <= k < j ==> child_le(#[trigger] out.deep_view()[k], x@),
        decreases out.len() - j,
    {
        if !child_le_exec(&out[j], x) {
            proof {
                assert(out.deep_view()[j as int] == out@[j as int]@);
            }
            return j;
        }
        proof {
            assert(out.deep_view()[j as int] == out@[j as int]@);
        }
        j = j + 1;
    }
    j
}

/// Sorts a child list by the child order; the result is exactly the
/// mathematical sort of the input.
fn sort_children(input: &Vec<Child>) -> (r: Vec<Child>)
    ensures
        r.deep_view() == input.deep_view().sort_by(child_leq()),
{
    proof {
        lemma_child_le_total_ordering();
    }
    let ghost iv = input.deep_view();
    let ghost leq = child_leq();
    let mut out: Vec<Child> = Vec::new();
    proof {
        assert(out.deep_view() =~= iv.subrange(0, 0));
    }
    let mut i: usize = 0;
    while i < input.len()
        invariant
            i <= input.len(),
            iv == input.deep_view(),
            iv.len() == input@.len(),
            leq == child_leq(),
            total_ordering(leq),
            out.deep_view().to_multiset() == iv.subrange(0, i as int).to_multiset(),
            sorted_by(out.deep_view(), leq),
        decreases input.len() - i,
    {
        let x = input[i].clone();
        let j = child_insert_pos(&out, &x);
        let ghost old_out = out.deep_view();
        out.insert(j, x);
        proof {
            let newv = out.deep_view();
            assert(newv =~= old_out.insert(j as int, x@));
            crate::seqs::lemma_insert_to_multiset(old_out, j as int, x@);
            crate::seqs::lemma_push_to_multiset(iv.subrange(0, i as int), iv[i as int]);
            assert(iv.subrange(0, i + 1 as int) =~= iv.subrange(0, i as int).push(iv[i as int]));
            assert(x@ == iv[i as int]);
            assert(newv.to_multiset() =~= iv.subrange(0, i + 1 as int).to_multiset());
            assert forall|a: int, b: int| 0 <= a < b < newv.len() implies #[trigger] leq(
                newv[a],
                newv[b],
            ) by {
                assert(forall|k: int| 0 <= k < j ==> newv[k] == old_out[k]);
                assert(newv[j as int] == x@);
                assert(forall|k: int| j < k < newv.len() ==> newv[k] == old_out[k - 1]);
                if b > j {
                    assert(!child_le(old_out[j as int], x@));
                    assert(leq(old_out[j as int], x@) || leq(x@, old_out[j as int]));
                    assert(leq(x@, old_out[j as int]));
                    if b - 1 > j {
                        assert(leq(old_out[j as int], old_out[b - 1]));
                    }
                }
            }
        }
        i = i + 1;
    }
    proof {
        assert(iv.subrange(0, iv.len() as int) =~= iv);
        iv.lemma_sort_by_ensures(leq);
        lemma_sorted_unique(out.deep_view(), iv.sort_by(leq), leq);
        assert(out.deep_view() =~= iv.sort_by(leq));
    }
    out
}

/// Appends a byte slice.
fn append_slice(dst: &mut Vec<u8>, src: &[u8])
    ensures
        final(dst)@ == old(dst)@ + src@,
{
    let ghost base = dst@;
    let mut i: usize = 0;
    while i < src.len()
        invariant
            i <= src@.len(),
            dst@ == base + src@.subrange(0, i as int),
        decreases src@.len() - i,
    {
        dst.push(src[i]);
        proof {
            assert(base + src@.subrange(0, i + 1 as int) =~= (base + src@.subrange(
                0,
                i as int,
            )).push(src@[i as int]));
        }
        i = i + 1;
    }
    proof {
        assert(src@.subrange(0, src@.len() as int) =~= src@);
    }
}

/// Builds the canonical byte encoding of a child list, in order.
fn encode_children_exec(children: &Vec<Child>) -> (r: Vec<u8>)
    ensures
        r@ == encode_children(children.deep_view()),
{
    let ghost cv = children.deep_view();
    let mut out: Vec<u8> = Vec::new();
    proof {
        assert(out@ =~= encode_children(cv.subrange(0, 0)));
    }
    let mut i: usize = 0;
    while i < children.len()
        invariant
            i <= children.len(),
            cv == children.deep_view(),
            cv.len() == children@.len(),
            out@ == encode_children(cv.subrange(0, i as int)),
        decreases children.len() - i,
    {
        let ghost before = out@;
        append_slice(&mut out, children[i].name.as_str().as_bytes());
        out.push(58);
        append_slice(&mut out, children[i].digest.as_str().as_bytes());
        out.push(10);
        proof {
            let c = cv[i as int];
            assert(c == children@[i as int]@);
            assert(children@[i as int].name@ == c.name);
            assert(out@ =~= before + encode_child(c));
            let cur = cv.subrange(0, i + 1 as int);
            assert(cur.drop_last() =~= cv.subrange(0, i as int));
            assert(cur.last() == c);
            assert(out@ =~= encode_children(cur));
        }
        i = i + 1;
    }
    proof {
        assert(cv.subrange(0, cv.len() as int) =~= cv);
    }
    out
}

/// Sums the sizes of a child list; `u128` cannot overflow here.
fn sum_sizes_exec(children: &Vec<Child>) -> (r: u128)
    ensures
        r as int == sum_sizes(children.deep_view()),
{
    let ghost cv = children.deep_view();
    let mut total: u128 = 0;
    let mut i: usize = 0;
    while i < children.len()
        invariant
            i <= children.len(),
            cv == children.deep_view(),
            cv.len() == children@.len(),
            total as int == sum_sizes(cv.subrange(0, i as int)),
            total as int <= (i as int) * (u64::MAX as int),
        decreases children.len() - i,
    {
        proof {
            let cur = cv.subrange(0, i + 1 as int);
            assert(cur.drop_last() =~= cv.subrange(0, i as int));
            assert(cur.last() == cv[i as int]);
            assert(cv[i as int] == children@[i as int]@);
            assert((i as int + 1) * (u64::MAX as int) == (i as int) * (u64::MAX as int) + (
            u64::MAX as int));
            assert((i as int + 1) * (u64::MAX as int) <= u128::MAX as int) by (nonlinear_arith)
                requires
                    0 <= i + 1 <= u64::MAX as int + 1,
            ;
        }
        total = total + (children[i].size as u128);
        i = i + 1;
    }
    proof {
        assert(cv.subrange(0, cv.len() as int) =~= cv);
    }
    total
}

/// Aggregates one directory: collects its immediate children from the
/// run's file entries and the already finalized directory records, sorts
/// them by name, computes the composite digest and the total size, and
/// upserts the directory record. Fails, leaving the store unchanged, only
/// when the total size does not fit in 64 bits.
pub fn aggregate_directory(store: &mut Store, scan: &ScanState, dir: &String) -> (r: Result<
    (),
    DedupError,
>)
    ensures
        match r {
            Ok(_) => {
                &&& sum_sizes(
                    children_of(scan.entries_view(), old(store).dirs_view(), dir@),
                ) <= u64::MAX
                &&& final(store).dirs_view() == upsert_dir(
                    old(store).dirs_view(),
                    aggregated_record(scan.entries_view(), old(store).dirs_view(), dir@),
                )
                &&& final(store).files_view() == old(store).files_view()
            },
            Err(e) => {
                &&& e == DedupError::SizeOverflow
                &&& sum_sizes(children_of(scan.entries_view(), old(store).dirs_view(), dir@))
                    > u64::MAX
                &&& final(store).dirs_view() == old(store).dirs_view()
                &&& final(store).files_view() == old(store).files_view()
            },
        },
{
    let children = collect_children(scan, store, dir);
    let total = sum_sizes_exec(&children);
    if total > u64::MAX as u128 {
        return Err(DedupError::SizeOverflow);
    }
    let sorted = sort_children(&children);
    let bytes = encode_children_exec(&sorted);
    let digest = digest_bytes(&bytes);
    let record = DirectoryRecord { path: dir.clone(), digest: digest, total_size: total as u64 };
    store.upsert_dir(record);
    Ok(())
}

/// Collects the immediate children of `dir` for this run: scanned file
/// entries first, then stored directory records, each filtered to those
/// whose parent is `dir`.
fn collect_children(scan: &ScanState, store: &Store, dir: &String) -> (r: Vec<Child>)
    ensures
        r.deep_view() == children_of(scan.entries_view(), store.dirs_view(), dir@),
{
    let ghost ev = scan.entries_view();
    let ghost dv = store.dirs_view();
    let ghost fpred = |e: FileEntryModel| parent_of(e.path) == dir@;
    let ghost fmap = |e: FileEntryModel| file_child(e);
    let ghost dpred = |r: DirectoryRecordModel| parent_of(r.path) == dir@;
    let ghost dmap = |r: DirectoryRecordModel| dir_child(r);
    let mut out: Vec<Child> = Vec::new();
    proof {
        assert(ev.subrange(0, 0).filter(fpred) =~= Seq::<FileEntryModel>::empty()) by {
            reveal(Seq::filter);
        }
        assert(out.deep_view() =~= ev.subrange(0, 0).filter(fpred).map_values(fmap));
    }
    let mut i: usize = 0;
    while i < scan.entries.len()
        invariant
            i <= scan.entries.len(),
            ev == scan.entries_view(),
            ev.len() == scan.entries@.len(),
            fpred == (|e: FileEntryModel| parent_of(e.path) == dir@),
            fmap == (|e: FileEntryModel| file_child(e)),
            out.deep_view() == ev.subrange(0, i as int).filter(fpred).map_values(fmap),
        decreases scan.entries.len() - i,
    {
        let e = &scan.entries[i];
        let parent = parent_dir(e.path.as_str());
        proof {
            assert(ev[i as int] == scan.entries@[i as int]@);
            assert(ev.subrange(0, i + 1 as int) =~= ev.subrange(0, i as int).push(ev[i as int]));
            crate::seqs::lemma_filter_map_push(ev.subrange(0, i as int), ev[i as int], fpred, fmap);
        }
        if parent == *dir {
            let name = base_name_of(e.path.as_str());
            let child = Child { name: name, digest: e.hash.clone(), size: e.size, is_dir: false };
            let ghost before = out.deep_view();
            out.push(child);
            proof {
                assert(out.deep_view() =~= before.push(file_child(ev[i as int])));
            }
        }
        i = i + 1;
    }
    proof {
        assert(ev.subrange(0, ev.len() as int) =~= ev);
    }
    let ghost files_part = ev.filter(fpred).map_values(fmap);
    let dirs = store.dirs();
    proof {
        assert(dv.subrange(0, 0).filter(dpred) =~= Seq::<DirectoryRecordModel>::empty()) by {
            reveal(Seq::filter);
        }
        assert(out.deep_view() =~= files_part + dv.subrange(0, 0).filter(dpred).map_values(dmap));
    }
    let mut k: usize = 0;
    while k < dirs.len()
        invariant
            k <= dirs.len(),
            dv == dirs.deep_view(),
            dv.len() == dirs@.len(),
            dpred == (|r: DirectoryRecordModel| parent_of(r.path) == dir@),
            dmap == (|r: DirectoryRecordModel| dir_child(r)),
            files_part == ev.filter(fpred).map_values(fmap),
            out.deep_view() == files_part + dv.subrange(0, k as int).filter(dpred).map_values(dmap),
        decreases dirs.len() - k,
    {
        let rec = &dirs[k];
        let parent = parent_dir(rec.path.as_str());
        proof {
            assert(dv[k as int] == dirs@[k as int]@);
            assert(dv.subrange(0, k + 1 as int) =~= dv.subrange(0, k as int).push(dv[k as int]));
            crate::seqs::lemma_filter_map_push(dv.subrange(0, k as int), dv[k as int], dpred, dmap);
        }
        if parent == *dir {
            let name = base_name_of(rec.path.as_str());
            let child = Child {
                name: name,
                digest: rec.digest.clone(),
                size: rec.total_size,
                is_dir: true,
            };
            let ghost before = out.deep_view();
            out.push(child);
            proof {
                assert(out.deep_view() =~= before.push(dir_child(dv[k as int])));
                assert(out.deep_view() =~= files_part + dv.subrange(0, k + 1 as int).filter(
                    dpred,
                ).map_values(dmap));
            }
        }
        k = k + 1;
    }
    proof {
        assert(dv.subrange(0, dv.len() as int) =~= dv);
    }
    out
}

} // verus!
