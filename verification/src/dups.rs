//! The duplicate index: two read-only queries over the record store.
//! Files are partitioned by digest; groups of two or more are returned
//! ordered by descending total duplicated bytes. Directories are
//! partitioned the same way and ordered by descending average member size.
//! Ties are broken by digest so the order is deterministic.

use vstd::prelude::*;
use crate::lex::{chars_lt, lemma_chars_lt_asym, lemma_chars_lt_connected, lemma_chars_lt_trans,
    str_lt};
use crate::records::{DedupError, DirectoryRecord, DirectoryRecordModel, FileRecord,
    FileRecordModel};
use crate::store::Store;

verus! {

/// One member of a duplicate group: its path and size.
pub struct GroupMember {
    pub path: String,
    pub size: u64,
}

/// Mathematical image of a `GroupMember`.
pub ghost struct GroupMemberModel {
    pub path: Seq<char>,
    pub size: u64,
}

impl View for GroupMember {
    type V = GroupMemberModel;

    open spec fn view(&self) -> GroupMemberModel {
        GroupMemberModel { path: self.path@, size: self.size }
    }
}

impl DeepView for GroupMember {
    type V = GroupMemberModel;

    open spec fn deep_view(&self) -> GroupMemberModel {
        self.view()
    }
}

/// A group of records sharing one digest: the digest, how many members,
/// their total size, and the members themselves in store order.
pub struct DuplicateGroup {
    pub digest: String,
    pub count: u64,
    pub total_size: u64,
    pub members: Vec<GroupMember>,
}

/// Mathematical image of a `DuplicateGroup`.
pub ghost struct DuplicateGroupModel {
    pub digest: Seq<char>,
    pub count: u64,
    pub total_size: u64,
    pub members: Seq<GroupMemberModel>,
}

impl View for DuplicateGroup {
    type V = DuplicateGroupModel;

    open spec fn view(&self) -> DuplicateGroupModel {
        DuplicateGroupModel {
            digest: self.digest@,
            count: self.count,
            total_size: self.total_size,
            members: self.members.deep_view(),
        }
    }
}

impl DeepView for DuplicateGroup {
    type V = DuplicateGroupModel;

    open spec fn deep_view(&self) -> DuplicateGroupModel {
        self.view()
    }
}

/// The member a file record contributes.
pub open spec fn file_member(r: FileRecordModel) -> GroupMemberModel {
    GroupMemberModel { path: r.path, size: r.size }
}

/// The member a directory record contributes.
pub open spec fn dir_member(r: DirectoryRecordModel) -> GroupMemberModel {
    GroupMemberModel { path: r.path, size: r.total_size }
}

/// All file records with digest `d`, as members, in store order.
pub open spec fn file_members_of(files: Seq<FileRecordModel>, d: Seq<char>) -> Seq<
    GroupMemberModel,
> {
    files.filter(|r: FileRecordModel| r.digest == d).map_values(
        |r: FileRecordModel| file_member(r),
    )
}

/// All directory records with digest `d`, as members, in store order.
pub open spec fn dir_members_of(dirs: Seq<DirectoryRecordModel>, d: Seq<char>) -> Seq<
    GroupMemberModel,
> {
    dirs.filter(|r: DirectoryRecordModel| r.digest == d).map_values(
        |r: DirectoryRecordModel| dir_member(r),
    )
}

/// Total size of a member list.
pub open spec fn sum_member_sizes(s: Seq<GroupMemberModel>) -> int
    decreases s.len(),
{
    if s.len() == 0 {
        0
    } else {
        sum_member_sizes(s.drop_last()) + s.last().size
    }
}

/// The group for digest `d` over the given members.
pub open spec fn group_of(d: Seq<char>, members: Seq<GroupMemberModel>) -> DuplicateGroupModel {
    (DuplicateGroupModel {
        digest: d,
        count: members.len() as u64,
        total_size: sum_member_sizes(members) as u64,
        members: members,
    })
}

/// True when index `i` is the first record with its digest.
pub open spec fn first_occ_file(files: Seq<FileRecordModel>, i: int) -> bool {
    forall|k: int| 0 <= k < i ==> files[k].digest != files[i].digest
}

/// True when index `i` is the first record with its digest.
pub open spec fn first_occ_dir(dirs: Seq<DirectoryRecordModel>, i: int) -> bool {
    forall|k: int| 0 <= k < i ==> dirs[k].digest != dirs[i].digest
}

/// The duplicate file groups from index `i` on, one per first occurrence of
/// a digest shared by at least two records, in first-occurrence order.
pub open spec fn file_groups_from(files: Seq<FileRecordModel>, i: nat) -> Seq<DuplicateGroupModel>
    decreases files.len() - i,
{
    if i >= files.len() {
        Seq::empty()
    } else if first_occ_file(files, i as int) && file_members_of(files, files[i as int].digest).len()
        >= 2 {
        seq![group_of(files[i as int].digest, file_members_of(files, files[i as int].digest))]
            + file_groups_from(files, i + 1)
    } else {
        file_groups_from(files, i + 1)
    }
}

/// The duplicate directory groups from index `i` on.
pub open spec fn dir_groups_from(dirs: Seq<DirectoryRecordModel>, i: nat) -> Seq<
    DuplicateGroupModel,
>
    decreases dirs.len() - i,
{
    if i >= dirs.len() {
        Seq::empty()
    } else if first_occ_dir(dirs, i as int) && dir_members_of(dirs, dirs[i as int].digest).len()
        >= 2 {
        seq![group_of(dirs[i as int].digest, dir_members_of(dirs, dirs[i as int].digest))]
            + dir_groups_from(dirs, i + 1)
    } else {
        dir_groups_from(dirs, i + 1)
    }
}

/// Some duplicate file group's total size does not fit in 64 bits.
pub open spec fn file_group_overflow(files: Seq<FileRecordModel>) -> bool {
    exists|i: int|
        0 <= i < files.len() && first_occ_file(files, i) && file_members_of(
            files,
            files[i].digest,
        ).len() >= 2 && sum_member_sizes(file_members_of(files, files[i].digest)) > u64::MAX
}

/// Some duplicate directory group's total size does not fit in 64 bits.
pub open spec fn dir_group_overflow(dirs: Seq<DirectoryRecordModel>) -> bool {
    exists|i: int|
        0 <= i < dirs.len() && first_occ_dir(dirs, i) && dir_members_of(dirs, dirs[i].digest).len()
            >= 2 && sum_member_sizes(dir_members_of(dirs, dirs[i].digest)) > u64::MAX
}

/// File group order: more duplicated bytes first, digest as tie-break.
pub open spec fn before_file(a: DuplicateGroupModel, b: DuplicateGroupModel) -> bool {
    a.total_size > b.total_size || (a.total_size == b.total_size && chars_lt(a.digest, b.digest))
}

/// Directory group order: larger average member size first (compared as
/// `total * other.count`, exact), digest as tie-break.
pub open spec fn before_dir(a: DuplicateGroupModel, b: DuplicateGroupModel) -> bool {
    a.total_size * b.count > b.total_size * a.count || (a.total_size * b.count == b.total_size
        * a.count && chars_lt(a.digest, b.digest))
}

/// Inserts a group in front of the first element it goes before.
pub open spec fn insert_group(
    s: Seq<DuplicateGroupModel>,
    g: DuplicateGroupModel,
    before: spec_fn(DuplicateGroupModel, DuplicateGroupModel) -> bool,
) -> Seq<DuplicateGroupModel>
    decreases s.len(),
{
    if s.len() == 0 {
        seq![g]
    } else if before(g, s[0]) {
        seq![g] + s
    } else {
        seq![s[0]] + insert_group(s.drop_first(), g, before)
    }
}

/// Insertion sort of groups, processing left to right.
pub open spec fn sort_groups(
    s: Seq<DuplicateGroupModel>,
    before: spec_fn(DuplicateGroupModel, DuplicateGroupModel) -> bool,
) -> Seq<DuplicateGroupModel>
    decreases s.len(),
{
    if s.len() == 0 {
        Seq::empty()
    } else {
        insert_group(sort_groups(s.drop_last(), before), s.last(), before)
    }
}

/// `before_file` as a relation value.
pub open spec fn file_before() -> spec_fn(DuplicateGroupModel, DuplicateGroupModel) -> bool {
    |a: DuplicateGroupModel, b: DuplicateGroupModel| before_file(a, b)
}

/// `before_dir` as a relation value.
pub open spec fn dir_before() -> spec_fn(DuplicateGroupModel, DuplicateGroupModel) -> bool {
    |a: DuplicateGroupModel, b: DuplicateGroupModel| before_dir(a, b)
}

/// What `duplicate_files` returns: the duplicate file groups, sorted.
pub open spec fn duplicate_file_groups(files: Seq<FileRecordModel>) -> Seq<DuplicateGroupModel> {
    sort_groups(file_groups_from(files, 0), file_before())
}

/// What `duplicate_directories` returns: the duplicate directory groups,
/// sorted.
pub open spec fn duplicate_dir_groups(dirs: Seq<DirectoryRecordModel>) -> Seq<
    DuplicateGroupModel,
> {
    sort_groups(dir_groups_from(dirs, 0), dir_before())
}

/// Inserting at the first position whose element the new group goes before
/// is exactly `insert_group`.
proof fn lemma_insert_group_at(
    s: Seq<DuplicateGroupModel>,
    g: DuplicateGroupModel,
    before: spec_fn(DuplicateGroupModel, DuplicateGroupModel) -> bool,
    j: int,
)
    requires
        0 <= j <= s.len(),
        forall|k: int| 0 <= k < j ==> !before(g, #[trigger] s[k]),
        j < s.len() ==> before(g, s[j]),
    ensures
        insert_group(s, g, before) == s.insert(j, g),
    decreases s.len(),
{
    if s.len() == 0 {
        assert(insert_group(s, g, before) =~= s.insert(0, g));
    } else if j == 0 {
        assert(before(g, s[0]));
        assert(insert_group(s, g, before) =~= s.insert(0, g));
    } else {
        assert(!before(g, s[0]));
        lemma_insert_group_at(s.drop_first(), g, before, j - 1);
        assert(insert_group(s, g, before) == seq![s[0]] + s.drop_first().insert(j - 1, g));
        assert(seq![s[0]] + s.drop_first().insert(j - 1, g) =~= s.insert(j, g));
    }
}

/// For the file order: whatever is not before `y` is not before anything
/// `y`-or-later, so inserting in front of the first later element keeps the
/// sequence ordered.
proof fn lemma_file_before_step(
    x: DuplicateGroupModel,
    y: DuplicateGroupModel,
    g: DuplicateGroupModel,
)
    requires
        before_file(g, y),
        !before_file(x, y),
    ensures
        !before_file(x, g),
{
    if g.total_size == y.total_size && x.total_size == y.total_size {
        lemma_chars_lt_asym(x.digest, y.digest);
        lemma_chars_lt_connected(x.digest, y.digest);
        if chars_lt(x.digest, g.digest) {
            if x.digest == y.digest {
                lemma_chars_lt_asym(g.digest, y.digest);
            } else {
                lemma_chars_lt_trans(y.digest, x.digest, g.digest);
                lemma_chars_lt_asym(g.digest, y.digest);
            }
        }
    }
}

/// The same step property for the directory (average-size) order; the
/// cross-multiplied comparisons compose because counts are positive.
proof fn lemma_dir_before_step(
    x: DuplicateGroupModel,
    y: DuplicateGroupModel,
    g: DuplicateGroupModel,
)
    requires
        x.count >= 1,
        y.count >= 1,
        g.count >= 1,
        before_dir(g, y),
        !before_dir(x, y),
    ensures
        !before_dir(x, g),
{
    let tx = x.total_size as int;
    let cx = x.count as int;
    let ty = y.total_size as int;
    let cy = y.count as int;
    let tg = g.total_size as int;
    let cg = g.count as int;
    if tg * cy > ty * cg {
        // g strictly larger than y; x is at most y, so x is strictly smaller than g.
        assert(tx * cy <= ty * cx);
        assert(tx * cg < tg * cx) by (nonlinear_arith)
            requires
                cx >= 1,
                cy >= 1,
                cg >= 1,
                tg * cy > ty * cg,
                tx * cy <= ty * cx,
        ;
    } else {
        assert(tg * cy == ty * cg && chars_lt(g.digest, y.digest));
        if tx * cy < ty * cx {
            assert(tx * cg < tg * cx) by (nonlinear_arith)
                requires
                    cx >= 1,
                    cy >= 1,
                    cg >= 1,
                    tg * cy == ty * cg,
                    tx * cy < ty * cx,
            ;
        } else {
            assert(tx * cy == ty * cx && !chars_lt(x.digest, y.digest));
            assert(tx * cg == tg * cx) by (nonlinear_arith)
                requires
                    cy >= 1,
                    tg * cy == ty * cg,
                    tx * cy == ty * cx,
            ;
            lemma_chars_lt_asym(x.digest, y.digest);
            lemma_chars_lt_connected(x.digest, y.digest);
            if chars_lt(x.digest, g.digest) {
                if x.digest == y.digest {
                    lemma_chars_lt_asym(g.digest, y.digest);
                } else {
                    lemma_chars_lt_trans(y.digest, x.digest, g.digest);
                    lemma_chars_lt_asym(g.digest, y.digest);
                }
            }
        }
    }
}

/// A group never goes before another that goes before it (file order).
proof fn lemma_file_before_asym(a: DuplicateGroupModel, b: DuplicateGroupModel)
    requires
        before_file(a, b),
    ensures
        !before_file(b, a),
{
    lemma_chars_lt_asym(a.digest, b.digest);
}

/// A group never goes before another that goes before it (directory order).
proof fn lemma_dir_before_asym(a: DuplicateGroupModel, b: DuplicateGroupModel)
    requires
        before_dir(a, b),
    ensures
        !before_dir(b, a),
{
    lemma_chars_lt_asym(a.digest, b.digest);
}

/// True when an earlier file record already carries the digest of record
/// `i`: record `i` then starts no group of its own.
fn file_seen_earlier(files: &Vec<FileRecord>, i: usize) -> (r: bool)
    requires
        i < files.deep_view().len(),
        files.deep_view().len() == files@.len(),
    ensures
        r == !first_occ_file(files.deep_view(), i as int),
{
    let ghost fv = files.deep_view();
    let mut k: usize = 0;
    while k < i
        invariant
            k <= i,
            i < files@.len(),
            fv == files.deep_view(),
            fv.len() == files@.len(),
            forall|t: int| 0 <= t < k ==> fv[t].digest != fv[i as int].digest,
        decreases i - k,
    {
        if files[k].digest == files[i].digest {
            proof {
                assert(fv[k as int] == files@[k as int]@);
                assert(fv[i as int] == files@[i as int]@);
            }
            return true;
        }
        proof {
            assert(fv[k as int] == files@[k as int]@);
            assert(fv[i as int] == files@[i as int]@);
        }
        k = k + 1;
    }
    false
}

/// True when an earlier directory record already carries the digest of
/// record `i`.
fn dir_seen_earlier(dirs: &Vec<DirectoryRecord>, i: usize) -> (r: bool)
    requires
        i < dirs.deep_view().len(),
        dirs.deep_view().len() == dirs@.len(),
    ensures
        r == !first_occ_dir(dirs.deep_view(), i as int),
{
    let ghost dv = dirs.deep_view();
    let mut k: usize = 0;
    while k < i
        invariant
            k <= i,
            i < dirs@.len(),
            dv == dirs.deep_view(),
            dv.len() == dirs@.len(),
            forall|t: int| 0 <= t < k ==> dv[t].digest != dv[i as int].digest,
        decreases i - k,
    {
        if dirs[k].digest == dirs[i].digest {
            proof {
                assert(dv[k as int] == dirs@[k as int]@);
                assert(dv[i as int] == dirs@[i as int]@);
            }
            return true;
        }
        proof {
            assert(dv[k as int] == dirs@[k as int]@);
            assert(dv[i as int] == dirs@[i as int]@);
        }
        k = k + 1;
    }
    false
}

/// Collects the members of the file group for digest `d`, in store order.
fn collect_file_members(files: &Vec<FileRecord>, d: &String) -> (r: Vec<GroupMember>)
    ensures
        r.deep_view() == file_members_of(files.deep_view(), d@),
{
    let ghost fv = files.deep_view();
    let ghost pred = |rec: FileRecordModel| rec.digest == d@;
    let ghost fmap = |rec: FileRecordModel| file_member(rec);
    let mut out: Vec<GroupMember> = Vec::new();
    proof {
        assert(fv.subrange(0, 0).filter(pred) =~= Seq::<FileRecordModel>::empty()) by {
            reveal(Seq::filter);
        }
        assert(out.deep_view() =~= fv.subrange(0, 0).filter(pred).map_values(fmap));
    }
    let mut i: usize = 0;
    while i < files.len()
        invariant
            i <= files.len(),
            fv == files.deep_view(),
            fv.len() == files@.len(),
            pred == (|rec: FileRecordModel| rec.digest == d@),
            fmap == (|rec: FileRecordModel| file_member(rec)),
            out.deep_view() == fv.subrange(0, i as int).filter(pred).map_values(fmap),
        decreases files.len() - i,
    {
        proof {
            assert(fv[i as int] == files@[i as int]@);
            assert(fv.subrange(0, i + 1 as int) =~= fv.subrange(0, i as int).push(fv[i as int]));
            crate::seqs::lemma_filter_map_push(fv.subrange(0, i as int), fv[i as int], pred, fmap);
        }
        if files[i].digest == *d {
            let ghost before = out.deep_view();
            out.push(GroupMember { path: files[i].path.clone(), size: files[i].size });
            proof {
                assert(out.deep_view() =~= before.push(file_member(fv[i as int])));
            }
        }
        i = i + 1;
    }
    proof {
        assert(fv.subrange(0, fv.len() as int) =~= fv);
    }
    out
}

/// Collects the members of the directory group for digest `d`, in store
/// order.
fn collect_dir_members(dirs: &Vec<DirectoryRecord>, d: &String) -> (r: Vec<GroupMember>)
    ensures
        r.deep_view() == dir_members_of(dirs.deep_view(), d@),
{
    let ghost dv = dirs.deep_view();
    let ghost pred = |rec: DirectoryRecordModel| rec.digest == d@;
    let ghost fmap = |rec: DirectoryRecordModel| dir_member(rec);
    let mut out: Vec<GroupMember> = Vec::new();
    proof {
        assert(dv.subrange(0, 0).filter(pred) =~= Seq::<DirectoryRecordModel>::empty()) by {
            reveal(Seq::filter);
        }
        assert(out.deep_view() =~= dv.subrange(0, 0).filter(pred).map_values(fmap));
    }
    let mut i: usize = 0;
    while i < dirs.len()
        invariant
            i <= dirs.len(),
            dv == dirs.deep_view(),
            dv.len() == dirs@.len(),
            pred == (|rec: DirectoryRecordModel| rec.digest == d@),
            fmap == (|rec: DirectoryRecordModel| dir_member(rec)),
            out.deep_view() == dv.subrange(0, i as int).filter(pred).map_values(fmap),
        decreases dirs.len() - i,
    {
        proof {
            assert(dv[i as int] == dirs@[i as int]@);
            assert(dv.subrange(0, i + 1 as int) =~= dv.subrange(0, i as int).push(dv[i as int]));
            crate::seqs::lemma_filter_map_push(dv.subrange(0, i as int), dv[i as int], pred, fmap);
        }
        if dirs[i].digest == *d {
            let ghost before = out.deep_view();
            out.push(GroupMember { path: dirs[i].path.clone(), size: dirs[i].total_size });
            proof {
                assert(out.deep_view() =~= before.push(dir_member(dv[i as int])));
            }
        }
        i = i + 1;
    }
    proof {
        assert(dv.subrange(0, dv.len() as int) =~= dv);
    }
    out
}

/// Sums member sizes; `u128` cannot overflow here.
fn sum_members(members: &Vec<GroupMember>) -> (r: u128)
    ensures
        r as int == sum_member_sizes(members.deep_view()),
{
    let ghost mv = members.deep_view();
    let mut total: u128 = 0;
    let mut i: usize = 0;
    while i < members.len()
        invariant
            i <= members.len(),
            mv == members.deep_view(),
            mv.len() == members@.len(),
            total as int == sum_member_sizes(mv.subrange(0, i as int)),
            total as int <= (i as int) * (u64::MAX as int),
        decreases members.len() - i,
    {
        proof {
            let cur = mv.subrange(0, i + 1 as int);
            assert(cur.drop_last() =~= mv.subrange(0, i as int));
            assert(cur.last() == mv[i as int]);
            assert(mv[i as int] == members@[i as int]@);
            assert((i as int + 1) * (u64::MAX as int) == (i as int) * (u64::MAX as int) + (
            u64::MAX as int));
            assert((i as int + 1) * (u64::MAX as int) <= u128::MAX as int) by (nonlinear_arith)
                requires
                    0 <= i + 1 <= u64::MAX as int + 1,
            ;
        }
        total = total + (members[i].size as u128);
        i = i + 1;
    }
    proof {
        assert(mv.subrange(0, mv.len() as int) =~= mv);
    }
    total
}

/// Executable file group order.
fn before_file_exec(a: &DuplicateGroup, b: &DuplicateGroup) -> (r: bool)
    ensures
        r == before_file(a@, b@),
{
    if a.total_size > b.total_size {
        true
    } else if a.total_size == b.total_size {
        str_lt(a.digest.as_str(), b.digest.as_str())
    } else {
        false
    }
}

/// Executable directory group order: average sizes compared exactly by
/// cross-multiplication in 128 bits.
fn before_dir_exec(a: &DuplicateGroup, b: &DuplicateGroup) -> (r: bool)
    ensures
        r == before_dir(a@, b@),
{
    proof {
        assert((a.total_size as int) * (b.count as int) <= (u64::MAX as int) * (u64::MAX as int))
            by (nonlinear_arith)
            requires
                0 <= a.total_size as int <= u64::MAX as int,
                0 <= b.count as int <= u64::MAX as int,
        ;
        assert((b.total_size as int) * (a.count as int) <= (u64::MAX as int) * (u64::MAX as int))
            by (nonlinear_arith)
            requires
                0 <= b.total_size as int <= u64::MAX as int,
                0 <= a.count as int <= u64::MAX as int,
        ;
        assert((u64::MAX as int) * (u64::MAX as int) <= u128::MAX as int) by (nonlinear_arith);
    }
    let left = (a.total_size as u128) * (b.count as u128);
    let right = (b.total_size as u128) * (a.count as u128);
    if left > right {
        true
    } else if left == right {
        str_lt(a.digest.as_str(), b.digest.as_str())
    } else {
        false
    }
}

/// Whether a group sequence is ordered: no later group goes before an
/// earlier one.
pub open spec fn groups_ordered(
    s: Seq<DuplicateGroupModel>,
    before: spec_fn(DuplicateGroupModel, DuplicateGroupModel) -> bool,
) -> bool {
    forall|a: int, b: int| 0 <= a < b < s.len() ==> !before(s[b], s[a])
}

/// Position at which a group is inserted into an ordered sequence: in
/// front of the first group it goes before.
fn file_insert_pos(out: &Vec<DuplicateGroup>, g: &DuplicateGroup) -> (j: usize)
    ensures
        j <= out.deep_view().len(),
        forall|k: int| 0 <= k < j ==> !before_file(g@, #[trigger] out.deep_view()[k]),
        j < out.deep_view().len() ==> before_file(g@, out.deep_view()[j as int]),
{
    let mut j: usize = 0;
    while j < out.len()
        invariant
            j <= out.deep_view().len(),
            out.deep_view().len() == out@.len(),
            forall|k: int| 0 <= k < j ==> !before_file(g@, #[trigger] out.deep_view()[k]),
        decreases out.len() - j,
    {
        if before_file_exec(g, &out[j]) {
            proof {
                assert(out.deep_view()[j as int] == out@[j as int]@);
            }
            return j;
        }
        proof {
            assert(out.deep_view()[j as int] == out@[j as int]@);
        }
        j = j + 1;
    }
    j
}

/// Position at which a group is inserted into an ordered sequence: in
/// front of the first group it goes before.
fn dir_insert_pos(out: &Vec<DuplicateGroup>, g: &DuplicateGroup) -> (j: usize)
    ensures
        j <= out.deep_view().len(),
        forall|k: int| 0 <= k < j ==> !before_dir(g@, #[trigger] out.deep_view()[k]),
        j < out.deep_view().len() ==> before_dir(g@, out.deep_view()[j as int]),
{
    let mut j: usize = 0;
    while j < out.len()
        invariant
            j <= out.deep_view().len(),
            out.deep_view().len() == out@.len(),
            forall|k: int| 0 <= k < j ==> !before_dir(g@, #[trigger] out.deep_view()[k]),
        decreases out.len() - j,
    {
        if before_dir_exec(g, &out[j]) {
            proof {
                assert(out.deep_view()[j as int] == out@[j as int]@);
            }
            return j;
        }
        proof {
            assert(out.deep_view()[j as int] == out@[j as int]@);
        }
        j = j + 1;
    }
    j
}

/// Groups all file records by digest and returns the groups with at least
/// two members, ordered by descending total duplicated bytes (digest as
/// tie-break); fails only when some group's total size does not fit in 64
/// bits. Read-only: the store is untouched.
pub fn duplicate_files(store: &Store) -> (r: Result<Vec<DuplicateGroup>, DedupError>)
    ensures
        match r {
            Ok(v) => {
                &&& !file_group_overflow(store.files_view())
                &&& v.deep_view() == duplicate_file_groups(store.files_view())
                &&& groups_ordered(v.deep_view(), file_before())
                &&& forall|m: int| 0 <= m < v.deep_view().len() ==> v.deep_view()[m].count >= 2
            },
            Err(e) => {
                &&& e == DedupError::SizeOverflow
                &&& file_group_overflow(store.files_view())
            },
        },
{
    let files = store.files();
    let ghost fv = store.files_view();
    let mut raw: Vec<DuplicateGroup> = Vec::new();
    proof {
        assert(raw.deep_view() =~= Seq::<DuplicateGroupModel>::empty());
    }
    let mut i: usize = 0;
    while i < files.len()
        invariant
            i <= files.len(),
            fv == store.files_view(),
            fv == files.deep_view(),
            fv.len() == files@.len(),
            raw.deep_view() + file_groups_from(fv, i as nat) == file_groups_from(fv, 0),
            forall|k: int|
                0 <= k < i ==> !(first_occ_file(fv, k) && file_members_of(fv, fv[k].digest).len()
                    >= 2 && sum_member_sizes(file_members_of(fv, fv[k].digest)) > u64::MAX),
            forall|m: int| 0 <= m < raw.deep_view().len() ==> raw.deep_view()[m].count >= 2,
        decreases files.len() - i,
    {
        proof {
            assert(fv[i as int] == files@[i as int]@);
        }
        let seen = file_seen_earlier(files, i);
        if !seen {
            let members = collect_file_members(files, &files[i].digest);
            if members.len() >= 2 {
                let total = sum_members(&members);
                if total > u64::MAX as u128 {
                    proof {
                        let wi = i as int;
                        assert(0 <= wi < fv.len());
                        assert(first_occ_file(fv, wi));
                        assert(file_members_of(fv, fv[wi].digest).len() >= 2);
                        assert(sum_member_sizes(file_members_of(fv, fv[wi].digest)) > u64::MAX);
                        assert(file_group_overflow(fv)) by {
                            assert(0 <= wi < fv.len() && first_occ_file(fv, wi) && file_members_of(
                                fv,
                                fv[wi].digest,
                            ).len() >= 2 && sum_member_sizes(file_members_of(fv, fv[wi].digest))
                                > u64::MAX);
                        }
                    }
                    return Err(DedupError::SizeOverflow);
                }
                let ghost before = raw.deep_view();
                let count = members.len() as u64;
                let group = DuplicateGroup {
                    digest: files[i].digest.clone(),
                    count: count,
                    total_size: total as u64,
                    members: members,
                };
                proof {
                    assert(group@ == group_of(fv[i as int].digest, file_members_of(
                        fv,
                        fv[i as int].digest,
                    )));
                }
                raw.push(group);
                proof {
                    assert(raw.deep_view() =~= before.push(group_of(fv[i as int].digest,
                        file_members_of(fv, fv[i as int].digest))));
                    assert(file_groups_from(fv, i as nat) =~= seq![
                        group_of(fv[i as int].digest, file_members_of(fv, fv[i as int].digest)),
                    ] + file_groups_from(fv, (i + 1) as nat));
                    assert(raw.deep_view() + file_groups_from(fv, (i + 1) as nat) =~= before
                        + file_groups_from(fv, i as nat));
                }
            } else {
                proof {
                    assert(file_groups_from(fv, i as nat) == file_groups_from(fv, (i + 1) as nat));
                }
            }
        } else {
            proof {
                assert(file_groups_from(fv, i as nat) == file_groups_from(fv, (i + 1) as nat));
            }
        }
        i = i + 1;
    }
    proof {
        assert(file_groups_from(fv, i as nat) =~= Seq::<DuplicateGroupModel>::empty());
        assert(raw.deep_view() + file_groups_from(fv, i as nat) =~= raw.deep_view());
        assert(!file_group_overflow(fv));
    }
    let ghost rawv = raw.deep_view();
    let ghost bef = file_before();
    let mut sorted: Vec<DuplicateGroup> = Vec::new();
    let ghost total_n = rawv.len();
    proof {
        assert(raw.deep_view() =~= rawv.subrange(0, rawv.len() as int));
        assert(sorted.deep_view() =~= sort_groups(rawv.subrange(0, 0), bef)) by {
            assert(rawv.subrange(0, 0).len() == 0);
        }
    }
    while raw.len() > 0
        invariant
            bef == file_before(),
            raw.deep_view().len() == raw@.len(),
            sorted.deep_view().len() == sorted@.len(),
            raw.deep_view() =~= rawv.subrange(
                total_n - raw.deep_view().len(),
                total_n as int,
            ),
            total_n == rawv.len(),
            raw.deep_view().len() <= total_n,
            sorted.deep_view() == sort_groups(
                rawv.subrange(0, total_n - raw.deep_view().len()),
                bef,
            ),
            groups_ordered(sorted.deep_view(), bef),
            forall|m: int| 0 <= m < rawv.len() ==> rawv[m].count >= 2,
            forall|m: int| 0 <= m < sorted.deep_view().len() ==> sorted.deep_view()[m].count >= 2,
        decreases raw.len(),
    {
        let ghost p = total_n - raw.deep_view().len();
        let ghost prevq = raw@;
        let ghost pre = raw.deep_view();
        let g = raw.remove(0);
        proof {
            assert(pre =~= rawv.subrange(p as int, total_n as int));
            assert(pre[0] == prevq[0]@);
            assert(g@ == pre[0]);
            assert(g@ == rawv[p as int]);
            assert(raw@ == prevq.remove(0));
            assert forall|k: int| 0 <= k < raw@.len() implies raw.deep_view()[k] == pre[k + 1] by {
                assert(prevq.remove(0) =~= prevq.subrange(1, prevq.len() as int));
                assert(raw@[k] == prevq[k + 1]);
                assert(raw.deep_view()[k] == raw@[k]@);
                assert(pre[k + 1] == prevq[k + 1]@);
            }
            assert(raw.deep_view() =~= rawv.subrange(p + 1 as int, total_n as int));
        }
        let j = file_insert_pos(&sorted, &g);
        let ghost old_sorted = sorted.deep_view();
        sorted.insert(j, g);
        proof {
            let newv = sorted.deep_view();
            assert(newv =~= old_sorted.insert(j as int, rawv[p as int]));
            lemma_insert_group_at(old_sorted, rawv[p as int], bef, j as int);
            let pre1 = rawv.subrange(0, p + 1 as int);
            assert(pre1.drop_last() =~= rawv.subrange(0, p as int));
            assert(pre1.last() == rawv[p as int]);
            assert(newv == sort_groups(pre1, bef));
            assert forall|a: int, b: int| 0 <= a < b < newv.len() implies !bef(
                newv[b],
                newv[a],
            ) by {
                assert(forall|k: int| 0 <= k < j ==> newv[k] == old_sorted[k]);
                assert(newv[j as int] == rawv[p as int]);
                assert(forall|k: int| j < k < newv.len() ==> newv[k] == old_sorted[k - 1]);
                if b == j && a < j {
                    assert(!before_file(rawv[p as int], old_sorted[a]));
                }
                if a == j && b > j {
                    assert(before_file(rawv[p as int], old_sorted[j as int]));
                    if b - 1 > j {
                        assert(!before_file(old_sorted[b - 1], old_sorted[j as int]));
                        lemma_file_before_step(
                            old_sorted[b - 1],
                            old_sorted[j as int],
                            rawv[p as int],
                        );
                    } else {
                        lemma_file_before_asym(rawv[p as int], old_sorted[j as int]);
                    }
                }
            }
        }
    }
    proof {
        assert(rawv.subrange(0, total_n as int) =~= rawv);
        assert(sorted.deep_view() == duplicate_file_groups(fv));
    }
    Ok(sorted)
}

/// Groups all directory records by digest and returns the groups with at
/// least two members, ordered by descending average member size (digest as
/// tie-break); fails only when some group's total size does not fit in 64
/// bits. Read-only: the store is untouched.
pub fn duplicate_directories(store: &Store) -> (r: Result<Vec<DuplicateGroup>, DedupError>)
    ensures
        match r {
            Ok(v) => {
                &&& !dir_group_overflow(store.dirs_view())
                &&& v.deep_view() == duplicate_dir_groups(store.dirs_view())
                &&& groups_ordered(v.deep_view(), dir_before())
                &&& forall|m: int| 0 <= m < v.deep_view().len() ==> v.deep_view()[m].count >= 2
            },
            Err(e) => {
                &&& e == DedupError::SizeOverflow
                &&& dir_group_overflow(store.dirs_view())
            },
        },
{
    let dirs = store.dirs();
    let ghost dv = store.dirs_view();
    let mut raw: Vec<DuplicateGroup> = Vec::new();
    proof {
        assert(raw.deep_view() =~= Seq::<DuplicateGroupModel>::empty());
    }
    let mut i: usize = 0;
    while i < dirs.len()
        invariant
            i <= dirs.len(),
            dv == store.dirs_view(),
            dv == dirs.deep_view(),
            dv.len() == dirs@.len(),
            raw.deep_view() + dir_groups_from(dv, i as nat) == dir_groups_from(dv, 0),
            forall|k: int|
                0 <= k < i ==> !(first_occ_dir(dv, k) && dir_members_of(dv, dv[k].digest).len()
                    >= 2 && sum_member_sizes(dir_members_of(dv, dv[k].digest)) > u64::MAX),
            forall|m: int| 0 <= m < raw.deep_view().len() ==> raw.deep_view()[m].count >= 2,
        decreases dirs.len() - i,
    {
        proof {
            assert(dv[i as int] == dirs@[i as int]@);
        }
        let seen = dir_seen_earlier(dirs, i);
        if !seen {
            let members = collect_dir_members(dirs, &dirs[i].digest);
            if members.len() >= 2 {
                let total = sum_members(&members);
                if total > u64::MAX as u128 {
                    proof {
                        let wi = i as int;
                        assert(0 <= wi < dv.len());
                        assert(first_occ_dir(dv, wi));
                        assert(dir_members_of(dv, dv[wi].digest).len() >= 2);
                        assert(sum_member_sizes(dir_members_of(dv, dv[wi].digest)) > u64::MAX);
                        assert(dir_group_overflow(dv)) by {
                            assert(0 <= wi < dv.len() && first_occ_dir(dv, wi) && dir_members_of(
                                dv,
                                dv[wi].digest,
                            ).len() >= 2 && sum_member_sizes(dir_members_of(dv, dv[wi].digest))
                                > u64::MAX);
                        }
                    }
                    return Err(DedupError::SizeOverflow);
                }
                let ghost before = raw.deep_view();
                let count = members.len() as u64;
                let group = DuplicateGroup {
                    digest: dirs[i].digest.clone(),
                    count: count,
                    total_size: total as u64,
                    members: members,
                };
                proof {
                    assert(group@ == group_of(dv[i as int].digest, dir_members_of(
                        dv,
                        dv[i as int].digest,
                    )));
                }
                raw.push(group);
                proof {
                    assert(raw.deep_view() =~= before.push(group_of(dv[i as int].digest,
                        dir_members_of(dv, dv[i as int].digest))));
                    assert(dir_groups_from(dv, i as nat) =~= seq![
                        group_of(dv[i as int].digest, dir_members_of(dv, dv[i as int].digest)),
                    ] + dir_groups_from(dv, (i + 1) as nat));
                    assert(raw.deep_view() + dir_groups_from(dv, (i + 1) as nat) =~= before
                        + dir_groups_from(dv, i as nat));
                }
            } else {
                proof {
                    assert(dir_groups_from(dv, i as nat) == dir_groups_from(dv, (i + 1) as nat));
                }
            }
        } else {
            proof {
                assert(dir_groups_from(dv, i as nat) == dir_groups_from(dv, (i + 1) as nat));
            }
        }
        i = i + 1;
    }
    proof {
        assert(dir_groups_from(dv, i as nat) =~= Seq::<DuplicateGroupModel>::empty());
        assert(raw.deep_view() + dir_groups_from(dv, i as nat) =~= raw.deep_view());
        assert(!dir_group_overflow(dv));
    }
    let ghost rawv = raw.deep_view();
    let ghost bef = dir_before();
    let mut sorted: Vec<DuplicateGroup> = Vec::new();
    let ghost total_n = rawv.len();
    proof {
        assert(raw.deep_view() =~= rawv.subrange(0, rawv.len() as int));
        assert(sorted.deep_view() =~= sort_groups(rawv.subrange(0, 0), bef)) by {
            assert(rawv.subrange(0, 0).len() == 0);
        }
    }
    while raw.len() > 0
        invariant
            bef == dir_before(),
            raw.deep_view().len() == raw@.len(),
            sorted.deep_view().len() == sorted@.len(),
            raw.deep_view() =~= rawv.subrange(
                total_n - raw.deep_view().len(),
                total_n as int,
            ),
            total_n == rawv.len(),
            raw.deep_view().len() <= total_n,
            sorted.deep_view() == sort_groups(
                rawv.subrange(0, total_n - raw.deep_view().len()),
                bef,
            ),
            groups_ordered(sorted.deep_view(), bef),
            forall|m: int| 0 <= m < rawv.len() ==> rawv[m].count >= 2,
            forall|m: int| 0 <= m < sorted.deep_view().len() ==> sorted.deep_view()[m].count >= 2,
        decreases raw.len(),
    {
        let ghost p = total_n - raw.deep_view().len();
        let ghost prevq = raw@;
        let ghost pre = raw.deep_view();
        let g = raw.remove(0);
        proof {
            assert(pre =~= rawv.subrange(p as int, total_n as int));
            assert(pre[0] == prevq[0]@);
            assert(g@ == pre[0]);
            assert(g@ == rawv[p as int]);
            assert(raw@ == prevq.remove(0));
            assert forall|k: int| 0 <= k < raw@.len() implies raw.deep_view()[k] == pre[k + 1] by {
                assert(prevq.remove(0) =~= prevq.subrange(1, prevq.len() as int));
                assert(raw@[k] == prevq[k + 1]);
                assert(raw.deep_view()[k] == raw@[k]@);
                assert(pre[k + 1] == prevq[k + 1]@);
            }
            assert(raw.deep_view() =~= rawv.subrange(p + 1 as int, total_n as int));
        }
        let j = dir_insert_pos(&sorted, &g);
        let ghost old_sorted = sorted.deep_view();
        sorted.insert(j, g);
        proof {
            let newv = sorted.deep_view();
            assert(newv =~= old_sorted.insert(j as int, rawv[p as int]));
            lemma_insert_group_at(old_sorted, rawv[p as int], bef, j as int);
            let pre1 = rawv.subrange(0, p + 1 as int);
            assert(pre1.drop_last() =~= rawv.subrange(0, p as int));
            assert(pre1.last() == rawv[p as int]);
            assert(newv == sort_groups(pre1, bef));
            assert forall|a: int, b: int| 0 <= a < b < newv.len() implies !bef(
                newv[b],
                newv[a],
            ) by {
                assert(forall|k: int| 0 <= k < j ==> newv[k] == old_sorted[k]);
                assert(newv[j as int] == rawv[p as int]);
                assert(forall|k: int| j < k < newv.len() ==> newv[k] == old_sorted[k - 1]);
                if b == j && a < j {
                    assert(!before_dir(rawv[p as int], old_sorted[a]));
                }
                if a == j && b > j {
                    assert(before_dir(rawv[p as int], old_sorted[j as int]));
                    if b - 1 > j {
                        assert(!before_dir(old_sorted[b - 1], old_sorted[j as int]));
                        lemma_dir_before_step(
                            old_sorted[b - 1],
                            old_sorted[j as int],
                            rawv[p as int],
                        );
                    } else {
                        lemma_dir_before_asym(rawv[p as int], old_sorted[j as int]);
                    }
                }
            }
        }
    }
    proof {
        assert(rawv.subrange(0, total_n as int) =~= rawv);
        assert(sorted.deep_view() == duplicate_dir_groups(dv));
    }
    Ok(sorted)
}


} // verus!
