//! The engine's laws, proved once and for all: determinism of the
//! composite digest, cache correctness, change detection, location
//! independence, and the fixed empty-directory digest.

use vstd::prelude::*;
use vstd::seq_lib::lemma_sorted_unique;
use vstd::utf8::{encode_utf8, is_ascii_chars, is_ascii_chars_encode_utf8};
use crate::aggregate::{child_leq, children_of, dir_digest, encode_child, encode_children,
    lemma_child_le_total_ordering, ChildModel};
use crate::hashing::{is_digest, is_hex_char, sha256_hex};
use crate::records::{DirectoryRecordModel, FileEntryModel, FileRecordModel};
use crate::scanner::needs_rehash_spec;
use crate::store::{find_file, find_file_from, upsert_file, upsert_file_from};

verus! {

/// Upserting a record and looking its path up again returns exactly that
/// record; records at other indices are untouched.
proof fn lemma_find_upsert_from(s: Seq<FileRecordModel>, r: FileRecordModel, i: nat)
    requires
        i <= s.len(),
    ensures
        find_file_from(upsert_file_from(s, r, i), r.path, i) == Some(r),
        upsert_file_from(s, r, i).len() >= s.len(),
        forall|k: int| 0 <= k < i ==> upsert_file_from(s, r, i)[k] == s[k],
    decreases s.len() - i,
{
    let u = upsert_file_from(s, r, i);
    if i >= s.len() {
        assert(u == s.push(r));
        assert(u[i as int] == r);
    } else if s[i as int].path == r.path {
        assert(u == s.update(i as int, r));
        assert(u[i as int] == r);
    } else {
        lemma_find_upsert_from(s, r, i + 1);
        assert(u[i as int] == s[i as int]);
    }
}

/// Insert-or-replace, then lookup by the same path, returns the record.
pub proof fn lemma_find_upsert(s: Seq<FileRecordModel>, r: FileRecordModel)
    ensures
        find_file(upsert_file(s, r), r.path) == Some(r),
{
    lemma_find_upsert_from(s, r, 0);
}

/// Cache correctness: once a scan has recorded a file's content digest
/// with its modified time, a later run that sees the same modified time
/// needs no rehash, and the cached record it reads instead carries exactly
/// the digest of that content — the same digest rereading the bytes would
/// give.
pub proof fn lemma_cache_round_trip(
    files: Seq<FileRecordModel>,
    path: Seq<char>,
    content: Seq<u8>,
    size: u64,
    modified: i64,
)
    ensures
        ({
            let rec = FileRecordModel {
                path: path,
                digest: sha256_hex(content),
                size: size,
                modified_time: modified,
            };
            let cached = upsert_file(files, rec);
            !needs_rehash_spec(cached, path, modified) && find_file(cached, path) == Some(rec)
                && find_file(cached, path)->Some_0.digest == sha256_hex(content)
        }),
{
    let rec = FileRecordModel {
        path: path,
        digest: sha256_hex(content),
        size: size,
        modified_time: modified,
    };
    lemma_find_upsert(files, rec);
}

/// Change detection, at the cache: a recorded file whose current modified
/// time differs from the recorded one is rehashed.
pub proof fn lemma_change_forces_rehash(
    files: Seq<FileRecordModel>,
    path: Seq<char>,
    content: Seq<u8>,
    size: u64,
    modified: i64,
    modified_now: i64,
)
    requires
        modified_now != modified,
    ensures
        needs_rehash_spec(
            upsert_file(
                files,
                FileRecordModel {
                    path: path,
                    digest: sha256_hex(content),
                    size: size,
                    modified_time: modified,
                },
            ),
            path,
            modified_now,
        ),
{
    let rec = FileRecordModel {
        path: path,
        digest: sha256_hex(content),
        size: size,
        modified_time: modified,
    };
    lemma_find_upsert(files, rec);
}

/// Determinism: the composite digest of a directory depends only on which
/// children it has, never on the order the traversal or the store happens
/// to present them in. Two scans of the same tree content — whatever their
/// discovery orders — give every directory the same digest.
pub proof fn lemma_digest_order_independent(c1: Seq<ChildModel>, c2: Seq<ChildModel>)
    requires
        c1.to_multiset() == c2.to_multiset(),
    ensures
        dir_digest(c1) == dir_digest(c2),
{
    lemma_child_le_total_ordering();
    let leq = child_leq();
    c1.lemma_sort_by_ensures(leq);
    c2.lemma_sort_by_ensures(leq);
    lemma_sorted_unique(c1.sort_by(leq), c2.sort_by(leq), leq);
    assert(c1.sort_by(leq) =~= c2.sort_by(leq));
}

/// Determinism at the scan level: two runs over the same tree content —
/// same file entries emitted, same directory records stored, each in
/// whatever order traversal and store happened to produce — aggregate any
/// directory to the same composite digest.
pub proof fn lemma_scan_order_independent(
    entries1: Seq<FileEntryModel>,
    dirs1: Seq<DirectoryRecordModel>,
    entries2: Seq<FileEntryModel>,
    dirs2: Seq<DirectoryRecordModel>,
    d: Seq<char>,
)
    requires
        entries1.to_multiset() == entries2.to_multiset(),
        dirs1.to_multiset() == dirs2.to_multiset(),
    ensures
        dir_digest(children_of(entries1, dirs1, d)) == dir_digest(children_of(entries2, dirs2, d)),
{
    let fpred = |e: FileEntryModel| crate::paths::parent_of(e.path) == d;
    let fmap = |e: FileEntryModel| crate::aggregate::file_child(e);
    let dpred = |r: DirectoryRecordModel| crate::paths::parent_of(r.path) == d;
    let dmap = |r: DirectoryRecordModel| crate::aggregate::dir_child(r);
    crate::seqs::lemma_filter_map_multiset(entries1, entries2, fpred, fmap);
    crate::seqs::lemma_filter_map_multiset(dirs1, dirs2, dpred, dmap);
    vstd::seq_lib::lemma_multiset_commutative(
        entries1.filter(fpred).map_values(fmap),
        dirs1.filter(dpred).map_values(dmap),
    );
    vstd::seq_lib::lemma_multiset_commutative(
        entries2.filter(fpred).map_values(fmap),
        dirs2.filter(dpred).map_values(dmap),
    );
    assert(children_of(entries1, dirs1, d).to_multiset() =~= children_of(
        entries2,
        dirs2,
        d,
    ).to_multiset());
    lemma_digest_order_independent(children_of(entries1, dirs1, d), children_of(
        entries2,
        dirs2,
        d,
    ));
}

/// Location independence: a directory's composite digest is computed from
/// its children's names relative to it, their digests, sizes and kinds —
/// never from its own path. Two directories anywhere in any trees whose
/// immediate children agree on that data (as the recursion guarantees for
/// structurally and content-identical subtrees) get the same digest.
pub proof fn lemma_location_independent(
    entries1: Seq<FileEntryModel>,
    dirs1: Seq<DirectoryRecordModel>,
    d1: Seq<char>,
    entries2: Seq<FileEntryModel>,
    dirs2: Seq<DirectoryRecordModel>,
    d2: Seq<char>,
)
    requires
        children_of(entries1, dirs1, d1).to_multiset() == children_of(
            entries2,
            dirs2,
            d2,
        ).to_multiset(),
    ensures
        dir_digest(children_of(entries1, dirs1, d1)) == dir_digest(
            children_of(entries2, dirs2, d2),
        ),
{
    lemma_digest_order_independent(children_of(entries1, dirs1, d1), children_of(
        entries2,
        dirs2,
        d2,
    ));
}

/// The digest every childless directory gets: the SHA-256 of the empty
/// encoding, one fixed value shared by all empty directories.
pub open spec fn empty_dir_digest() -> Seq<char> {
    sha256_hex(Seq::empty())
}

/// A directory with no children has the fixed empty digest and total size
/// zero.
pub proof fn lemma_empty_directory_digest(
    entries: Seq<FileEntryModel>,
    dirs: Seq<DirectoryRecordModel>,
    d: Seq<char>,
)
    requires
        children_of(entries, dirs, d) == Seq::<ChildModel>::empty(),
    ensures
        dir_digest(children_of(entries, dirs, d)) == empty_dir_digest(),
        crate::aggregate::sum_sizes(children_of(entries, dirs, d)) == 0,
{
    broadcast use vstd::seq_lib::group_to_multiset_ensures;

    lemma_child_le_total_ordering();
    let leq = child_leq();
    let c = children_of(entries, dirs, d);
    c.lemma_sort_by_ensures(leq);
    assert(c.to_multiset().len() == 0);
    assert(c.sort_by(leq).to_multiset().len() == 0);
    assert(c.sort_by(leq).len() == 0);
    assert(c.sort_by(leq) =~= Seq::<ChildModel>::empty());
}

/// Change detection, upward: when one child's digest changes (names, kinds
/// and the other children unchanged), the byte encoding the parent hashes
/// changes with it. That the parent's SHA-256 digest then changes too is
/// the collision-resistance assumption on the hash and is not a provable
/// statement.
pub proof fn lemma_child_digest_changes_encoding(c1: Seq<ChildModel>, c2: Seq<ChildModel>, t: int)
    requires
        c1.len() == c2.len(),
        0 <= t < c1.len(),
        forall|k: int| 0 <= k < c1.len() && k != t ==> c1[k] == c2[k],
        c1[t].name == c2[t].name,
        c1[t].digest != c2[t].digest,
        is_digest(c1[t].digest),
        is_digest(c2[t].digest),
    ensures
        encode_children(c1) != encode_children(c2),
    decreases c1.len(),
{
    if t == c1.len() - 1 {
        assert(c1.drop_last() =~= c2.drop_last());
        lemma_encode_child_discriminates(c1[t], c2[t]);
        let p = encode_children(c1.drop_last());
        let e1 = encode_child(c1[t]);
        let e2 = encode_child(c2[t]);
        assert(encode_children(c1) == p + e1);
        assert(encode_children(c2) == p + e2);
        if encode_children(c1) == encode_children(c2) {
            assert(e1 =~= e2) by {
                assert(forall|m: int|
                    0 <= m < e1.len() ==> (p + e1)[p.len() + m] == #[trigger] e1[m]);
                assert(forall|m: int|
                    0 <= m < e2.len() ==> (p + e2)[p.len() + m] == #[trigger] e2[m]);
            }
        }
    } else {
        assert(c1.last() == c2.last());
        lemma_child_digest_changes_encoding(c1.drop_last(), c2.drop_last(), t);
        let pref1 = encode_children(c1.drop_last());
        let pref2 = encode_children(c2.drop_last());
        let e = encode_child(c1.last());
        assert(encode_children(c1) == pref1 + e);
        assert(encode_children(c2) == pref2 + e);
        lemma_encode_children_len(c1.drop_last());
        lemma_encode_children_len(c2.drop_last());
        if encode_children(c1) == encode_children(c2) {
            if pref1.len() == pref2.len() {
                assert(pref1 =~= pref2) by {
                    assert(forall|m: int|
                        0 <= m < pref1.len() ==> (pref1 + e)[m] == #[trigger] pref1[m]);
                    assert(forall|m: int|
                        0 <= m < pref2.len() ==> (pref2 + e)[m] == #[trigger] pref2[m]);
                }
            } else {
                assert((pref1 + e).len() != (pref2 + e).len());
            }
        }
    }
}

/// The encoding of a child list is as long as its parts say.
proof fn lemma_encode_children_len(s: Seq<ChildModel>)
    ensures
        encode_children(s).len() == fold_encode_len(s),
    decreases s.len(),
{
    if s.len() > 0 {
        lemma_encode_children_len(s.drop_last());
    }
}

/// Total encoded length of a child list.
spec fn fold_encode_len(s: Seq<ChildModel>) -> int
    decreases s.len(),
{
    if s.len() == 0 {
        0
    } else {
        fold_encode_len(s.drop_last()) + encode_child(s.last()).len()
    }
}

/// Two children with the same name but different digests (both digests 64
/// hexadecimal characters) encode to different byte strings of equal
/// length.
proof fn lemma_encode_child_discriminates(a: ChildModel, b: ChildModel)
    requires
        a.name == b.name,
        a.digest != b.digest,
        is_digest(a.digest),
        is_digest(b.digest),
    ensures
        encode_child(a) != encode_child(b),
        encode_child(a).len() == encode_child(b).len(),
{
    lemma_digest_ascii(a.digest);
    lemma_digest_ascii(b.digest);
    is_ascii_chars_encode_utf8(a.digest);
    is_ascii_chars_encode_utf8(b.digest);
    let ua = encode_utf8(a.digest);
    let ub = encode_utf8(b.digest);
    assert(ua.len() == 64 && ub.len() == 64);
    let m = lemma_hex_seq_unequal(a.digest, b.digest);
    let off = encode_utf8(a.name).len() + 1;
    assert(encode_child(a)[off + m] == ua[m]) by {
        assert(encode_child(a) == encode_utf8(a.name) + seq![58u8] + ua + seq![10u8]);
    }
    assert(encode_child(b)[off + m] == ub[m]) by {
        assert(encode_child(b) == encode_utf8(b.name) + seq![58u8] + ub + seq![10u8]);
    }
    assert(encode_child(a) != encode_child(b)) by {
        if encode_child(a) == encode_child(b) {
            assert(encode_child(a)[off + m] == encode_child(b)[off + m]);
        }
    }
}

/// Hex digests are ASCII characters.
proof fn lemma_digest_ascii(d: Seq<char>)
    requires
        is_digest(d),
    ensures
        is_ascii_chars(d),
{
    assert forall|i: int| 0 <= i < d.len() implies ('\0' <= #[trigger] d[i] && d[i] <= '\u{7f}') by {
        assert(is_hex_char(d[i]));
    }
}

/// Unequal ASCII sequences of equal length have unequal byte encodings,
/// pointwise at some index.
proof fn lemma_hex_seq_unequal(a: Seq<char>, b: Seq<char>) -> (m: int)
    requires
        a.len() == b.len(),
        a != b,
        is_ascii_chars(a),
        is_ascii_chars(b),
    ensures
        0 <= m < a.len(),
        encode_utf8(a)[m] != encode_utf8(b)[m],
{
    is_ascii_chars_encode_utf8(a);
    is_ascii_chars_encode_utf8(b);
    assert(exists|k: int| 0 <= k < a.len() && #[trigger] a[k] != b[k]) by {
        if forall|k: int| 0 <= k < a.len() ==> #[trigger] a[k] == b[k] {
            assert(a =~= b);
        }
    }
    let m = choose|k: int| 0 <= k < a.len() && #[trigger] a[k] != b[k];
    assert('\0' <= a[m] && a[m] <= '\u{7f}');
    assert('\0' <= b[m] && b[m] <= '\u{7f}');
    assert(a[m] as u8 != b[m] as u8) by {
        vstd::utf8::char_is_scalar(a[m]);
        vstd::utf8::char_is_scalar(b[m]);
        vstd::utf8::char_u32_cast(a[m], a[m] as u32);
        vstd::utf8::char_u32_cast(b[m], b[m] as u32);
        let ca = a[m] as u32;
        let cb = b[m] as u32;
        assert(ca != cb);
        assert(ca < 128 && cb < 128);
        assert(ca as u8 != cb as u8) by (bit_vector)
            requires
                ca < 128,
                cb < 128,
                ca != cb,
        ;
        assert(a[m] as u8 == ca as u8);
        assert(b[m] as u8 == cb as u8);
    }
    assert(encode_utf8(a)[m] == a[m] as u8);
    assert(encode_utf8(b)[m] == b[m] as u8);
    m
}

} // verus!
