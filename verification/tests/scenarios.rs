use deduplifier::aggregate::aggregate_directory;
use deduplifier::dups::{duplicate_directories, duplicate_files};
use deduplifier::paths::sort_dirs_by_depth;
use deduplifier::records::DedupError;
use deduplifier::scanner::{needs_rehash, record_cached_file, record_fresh_file, ScanState};
use deduplifier::store::Store;

const HELLO_SHA256: &str = "2cf24dba5fb0a30e26e83b2ac5b9e29e1b161e5c1fa7425e73043362938b9824";
const EMPTY_SHA256: &str = "e3b0c44298fc1c149afbf4c8996fb92427ae41e4649b934ca495991b7852b855";

/// Scans the given (path, content, mtime) files into the store and then
/// aggregates the given directories deepest-first, as a run over one or
/// more roots does.
fn run_scan(store: &mut Store, files: &[(&str, &[u8], i64)], dirs: &[&str]) {
    let mut scan = ScanState::new();
    for (path, content, mtime) in files {
        let p = path.to_string();
        if needs_rehash(store, &p, *mtime) {
            record_fresh_file(store, &mut scan, &p, &content.to_vec(), content.len() as u64, *mtime);
        } else {
            assert!(record_cached_file(store, &mut scan, &p));
        }
    }
    let dir_list: Vec<String> = dirs.iter().map(|d| d.to_string()).collect();
    for d in sort_dirs_by_depth(&dir_list) {
        aggregate_directory(store, &scan, &d).unwrap();
    }
}

fn dir_digest_of(store: &Store, path: &str) -> String {
    store.lookup_dir(&path.to_string()).unwrap().digest.clone()
}

#[test]
fn two_equal_files_form_one_group() {
    // root /a holds /a/x.txt = "hello" and /a/sub/y.txt = "hello"
    let mut store = Store::new();
    run_scan(
        &mut store,
        &[("/a/x.txt", b"hello", 1), ("/a/sub/y.txt", b"hello", 1)],
        &["/a", "/a/sub"],
    );
    let groups = duplicate_files(&store).unwrap();
    assert_eq!(groups.len(), 1);
    let g = &groups[0];
    assert_eq!(g.digest, HELLO_SHA256);
    assert_eq!(g.count, 2);
    assert_eq!(g.total_size, 10);
    let mut paths: Vec<String> = g.members.iter().map(|m| m.path.clone()).collect();
    paths.sort();
    assert_eq!(paths, vec!["/a/sub/y.txt".to_string(), "/a/x.txt".to_string()]);
    assert!(g.members.iter().all(|m| m.size == 5));
}

#[test]
fn identical_roots_are_duplicate_directories() {
    // /a and /b are byte-for-byte identical trees at every level
    let mut store = Store::new();
    run_scan(
        &mut store,
        &[
            ("/a/f.txt", b"data", 1),
            ("/a/s/g.txt", b"zz", 1),
            ("/b/f.txt", b"data", 1),
            ("/b/s/g.txt", b"zz", 1),
        ],
        &["/a", "/a/s", "/b", "/b/s"],
    );
    assert_eq!(dir_digest_of(&store, "/a"), dir_digest_of(&store, "/b"));
    assert_eq!(dir_digest_of(&store, "/a/s"), dir_digest_of(&store, "/b/s"));
    assert_eq!(
        store.lookup_dir(&"/a".to_string()).unwrap().total_size,
        store.lookup_dir(&"/b".to_string()).unwrap().total_size
    );
    let groups = duplicate_directories(&store).unwrap();
    // one group for the roots, one for the corresponding subdirectories
    assert_eq!(groups.len(), 2);
    for g in &groups {
        assert_eq!(g.count, 2);
    }
    let root_group = groups.iter().find(|g| g.members.iter().any(|m| m.path == "/a")).unwrap();
    assert!(root_group.members.iter().any(|m| m.path == "/b"));
}

#[test]
fn empty_root_gets_fixed_digest_and_no_groups() {
    let mut store = Store::new();
    run_scan(&mut store, &[], &["/r"]);
    let rec = store.lookup_dir(&"/r".to_string()).unwrap();
    assert_eq!(rec.digest, EMPTY_SHA256);
    assert_eq!(rec.total_size, 0);
    assert!(duplicate_files(&store).unwrap().is_empty());
    assert!(duplicate_directories(&store).unwrap().is_empty());
}

#[test]
fn every_empty_directory_shares_one_digest() {
    let mut store = Store::new();
    run_scan(&mut store, &[], &["/one"]);
    run_scan(&mut store, &[], &["/two/deep"]);
    assert_eq!(dir_digest_of(&store, "/one"), dir_digest_of(&store, "/two/deep"));
    assert_eq!(dir_digest_of(&store, "/one"), EMPTY_SHA256);
}

#[test]
fn rescan_in_reverse_order_gives_same_digests() {
    // determinism: discovery order must not matter
    let files = [
        ("/r/a.txt", b"one".as_slice(), 1i64),
        ("/r/b.txt", b"two".as_slice(), 1),
        ("/r/s/c.txt", b"three".as_slice(), 1),
    ];
    let mut store1 = Store::new();
    run_scan(&mut store1, &files, &["/r", "/r/s"]);
    let mut reversed = files;
    reversed.reverse();
    let mut store2 = Store::new();
    run_scan(&mut store2, &reversed, &["/r", "/r/s"]);
    assert_eq!(dir_digest_of(&store1, "/r"), dir_digest_of(&store2, "/r"));
    assert_eq!(dir_digest_of(&store1, "/r/s"), dir_digest_of(&store2, "/r/s"));
    let f1 = store1.lookup_file(&"/r/a.txt".to_string()).unwrap().digest.clone();
    let f2 = store2.lookup_file(&"/r/a.txt".to_string()).unwrap().digest.clone();
    assert_eq!(f1, f2);
}

#[test]
fn changed_content_changes_every_ancestor_digest() {
    let mut store = Store::new();
    run_scan(
        &mut store,
        &[("/r/s/f.txt", b"v1", 1), ("/r/other.txt", b"keep", 1)],
        &["/r", "/r/s"],
    );
    let old_file = store.lookup_file(&"/r/s/f.txt".to_string()).unwrap().digest.clone();
    let old_s = dir_digest_of(&store, "/r/s");
    let old_r = dir_digest_of(&store, "/r");

    // next run: the file changed (content and modified time)
    run_scan(
        &mut store,
        &[("/r/s/f.txt", b"v2", 2), ("/r/other.txt", b"keep", 1)],
        &["/r", "/r/s"],
    );
    let new_file = store.lookup_file(&"/r/s/f.txt".to_string()).unwrap().digest.clone();
    assert_ne!(old_file, new_file);
    assert_ne!(old_s, dir_digest_of(&store, "/r/s"));
    assert_ne!(old_r, dir_digest_of(&store, "/r"));
}

#[test]
fn directory_digest_matches_canonical_encoding() {
    // the composite digest is SHA-256 over "name:digest\n" per child,
    // children sorted by name ("s" before "x.txt")
    let mut store = Store::new();
    run_scan(
        &mut store,
        &[("/a/x.txt", b"hello", 1), ("/a/s/y.txt", b"hello", 1)],
        &["/a", "/a/s"],
    );
    let sub = dir_digest_of(&store, "/a/s");
    let mut encoding: Vec<u8> = Vec::new();
    encoding.extend_from_slice(b"s:");
    encoding.extend_from_slice(sub.as_bytes());
    encoding.extend_from_slice(b"\n");
    encoding.extend_from_slice(b"x.txt:");
    encoding.extend_from_slice(HELLO_SHA256.as_bytes());
    encoding.extend_from_slice(b"\n");
    let expected = deduplifier::hashing::to_hex(
        &<sha2::Sha256 as sha2::Digest>::digest(&encoding).to_vec(),
    );
    assert_eq!(dir_digest_of(&store, "/a"), expected);
}

#[test]
fn duplicate_files_are_ordered_by_total_bytes() {
    let mut store = Store::new();
    run_scan(
        &mut store,
        &[
            ("/r/small1", b"a", 1),
            ("/r/small2", b"a", 1),
            ("/r/big1", b"bigger content", 1),
            ("/r/big2", b"bigger content", 1),
            ("/r/unique", b"unique", 1),
        ],
        &["/r"],
    );
    let groups = duplicate_files(&store).unwrap();
    assert_eq!(groups.len(), 2);
    assert!(groups[0].total_size >= groups[1].total_size);
    assert_eq!(groups[0].total_size, 28);
    assert_eq!(groups[1].total_size, 2);
}

#[test]
fn oversized_duplicate_group_is_an_error() {
    // two equal files whose sizes sum past 64 bits
    let mut store = Store::new();
    let mut scan = ScanState::new();
    record_fresh_file(&mut store, &mut scan, &"/r/f1".to_string(), &b"x".to_vec(), u64::MAX, 1);
    record_fresh_file(&mut store, &mut scan, &"/r/f2".to_string(), &b"x".to_vec(), u64::MAX, 1);
    assert!(matches!(duplicate_files(&store), Err(DedupError::SizeOverflow)));
}

#[test]
fn oversized_directory_total_is_an_error() {
    let mut store = Store::new();
    let mut scan = ScanState::new();
    record_fresh_file(&mut store, &mut scan, &"/r/f1".to_string(), &b"x".to_vec(), u64::MAX, 1);
    record_fresh_file(&mut store, &mut scan, &"/r/f2".to_string(), &b"y".to_vec(), u64::MAX, 1);
    assert_eq!(
        aggregate_directory(&mut store, &scan, &"/r".to_string()),
        Err(DedupError::SizeOverflow)
    );
    // the failed aggregation left no directory record behind
    assert!(store.lookup_dir(&"/r".to_string()).is_none());
}

#[test]
fn file_sorts_before_directory_of_same_name() {
    // a file "x" and a subdirectory "x" under one parent must not collide:
    // the child list sorts by name, then file before directory
    let mut store = Store::new();
    run_scan(&mut store, &[("/r/x", b"hello", 1)], &["/r", "/r/x"]);
    let sub = dir_digest_of(&store, "/r/x");
    let mut encoding: Vec<u8> = Vec::new();
    encoding.extend_from_slice(b"x:");
    encoding.extend_from_slice(HELLO_SHA256.as_bytes());
    encoding.extend_from_slice(b"\nx:");
    encoding.extend_from_slice(sub.as_bytes());
    encoding.extend_from_slice(b"\n");
    let expected = deduplifier::hashing::to_hex(
        &<sha2::Sha256 as sha2::Digest>::digest(&encoding).to_vec(),
    );
    assert_eq!(dir_digest_of(&store, "/r"), expected);
}

#[test]
fn duplicate_directories_are_ordered_by_average_size() {
    // two duplicate-directory groups: the pair with the larger average
    // member size comes first
    let mut store = Store::new();
    run_scan(
        &mut store,
        &[
            ("/big1/f", b"a lot of duplicated bytes", 1),
            ("/big2/f", b"a lot of duplicated bytes", 1),
            ("/small1/f", b"tiny", 1),
            ("/small2/f", b"tiny", 1),
        ],
        &["/big1", "/big2", "/small1", "/small2"],
    );
    let groups = duplicate_directories(&store).unwrap();
    assert_eq!(groups.len(), 2);
    assert!(groups[0].total_size / groups[0].count >= groups[1].total_size / groups[1].count);
    assert!(groups[0].members.iter().any(|m| m.path == "/big1"));
    assert!(groups[1].members.iter().any(|m| m.path == "/small1"));
}
