use deduplifier::hashing::{digest_bytes, to_hex};
use deduplifier::paths::{base_name_of, depth, parent_dir, sort_dirs_by_depth};
use deduplifier::records::FileRecord;
use deduplifier::scanner::{needs_rehash, record_cached_file, record_fresh_file, ScanState};
use deduplifier::store::Store;

const HELLO_SHA256: &str = "2cf24dba5fb0a30e26e83b2ac5b9e29e1b161e5c1fa7425e73043362938b9824";
const EMPTY_SHA256: &str = "e3b0c44298fc1c149afbf4c8996fb92427ae41e4649b934ca495991b7852b855";

#[test]
fn digest_of_hello_is_sha256() {
    let d = digest_bytes(&b"hello".to_vec());
    assert_eq!(d, HELLO_SHA256);
}

#[test]
fn digest_of_empty_input() {
    let d = digest_bytes(&Vec::new());
    assert_eq!(d, EMPTY_SHA256);
}

#[test]
fn digest_matches_outside_hasher() {
    // The library's digest must agree with computing SHA-256 directly.
    let data = b"some longer content\n with bytes \x00\x01\x02".to_vec();
    let d = digest_bytes(&data);
    let direct = <sha2::Sha256 as sha2::Digest>::digest(&data).to_vec();
    assert_eq!(d, to_hex(&direct));
}

#[test]
fn hex_rendering() {
    assert_eq!(to_hex(&vec![0x00u8, 0xff, 0x1a]), "00ff1a");
    assert_eq!(to_hex(&Vec::new()), "");
}

#[test]
fn parent_and_base_name() {
    assert_eq!(parent_dir("/a/b/c.txt"), "/a/b");
    assert_eq!(parent_dir("/a"), "/");
    assert_eq!(parent_dir("a"), "");
    assert_eq!(parent_dir("a/b"), "a");
    assert_eq!(base_name_of("/a/b/c.txt"), "c.txt");
    assert_eq!(base_name_of("/a"), "a");
    assert_eq!(base_name_of("plain"), "plain");
}

#[test]
fn depth_counts_components() {
    assert_eq!(depth("/"), 1);
    assert_eq!(depth("/a"), 2);
    assert_eq!(depth("/a/b"), 3);
    assert_eq!(depth("a/b"), 2);
    assert_eq!(depth("a"), 1);
}

#[test]
fn deepest_directories_come_first() {
    let dirs = vec![
        "/r".to_string(),
        "/r/a/b".to_string(),
        "/r/a".to_string(),
        "/".to_string(),
    ];
    let sorted = sort_dirs_by_depth(&dirs);
    assert_eq!(sorted.len(), 4);
    assert_eq!(sorted[0], "/r/a/b");
    assert_eq!(sorted[1], "/r/a");
    assert_eq!(sorted[2], "/r");
    assert_eq!(sorted[3], "/");
}

#[test]
fn store_upsert_and_lookup() {
    let mut store = Store::new();
    assert!(store.lookup_file(&"/f".to_string()).is_none());
    store.upsert_file(FileRecord {
        path: "/f".to_string(),
        digest: HELLO_SHA256.to_string(),
        size: 5,
        modified_time: 10,
    });
    let rec = store.lookup_file(&"/f".to_string()).unwrap();
    assert_eq!(rec.digest, HELLO_SHA256);
    assert_eq!(rec.size, 5);
    assert_eq!(rec.modified_time, 10);
    // insert-or-replace by path: the row is replaced, not duplicated
    store.upsert_file(FileRecord {
        path: "/f".to_string(),
        digest: EMPTY_SHA256.to_string(),
        size: 0,
        modified_time: 11,
    });
    assert_eq!(store.files().len(), 1);
    assert_eq!(store.lookup_file(&"/f".to_string()).unwrap().digest, EMPTY_SHA256);
}

#[test]
fn needs_rehash_on_unknown_path_and_changed_mtime() {
    let mut store = Store::new();
    let mut scan = ScanState::new();
    let path = "/r/f.txt".to_string();
    // unknown path: must rehash
    assert!(needs_rehash(&store, &path, 100));
    record_fresh_file(&mut store, &mut scan, &path, &b"hello".to_vec(), 5, 100);
    // same modified time: cache hit
    assert!(!needs_rehash(&store, &path, 100));
    // different modified time (earlier or later): rehash
    assert!(needs_rehash(&store, &path, 101));
    assert!(needs_rehash(&store, &path, 99));
}

#[test]
fn cache_hit_emits_stored_digest_without_content() {
    let mut store = Store::new();
    let mut scan1 = ScanState::new();
    let path = "/r/f.txt".to_string();
    record_fresh_file(&mut store, &mut scan1, &path, &b"hello".to_vec(), 5, 100);

    // second run: no rehash needed, and the cached emission carries the
    // same digest the content hash would give, without touching the bytes
    let mut scan2 = ScanState::new();
    assert!(!needs_rehash(&store, &path, 100));
    let found = record_cached_file(&store, &mut scan2, &path);
    assert!(found);
    assert_eq!(scan2.entries.len(), 1);
    assert_eq!(scan2.entries[0].path, path);
    assert_eq!(scan2.entries[0].hash, HELLO_SHA256);
    assert_eq!(scan2.entries[0].size, 5);
}

#[test]
fn cache_miss_on_unknown_path_reports_rehash() {
    let store = Store::new();
    let mut scan = ScanState::new();
    let found = record_cached_file(&store, &mut scan, &"/nowhere".to_string());
    assert!(!found);
    assert_eq!(scan.entries.len(), 0);
}
