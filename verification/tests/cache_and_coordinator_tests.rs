use dirscan::cache::LruCache;
use dirscan::coordinator::{make_cache_key, u64_to_digits, ScanCoordinator, StartOutcome};
use dirscan::registry::IdentityRegistry;
use dirscan::scanner::{join_path, ProgressLog, ScanConfig, ScanErrorKind};
use dirscan::tree::name_le;
use dirscan::snapshot::FsTree;
use dirscan::tree::{deep_clone_node, DirNode};

fn leaf(name: &str, size: u64) -> DirNode {
    DirNode {
        name: name.to_string(),
        path: format!("/{}", name),
        size,
        children: Vec::new(),
        is_file: true,
    }
}

fn plain_file(name: &str, len: u64, ino: u64) -> FsTree {
    FsTree::File { name: name.to_string(), len, nlink: 1, dev: 1, ino }
}

fn dir(name: &str, entries: Vec<FsTree>) -> FsTree {
    FsTree::Dir { name: name.to_string(), entries }
}

fn tree_eq(a: &DirNode, b: &DirNode) -> bool {
    a.name == b.name
        && a.path == b.path
        && a.size == b.size
        && a.is_file == b.is_file
        && a.children.len() == b.children.len()
        && a.children.iter().zip(b.children.iter()).all(|(x, y)| tree_eq(x, y))
}

#[test]
fn cache_get_returns_exactly_what_was_put() {
    let mut cache = LruCache::new();
    cache.put("k1".to_string(), leaf("a", 7), 3);
    let (node, total) = cache.get("k1").expect("hit");
    assert_eq!(total, 3);
    assert!(tree_eq(&node, &leaf("a", 7)));
}

#[test]
fn cache_miss_on_other_key_and_same_path_other_mtime() {
    let mut cache = LruCache::new();
    let key_now = make_cache_key("/data", 100);
    let key_later = make_cache_key("/data", 101);
    cache.put(key_now, leaf("a", 1), 1);
    assert!(cache.get(&key_later).is_none());
    assert!(cache.get("unrelated").is_none());
}

#[test]
fn cache_capacity_evicts_least_recently_used() {
    let mut cache = LruCache::new();
    cache.put("k1".to_string(), leaf("a", 1), 1);
    cache.put("k2".to_string(), leaf("b", 2), 2);
    cache.put("k3".to_string(), leaf("c", 3), 3);
    // Capacity is 3: a fourth key evicts exactly the least recent, k1.
    cache.put("k4".to_string(), leaf("d", 4), 4);
    assert!(cache.get("k1").is_none());
    assert!(cache.get("k2").is_some());
    assert!(cache.get("k3").is_some());
    assert!(cache.get("k4").is_some());
}

#[test]
fn cache_get_promotes_recency() {
    let mut cache = LruCache::new();
    cache.put("k1".to_string(), leaf("a", 1), 1);
    cache.put("k2".to_string(), leaf("b", 2), 2);
    cache.put("k3".to_string(), leaf("c", 3), 3);
    // Touch k1; the least recent is now k2.
    assert!(cache.get("k1").is_some());
    cache.put("k4".to_string(), leaf("d", 4), 4);
    assert!(cache.get("k2").is_none());
    assert!(cache.get("k1").is_some());
}

#[test]
fn cache_put_existing_key_replaces_without_eviction() {
    let mut cache = LruCache::new();
    cache.put("k1".to_string(), leaf("a", 1), 1);
    cache.put("k2".to_string(), leaf("b", 2), 2);
    cache.put("k3".to_string(), leaf("c", 3), 3);
    cache.put("k2".to_string(), leaf("b2", 20), 22);
    // No eviction happened: all three keys still present.
    assert!(cache.get("k1").is_some());
    assert!(cache.get("k3").is_some());
    let (node, total) = cache.get("k2").expect("hit");
    assert_eq!(total, 22);
    assert_eq!(node.name, "b2");
    assert_eq!(node.size, 20);
}

#[test]
fn cache_invalidate_and_clear() {
    let mut cache = LruCache::new();
    cache.put("k1".to_string(), leaf("a", 1), 1);
    cache.put("k2".to_string(), leaf("b", 2), 2);
    cache.invalidate("k1");
    assert!(cache.get("k1").is_none());
    assert!(cache.get("k2").is_some());
    cache.clear();
    assert!(cache.get("k2").is_none());
}

#[test]
fn deep_clone_preserves_the_whole_tree() {
    let tree = DirNode {
        name: "root".to_string(),
        path: "/root".to_string(),
        size: 10,
        children: vec![leaf("a", 4), leaf("b", 6)],
        is_file: false,
    };
    let copy = deep_clone_node(&tree);
    assert!(tree_eq(&tree, &copy));
}

#[test]
fn rescan_of_unchanged_root_is_served_from_cache() {
    let mut coord = ScanCoordinator::new();
    let path = "/data".to_string();
    let root = dir("data", vec![plain_file("a", 10, 1), plain_file("b", 20, 2)]);
    let mut log = ProgressLog::new();
    let mut listing_calls = 0;

    // First request: miss, so the shell walks the filesystem once.
    match coord.start_scan(&path, 500, ScanConfig::new()) {
        StartOutcome::ScanStarted => {
            listing_calls += 1;
            let complete = coord
                .run_scan(Some(&root), &path, &mut log)
                .expect("scan succeeds");
            assert_eq!(complete.root.size, 30);
            assert_eq!(complete.total_scanned, 2);
        }
        StartOutcome::CachedComplete(_) => panic!("first request cannot hit"),
    }

    // Second request, same path and same modification time: replayed from
    // the cache; the listing provider is never invoked again.
    match coord.start_scan(&path, 500, ScanConfig::new()) {
        StartOutcome::CachedComplete(complete) => {
            assert_eq!(complete.root.size, 30);
            assert_eq!(complete.total_scanned, 2);
            assert_eq!(complete.root.children.len(), 2);
            assert_eq!(complete.root.children[0].name, "b");
        }
        StartOutcome::ScanStarted => panic!("second request must hit"),
    }
    assert_eq!(listing_calls, 1);
}

#[test]
fn cancelled_attempt_errors_and_does_not_populate_cache() {
    let mut coord = ScanCoordinator::new();
    let path = "/data".to_string();
    let root = dir("data", vec![plain_file("a", 10, 1)]);
    let mut log = ProgressLog::new();

    match coord.start_scan(&path, 500, ScanConfig::new()) {
        StartOutcome::ScanStarted => {}
        _ => panic!("first request cannot hit"),
    }
    // Cancellation observed before the engine runs.
    coord.cancel_scan();
    let err = coord
        .run_scan(Some(&root), &path, &mut log)
        .expect_err("cancelled attempt must not complete");
    assert_eq!(err.kind, ScanErrorKind::Cancelled);

    // The cache was not populated for that root: the same key still misses.
    match coord.start_scan(&path, 500, ScanConfig::new()) {
        StartOutcome::ScanStarted => {}
        StartOutcome::CachedComplete(_) => panic!("cancelled result must not be cached"),
    }
}

#[test]
fn stale_cache_served_until_mtime_changes() {
    let mut coord = ScanCoordinator::new();
    let path = "/data".to_string();
    let before = dir("data", vec![plain_file("a", 10, 1), plain_file("b", 20, 2)]);
    let mut log = ProgressLog::new();

    match coord.start_scan(&path, 700, ScanConfig::new()) {
        StartOutcome::ScanStarted => {
            coord.run_scan(Some(&before), &path, &mut log).expect("scan succeeds");
        }
        _ => panic!("first request cannot hit"),
    }

    // A file is deleted underneath, but the directory's second-granular
    // modification time has not ticked: the stale result is replayed.
    match coord.start_scan(&path, 700, ScanConfig::new()) {
        StartOutcome::CachedComplete(complete) => {
            assert_eq!(complete.root.size, 30);
            assert_eq!(complete.total_scanned, 2);
        }
        _ => panic!("unchanged key must hit"),
    }

    // Once the modification time changes, the key differs and a fresh
    // scan sees the deletion.
    let after = dir("data", vec![plain_file("b", 20, 2)]);
    match coord.start_scan(&path, 701, ScanConfig::new()) {
        StartOutcome::ScanStarted => {
            let complete = coord.run_scan(Some(&after), &path, &mut log).expect("rescan");
            assert_eq!(complete.root.size, 20);
            assert_eq!(complete.total_scanned, 1);
        }
        _ => panic!("changed key must miss"),
    }
}

#[test]
fn new_request_preempts_the_active_scan() {
    let mut coord = ScanCoordinator::new();
    let mut log = ProgressLog::new();
    let first_path = "/one".to_string();
    let second_path = "/two".to_string();
    match coord.start_scan(&first_path, 1, ScanConfig::new()) {
        StartOutcome::ScanStarted => {}
        _ => panic!("miss expected"),
    }
    // A second request supersedes the first before it ran.
    match coord.start_scan(&second_path, 2, ScanConfig::new()) {
        StartOutcome::ScanStarted => {}
        _ => panic!("miss expected"),
    }
    let root = dir("two", vec![plain_file("a", 5, 1)]);
    let complete = coord.run_scan(Some(&root), &second_path, &mut log).expect("second runs");
    assert_eq!(complete.root.size, 5);
}

#[test]
fn coordinator_rejects_invalid_roots() {
    let mut coord = ScanCoordinator::new();
    let mut log = ProgressLog::new();
    let path = "/gone".to_string();
    match coord.start_scan(&path, 9, ScanConfig::new()) {
        StartOutcome::ScanStarted => {}
        _ => panic!("miss expected"),
    }
    let err = coord.run_scan(None, &path, &mut log).expect_err("missing root");
    assert_eq!(err.kind, ScanErrorKind::InvalidRoot);
    assert_eq!(err.message, "Path does not exist");
}

#[test]
fn digits_render_decimal() {
    assert_eq!(u64_to_digits(0), "0");
    assert_eq!(u64_to_digits(7), "7");
    assert_eq!(u64_to_digits(10), "10");
    assert_eq!(u64_to_digits(1234567890), "1234567890");
    assert_eq!(u64_to_digits(u64::MAX), "18446744073709551615");
}

#[test]
fn cache_key_concatenates_path_and_mtime() {
    assert_eq!(make_cache_key("/data", 1700000000), "/data1700000000");
    assert_eq!(make_cache_key("", 0), "0");
}

#[test]
fn join_path_inserts_separator() {
    assert_eq!(join_path("/root", "sub"), "/root/sub");
    assert_eq!(join_path("", "a"), "/a");
}

#[test]
fn name_le_is_lexicographic() {
    assert!(name_le("a", "b"));
    assert!(!name_le("b", "a"));
    assert!(name_le("abc", "abd"));
    assert!(name_le("ab", "abc"));
    assert!(!name_le("abc", "ab"));
    assert!(name_le("same", "same"));
    assert!(name_le("", "anything"));
}

#[test]
fn registry_observes_each_identity_once() {
    let mut registry = IdentityRegistry::new();
    assert!(registry.observe(1, 100));
    assert!(!registry.observe(1, 100));
    assert!(registry.observe(1, 101));
    assert!(registry.observe(2, 100));
    registry.clear();
    assert!(registry.observe(1, 100));
}
