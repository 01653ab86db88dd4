use dirscan::events::{DirectoryCompletePayload, FsNode, ScanCompletePayload, ScanErrorPayload};
use dirscan::scanner::{ProgressLog, ScanConfig, ScanErrorKind, Scanner};
use dirscan::snapshot::FsTree;
use dirscan::tree::DirNode;

fn file(name: &str, len: u64, nlink: u64, dev: u64, ino: u64) -> FsTree {
    FsTree::File { name: name.to_string(), len, nlink, dev, ino }
}

fn plain_file(name: &str, len: u64, ino: u64) -> FsTree {
    file(name, len, 1, 1, ino)
}

fn dir(name: &str, entries: Vec<FsTree>) -> FsTree {
    FsTree::Dir { name: name.to_string(), entries }
}

fn scan(root: &FsTree) -> (DirNode, u64) {
    let mut scanner = Scanner::new(ScanConfig::new());
    let mut log = ProgressLog::new();
    let complete = scanner
        .scan_directory(Some(root), &"/root".to_string(), &mut log)
        .expect("scan should succeed");
    (complete.root, complete.total_scanned)
}

#[test]
fn scenario_three_files_one_subdir() {
    // Root with a.txt (10), b.txt (30), and sub containing c.txt (5):
    // root size 45, children [b.txt, a.txt, sub], sub size 5, 4 items.
    let root = dir(
        "root",
        vec![
            plain_file("a.txt", 10, 1),
            plain_file("b.txt", 30, 2),
            dir("sub", vec![plain_file("c.txt", 5, 3)]),
        ],
    );
    let (node, total) = scan(&root);
    assert_eq!(node.size, 45);
    assert_eq!(total, 4);
    assert_eq!(node.children.len(), 3);
    assert_eq!(node.children[0].name, "b.txt");
    assert_eq!(node.children[0].size, 30);
    assert_eq!(node.children[1].name, "a.txt");
    assert_eq!(node.children[1].size, 10);
    assert_eq!(node.children[2].name, "sub");
    assert_eq!(node.children[2].size, 5);
    assert_eq!(node.children[2].children.len(), 1);
    assert_eq!(node.children[2].children[0].name, "c.txt");
    assert_eq!(node.children[2].children[0].size, 5);
}

#[test]
fn scenario_hard_link_counted_once() {
    // a.txt and hard/b.txt are hard links to one 100-byte file: the root
    // counts 100 once, not 200.
    let root = dir(
        "root",
        vec![
            file("a.txt", 100, 2, 7, 42),
            dir("hard", vec![file("b.txt", 100, 2, 7, 42)]),
        ],
    );
    let (node, total) = scan(&root);
    assert_eq!(node.size, 100);
    assert_eq!(total, 3);
    // The second path still appears as a node, contributing zero.
    let hard = node
        .children
        .iter()
        .find(|c| c.name == "hard")
        .expect("hard directory present");
    assert_eq!(hard.size, 0);
    assert_eq!(hard.children.len(), 1);
    assert_eq!(hard.children[0].size, 0);
}

#[test]
fn hard_links_across_ancestors_count_once_at_each() {
    let root = dir(
        "root",
        vec![
            dir("a", vec![file("f1", 100, 2, 3, 9)]),
            dir("b", vec![file("f2", 100, 2, 3, 9)]),
        ],
    );
    let (node, _) = scan(&root);
    assert_eq!(node.size, 100);
    // First observer (scanned in encounter order) carries the bytes.
    let a = node.children.iter().find(|c| c.name == "a").unwrap();
    let b = node.children.iter().find(|c| c.name == "b").unwrap();
    assert_eq!(a.size, 100);
    assert_eq!(b.size, 0);
}

#[test]
fn no_hard_links_root_is_sum_of_leaves() {
    let root = dir(
        "root",
        vec![
            plain_file("x", 1, 1),
            dir(
                "d1",
                vec![plain_file("y", 2, 2), dir("d2", vec![plain_file("z", 4, 3)])],
            ),
            FsTree::Symlink { name: "link".to_string(), len: 8 },
        ],
    );
    let (node, total) = scan(&root);
    assert_eq!(node.size, 1 + 2 + 4 + 8);
    assert_eq!(total, 6);
}

#[test]
fn symlink_is_opaque_leaf_with_own_length() {
    let root = dir("root", vec![FsTree::Symlink { name: "s".to_string(), len: 11 }]);
    let (node, total) = scan(&root);
    assert_eq!(node.size, 11);
    assert_eq!(total, 1);
    assert!(node.children[0].is_file);
    assert!(node.children[0].children.is_empty());
}

#[test]
fn unreadable_entry_degrades_to_zero_leaf_and_reports() {
    let root = dir(
        "root",
        vec![plain_file("ok", 5, 1), FsTree::Unreadable { name: "secret".to_string() }],
    );
    let mut scanner = Scanner::new(ScanConfig::new());
    let mut log = ProgressLog::new();
    let complete = scanner
        .scan_directory(Some(&root), &"/root".to_string(), &mut log)
        .expect("degraded scan still succeeds");
    assert_eq!(complete.root.size, 5);
    // The unreadable entry is not a scanned item.
    assert_eq!(complete.total_scanned, 1);
    // But it still appears as a zero-size node.
    let degraded = complete
        .root
        .children
        .iter()
        .find(|c| c.name == "secret")
        .expect("degraded node present");
    assert_eq!(degraded.size, 0);
    assert!(!degraded.is_file);
    // And it was reported as a non-fatal error.
    assert_eq!(log.errors.len(), 1);
    assert!(log.errors[0].contains("/root/secret"));
}

#[test]
fn children_strictly_ordered_size_desc_name_asc() {
    let root = dir(
        "root",
        vec![
            plain_file("b", 10, 1),
            plain_file("a", 10, 2),
            plain_file("c", 30, 3),
            plain_file("d", 20, 4),
        ],
    );
    let (node, _) = scan(&root);
    let names: Vec<&str> = node.children.iter().map(|c| c.name.as_str()).collect();
    assert_eq!(names, vec!["c", "d", "a", "b"]);
    for w in node.children.windows(2) {
        let strictly_before = w[0].size > w[1].size
            || (w[0].size == w[1].size && w[0].name < w[1].name);
        assert!(strictly_before);
    }
}

#[test]
fn missing_root_is_rejected_synchronously() {
    let mut scanner = Scanner::new(ScanConfig::new());
    let mut log = ProgressLog::new();
    let err = scanner
        .scan_directory(None, &"/nowhere".to_string(), &mut log)
        .expect_err("missing root must fail");
    assert_eq!(err.kind, ScanErrorKind::InvalidRoot);
    assert_eq!(err.message, "Path does not exist");
}

#[test]
fn non_directory_root_is_rejected() {
    let root = plain_file("f", 3, 1);
    let mut scanner = Scanner::new(ScanConfig::new());
    let mut log = ProgressLog::new();
    let err = scanner
        .scan_directory(Some(&root), &"/f".to_string(), &mut log)
        .expect_err("file root must fail");
    assert_eq!(err.kind, ScanErrorKind::InvalidRoot);
    assert_eq!(err.message, "Path is not a directory");
}

#[test]
fn cancelled_session_reports_cancellation_not_completion() {
    let root = dir("root", vec![plain_file("a", 1, 1)]);
    let mut scanner = Scanner::new(ScanConfig::new());
    scanner.cancel();
    let mut log = ProgressLog::new();
    let err = scanner
        .scan_directory(Some(&root), &"/root".to_string(), &mut log)
        .expect_err("cancelled session must not complete");
    assert_eq!(err.kind, ScanErrorKind::Cancelled);
    assert_eq!(err.message, "Scan cancelled");
    assert!(log.directories.is_empty());
}

#[test]
fn cancel_is_idempotent() {
    let mut scanner = Scanner::new(ScanConfig::new());
    assert!(!scanner.is_cancelled());
    scanner.cancel();
    scanner.cancel();
    assert!(scanner.is_cancelled());
}

#[test]
fn progress_reported_once_per_completed_directory() {
    let root = dir(
        "root",
        vec![dir("d1", vec![plain_file("x", 1, 1)]), dir("d2", vec![])],
    );
    let mut scanner = Scanner::new(ScanConfig::new());
    let mut log = ProgressLog::new();
    scanner
        .scan_directory(Some(&root), &"/root".to_string(), &mut log)
        .expect("scan succeeds");
    // Three directories complete: d1, d2, and the root, in completion order.
    assert_eq!(log.directories.len(), 3);
    assert_eq!(log.directories[0].path, "/root/d1");
    assert_eq!(log.directories[1].path, "/root/d2");
    assert_eq!(log.directories[2].path, "/root");
    // The counter in the notifications never decreases.
    for w in log.directories.windows(2) {
        assert!(w[0].total_scanned <= w[1].total_scanned);
    }
}

#[test]
fn sampling_interval_limits_progress_reports() {
    let root = dir(
        "root",
        vec![
            dir("d1", vec![]),
            dir("d2", vec![]),
            dir("d3", vec![]),
        ],
    );
    let mut config = ScanConfig::new();
    config.report_interval = 2;
    let mut scanner = Scanner::new(config);
    let mut log = ProgressLog::new();
    let complete = scanner
        .scan_directory(Some(&root), &"/root".to_string(), &mut log)
        .expect("scan succeeds");
    // Four directories complete (d1..d3 and root); every 2nd is reported.
    assert_eq!(log.directories.len(), 2);
    // Sampling never changes the final result.
    assert_eq!(complete.root.size, 0);
    assert_eq!(complete.total_scanned, 3);
}

#[test]
fn dedup_all_mode_consults_registry_for_single_link_files() {
    // Two paths report the same identity with link count 1; the default
    // accounting counts both, the all-files mode counts one.
    let make_root = || {
        dir(
            "root",
            vec![plain_file("a", 100, 5), plain_file("b", 100, 5)],
        )
    };
    let (node, _) = scan(&make_root());
    assert_eq!(node.size, 200);

    let mut config = ScanConfig::new();
    config.dedup_all = true;
    let mut scanner = Scanner::new(config);
    let mut log = ProgressLog::new();
    let complete = scanner
        .scan_directory(Some(&make_root()), &"/root".to_string(), &mut log)
        .expect("scan succeeds");
    assert_eq!(complete.root.size, 100);
}

#[test]
fn empty_directory_scans_to_zero() {
    let root = dir("root", vec![]);
    let (node, total) = scan(&root);
    assert_eq!(node.size, 0);
    assert_eq!(total, 0);
    assert!(node.children.is_empty());
    assert!(!node.is_file);
}

#[test]
fn notification_payloads_carry_the_scan_outcome() {
    let root = dir("root", vec![plain_file("a.txt", 10, 1)]);
    let (node, total) = scan(&root);
    let subtree = FsNode {
        name: node.name.clone(),
        path: node.path.clone(),
        size: node.size,
        children: vec![FsNode {
            name: node.children[0].name.clone(),
            path: node.children[0].path.clone(),
            size: node.children[0].size,
            children: vec![],
        }],
    };
    let progress = DirectoryCompletePayload {
        path: subtree.path.clone(),
        node_data: FsNode {
            name: subtree.name.clone(),
            path: subtree.path.clone(),
            size: subtree.size,
            children: vec![],
        },
        total_scanned: total,
    };
    let done = ScanCompletePayload { root: subtree, total_scanned: total };
    assert_eq!(done.root.size, 10);
    assert_eq!(done.root.children[0].name, "a.txt");
    assert_eq!(done.total_scanned, 1);
    assert_eq!(progress.total_scanned, 1);
    let error = ScanErrorPayload { message: "Scan cancelled".to_string() };
    assert_eq!(error.message, "Scan cancelled");
}

#[test]
fn sizes_saturate_instead_of_overflowing() {
    let root = dir(
        "root",
        vec![plain_file("a", u64::MAX, 1), plain_file("b", u64::MAX, 2)],
    );
    let (node, total) = scan(&root);
    assert_eq!(node.size, u64::MAX);
    assert_eq!(total, 2);
}

#[test]
fn node_paths_follow_the_tree() {
    let root = dir("root", vec![dir("sub", vec![plain_file("c", 1, 1)])]);
    let (node, _) = scan(&root);
    assert_eq!(node.path, "/root");
    assert_eq!(node.children[0].path, "/root/sub");
    assert_eq!(node.children[0].children[0].path, "/root/sub/c");
}
