use gapped::commands::diff::{
    build_added_change, build_removed_change, compute_changes, compute_diff, compute_entry_diff, content_paths,
    join_entries, join_step, JoinStep, WalkItem,
};
use gapped::model::diff::{Change, ChangeKind};
use gapped::model::entry::{Entry, EntryKind, Metadata};
use gapped::model::path::RelativePath;

fn rel(path: &str) -> RelativePath {
    RelativePath::new(path.as_bytes()).unwrap()
}

// The changes between two states of the tree at `root`.
fn diff_under(old: &Vec<Entry>, new: &Vec<Entry>, root: &str) -> Vec<Change> {
    let changes = compute_diff(old, new);
    let paths = content_paths(&changes, root.as_bytes());
    assert_eq!(paths.len(), changes.iter().filter(|c| c.has_content()).count());
    changes
}

fn make_metadata(size: u64, mtime_sec: i64, permissions: u32) -> Metadata {
    Metadata {
        size,
        mtime_sec,
        mtime_nsec: 0,
        permissions,
        uid: 1000,
        gid: 1000,
    }
}

fn make_file(path: &str, size: u64, mtime_sec: i64, hash: Option<[u8; 16]>) -> Entry {
    Entry {
        path: rel(path),
        kind: EntryKind::File,
        metadata: make_metadata(size, mtime_sec, 0o644),
        hash,
        symlink_target: None,
        dir_hash: None,
    }
}

fn make_dir(path: &str, mtime: i64) -> Entry {
    Entry {
        path: rel(path),
        kind: EntryKind::Directory,
        metadata: make_metadata(0, mtime, 0o755),
        hash: None,
        symlink_target: None,
        dir_hash: None,
    }
}

fn make_symlink(path: &str, target: &str) -> Entry {
    Entry {
        path: rel(path),
        kind: EntryKind::Symlink,
        metadata: make_metadata(0, 0, 0o777),
        hash: None,
        symlink_target: Some(target.as_bytes().to_vec()),
        dir_hash: None,
    }
}

fn dummy_hash(byte: u8) -> [u8; 16] {
    [byte; 16]
}

fn summarize(changes: &[Change]) -> Vec<(&RelativePath, &str)> {
    changes
        .iter()
        .map(|c| {
            let kind_str = match c.kind {
                ChangeKind::Added(_) => "A",
                ChangeKind::Modified(_) => "M",
                ChangeKind::Removed(_) => "R",
            };
            (&c.path, kind_str)
        })
        .collect()
}

#[test]
fn test_identical_snapshots_produce_no_changes() {
    let entries = vec![
        make_dir(".", 1000),
        make_file("a.txt", 100, 1000, Some(dummy_hash(1))),
        make_dir("sub", 1000),
        make_file("sub/b.txt", 200, 1000, Some(dummy_hash(2))),
    ];

    let root = "/dummy";
    let changes = diff_under(&entries, &entries, root);
    assert!(
        changes.is_empty(),
        "Identical snapshots should produce no changes"
    );
}

#[test]
fn test_empty_old_snapshot_all_added() {
    let old: Vec<Entry> = vec![];
    let new = vec![
        make_dir(".", 1000),
        make_file("hello.txt", 5, 1000, Some(dummy_hash(1))),
    ];

    let root = "/dummy";
    let changes = diff_under(&old, &new, root);

    assert_eq!(changes.len(), 2);
    assert!(
        changes
            .iter()
            .all(|c| matches!(c.kind, ChangeKind::Added(_)))
    );
}

#[test]
fn test_empty_new_snapshot_all_removed() {
    let old = vec![
        make_dir(".", 1000),
        make_file("hello.txt", 5, 1000, Some(dummy_hash(1))),
    ];
    let new: Vec<Entry> = vec![];

    let root = "/dummy";
    let changes = diff_under(&old, &new, root);

    assert_eq!(changes.len(), 2);
    assert!(
        changes
            .iter()
            .all(|c| matches!(c.kind, ChangeKind::Removed(_)))
    );
}

#[test]
fn test_file_added() {
    let old = vec![
        make_dir(".", 1000),
        make_file("a.txt", 10, 1000, Some(dummy_hash(1))),
    ];
    let new = vec![
        make_dir(".", 1000),
        make_file("a.txt", 10, 1000, Some(dummy_hash(1))),
        make_file("b.txt", 20, 2000, Some(dummy_hash(2))),
    ];

    let root = "/dummy";
    let changes = diff_under(&old, &new, root);

    assert_eq!(changes.len(), 1);
    assert_eq!(
        changes[0].path,
        rel("b.txt")
    );
    assert!(matches!(changes[0].kind, ChangeKind::Added(_)));

    // Added file should have has_content = true
    if let ChangeKind::Added(ref added) = changes[0].kind {
        assert!(added.has_content, "Added file should have content");
    }
}

#[test]
fn test_file_removed() {
    let old = vec![
        make_dir(".", 1000),
        make_file("a.txt", 10, 1000, Some(dummy_hash(1))),
        make_file("b.txt", 20, 2000, Some(dummy_hash(2))),
    ];
    let new = vec![
        make_dir(".", 1000),
        make_file("a.txt", 10, 1000, Some(dummy_hash(1))),
    ];

    let root = "/dummy";
    let changes = diff_under(&old, &new, root);

    assert_eq!(changes.len(), 1);
    assert_eq!(
        changes[0].path,
        rel("b.txt")
    );
    assert!(matches!(
        changes[0].kind,
        ChangeKind::Removed(EntryKind::File)
    ));
}

#[test]
fn test_file_content_changed() {
    let old = vec![make_file(
        "a.txt",
        100,
        1000,
        Some(dummy_hash(1)),
    )];
    let new = vec![make_file(
        "a.txt",
        150,
        2000,
        Some(dummy_hash(2)),
    )];

    let root = "/dummy";
    let changes = diff_under(&old, &new, root);

    assert_eq!(changes.len(), 1);
    if let ChangeKind::Modified(ref m) = changes[0].kind {
        assert!(m.has_content, "Content change should include file content");
        assert!(m.new_hash.is_some(), "Should carry new hash");
        assert!(
            m.new_metadata.is_some(),
            "Metadata also changed (size, mtime)"
        );
    } else {
        panic!("Expected Modified change");
    }
}

#[test]
fn test_metadata_only_change_no_content() {
    let old = vec![make_file(
        "a.txt",
        100,
        1000,
        Some(dummy_hash(1)),
    )];
    let new = vec![make_file(
        "a.txt",
        100,
        2000,
        Some(dummy_hash(1)),
    )]; // same hash, diff mtime

    let root = "/dummy";
    let changes = diff_under(&old, &new, root);

    assert_eq!(changes.len(), 1);
    if let ChangeKind::Modified(ref m) = changes[0].kind {
        assert!(
            !m.has_content,
            "Metadata-only change must NOT include content"
        );
        assert!(
            m.new_hash.is_none(),
            "Hash unchanged: new_hash should be None"
        );
        assert!(m.new_metadata.is_some(), "Should carry updated metadata");
    } else {
        panic!("Expected Modified change");
    }
}

#[test]
fn test_permission_only_change() {
    let mut old_entry = make_file("script.sh", 50, 1000, Some(dummy_hash(1)));
    old_entry.metadata.permissions = 0o644;

    let mut new_entry = make_file("script.sh", 50, 1000, Some(dummy_hash(1)));
    new_entry.metadata.permissions = 0o755;

    let root = "/dummy";
    let changes = diff_under(&vec![old_entry], &vec![new_entry], root);

    assert_eq!(changes.len(), 1);
    if let ChangeKind::Modified(ref m) = changes[0].kind {
        assert!(
            !m.has_content,
            "Permission-only change must NOT include content"
        );
        assert!(m.new_metadata.is_some());
    } else {
        panic!("Expected Modified change");
    }
}

#[test]
fn test_symlink_target_changed() {
    let old = vec![make_symlink("link", "/old/target")];
    let new = vec![make_symlink("link", "/new/target")];

    let root = "/dummy";
    let changes = diff_under(&old, &new, root);

    assert_eq!(changes.len(), 1);
    if let ChangeKind::Modified(ref m) = changes[0].kind {
        assert_eq!(
            m.new_symlink_target.as_deref(),
            Some("/new/target".as_bytes())
        );
        assert!(!m.has_content, "Symlinks never have file content");
    } else {
        panic!("Expected Modified change");
    }
}

#[test]
fn test_type_change_file_to_dir() {
    let old = vec![make_file(
        "thing",
        100,
        1000,
        Some(dummy_hash(1)),
    )];
    let new = vec![make_dir("thing", 2000)];

    let root = "/dummy";
    let changes = diff_under(&old, &new, root);

    // Type change should produce a Remove (old type) then Add (new type)
    assert_eq!(changes.len(), 2);
    assert!(matches!(
        changes[0].kind,
        ChangeKind::Removed(EntryKind::File)
    ));
    assert!(matches!(changes[1].kind, ChangeKind::Added(_)));
    assert_eq!(changes[0].path, changes[1].path);
}

#[test]
fn test_type_change_dir_to_symlink() {
    let old = vec![make_dir("thing", 1000)];
    let new = vec![make_symlink("thing", "/somewhere")];

    let root = "/dummy";
    let changes = diff_under(&old, &new, root);

    assert_eq!(changes.len(), 2);
    assert!(matches!(
        changes[0].kind,
        ChangeKind::Removed(EntryKind::Directory)
    ));
    assert!(matches!(changes[1].kind, ChangeKind::Added(_)));
}

#[test]
fn test_type_change_symlink_to_file() {
    let old = vec![make_symlink("thing", "/target")];
    let new = vec![make_file("thing", 50, 2000, Some(dummy_hash(1)))];

    let root = "/dummy";
    let changes = diff_under(&old, &new, root);

    assert_eq!(changes.len(), 2);
    assert!(matches!(
        changes[0].kind,
        ChangeKind::Removed(EntryKind::Symlink)
    ));
    assert!(matches!(changes[1].kind, ChangeKind::Added(_)));

    // The added file should have content
    if let ChangeKind::Added(ref added) = changes[1].kind {
        assert!(added.has_content);
    }
}

#[test]
fn test_mixed_changes() {
    let old = vec![
        make_file("a.txt", 10, 1000, Some(dummy_hash(1))), // will be removed
        make_file("b.txt", 20, 1000, Some(dummy_hash(2))), // unchanged
        make_file("c.txt", 30, 1000, Some(dummy_hash(3))), // will be modified
    ];
    let new = vec![
        make_file("b.txt", 20, 1000, Some(dummy_hash(2))), // unchanged
        make_file("c.txt", 35, 2000, Some(dummy_hash(4))), // modified
        make_file("d.txt", 40, 3000, Some(dummy_hash(5))), // added
    ];

    let root = "/dummy";
    let changes = diff_under(&old, &new, root);

    let summary = summarize(&changes);
    assert_eq!(summary.len(), 3);

    // Check each change (order follows sorted path merge-join)
    assert_eq!(
        summary[0].0,
        &rel("a.txt")
    );
    assert_eq!(summary[0].1, "R");

    assert_eq!(
        summary[1].0,
        &rel("c.txt")
    );
    assert_eq!(summary[1].1, "M");

    assert_eq!(
        summary[2].0,
        &rel("d.txt")
    );
    assert_eq!(summary[2].1, "A");
}

#[test]
fn test_ownership_change() {
    let mut old_entry = make_file("owned.txt", 100, 1000, Some(dummy_hash(1)));
    old_entry.metadata.uid = 1000;
    old_entry.metadata.gid = 1000;

    let mut new_entry = make_file("owned.txt", 100, 1000, Some(dummy_hash(1)));
    new_entry.metadata.uid = 0;
    new_entry.metadata.gid = 0;

    let root = "/dummy";
    let changes = diff_under(&vec![old_entry], &vec![new_entry], root);

    assert_eq!(changes.len(), 1);
    if let ChangeKind::Modified(ref m) = changes[0].kind {
        assert!(
            !m.has_content,
            "Ownership change should not include content"
        );
        assert!(m.new_metadata.is_some());
    } else {
        panic!("Expected Modified change");
    }
}

#[test]
fn test_directory_mtime_changed() {
    let old = vec![make_dir("mydir", 1000)];
    let new = vec![make_dir("mydir", 2000)];

    let root = "/dummy";
    let changes = diff_under(&old, &new, root);

    assert_eq!(changes.len(), 1);
    if let ChangeKind::Modified(ref m) = changes[0].kind {
        assert!(m.new_metadata.is_some());
        assert!(!m.has_content, "Directories never have content");
    } else {
        panic!("Expected Modified change");
    }
}

#[test]
fn test_large_scale_few_changes() {
    let count = 1000;
    let old: Vec<Entry> = (0..count)
        .map(|i| {
            make_file(
                &format!("file_{:04}.txt", i),
                100,
                1000,
                Some(dummy_hash(1)),
            )
        })
        .collect();

    let mut new = old.clone();
    // Modify file 42
    new[42].metadata.mtime_sec = 9999;
    new[42].hash = Some(dummy_hash(2));
    // Modify file 999 (metadata only)
    new[999].metadata.permissions = 0o600;

    let root = "/dummy";
    let changes = diff_under(&old, &new, root);

    assert_eq!(changes.len(), 2);

    // file_0042: content changed
    assert_eq!(
        changes[0].path,
        rel("file_0042.txt")
    );
    if let ChangeKind::Modified(ref m) = changes[0].kind {
        assert!(m.has_content);
    }

    // file_0999: metadata only
    assert_eq!(
        changes[1].path,
        rel("file_0999.txt")
    );
    if let ChangeKind::Modified(ref m) = changes[1].kind {
        assert!(!m.has_content);
    }
}

#[test]
fn content_comes_from_under_the_root() {
    let new = vec![
        make_dir("sub", 1),
        make_file("sub/a", 3, 1, Some(dummy_hash(1))),
        make_symlink("z", "sub/a"),
    ];
    let changes = compute_diff(&vec![], &new);
    assert_eq!(content_paths(&changes, b"/srv"), vec![b"/srv/sub/a".to_vec()]);
}

#[test]
fn changes_are_counted() {
    let old = vec![
        make_file("a", 1, 1, Some(dummy_hash(1))),
        make_file("b", 1, 1, Some(dummy_hash(1))),
        make_dir("c", 1),
        make_file("d", 1, 1, Some(dummy_hash(1))),
    ];
    let new = vec![
        make_file("b", 1, 1, Some(dummy_hash(2))),
        make_file("c", 1, 1, Some(dummy_hash(1))),
        make_file("d", 1, 1, Some(dummy_hash(1))),
        make_file("e", 1, 1, Some(dummy_hash(1))),
    ];
    let items = join_entries(&old, &new);
    let result = compute_changes(&items);
    assert_eq!(result.removed, 2);
    assert_eq!(result.added, 2);
    assert_eq!(result.modified, 1);
    assert_eq!(result.snapshot_entries, 4);
    assert_eq!(result.changes, compute_diff(&old, &new));
}

#[test]
fn joining_goes_by_path() {
    let a = make_dir("a", 1);
    let b = make_dir("b", 1);
    assert!(matches!(join_step(Some(&a), Some(&b)), JoinStep::TakeOld));
    assert!(matches!(join_step(Some(&b), Some(&a)), JoinStep::TakeNew));
    assert!(matches!(join_step(Some(&a), Some(&a)), JoinStep::TakeBoth));
    assert!(matches!(join_step(Some(&a), None), JoinStep::TakeOld));
    assert!(matches!(join_step(None, Some(&a)), JoinStep::TakeNew));
    assert!(matches!(join_step(None, None), JoinStep::Done));
    let items = join_entries(&vec![make_dir("a", 1)], &vec![make_dir("a", 2), make_dir("b", 2)]);
    assert_eq!(items.len(), 2);
    assert!(matches!(&items[0], WalkItem::Both { new, old } if new.metadata.mtime_sec == 2 && old.metadata.mtime_sec == 1));
    assert!(matches!(&items[1], WalkItem::Added(e) if e.path == rel("b")));
}

#[test]
fn content_change_carries_its_size_even_if_metadata_agrees() {
    let old = make_file("a", 7, 1, Some(dummy_hash(1)));
    let new = make_file("a", 7, 1, Some(dummy_hash(2)));
    let change = compute_entry_diff(&old, &new).unwrap();
    match change.kind {
        ChangeKind::Modified(m) => {
            assert!(m.has_content);
            assert_eq!(m.new_hash, Some(dummy_hash(2)));
            assert_eq!(m.new_metadata.map(|m| m.size), Some(7));
            assert_eq!(m.new_symlink_target, None);
        },
        _ => panic!("not a modification"),
    }
    assert!(compute_entry_diff(&old, &old).is_none());
}

#[test]
fn added_and_removed_changes() {
    let link = make_symlink("l", "t");
    let added = build_added_change(&link);
    assert!(!added.has_content());
    match added.kind {
        ChangeKind::Added(a) => assert_eq!(a.entry, link),
        _ => panic!("not an addition"),
    }
    let removed = build_removed_change(&link);
    assert_eq!(removed, Change { path: rel("l"), kind: ChangeKind::Removed(EntryKind::Symlink) });
}
