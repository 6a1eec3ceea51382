use gapped::fs::hash::{compute_dir_hashes, FileHasher};
use gapped::fs::metadata::{NodeType, RawStat};
use gapped::fs::walk::{
    classify_dir_entry, find_entry, hash_outcome, known_hash, needs_hashing, reuse_hash, sort_entries, walk_filesystem, ClassifyError, HashOutcome,
    RawEntry, Walk, WalkStats,
};
use gapped::model::entry::{Entry, EntryKind, Metadata};
use gapped::model::path::RelativePath;

fn stat(node: NodeType, len: u64, mtime_sec: i64) -> RawStat {
    RawStat { node, len, mtime_sec, mtime_nsec: 0, mode: 0o644, uid: 1000, gid: 1000 }
}

struct Node {
    path: &'static str,
    node: NodeType,
    content: &'static str,
    mtime: i64,
}

fn setup_test_tree() -> Vec<Node> {
    let dir = |path: &'static str| Node { path, node: NodeType::Directory, content: "", mtime: 1 };
    let file =
        |path: &'static str, content: &'static str| Node { path, node: NodeType::File, content, mtime: 1 };
    vec![
        dir("/tree"),
        file("/tree/top.txt", "hello"),
        dir("/tree/c"),
        dir("/tree/a"),
        dir("/tree/a/b"),
        file("/tree/a/b/deep.txt", "deep"),
        file("/tree/a/nested.txt", "world"),
        Node { path: "/tree/link.txt", node: NodeType::Symlink, content: "top.txt", mtime: 1 },
    ]
}

fn hash_of(content: &str) -> [u8; 16] {
    let mut h = FileHasher::new();
    h.update(content.as_bytes());
    h.finish()
}

fn walk_tree(tree: &[Node], previous: Option<&Vec<Entry>>) -> (Vec<Entry>, WalkStats) {
    let mut walk = Walk::new();
    let mut contents: Vec<&str> = vec![];
    for n in tree {
        let target = if n.node == NodeType::Symlink { Some(n.content.as_bytes().to_vec()) } else { None };
        let r = classify_dir_entry(
            n.path.as_bytes(),
            b"/tree",
            Some(stat(n.node, n.content.len() as u64, n.mtime)),
            target,
        );
        if r.is_ok() {
            contents.push(n.content);
        }
        walk.note(r);
    }
    let mut outcomes: Vec<HashOutcome> = vec![];
    for (raw, content) in walk.found.iter().zip(contents) {
        let known = known_hash(raw, previous);
        let hashed = if needs_hashing(raw, known) { Some(hash_of(content)) } else { None };
        outcomes.push(hash_outcome(raw, known, hashed));
    }
    walk_filesystem(walk, &outcomes)
}

#[test]
fn test_walk_counts() {
    let tree = setup_test_tree();
    let (entries, stats) = walk_tree(&tree, None);

    assert_eq!(stats.directories, 4);
    assert_eq!(stats.files, 3);
    assert_eq!(stats.symlinks, 1);
    assert_eq!(stats.total_entries, 8);
    assert_eq!(stats.files_hashed, 3);
    assert_eq!(stats.files_hash_reused, 0);
    assert_eq!(stats.errors, 0);
    assert_eq!(entries.len(), 8);
}

#[test]
fn test_entries_sorted_by_path() {
    let tree = setup_test_tree();
    let (entries, _) = walk_tree(&tree, None);

    let paths: Vec<String> =
        entries.iter().map(|e| String::from_utf8(e.path.to_bytes()).unwrap()).collect();

    let mut sorted = paths.clone();
    sorted.sort();
    assert_eq!(paths, sorted);
}

#[test]
fn test_hash_reuse() {
    let mut tree = setup_test_tree();

    let (prev_entries, stats) = walk_tree(&tree, None);
    assert_eq!(stats.files_hashed, 3);
    assert_eq!(stats.files_hash_reused, 0);

    assert_eq!(tree[1].path, "/tree/top.txt");
    tree[1].content = "changed";

    let (_, stats) = walk_tree(&tree, Some(&prev_entries));
    assert_eq!(stats.files_hashed, 1);
    assert_eq!(stats.files_hash_reused, 2);
}

#[test]
fn a_walk_leaves_out_what_it_cannot_read() {
    let mut walk = Walk::new();
    walk.note(classify_dir_entry(b"/r/sock", b"/r", Some(stat(NodeType::Other, 0, 1)), None));
    walk.note(classify_dir_entry(b"/r/gone", b"/r", None, None));
    walk.note(classify_dir_entry(b"/r/l", b"/r", Some(stat(NodeType::Symlink, 0, 1)), None));
    walk.note(classify_dir_entry(b"/r/f", b"/r", Some(stat(NodeType::File, 5, 1)), None));
    assert_eq!(walk.stats.errors, 2);
    assert_eq!(walk.found.len(), 1);
    let (entries, stats) = walk_filesystem(walk, &vec![HashOutcome::Failed]);
    assert_eq!(entries.len(), 0);
    assert_eq!(stats.errors, 3);
    assert_eq!(stats.total_entries, 1);
    assert_eq!(stats.files_hashed, 0);
}

#[test]
fn every_file_is_accounted_for() {
    let mut walk = Walk::new();
    for name in [&b"/r/a"[..], b"/r/b", b"/r/c", b"/r/d"] {
        walk.note(classify_dir_entry(name, b"/r", Some(stat(NodeType::File, 5, 1)), None));
    }
    walk.note(classify_dir_entry(b"/r/dir", b"/r", Some(stat(NodeType::Directory, 0, 1)), None));
    let outcomes = vec![
        HashOutcome::Hashed([1; 16]),
        HashOutcome::Failed,
        HashOutcome::Reused([2; 16]),
        HashOutcome::Hashed([3; 16]),
        HashOutcome::NotAFile,
    ];
    let (entries, stats) = walk_filesystem(walk, &outcomes);
    assert_eq!((stats.files, stats.directories, stats.symlinks), (4, 1, 0));
    assert_eq!((stats.files_hashed, stats.files_hash_reused, stats.errors), (2, 1, 1));
    assert_eq!(stats.files_hashed + stats.files_hash_reused + stats.errors, stats.files);
    assert_eq!(entries.len(), 4);
}

#[test]
fn where_a_hash_comes_from() {
    let raw = |node| classify_dir_entry(b"/r/x", b"/r", Some(stat(node, 5, 1)), Some(vec![b't'])).unwrap();
    let file = raw(NodeType::File);
    assert_eq!(hash_outcome(&file, Some([1; 16]), None), HashOutcome::Reused([1; 16]));
    assert_eq!(hash_outcome(&file, Some([1; 16]), Some([2; 16])), HashOutcome::Reused([1; 16]));
    assert_eq!(hash_outcome(&file, None, Some([2; 16])), HashOutcome::Hashed([2; 16]));
    assert_eq!(hash_outcome(&file, None, None), HashOutcome::Failed);
    assert!(needs_hashing(&file, None));
    assert!(!needs_hashing(&file, Some([1; 16])));
    for node in [NodeType::Directory, NodeType::Symlink] {
        assert_eq!(hash_outcome(&raw(node), None, None), HashOutcome::NotAFile);
        assert!(!needs_hashing(&raw(node), None));
    }
}

#[test]
fn classification() {
    assert!(matches!(
        classify_dir_entry(b"/r/p", b"/r", Some(stat(NodeType::Other, 0, 1)), None),
        Err(ClassifyError::Skip)
    ));
    assert!(matches!(
        classify_dir_entry(b"/elsewhere", b"/r", Some(stat(NodeType::File, 0, 1)), None),
        Err(ClassifyError::Failed)
    ));
    let raw = classify_dir_entry(b"/r/l", b"/r", Some(stat(NodeType::Symlink, 3, 1)), Some(b"to".to_vec()));
    match raw {
        Ok(RawEntry { path, kind, metadata, symlink_target }) => {
            assert_eq!(path.to_bytes(), b"l".to_vec());
            assert_eq!(kind, EntryKind::Symlink);
            assert_eq!(metadata.mtime_sec, 1);
            assert_eq!(symlink_target, Some(b"to".to_vec()));
        },
        Err(_) => panic!("a link is an entry"),
    }
}

#[test]
fn hashes_are_reused_only_for_the_same_size_and_time() {
    let old = make_entry("f", EntryKind::File, Some([7u8; 16]));
    assert_eq!(reuse_hash(&old.metadata, Some(&old)), Some([7u8; 16]));
    assert_eq!(reuse_hash(&old.metadata, None), None);
    let mut changed = old.metadata;
    changed.size = 101;
    assert_eq!(reuse_hash(&changed, Some(&old)), None);
    let dir = make_entry("f", EntryKind::Directory, Some([7u8; 16]));
    assert_eq!(reuse_hash(&dir.metadata, Some(&dir)), None);
    let unhashed = make_entry("f", EntryKind::File, None);
    assert_eq!(reuse_hash(&unhashed.metadata, Some(&unhashed)), None);
}

#[test]
fn entries_are_found_by_path() {
    let list = vec![
        make_entry("a", EntryKind::File, None),
        make_entry("a/b", EntryKind::File, None),
        make_entry("c", EntryKind::File, None),
    ];
    let at = |p: &str| find_entry(&list, &RelativePath::new(p.as_bytes()).unwrap());
    assert_eq!(at("a"), Some(0));
    assert_eq!(at("a/b"), Some(1));
    assert_eq!(at("c"), Some(2));
    assert_eq!(at("b"), None);
}

#[test]
fn sorting_is_stable() {
    let first = make_entry("same", EntryKind::File, Some([1u8; 16]));
    let second = make_entry("same", EntryKind::File, Some([2u8; 16]));
    let front = make_entry("front", EntryKind::File, None);
    let sorted = sort_entries(&vec![first.clone(), second.clone(), front.clone()]);
    assert_eq!(sorted, vec![front, first, second]);
}

#[test]
fn file_hash_is_xxh3_128() {
    // The published XXH3-128 hash of the empty input.
    let mut expected: [u8; 16] = 0x99aa06d3014798d86001c324468d497f_u128.to_le_bytes();
    assert_eq!(FileHasher::new().finish(), expected);
    expected = xxhash_rust::xxh3::xxh3_128(b"hello world").to_le_bytes();
    let mut h = FileHasher::new();
    h.update(b"hello ");
    h.update(b"world");
    assert_eq!(h.finish(), expected);
}

#[test]
fn dir_hash_is_the_hash_of_the_records() {
    let mut entries = vec![
        make_entry(".", EntryKind::Directory, None),
        make_entry("b", EntryKind::File, Some([3u8; 16])),
        make_symlink_entry("a", "t"),
    ];
    compute_dir_hashes(&mut entries);
    let mut h = FileHasher::new();
    let mut add = |name: &[u8], kind: u8, content: &[u8; 16], mode: u32, size: u64| {
        h.update(name);
        h.update(&[0, kind]);
        h.update(content);
        h.update(&mode.to_le_bytes());
        h.update(&1000u32.to_le_bytes());
        h.update(&1000u32.to_le_bytes());
        h.update(&1_700_000_000i64.to_le_bytes());
        h.update(&0u32.to_le_bytes());
        h.update(&size.to_le_bytes());
    };
    add(b"a", 2, &hash_of("t"), 0o777, 0);
    add(b"b", 0, &[3u8; 16], 0o644, 100);
    assert_eq!(entries[0].dir_hash, Some(h.finish()));
    assert_eq!(entries[1].dir_hash, None);
}

#[test]
fn dir_hash_does_not_depend_on_positions() {
    let mut forth = vec![
        make_entry(".", EntryKind::Directory, None),
        make_entry("d", EntryKind::Directory, None),
        make_entry("d/a", EntryKind::File, Some([1u8; 16])),
        make_entry("d/b", EntryKind::File, Some([2u8; 16])),
    ];
    let mut back: Vec<Entry> = forth.iter().rev().cloned().collect();
    compute_dir_hashes(&mut forth);
    compute_dir_hashes(&mut back);
    assert_eq!(forth[0].dir_hash, back[3].dir_hash);
    assert_eq!(forth[1].dir_hash, back[2].dir_hash);
    assert_ne!(forth[0].dir_hash, forth[1].dir_hash);
}

fn make_entry(path: &str, kind: EntryKind, hash: Option<[u8; 16]>) -> Entry {
    Entry {
        path: RelativePath::new(path.as_bytes()).unwrap(),
        kind,
        metadata: Metadata {
            size: if kind == EntryKind::File { 100 } else { 0 },
            mtime_sec: 1_700_000_000,
            mtime_nsec: 0,
            permissions: if kind == EntryKind::Directory {
                0o755
            } else {
                0o644
            },
            uid: 1000,
            gid: 1000,
        },
        hash,
        symlink_target: None,
        dir_hash: None,
    }
}

fn make_symlink_entry(path: &str, target: &str) -> Entry {
    Entry {
        path: RelativePath::new(path.as_bytes()).unwrap(),
        kind: EntryKind::Symlink,
        metadata: Metadata {
            size: 0,
            mtime_sec: 1_700_000_000,
            mtime_nsec: 0,
            permissions: 0o777,
            uid: 1000,
            gid: 1000,
        },
        hash: None,
        symlink_target: Some(target.as_bytes().to_vec()),
        dir_hash: None,
    }
}

#[test]
fn dir_hash_deterministic() {
    let mut entries = vec![
        make_entry(".", EntryKind::Directory, None),
        make_entry("a.txt", EntryKind::File, Some([1u8; 16])),
        make_entry("b.txt", EntryKind::File, Some([2u8; 16])),
    ];
    compute_dir_hashes(&mut entries);
    let h1 = entries[0].dir_hash.unwrap();

    let mut entries2 = entries.clone();
    entries2[0].dir_hash = None;
    compute_dir_hashes(&mut entries2);
    assert_eq!(h1, entries2[0].dir_hash.unwrap());
}

#[test]
fn dir_hash_independent_of_input_order() {
    let mut entries_ab = vec![
        make_entry(".", EntryKind::Directory, None),
        make_entry("a.txt", EntryKind::File, Some([1u8; 16])),
        make_entry("b.txt", EntryKind::File, Some([2u8; 16])),
    ];
    compute_dir_hashes(&mut entries_ab);

    // Same children but input in reverse order (still sorted by path
    // for the function contract, but the internal sort by name should
    // produce the same hash regardless).
    let mut entries_ba = vec![
        make_entry(".", EntryKind::Directory, None),
        make_entry("a.txt", EntryKind::File, Some([1u8; 16])),
        make_entry("b.txt", EntryKind::File, Some([2u8; 16])),
    ];
    compute_dir_hashes(&mut entries_ba);
    assert_eq!(
        entries_ab[0].dir_hash.unwrap(),
        entries_ba[0].dir_hash.unwrap()
    );
}

#[test]
fn dir_hash_changes_when_child_content_changes() {
    let mut v1 = vec![
        make_entry(".", EntryKind::Directory, None),
        make_entry("a.txt", EntryKind::File, Some([1u8; 16])),
    ];
    compute_dir_hashes(&mut v1);

    let mut v2 = vec![
        make_entry(".", EntryKind::Directory, None),
        make_entry("a.txt", EntryKind::File, Some([2u8; 16])),
    ];
    compute_dir_hashes(&mut v2);
    assert_ne!(v1[0].dir_hash.unwrap(), v2[0].dir_hash.unwrap());
}

#[test]
fn dir_hash_changes_when_child_name_changes() {
    let mut v1 = vec![
        make_entry(".", EntryKind::Directory, None),
        make_entry("a.txt", EntryKind::File, Some([1u8; 16])),
    ];
    compute_dir_hashes(&mut v1);

    let mut v2 = vec![
        make_entry(".", EntryKind::Directory, None),
        make_entry("z.txt", EntryKind::File, Some([1u8; 16])),
    ];
    compute_dir_hashes(&mut v2);
    assert_ne!(v1[0].dir_hash.unwrap(), v2[0].dir_hash.unwrap());
}

#[test]
fn dir_hash_changes_when_child_mode_changes() {
    let mut v1 = vec![
        make_entry(".", EntryKind::Directory, None),
        make_entry("a.txt", EntryKind::File, Some([1u8; 16])),
    ];
    compute_dir_hashes(&mut v1);

    let mut v2 = v1.clone();
    v2[0].dir_hash = None;
    v2[1].metadata.permissions = 0o755;
    compute_dir_hashes(&mut v2);
    assert_ne!(v1[0].dir_hash.unwrap(), v2[0].dir_hash.unwrap());
}

#[test]
fn dir_hash_changes_when_child_ownership_changes() {
    let mut v1 = vec![
        make_entry(".", EntryKind::Directory, None),
        make_entry("a.txt", EntryKind::File, Some([1u8; 16])),
    ];
    compute_dir_hashes(&mut v1);

    let mut v2 = v1.clone();
    v2[0].dir_hash = None;
    v2[1].metadata.uid = 0;
    compute_dir_hashes(&mut v2);
    assert_ne!(v1[0].dir_hash.unwrap(), v2[0].dir_hash.unwrap());
}

#[test]
fn dir_hash_changes_when_child_mtime_changes() {
    let mut v1 = vec![
        make_entry(".", EntryKind::Directory, None),
        make_entry("a.txt", EntryKind::File, Some([1u8; 16])),
    ];
    compute_dir_hashes(&mut v1);

    let mut v2 = v1.clone();
    v2[0].dir_hash = None;
    v2[1].metadata.mtime_sec = 9999;
    compute_dir_hashes(&mut v2);
    assert_ne!(v1[0].dir_hash.unwrap(), v2[0].dir_hash.unwrap());
}

#[test]
fn dir_hash_cascades_through_ancestors() {
    let mut entries = vec![
        make_entry(".", EntryKind::Directory, None),
        make_entry("a", EntryKind::Directory, None),
        make_entry("a/b", EntryKind::Directory, None),
        make_entry("a/b/deep.txt", EntryKind::File, Some([1u8; 16])),
    ];
    compute_dir_hashes(&mut entries);
    let root_h1 = entries[0].dir_hash.unwrap();
    let a_h1 = entries[1].dir_hash.unwrap();
    let ab_h1 = entries[2].dir_hash.unwrap();

    // Change the deep file
    let mut entries2 = entries.clone();
    for e in &mut entries2 {
        e.dir_hash = None;
    }
    entries2[3].hash = Some([2u8; 16]);
    compute_dir_hashes(&mut entries2);

    assert_ne!(ab_h1, entries2[2].dir_hash.unwrap(), "a/b should change");
    assert_ne!(a_h1, entries2[1].dir_hash.unwrap(), "a should change");
    assert_ne!(root_h1, entries2[0].dir_hash.unwrap(), "root should change");
}

#[test]
fn dir_hash_empty_directory() {
    let mut entries = vec![
        make_entry(".", EntryKind::Directory, None),
        make_entry("empty", EntryKind::Directory, None),
    ];
    compute_dir_hashes(&mut entries);
    assert!(
        entries[1].dir_hash.is_some(),
        "empty dir must get a dir_hash"
    );
}

#[test]
fn dir_hash_with_symlink() {
    let mut entries = vec![
        make_entry(".", EntryKind::Directory, None),
        make_symlink_entry("link", "/some/target"),
    ];
    compute_dir_hashes(&mut entries);
    let h1 = entries[0].dir_hash.unwrap();

    let mut entries2 = vec![
        make_entry(".", EntryKind::Directory, None),
        make_symlink_entry("link", "/other/target"),
    ];
    compute_dir_hashes(&mut entries2);
    assert_ne!(h1, entries2[0].dir_hash.unwrap());
}

#[test]
fn dir_hash_root_gets_hash() {
    let mut entries = vec![make_entry(".", EntryKind::Directory, None)];
    compute_dir_hashes(&mut entries);
    assert!(entries[0].dir_hash.is_some());
}

#[test]
fn dir_hash_sibling_subtree_unchanged() {
    let mut entries = vec![
        make_entry(".", EntryKind::Directory, None),
        make_entry("left", EntryKind::Directory, None),
        make_entry("left/a.txt", EntryKind::File, Some([1u8; 16])),
        make_entry("right", EntryKind::Directory, None),
        make_entry("right/b.txt", EntryKind::File, Some([2u8; 16])),
    ];
    compute_dir_hashes(&mut entries);
    let right_h1 = entries[3].dir_hash.unwrap();

    // Change only the left subtree
    let mut entries2 = entries.clone();
    for e in &mut entries2 {
        e.dir_hash = None;
    }
    entries2[2].hash = Some([9u8; 16]);
    compute_dir_hashes(&mut entries2);
    assert_eq!(
        right_h1,
        entries2[3].dir_hash.unwrap(),
        "right subtree should be unchanged"
    );
    assert_ne!(
        entries[1].dir_hash.unwrap(),
        entries2[1].dir_hash.unwrap(),
        "left subtree should change"
    );
}
