use gapped::error::GappedError;
use gapped::fs::metadata::{collect_metadata, NodeType, RawStat};
use gapped::model::diff::{Change, ChangeKind, ModifiedEntry};
use gapped::model::entry::{Entry, EntryKind, Metadata};
use gapped::model::path::RelativePath;
use gapped::model::path_map::{PathMap, PathSet};
use gapped::order::{rank_bytes, Rank};

fn create_meta(sec: i64, nsec: u32) -> Metadata {
    Metadata {
        size: 100,
        mtime_sec: sec,
        mtime_nsec: nsec,
        permissions: 0o644,
        uid: 1000,
        gid: 1000,
    }
}

fn rel(path: &str) -> RelativePath {
    RelativePath::new(path.as_bytes()).unwrap()
}

#[test]
fn matches_identical() {
    let a = create_meta(1_700_000_000, 123_456_789);
    assert!(a.matches(&a));
}

#[test]
fn matches_within_one_second_window() {
    let a = create_meta(1_700_000_000, 999_999_999);
    let b = create_meta(1_700_000_001, 0);
    assert!(a.matches(&b));
    assert!(b.matches(&a));
}

#[test]
fn matches_at_exactly_one_second() {
    let a = create_meta(1_700_000_000, 0);
    let b = create_meta(1_700_000_001, 0);
    assert!(a.matches(&b));
}

#[test]
fn does_not_match_beyond_one_second() {
    let a = create_meta(1_700_000_000, 0);
    let b = create_meta(1_700_000_001, 1);
    assert!(!a.matches(&b));
}

#[test]
fn matches_when_nsec_truncated_to_zero() {
    let sent = create_meta(1_700_000_000, 500_000_000);
    let received = create_meta(1_700_000_000, 0);
    assert!(sent.matches(&received));
}

#[test]
fn does_not_match_on_size_change() {
    let mut a = create_meta(1_700_000_000, 0);
    let mut b = a.clone();
    b.size = a.size + 1;
    assert!(!a.matches(&b));
    a.mtime_nsec = 0;
    b.mtime_nsec = 0;
    assert!(!a.matches(&b));
}

#[test]
fn does_not_match_on_permission_change() {
    let a = create_meta(1_700_000_000, 0);
    let mut b = a.clone();
    b.permissions = 0o755;
    assert!(!a.matches(&b));
}

#[test]
fn does_not_match_on_ownership_change() {
    let a = create_meta(1_700_000_000, 0);
    let mut b = a.clone();
    b.uid = 0;
    assert!(!a.matches(&b));

    let mut c = a.clone();
    c.gid = 0;
    assert!(!a.matches(&c));
}

#[test]
fn mtime_matches_across_negative_timestamps() {
    let a = create_meta(-10, 500_000_000);
    let b = create_meta(-9, 500_000_000);
    assert!(a.matches(&b));

    let c = create_meta(-10, 0);
    let d = create_meta(-8, 0);
    assert!(!c.matches(&d));
}

#[test]
fn extreme_times_do_not_overflow() {
    let a = create_meta(i64::MIN, 0);
    let b = create_meta(i64::MAX, u32::MAX);
    assert!(!a.mtime_matches(&b));
    assert!(b.mtime_matches(&b));
}

#[test]
fn size_and_mtime_ignore_the_rest() {
    let a = create_meta(5, 1);
    let mut b = create_meta(5, 2);
    b.permissions = 0;
    b.uid = 7;
    assert!(a.size_and_mtime_match(&b));
    b.mtime_sec = 6;
    assert!(!a.size_and_mtime_match(&b));
}

#[test]
fn metadata_comes_from_the_stat() {
    let stat = RawStat {
        node: NodeType::File,
        len: 12,
        mtime_sec: -3,
        mtime_nsec: 7,
        mode: 0o100_644,
        uid: 1,
        gid: 2,
    };
    let m = collect_metadata(&stat);
    assert_eq!(
        m,
        Metadata {
            size: 12,
            mtime_sec: -3,
            mtime_nsec: 7,
            permissions: 0o644,
            uid: 1,
            gid: 2,
        }
    );
}

#[test]
fn parent_of_top_level_is_root() {
    let p = RelativePath::new(b"a.txt").unwrap();
    assert_eq!(p.parent(), Some(RelativePath::root()));
}

#[test]
fn parent_of_nested_strips_last_component() {
    let p = RelativePath::new(b"a/b/c.txt").unwrap();
    assert_eq!(p.parent(), Some(RelativePath::new(b"a/b").unwrap()));
}

#[test]
fn parent_of_root_is_none() {
    assert_eq!(RelativePath::root().parent(), None);
}

#[test]
fn paths_that_leave_their_root_are_refused() {
    assert_eq!(RelativePath::new(b"/a"), Err(GappedError::InvalidPath(b"/a".to_vec())));
    assert_eq!(RelativePath::new(b"a/../b"), Err(GappedError::InvalidPath(b"a/../b".to_vec())));
}

#[test]
fn dots_and_doubled_slashes_vanish() {
    assert_eq!(rel("./a//b/./c/"), rel("a/b/c"));
    assert_eq!(rel("."), RelativePath::root());
    assert_eq!(rel(""), RelativePath::root());
    assert_eq!(rel("a//b").to_bytes(), b"a/b".to_vec());
    assert_eq!(rel("...").depth(), 1);
}

#[test]
fn full_paths_are_stripped_and_joined() {
    let p = RelativePath::from_full_path(b"/srv/data/x/y", b"/srv/data").unwrap();
    assert_eq!(p, rel("x/y"));
    assert_eq!(p.to_full_path(b"/srv/data"), b"/srv/data/x/y".to_vec());
    assert!(RelativePath::from_full_path(b"/srv/database", b"/srv/data").is_err());
    assert_eq!(RelativePath::from_full_path(b"/srv/data", b"/srv/data").unwrap(), RelativePath::root());
}

#[test]
fn containment_is_strict_and_by_component() {
    assert!(rel("a").contains(&rel("a/b/c")));
    assert!(RelativePath::root().contains(&rel("a")));
    assert!(!rel("a").contains(&rel("a")));
    assert!(!rel("a").contains(&rel("ab")));
    assert!(!rel("a/b").contains(&rel("a")));
}

#[test]
fn name_and_depth() {
    assert_eq!(rel("a/b.txt").name(), b"b.txt");
    assert_eq!(RelativePath::root().name(), b"");
    assert_eq!(rel("a/b.txt").depth(), 2);
    assert_eq!(RelativePath::root().depth(), 0);
}

#[test]
fn paths_are_ordered_by_component() {
    // As byte strings "a-b" would come in front of "a/b".
    assert_eq!(rel("a/b").rank(&rel("a-b")), Rank::Less);
    assert_eq!(rel("a-b").rank(&rel("a/b")), Rank::Greater);
    assert_eq!(rel("a").rank(&rel("a/b")), Rank::Less);
    assert_eq!(rel("a").rank(&rel("./a")), Rank::Equal);
    assert!(rel("a/b") < rel("a-b"));
    assert!(rel("a").same(&rel("a/")));
    assert_eq!(rank_bytes(b"ab", b"b"), Rank::Less);
}

#[test]
fn map_keeps_the_last_value_of_a_path() {
    let mut m: PathMap<Entry> = PathMap::new();
    let e = |size: u64| Entry {
        path: rel("k"),
        kind: EntryKind::File,
        metadata: Metadata { size, ..create_meta(0, 0) },
        hash: None,
        symlink_target: None,
        dir_hash: None,
    };
    m.insert(rel("k"), e(1));
    m.insert(rel("k"), e(2));
    m.insert(rel("a"), e(3));
    assert_eq!(m.len(), 2);
    assert_eq!(m.get(&rel("k")).unwrap().metadata.size, 2);
    assert_eq!(*m.key_at(0), rel("a"));
    assert_eq!(m.value_at(1).metadata.size, 2);
    m.remove(&rel("k"));
    assert!(m.get(&rel("k")).is_none());
    assert_eq!(m.len(), 1);
}

#[test]
fn set_holds_each_path_once() {
    let mut s: PathSet = PathSet::new();
    s.insert(rel("x"), ());
    s.insert(rel("x"), ());
    assert_eq!(s.len(), 1);
    assert!(s.contains(&rel("x")));
    assert!(!s.contains(&rel("y")));
}

#[test]
fn only_changes_with_content_have_content() {
    let modified = Change {
        path: rel("a"),
        kind: ChangeKind::Modified(ModifiedEntry {
            new_metadata: Some(create_meta(0, 0)),
            new_hash: None,
            has_content: true,
            new_symlink_target: None,
        }),
    };
    assert!(modified.has_content());
    let removed = Change { path: rel("a"), kind: ChangeKind::Removed(EntryKind::File) };
    assert!(!removed.has_content());
    assert_eq!(modified.clone(), modified);
}

#[test]
fn kinds_have_their_codes() {
    assert_eq!(EntryKind::File.code(), 0);
    assert_eq!(EntryKind::Directory.code(), 1);
    assert_eq!(EntryKind::Symlink.code(), 2);
}
