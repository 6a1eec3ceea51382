use gapped::commands::apply::{addition_order, deletion_order};
use gapped::commands::diff::compute_diff;
use gapped::commands::simulate::{simulate_apply, simulate_changes};
use gapped::commands::snapshot::load_snapshot_entries;
use gapped::commands::verify::{compare_entries, verdict, verify_entries, Discrepancy};
use gapped::error::GappedError;
use gapped::model::diff::{AddedEntry, Change, ChangeKind, ModifiedEntry};
use gapped::model::entry::{Entry, EntryKind, Metadata};
use gapped::model::path::RelativePath;
use gapped::model::path_map::{EntryMap, PathSet};

fn meta(mtime: i64) -> Metadata {
    Metadata {
        size: 0,
        mtime_sec: mtime,
        mtime_nsec: 0,
        permissions: 0o644,
        uid: 1000,
        gid: 1000,
    }
}

fn dir_entry(path: &str, mtime: i64) -> Entry {
    Entry {
        path: RelativePath::new(path.as_bytes()).unwrap(),
        kind: EntryKind::Directory,
        metadata: Metadata {
            permissions: 0o755,
            ..meta(mtime)
        },
        hash: None,
        symlink_target: None,
        dir_hash: None,
    }
}

fn file_entry(path: &str, mtime: i64, hash: u8) -> Entry {
    Entry {
        path: RelativePath::new(path.as_bytes()).unwrap(),
        kind: EntryKind::File,
        metadata: meta(mtime),
        hash: Some([hash; 16]),
        symlink_target: None,
        dir_hash: None,
    }
}

fn rel(path: &str) -> RelativePath {
    RelativePath::new(path.as_bytes()).unwrap()
}

fn build_state(entries: Vec<Entry>) -> EntryMap {
    load_snapshot_entries(entries)
}

#[test]
fn implicit_dir_is_reported_when_only_child_changes() {
    // sub/ has no explicit change, but a child file is removed.
    let mut state = build_state(vec![dir_entry("sub", 100), file_entry("sub/a.txt", 100, 1)]);
    let changes = vec![Change {
        path: rel("sub/a.txt"),
        kind: ChangeKind::Removed(EntryKind::File),
    }];

    let implicit = simulate_apply(&mut state, &changes);
    assert!(implicit.contains(&rel("sub")));
    assert!(!state.contains(&rel("sub/a.txt")));
    // sub itself was not mutated by simulate_apply
    assert_eq!(state.get(&rel("sub")).unwrap().metadata.mtime_sec, 100);
}

#[test]
fn explicit_dir_modification_is_excluded_from_implicit_set() {
    // sub/ has both an explicit Modified AND an implicit child change.
    let mut state = build_state(vec![dir_entry("sub", 100), file_entry("sub/a.txt", 100, 1)]);
    let changes = vec![
        Change {
            path: rel("sub"),
            kind: ChangeKind::Modified(ModifiedEntry {
                new_metadata: Some(Metadata {
                    permissions: 0o755,
                    ..meta(500)
                }),
                new_hash: None,
                has_content: false,
                new_symlink_target: None,
            }),
        },
        Change {
            path: rel("sub/a.txt"),
            kind: ChangeKind::Removed(EntryKind::File),
        },
    ];

    let implicit = simulate_apply(&mut state, &changes);
    assert!(!implicit.contains(&rel("sub")));
    // sub WAS mutated to the new metadata
    assert_eq!(state.get(&rel("sub")).unwrap().metadata.mtime_sec, 500);
}

#[test]
fn added_directory_is_excluded_from_implicit_set() {
    // newdir/ is freshly added - its child file should not mark newdir
    // as "implicitly touched" — apply will create newdir with the
    // explicit metadata from the diff.
    let mut state = build_state(vec![]);
    let changes = vec![
        Change {
            path: rel("newdir"),
            kind: ChangeKind::Added(AddedEntry {
                entry: dir_entry("newdir", 200),
                has_content: false,
            }),
        },
        Change {
            path: rel("newdir/a.txt"),
            kind: ChangeKind::Added(AddedEntry {
                entry: file_entry("newdir/a.txt", 200, 7),
                has_content: true,
            }),
        },
    ];

    let implicit = simulate_apply(&mut state, &changes);
    assert!(!implicit.contains(&rel("newdir")));
    assert_eq!(state.get(&rel("newdir")).unwrap().metadata.mtime_sec, 200);
    assert_eq!(
        state.get(&rel("newdir/a.txt")).unwrap().metadata.mtime_sec,
        200
    );
}

#[test]
fn modified_file_with_content_updates_state() {
    let mut state = build_state(vec![file_entry("a.txt", 100, 1)]);
    let changes = vec![Change {
        path: rel("a.txt"),
        kind: ChangeKind::Modified(ModifiedEntry {
            new_metadata: Some(meta(500)),
            new_hash: Some([2; 16]),
            has_content: true,
            new_symlink_target: None,
        }),
    }];

    let _ = simulate_apply(&mut state, &changes);
    let entry = state.get(&rel("a.txt")).unwrap();
    assert_eq!(entry.metadata.mtime_sec, 500);
    assert_eq!(entry.hash, Some([2; 16]));
}

#[test]
fn modified_symlink_target_updates_state() {
    let target = b"/old".to_vec();
    let new_target = b"/new".to_vec();
    let entry = Entry {
        path: rel("link"),
        kind: EntryKind::Symlink,
        metadata: meta(0),
        hash: None,
        symlink_target: Some(target),
        dir_hash: None,
    };
    let mut state = build_state(vec![entry]);
    let changes = vec![Change {
        path: rel("link"),
        kind: ChangeKind::Modified(ModifiedEntry {
            new_metadata: None,
            new_hash: None,
            has_content: false,
            new_symlink_target: Some(new_target.clone()),
        }),
    }];

    let _ = simulate_apply(&mut state, &changes);
    assert_eq!(
        state.get(&rel("link")).unwrap().symlink_target,
        Some(new_target)
    );
}

#[test]
fn top_level_change_marks_root_as_implicit_when_root_not_explicit() {
    let mut state = build_state(vec![dir_entry("", 100), file_entry("a.txt", 100, 1)]);
    let changes = vec![Change {
        path: rel("a.txt"),
        kind: ChangeKind::Removed(EntryKind::File),
    }];

    let implicit = simulate_apply(&mut state, &changes);
    assert!(implicit.contains(&RelativePath::root()));
}

fn link_entry(path: &str, target: &str) -> Entry {
    Entry {
        path: rel(path),
        kind: EntryKind::Symlink,
        metadata: meta(0),
        hash: None,
        symlink_target: Some(target.as_bytes().to_vec()),
        dir_hash: None,
    }
}

fn old_state() -> Vec<Entry> {
    vec![
        dir_entry("", 100),
        file_entry("a.txt", 100, 1),
        dir_entry("gone", 100),
        file_entry("gone/x", 100, 2),
        file_entry("kept", 100, 3),
        link_entry("link", "a.txt"),
    ]
}

fn new_state() -> Vec<Entry> {
    vec![
        dir_entry("", 900),
        file_entry("a.txt", 500, 9),
        link_entry("gone", "kept"),
        file_entry("kept", 100, 3),
        link_entry("link", "kept"),
        dir_entry("new", 500),
        file_entry("new/y", 500, 4),
    ]
}

#[test]
fn a_diff_leads_to_the_new_state() {
    let changes = compute_diff(&old_state(), &new_state());
    let mut state = load_snapshot_entries(old_state());
    simulate_changes(&mut state, &changes);
    assert_eq!(state.len(), 7);
    for e in new_state() {
        assert_eq!(state.get(&e.path), Some(&e));
    }
}

#[test]
fn applying_in_parts_is_applying_all() {
    let changes = compute_diff(&old_state(), &new_state());
    let (first, second) = changes.split_at(3);
    let mut state = load_snapshot_entries(old_state());
    simulate_changes(&mut state, &first.to_vec());
    simulate_changes(&mut state, &second.to_vec());
    for e in new_state() {
        assert_eq!(state.get(&e.path), Some(&e));
    }
}

#[test]
fn a_diff_names_only_paths_that_differ() {
    let changes = compute_diff(&old_state(), &new_state());
    let named: Vec<&RelativePath> = changes.iter().map(|c| &c.path).collect();
    assert!(!named.contains(&&rel("kept")));
    assert_eq!(
        named,
        vec![&rel(""), &rel("a.txt"), &rel("gone"), &rel("gone"), &rel("gone/x"), &rel("link"), &rel("new"), &rel("new/y")]
    );
}

#[test]
fn verifying_a_diff_finds_nothing() {
    let changes = compute_diff(&old_state(), &new_state());
    let target = load_snapshot_entries(new_state());
    let found = verify_entries(old_state(), &changes, &target);
    assert_eq!(found, vec![]);
    assert_eq!(verdict(&found), Ok(()));
}

#[test]
fn each_way_to_differ_is_found() {
    let none = PathSet::new();
    let target = load_snapshot_entries(vec![file_entry("a", 100, 1), link_entry("l", "t")]);

    let missing = load_snapshot_entries(vec![file_entry("a", 100, 1)]);
    assert_eq!(compare_entries(&missing, &target, &none), vec![Discrepancy::Missing(rel("l"))]);

    let extra = load_snapshot_entries(vec![file_entry("a", 100, 1), link_entry("l", "t"), dir_entry("z", 0)]);
    assert_eq!(compare_entries(&extra, &target, &none), vec![Discrepancy::Extra(rel("z"))]);

    let kind = load_snapshot_entries(vec![dir_entry("a", 100), link_entry("l", "t")]);
    let found = compare_entries(&kind, &target, &none);
    assert_eq!(
        found[0],
        Discrepancy::KindMismatch { path: rel("a"), expected: EntryKind::File, got: EntryKind::Directory }
    );

    let hash = load_snapshot_entries(vec![file_entry("a", 100, 2), link_entry("l", "t")]);
    assert_eq!(compare_entries(&hash, &target, &none), vec![Discrepancy::HashMismatch(rel("a"))]);

    let link = load_snapshot_entries(vec![file_entry("a", 100, 1), link_entry("l", "u")]);
    assert_eq!(compare_entries(&link, &target, &none), vec![Discrepancy::SymlinkMismatch(rel("l"))]);

    let late = load_snapshot_entries(vec![file_entry("a", 200, 1), link_entry("l", "t")]);
    assert_eq!(
        compare_entries(&late, &target, &none),
        vec![
            Discrepancy::MetadataMismatch(rel("a")),
            Discrepancy::SimulatedMetadata(meta(200)),
            Discrepancy::TargetMetadata(meta(100)),
        ]
    );
}

#[test]
fn times_of_directories_left_alone_do_not_count() {
    let target = load_snapshot_entries(vec![dir_entry("d", 900)]);
    let state = load_snapshot_entries(vec![dir_entry("d", 100)]);
    let mut left_alone = PathSet::new();
    assert_eq!(compare_entries(&state, &target, &left_alone).len(), 3);
    left_alone.insert(rel("d"), ());
    assert_eq!(compare_entries(&state, &target, &left_alone), vec![]);
}

#[test]
fn a_verdict_counts_the_lines() {
    let lines = vec![Discrepancy::Extra(rel("a")), Discrepancy::Missing(rel("b"))];
    assert_eq!(verdict(&lines), Err(GappedError::VerificationFailed(2)));
}

#[test]
fn a_change_to_nothing_changes_nothing() {
    let mut state = build_state(vec![]);
    let changes = vec![Change {
        path: rel("a"),
        kind: ChangeKind::Modified(ModifiedEntry {
            new_metadata: Some(meta(1)),
            new_hash: None,
            has_content: false,
            new_symlink_target: None,
        }),
    }];
    simulate_changes(&mut state, &changes);
    assert_eq!(state.len(), 0);
}

#[test]
fn applying_in_phases_is_applying_in_order() {
    let changes = compute_diff(&old_state(), &new_state());
    let mut phases: Vec<Change> = vec![];
    for i in deletion_order(&changes) {
        phases.push(changes[i].clone());
    }
    for i in addition_order(&changes) {
        phases.push(changes[i].clone());
    }
    assert_eq!(phases.len(), changes.len());
    assert_ne!(phases, changes);
    let mut state = load_snapshot_entries(old_state());
    simulate_changes(&mut state, &phases);
    assert_eq!(state.len(), 7);
    for e in new_state() {
        assert_eq!(state.get(&e.path), Some(&e));
    }
}

#[test]
fn each_path_has_one_change_or_a_removal_and_another() {
    let changes = compute_diff(&old_state(), &new_state());
    for (i, a) in changes.iter().enumerate() {
        for b in &changes[i + 1..] {
            if a.path == b.path {
                assert!(matches!(a.kind, ChangeKind::Removed(_)));
                assert!(!matches!(b.kind, ChangeKind::Removed(_)));
            }
        }
    }
}

#[test]
fn a_directory_that_is_removed_or_replaced_is_not_left_alone() {
    let before = vec![dir_entry("d", 100), file_entry("d/a", 100, 1)];
    let removal = |p: &str, k: EntryKind| Change { path: rel(p), kind: ChangeKind::Removed(k) };
    let mut state = build_state(before.clone());
    let gone = vec![removal("d", EntryKind::Directory), removal("d/a", EntryKind::File)];
    let left = simulate_apply(&mut state, &gone);
    assert!(!left.contains(&rel("d")));
    assert_eq!(state.len(), 0);

    let after = vec![file_entry("d", 500, 3)];
    let changes = compute_diff(&before, &after);
    assert_eq!(changes.len(), 3);
    let mut other = file_entry("d", 500, 3);
    other.metadata.permissions = 0o600;
    let found = verify_entries(before.clone(), &changes, &load_snapshot_entries(vec![other]));
    assert_eq!(verdict(&found), Err(GappedError::VerificationFailed(3)));
    let found = verify_entries(before, &changes, &load_snapshot_entries(after));
    assert_eq!(verdict(&found), Ok(()));
}

#[test]
fn paths_of_a_diff_never_go_down() {
    let changes = compute_diff(&old_state(), &new_state());
    for pair in changes.windows(2) {
        if pair[0].path == pair[1].path {
            match (&pair[0].kind, &pair[1].kind) {
                (ChangeKind::Removed(kind), ChangeKind::Added(added)) => assert_ne!(*kind, added.entry.kind),
                _ => panic!("two changes of {:?}", pair[0].path),
            }
        } else {
            assert!(pair[0].path < pair[1].path);
        }
    }
}

#[test]
fn exchanged_states_exchange_additions_and_removals() {
    let there = compute_diff(&old_state(), &new_state());
    let back = compute_diff(&new_state(), &old_state());
    assert_eq!(there.len(), back.len());
    let names = |cs: &[Change]| -> Vec<(Vec<u8>, char)> {
        cs.iter()
            .map(|c| {
                let letter = match c.kind {
                    ChangeKind::Added(_) => 'A',
                    ChangeKind::Modified(_) => 'M',
                    ChangeKind::Removed(_) => 'R',
                };
                (c.path.to_bytes(), letter)
            })
            .collect()
    };
    let named = |list: &[(&str, char)]| -> Vec<(Vec<u8>, char)> {
        list.iter().map(|(p, k)| (p.as_bytes().to_vec(), *k)).collect()
    };
    assert_eq!(
        names(&there),
        named(&[
            ("", 'M'),
            ("a.txt", 'M'),
            ("gone", 'R'),
            ("gone", 'A'),
            ("gone/x", 'R'),
            ("link", 'M'),
            ("new", 'A'),
            ("new/y", 'A')
        ])
    );
    assert_eq!(
        names(&back),
        named(&[
            ("", 'M'),
            ("a.txt", 'M'),
            ("gone", 'R'),
            ("gone", 'A'),
            ("gone/x", 'A'),
            ("link", 'M'),
            ("new", 'R'),
            ("new/y", 'R')
        ])
    );
    assert_eq!(back[2].kind, ChangeKind::Removed(EntryKind::Symlink));
    assert!(matches!(&back[3].kind, ChangeKind::Added(a) if a.entry.kind == EntryKind::Directory));
}
