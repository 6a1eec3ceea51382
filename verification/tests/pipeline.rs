use gapped::commands::apply::{
    addition_order, apply_deletions, apply_non_content_changes, deletion_order, dirs_to_restore, parse_diff_metadata,
    plan_action, removal_of, restore_order, save_parent_dir_mtimes, sets_link_metadata, written_metadata, Action, MetadataReader,
    Outcome, Removal, StreamResult,
};
use gapped::commands::chunks::{chunk_path, detect_diff_files};
use gapped::commands::content::{expected_content_size, ContentAssembler, DiffEvent};
use gapped::commands::diff::{build_added_change, build_removed_change, compute_diff};
use gapped::commands::simulate::simulate_changes;
use gapped::commands::snapshot::{load_snapshot, load_snapshot_entries};
use gapped::commands::split::{SplitPlanner, SplitStep};
use gapped::commands::verify::{verdict, verify_entries};
use gapped::error::{FormatProblem, GappedError};
use gapped::format::header::FileHeader;
use gapped::format::reader::{FormatReader, Step};
use gapped::format::writer::FormatWriter;
use gapped::fs::hash::FileHasher;
use gapped::fs::metadata::NodeType;
use gapped::model::diff::{Change, ChangeKind, ModifiedEntry};
use gapped::model::entry::{Entry, EntryKind, Metadata};
use gapped::model::path::RelativePath;
use gapped::parallel::ContentReader;

fn rel(path: &str) -> RelativePath {
    RelativePath::new(path.as_bytes()).unwrap()
}

fn meta(size: u64, mtime_sec: i64) -> Metadata {
    Metadata { size, mtime_sec, mtime_nsec: 0, permissions: 0o644, uid: 1000, gid: 1000 }
}

fn dir(path: &str, mtime: i64) -> Entry {
    Entry {
        path: rel(path),
        kind: EntryKind::Directory,
        metadata: meta(0, mtime),
        hash: None,
        symlink_target: None,
        dir_hash: None,
    }
}

fn file(path: &str, content: &[u8], mtime: i64) -> Entry {
    let mut h = FileHasher::new();
    h.update(content);
    Entry {
        path: rel(path),
        kind: EntryKind::File,
        metadata: meta(content.len() as u64, mtime),
        hash: Some(h.finish()),
        symlink_target: None,
        dir_hash: None,
    }
}

fn link(path: &str, target: &str) -> Entry {
    Entry {
        path: rel(path),
        kind: EntryKind::Symlink,
        metadata: meta(0, 0),
        hash: None,
        symlink_target: Some(target.as_bytes().to_vec()),
        dir_hash: None,
    }
}

// Files and their contents, in the order of their paths.
type Tree = Vec<(String, Vec<u8>, i64)>;

fn entries_of(tree: &Tree) -> Vec<Entry> {
    let mut r = vec![dir("", 1)];
    r.extend(tree.iter().map(|(p, c, t)| file(p, c, *t)));
    r
}

fn content_of(tree: &Tree, change: &Change) -> Vec<u8> {
    tree.iter().find(|(p, _, _)| rel(p) == change.path).map(|(_, c, _)| c.clone()).unwrap()
}

// A change stands for itself by its number.
fn encoded(i: usize) -> Vec<u8> {
    let mut r = (i as u32).to_le_bytes().to_vec();
    r.resize(60, 0);
    r
}

fn decoded(payload: &[u8]) -> usize {
    u32::from_le_bytes([payload[0], payload[1], payload[2], payload[3]]) as usize
}

// A header as text, and back.
fn encoded_header(h: &FileHeader) -> Vec<u8> {
    let chunk = h.chunk_index.map_or("-".to_string(), |n| format!("{}", n));
    let hash = h.source_snapshot_hash.map_or("-".to_string(), |h| h.iter().map(|b| format!("{:02x}", b)).collect());
    format!("{} {} {} {} {}", h.file_type, h.version, h.created_at, chunk, hash).into_bytes()
}

fn decoded_header(bytes: &[u8]) -> FileHeader {
    let text = String::from_utf8(bytes.to_vec()).unwrap();
    let parts: Vec<&str> = text.split(' ').collect();
    let hash = if parts[4] == "-" {
        None
    } else {
        let mut h = [0u8; 16];
        for i in 0..16 {
            h[i] = u8::from_str_radix(&parts[4][2 * i..2 * i + 2], 16).unwrap();
        }
        Some(h)
    };
    FileHeader {
        file_type: parts[0].to_string(),
        version: parts[1].parse().unwrap(),
        created_at: parts[2].parse().unwrap(),
        source_snapshot_hash: hash,
        root_dir: None,
        chunk_index: if parts[3] == "-" { None } else { Some(parts[3].parse().unwrap()) },
    }
}

const SOURCE_HASH: [u8; 16] = [7; 16];

fn chunk_writer(number: u32, split: bool, compress: bool) -> FormatWriter {
    let header = FileHeader::diff(SOURCE_HASH, if split { Some(number) } else { None }, 1_700_000_000);
    FormatWriter::maybe_compressed(&encoded_header(&header), compress).unwrap()
}

// Writes a diff into as many files as it takes.
fn write_diff(changes: &Vec<Change>, tree: &Tree, limit: Option<u64>, compress: bool) -> Vec<Vec<u8>> {
    let mut files: Vec<Vec<u8>> = vec![];
    let mut planner = SplitPlanner::new(changes, limit);
    if !planner.needs_file() {
        return files;
    }
    let mut writer = chunk_writer(planner.chunk_number(), limit.is_some(), compress);
    let mut open: Option<(ContentReader, Vec<u8>, usize)> = None;
    loop {
        let next_len = planner.upcoming().map_or(0, |i| encoded(i).len() as u64);
        match planner.next(writer.bytes_written(), next_len) {
            SplitStep::WriteChange(i) => writer.write_diff_change(&encoded(i)).unwrap(),
            SplitStep::OpenContent(i) => {
                let content = content_of(tree, &changes[i]);
                let size = content.len() as u64;
                planner.content_opened(size);
                open = Some((ContentReader::new(size), content, 0));
            },
            SplitStep::WriteContent { fragment, .. } => {
                writer.begin_file_content(fragment).unwrap();
                let (reader, content, at) = open.as_mut().unwrap();
                while !writer.write_file_content_from_reader(reader).unwrap() {
                    let to = (*at + 700).min(content.len());
                    reader.supply(content[*at..to].to_vec());
                    *at = to;
                }
            },
            SplitStep::NextChunk => {
                files.push(writer.finish().unwrap());
                writer = chunk_writer(planner.chunk_number(), limit.is_some(), compress);
            },
            SplitStep::Done => {
                files.push(writer.finish().unwrap());
                return files;
            },
        }
    }
}

fn opened(file: &[u8]) -> (FormatReader, Vec<u8>) {
    let mut magic = [0u8; 9];
    magic.copy_from_slice(&file[..9]);
    let mut r = FormatReader::new(&magic).unwrap();
    r.feed(&file[9..]);
    r.end_input();
    match r.read_header() {
        Ok(Step::Ready(h)) => (r, h),
        other => panic!("no header: {:?}", other),
    }
}

// The numbers of the changes in all files, as the first pass over a diff reads
// them.
fn metadata_of(files: &[Vec<u8>]) -> Result<Vec<usize>, GappedError> {
    let mut payloads: Vec<Vec<u8>> = vec![];
    for f in files {
        let mut m = MetadataReader::open(opened(f).0);
        match parse_diff_metadata(&mut m, &mut payloads)? {
            Step::Ready(()) => {},
            Step::NeedMore => panic!("everything was fed"),
        }
    }
    Ok(payloads.iter().map(|p| decoded(p)).collect())
}

// The file contents of a diff, as the second pass assembles them.
fn contents_of(files: &[Vec<u8>], changes: &Vec<Change>) -> Result<Vec<(RelativePath, Vec<u8>)>, GappedError> {
    let mut jobs: Vec<(RelativePath, Vec<u8>)> = vec![];
    let mut assembler = ContentAssembler::new();
    for f in files {
        let mut r = opened(f).0;
        loop {
            match assembler.next_event(&mut r)? {
                Step::Ready(DiffEvent::Change(p)) => assembler.push_change(changes[decoded(&p)].clone()),
                Step::Ready(DiffEvent::Job(j)) => jobs.push((j.change.path, j.payload)),
                Step::Ready(DiffEvent::End) => break,
                Step::NeedMore => panic!("everything was fed"),
            }
        }
    }
    assembler.finish()?;
    Ok(jobs)
}

fn tree_of(n: usize, name: &str, ext: &str, size: usize, fill: fn(usize) -> u8, mtime: i64) -> Tree {
    (0..n).map(|i| (format!("{}{:03}.{}", name, i, ext), vec![fill(i); size], mtime)).collect()
}

// What a diff from one tree to the other gives when it is read back.
fn round_trip(old: &Tree, new: &Tree, limit: Option<u64>, compress: bool) -> Vec<Vec<u8>> {
    let changes = compute_diff(&entries_of(old), &entries_of(new));
    let files = write_diff(&changes, new, limit, compress);
    assert_eq!(metadata_of(&files).unwrap(), (0..changes.len()).collect::<Vec<usize>>());
    let jobs = contents_of(&files, &changes).unwrap();
    let expected: Vec<(RelativePath, Vec<u8>)> = changes
        .iter()
        .filter(|c| c.has_content())
        .map(|c| (c.path.clone(), content_of(new, c)))
        .collect();
    assert_eq!(jobs, expected);
    files
}

#[test]
fn test_run_diff_writes_single_file() {
    let old = tree_of(3, "f_", "dat", 5, |_| b'h', 1000);
    let mut new = old.clone();
    new[0] = ("f_000.dat".to_string(), b"updated".to_vec(), 2100);
    let files = round_trip(&old, &new, None, false);
    assert_eq!(files.len(), 1, "single diff file should be written");
}

#[test]
fn test_run_diff_with_split_produces_multiple_files() {
    let old = tree_of(10, "f_", "dat", 1024, |_| b'a', 1000);
    let new = tree_of(10, "f_", "dat", 2048, |_| b'b', 2100);
    let files = round_trip(&old, &new, Some(4096), false);
    assert!(files.len() > 1, "expected multiple chunks, got {}", files.len());

    let base = b"diff.gapped";
    let existing: Vec<Vec<u8>> = (0..files.len()).map(|i| chunk_path(base, i as u32 + 1)).collect();
    let chunks = detect_diff_files(base, None, &existing).unwrap();
    assert_eq!(chunks.len(), files.len());
    for (i, chunk) in chunks.iter().enumerate() {
        let expected = format!("diff.gapped.{:03}", i + 1);
        assert_eq!(chunk, expected.as_bytes());
    }
}

#[test]
fn test_run_diff_split_preserves_all_changes() {
    let old = tree_of(15, "f_", "dat", 512, |_| b'a', 1000);
    let mut new = tree_of(15, "f_", "dat", 1024, |_| b'b', 2100);
    new.remove(0);
    new.insert(0, ("extra.txt".to_string(), b"new".to_vec(), 2100));
    let mut new_entries = entries_of(&new);
    new_entries[0].metadata.mtime_sec = 2100;
    let changes = compute_diff(&entries_of(&old), &new_entries);
    let files = write_diff(&changes, &new, Some(2048), false);
    assert!(files.len() > 1);

    // 14 modified files, 1 added, 1 removed, and the root directory.
    let total_changes = metadata_of(&files).unwrap().len();
    assert_eq!(total_changes, 17);
}

#[test]
fn test_run_diff_split_chunk_headers_have_chunk_index() {
    let old = tree_of(6, "f_", "dat", 1024, |_| b'a', 1000);
    let new = tree_of(6, "f_", "dat", 2048, |_| b'z', 2100);
    let files = round_trip(&old, &new, Some(3072), false);
    assert!(files.len() > 1);
    for (i, f) in files.iter().enumerate() {
        let header = decoded_header(&opened(f).1);
        assert_eq!(header.file_type, "diff");
        assert_eq!(header.chunk_index, Some((i + 1) as u32));
        assert!(header.source_snapshot_hash.is_some());
        assert_eq!(header, FileHeader::diff(SOURCE_HASH, Some((i + 1) as u32), 1_700_000_000));
    }
}

#[test]
fn test_run_diff_split_compressed() {
    let old = tree_of(8, "f_", "dat", 1024, |_| b'a', 1000);
    let new = tree_of(8, "f_", "dat", 2048, |_| b'c', 2100);
    let files = round_trip(&old, &new, Some(2048), true);
    assert!(files.len() > 1);
    assert_eq!(metadata_of(&files).unwrap().len(), 8);
}

#[test]
fn test_parallel_diff_content_read() {
    let old = tree_of(60, "f_", "bin", 3000, |i| (i as u8).wrapping_mul(19).wrapping_add(3), 1000);
    let new = tree_of(60, "f_", "bin", 4096, |i| (i as u8).wrapping_mul(31).wrapping_add(7), 2100);
    let files = round_trip(&old, &new, Some(8192), false);
    assert!(files.len() > 1, "expected multi-chunk split diff");
}

#[test]
fn test_stream_file_contents_parallel() {
    let old = tree_of(60, "f_", "bin", 4096, |i| (i as u8).wrapping_mul(17), 1000);
    let new = tree_of(60, "f_", "bin", 5000, |i| (i as u8).wrapping_mul(23).wrapping_add(1), 2100);
    assert_eq!(round_trip(&old, &new, None, false).len(), 1);
}

#[test]
fn test_run_apply_from_compressed_split_chunks() {
    let old = tree_of(8, "f_", "bin", 2048, |_| b'x', 1000);
    let new = tree_of(8, "f_", "bin", 2048, |_| b'y', 2100);
    assert!(round_trip(&old, &new, Some(2048), true).len() > 1);
}

#[test]
fn test_run_apply_from_split_chunks() {
    let old = tree_of(12, "file_", "txt", 1024, |_| b'a', 1000);
    let mut new = tree_of(12, "file_", "txt", 2048, |_| b'b', 2100);
    new.remove(0);
    new.push(("new.txt".to_string(), b"brand new\n".to_vec(), 2100));
    let files = round_trip(&old, &new, Some(4096), false);
    assert!(files.len() > 1, "expected more than one chunk, got {}", files.len());

    let changes = compute_diff(&entries_of(&old), &entries_of(&new));
    assert_eq!(changes[0], Change { path: rel("file_000.txt"), kind: ChangeKind::Removed(EntryKind::File) });
    let jobs = contents_of(&files, &changes).unwrap();
    assert_eq!(jobs.last().unwrap().1, b"brand new\n".to_vec());
    for j in &jobs[..11] {
        assert_eq!(j.1, vec![b'b'; 2048]);
    }
}

#[test]
fn test_pass1_stops_at_section_boundary() {
    let old = tree_of(5, "f_", "bin", 1024, |_| b'a', 1000);
    let new = tree_of(5, "f_", "bin", 2048, |_| b'b', 2100);
    let changes = compute_diff(&entries_of(&old), &entries_of(&new));
    let mut files = write_diff(&changes, &new, None, false);

    // flip a byte deep inside the file
    let mid = files[0].len() / 2;
    files[0][mid] ^= 0xff;

    let seen = metadata_of(&files).unwrap();
    assert!(seen.len() >= 5, "pass 1 should return at least {} changes, got {}", 5, seen.len());
    let result = contents_of(&files, &changes);
    assert!(result.is_err(), "full apply must reject corrupted diff");
    assert!(matches!(result, Err(GappedError::ChecksumMismatch { .. })));
}

// A scenario with a split diff: the entries of the target, the changes that the
// files hold, and the file of the snapshot to verify against.
fn build_split_scenario() -> (Vec<Entry>, Vec<Change>, Vec<Entry>) {
    let old = tree_of(8, "f_", "txt", 1024, |_| b'a', 1000);
    let new = tree_of(8, "f_", "txt", 2048, |_| b'b', 2100);
    let changes = compute_diff(&entries_of(&old), &entries_of(&new));
    let files = write_diff(&changes, &new, Some(3072), false);
    assert!(files.len() > 1, "expected split chunks");
    let read: Vec<Change> = metadata_of(&files).unwrap().iter().map(|i| changes[*i].clone()).collect();
    (entries_of(&old), read, entries_of(&new))
}

#[test]
fn test_run_verify_with_split_chunks_succeeds() {
    let (target, changes, snap2) = build_split_scenario();
    let found = verify_entries(target, &changes, &load_snapshot_entries(snap2));
    verdict(&found).expect("verify should succeed");
}

#[test]
fn test_run_verify_detects_discrepancy_from_split_chunks() {
    let (mut target, changes, snap2) = build_split_scenario();
    target.push(file("extra.txt", b"unexpected", 1000));
    let found = verify_entries(target, &changes, &load_snapshot_entries(snap2));
    let result = verdict(&found);
    assert!(result.is_err(), "verify should fail on discrepancy");
}

#[test]
fn test_run_verify_single_diff_still_works() {
    let old: Tree = vec![("only.txt".to_string(), b"v1".to_vec(), 1000)];
    let new: Tree = vec![("only.txt".to_string(), b"v2-longer".to_vec(), 2100)];
    let changes = compute_diff(&entries_of(&old), &entries_of(&new));
    let files = write_diff(&changes, &new, None, false);
    let read: Vec<Change> = metadata_of(&files).unwrap().iter().map(|i| changes[*i].clone()).collect();
    let found = verify_entries(entries_of(&old), &read, &load_snapshot_entries(entries_of(&new)));
    verdict(&found).expect("single-file verify should pass");
}

#[test]
fn a_large_content_is_cut_over_files() {
    let old: Tree = vec![];
    let new: Tree = vec![("big".to_string(), (0..10_000u32).map(|i| i as u8).collect(), 1)];
    let files = round_trip(&old, &new, Some(1000), false);
    assert!(files.len() >= 11);
    for f in &files {
        assert!(f.len() <= 1000);
    }
    // All but the last are full.
    for f in &files[..files.len() - 1] {
        assert_eq!(f.len(), 1000);
    }
}

#[test]
fn no_file_exceeds_the_limit() {
    let old: Tree = vec![];
    let new = tree_of(40, "f_", "dat", 333, |i| i as u8, 1);
    for limit in [180u64, 200, 256, 511, 1024, 4096] {
        let files = round_trip(&old, &new, Some(limit), false);
        for f in &files {
            assert!(f.len() as u64 <= limit, "{} exceeds {}", f.len(), limit);
        }
    }
}

#[test]
fn every_file_takes_something_however_small_the_limit() {
    let old: Tree = vec![];
    let mut new = tree_of(5, "f_", "dat", 50, |i| i as u8, 1);
    new.push(("g".to_string(), vec![], 1));
    for limit in [0u64, 1, 9, 34, 60, 100] {
        let files = round_trip(&old, &new, Some(limit), false);
        let empty = {
            let header = FileHeader::diff(SOURCE_HASH, Some(1), 1_700_000_000);
            9 + 4 + encoded_header(&header).len() + 25
        };
        for f in &files {
            assert!(f.len() > empty, "a file holds nothing at limit {}", limit);
        }
    }
}

#[test]
fn a_split_diff_without_changes_takes_no_file() {
    assert!(write_diff(&vec![], &vec![], Some(100), false).is_empty());
    assert_eq!(write_diff(&vec![], &vec![], None, false).len(), 1);
}

#[test]
fn a_diff_carries_the_tree_over() {
    let old = tree_of(12, "f_", "dat", 300, |i| i as u8, 1000);
    let mut new = tree_of(14, "f_", "dat", 300, |i| i as u8 / 2, 2100);
    new.remove(3);
    let changes = compute_diff(&entries_of(&old), &entries_of(&new));
    for compress in [false, true] {
        let files = write_diff(&changes, &new, Some(1500), compress);
        assert!(files.len() > 1);
        let received: Vec<Change> =
            metadata_of(&files).unwrap().into_iter().map(|i| changes[i].clone()).collect();
        let mut phases: Vec<Change> = vec![];
        for i in deletion_order(&received) {
            phases.push(received[i].clone());
        }
        for i in addition_order(&received) {
            phases.push(received[i].clone());
        }
        let mut state = load_snapshot_entries(entries_of(&old));
        simulate_changes(&mut state, &phases);
        assert_eq!(state.len(), entries_of(&new).len());
        for e in entries_of(&new) {
            assert_eq!(state.get(&e.path), Some(&e));
        }
        let target = load_snapshot_entries(entries_of(&new));
        assert_eq!(verdict(&verify_entries(entries_of(&old), &received, &target)), Ok(()));
    }
}

#[test]
fn a_snapshot_loads_back() {
    let mut w = FormatWriter::maybe_compressed(b"h", true).unwrap();
    w.write_snapshot_entry(b"first").unwrap();
    w.write_snapshot_entry(b"second").unwrap();
    let file = w.finish().unwrap();
    assert_eq!(load_snapshot(&file), Ok((vec![b"first".to_vec(), b"second".to_vec()], b"h".to_vec())));
}

#[test]
fn a_diff_without_its_content_is_refused() {
    let new: Tree = vec![("a".to_string(), b"abc".to_vec(), 1)];
    let changes = compute_diff(&vec![], &entries_of(&new));
    let mut w = chunk_writer(1, false, false);
    for i in 0..changes.len() {
        w.write_diff_change(&encoded(i)).unwrap();
    }
    let files = vec![w.finish().unwrap()];
    assert_eq!(
        contents_of(&files, &changes),
        Err(GappedError::InvalidFormat(FormatProblem::UnresolvedContent))
    );
}

#[test]
fn content_that_nothing_waits_for_is_skipped() {
    let mut w = chunk_writer(1, false, false);
    w.begin_file_content(3).unwrap();
    let mut r = ContentReader::new(3);
    r.supply(b"xyz".to_vec());
    assert_eq!(w.write_file_content_from_reader(&mut r), Ok(true));
    let files = vec![w.finish().unwrap()];
    assert_eq!(contents_of(&files, &vec![]), Ok(vec![]));
}

#[test]
fn an_empty_file_has_a_content_record() {
    let new: Tree = vec![("empty".to_string(), vec![], 1)];
    let files = round_trip(&vec![], &new, None, false);
    assert_eq!(files.len(), 1);
}

#[test]
fn the_size_of_a_content_is_in_its_change() {
    let added = build_added_change(&file("a", b"12345", 1));
    assert_eq!(expected_content_size(&added), 5);
    assert_eq!(expected_content_size(&build_removed_change(&file("a", b"12345", 1))), 0);
    assert_eq!(expected_content_size(&build_added_change(&link("l", "12345"))), 0);
}

#[test]
fn removals_go_from_the_deepest() {
    let changes = vec![
        build_removed_change(&dir("a", 1)),
        build_added_change(&dir("n", 1)),
        build_removed_change(&file("a/b/c", b"", 1)),
        build_removed_change(&dir("a/b", 1)),
        build_removed_change(&link("l", "t")),
    ];
    assert_eq!(deletion_order(&changes), vec![2, 3, 0, 4]);
    assert_eq!(removal_of(EntryKind::Directory), Removal::Directory);
    assert_eq!(removal_of(EntryKind::File), Removal::File);
    assert_eq!(removal_of(EntryKind::Symlink), Removal::File);
    assert_eq!(apply_deletions(&vec![true, false, true]), (2, 1));
}

#[test]
fn additions_go_from_the_shallowest() {
    let changes = vec![
        build_added_change(&file("a/b/c", b"", 1)),
        build_removed_change(&dir("x", 1)),
        build_added_change(&dir("a/b", 1)),
        build_added_change(&dir("a", 1)),
    ];
    assert_eq!(addition_order(&changes), vec![3, 2, 0]);
    assert_eq!(restore_order(&vec![rel("a"), rel("a/b"), RelativePath::root()]), vec![1, 0, 2]);
}

fn modified(path: &str, m: Option<Metadata>, target: Option<&str>, has_content: bool) -> Change {
    Change {
        path: rel(path),
        kind: ChangeKind::Modified(ModifiedEntry {
            new_metadata: m,
            new_hash: None,
            has_content,
            new_symlink_target: target.map(|t| t.as_bytes().to_vec()),
        }),
    }
}

#[test]
fn what_is_done_for_a_change() {
    assert_eq!(plan_action(&build_added_change(&dir("d", 1))), Action::CreateDirectory);
    assert_eq!(plan_action(&build_added_change(&link("l", "t"))), Action::CreateSymlink);
    assert_eq!(plan_action(&build_added_change(&file("f", b"x", 1))), Action::Wait);
    assert_eq!(plan_action(&modified("f", Some(meta(1, 1)), None, true)), Action::Wait);
    assert_eq!(
        plan_action(&modified("l", None, Some("t"), false)),
        Action::Modify { replace_link: true, set_metadata: false }
    );
    assert_eq!(
        plan_action(&modified("f", Some(meta(1, 1)), None, false)),
        Action::Modify { replace_link: false, set_metadata: true }
    );
    assert!(sets_link_metadata(Some(NodeType::Symlink)));
    assert!(!sets_link_metadata(Some(NodeType::Directory)));
    assert!(!sets_link_metadata(None));
}

#[test]
fn what_was_done_is_counted() {
    let changes = vec![
        build_added_change(&dir("d", 7)),
        build_added_change(&file("f", b"x", 1)),
        build_added_change(&link("l", "t")),
        modified("m", Some(meta(0, 9)), None, false),
        modified("n", Some(meta(0, 9)), None, false),
    ];
    let order = addition_order(&changes);
    assert_eq!(order, vec![0, 1, 2, 3, 4]);
    let done = |live: NodeType| Outcome { succeeded: true, live: Some(live) };
    let r = apply_non_content_changes(
        &changes,
        &order,
        &vec![
            done(NodeType::Directory),
            done(NodeType::File),
            Outcome { succeeded: false, live: None },
            done(NodeType::Directory),
            done(NodeType::File),
        ],
    );
    assert_eq!(r.add_count, 1);
    assert_eq!(r.mod_count, 2);
    assert_eq!(r.err_count, 1);
    assert_eq!(r.dir_metadata_changes, vec![(rel("d"), meta(0, 7)), (rel("m"), meta(0, 9))]);
}

#[test]
fn written_files_are_counted() {
    let added = build_added_change(&file("f", b"x", 1));
    let changed = modified("m", Some(meta(3, 9)), None, true);
    let mut a = StreamResult::new();
    a.record(&added, true);
    a.record(&changed, true);
    let mut b = StreamResult::new();
    b.record(&added, false);
    b.record(&changed, true);
    a.merge(b);
    assert_eq!(a, StreamResult { add_count: 1, mod_count: 2, err_count: 1 });
    assert_eq!(written_metadata(&added), Some(meta(1, 1)));
    assert_eq!(written_metadata(&changed), Some(meta(3, 9)));
    assert_eq!(written_metadata(&modified("m", None, None, false)), None);
}

#[test]
fn times_of_touched_directories_are_kept() {
    let changes = vec![
        build_removed_change(&file("d/f", b"", 1)),
        modified("e", Some(meta(0, 1)), None, false),
        build_added_change(&file("e/g", b"", 1)),
        build_added_change(&dir("n", 1)),
        build_added_change(&file("n/h", b"", 1)),
    ];
    let saved = save_parent_dir_mtimes(&changes, &vec![false, true, false, true, false]);
    assert!(saved.contains(&rel("d")));
    assert!(!saved.contains(&rel("e")));
    assert!(!saved.contains(&rel("n")));
    assert!(saved.contains(&RelativePath::root()));
    assert_eq!(saved.len(), 2);
    let restored = dirs_to_restore(&changes, &saved);
    assert_eq!(restored.len(), 2);
    let saved = save_parent_dir_mtimes(&vec![modified("", Some(meta(0, 1)), None, false)], &vec![true]);
    assert_eq!(saved.len(), 0);
}

#[test]
fn times_of_replaced_directories_are_not_set_again() {
    let changes = vec![
        build_removed_change(&dir("d", 1)),
        build_added_change(&file("d", b"now a file", 9)),
        build_removed_change(&file("d/a", b"", 1)),
    ];
    let saved = save_parent_dir_mtimes(&changes, &vec![true, true, false]);
    assert!(saved.contains(&rel("d")));
    let restored = dirs_to_restore(&changes, &saved);
    assert!(!restored.contains(&rel("d")));
    assert!(restored.contains(&RelativePath::root()));
}
