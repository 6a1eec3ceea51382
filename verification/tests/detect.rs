use gapped::commands::chunks::{chunk_path, detect_diff_files};
use gapped::commands::validate_root_dir;
use gapped::cli::{parse_byte_size, SizeError};
use gapped::error::{FormatProblem, GappedError};

fn names(list: &[&str]) -> Vec<Vec<u8>> {
    list.iter().map(|n| format!("/tmp/{}", n).into_bytes()).collect()
}

#[test]
fn test_detect_diff_files_single_file() {
    let diff_path = b"/tmp/diff.gapped";

    let chunks = detect_diff_files(diff_path, None, &names(&["diff.gapped"])).unwrap();
    assert_eq!(chunks, vec![diff_path.to_vec()]);
}

#[test]
fn test_detect_diff_files_split_chunks() {
    let base = b"/tmp/diff.gapped";
    let existing = names(&["diff.gapped.001", "diff.gapped.002", "diff.gapped.003"]);

    let chunks = detect_diff_files(base, None, &existing).unwrap();
    assert_eq!(chunks.len(), 3);
    assert_eq!(chunks[0], b"/tmp/diff.gapped.001".to_vec());
    assert_eq!(chunks[1], b"/tmp/diff.gapped.002".to_vec());
    assert_eq!(chunks[2], b"/tmp/diff.gapped.003".to_vec());
}

#[test]
fn test_detect_diff_files_none() {
    let base = names(&["diff.gapped"]);
    let chunks = detect_diff_files(&base[0], None, &vec![]).unwrap();
    assert!(chunks.is_empty());
}

#[test]
fn test_detect_diff_files_errors_on_gap() {
    let base = b"/tmp/diff.gapped";
    let existing = names(&["diff.gapped.001", "diff.gapped.002", "diff.gapped.004"]);

    let result = detect_diff_files(base, None, &existing);
    assert!(result.is_err(), "should error on gap in chunk sequence");
    assert_eq!(
        result,
        Err(GappedError::InvalidFormat(FormatProblem::ChunkGap { base: base.to_vec(), missing: 3 }))
    );
}

#[test]
fn any_part_leads_to_all_parts() {
    let existing = names(&["diff.gapped.001", "diff.gapped.002", "diff.gapped.003"]);
    for (i, name) in existing.iter().enumerate() {
        let chunks = detect_diff_files(name, Some(i as u32 + 1), &existing).unwrap();
        assert_eq!(chunks, existing);
    }
}

#[test]
fn a_diff_that_was_not_split_is_found_alone() {
    let existing = names(&["diff.gapped.001", "diff.gapped.002", "diff.gapped.004"]);
    for name in &existing {
        let chunks = detect_diff_files(name, None, &existing).unwrap();
        assert_eq!(chunks, vec![name.clone()]);
    }
}

#[test]
fn a_part_under_another_name_is_found_alone() {
    let existing = names(&["diff.gapped.001", "diff.gapped.002", "other"]);
    let chunks = detect_diff_files(b"/tmp/other", Some(1), &existing).unwrap();
    assert_eq!(chunks, vec![b"/tmp/other".to_vec()]);
    let chunks = detect_diff_files(b"/tmp/diff.gapped.002", Some(1), &existing).unwrap();
    assert_eq!(chunks, vec![b"/tmp/diff.gapped.002".to_vec()]);
}

#[test]
fn a_gap_is_found_from_any_part() {
    let existing = names(&["diff.gapped.001", "diff.gapped.003"]);
    let result = detect_diff_files(b"/tmp/diff.gapped.001", Some(1), &existing);
    assert_eq!(
        result,
        Err(GappedError::InvalidFormat(FormatProblem::ChunkGap {
            base: b"/tmp/diff.gapped".to_vec(),
            missing: 2
        }))
    );
}

#[test]
fn chunk_numbers_have_three_digits_or_more() {
    assert_eq!(chunk_path(b"d", 1), b"d.001".to_vec());
    assert_eq!(chunk_path(b"d", 42), b"d.042".to_vec());
    assert_eq!(chunk_path(b"d", 999), b"d.999".to_vec());
    assert_eq!(chunk_path(b"d", 12345), b"d.12345".to_vec());
    assert_ne!(chunk_path(b"d", 11), chunk_path(b"d", 110));
}

#[test]
fn a_root_has_to_be_a_directory() {
    assert_eq!(validate_root_dir(b"/r", true), Ok(()));
    assert_eq!(validate_root_dir(b"/r", false), Err(GappedError::RootNotFound(b"/r".to_vec())));
}

#[test]
fn sizes_with_and_without_units() {
    assert_eq!(parse_byte_size("0"), Ok(0));
    assert_eq!(parse_byte_size("4096"), Ok(4096));
    assert_eq!(parse_byte_size("10B"), Ok(10));
    assert_eq!(parse_byte_size("2kb"), Ok(2 * 1024));
    assert_eq!(parse_byte_size("3MB"), Ok(3 * 1024 * 1024));
    assert_eq!(parse_byte_size("1GB"), Ok(1024 * 1024 * 1024));
    assert_eq!(parse_byte_size("18446744073709551615"), Ok(u64::MAX));
}

#[test]
fn sizes_that_are_refused() {
    assert_eq!(parse_byte_size(""), Err(SizeError::Empty));
    assert_eq!(parse_byte_size("MB"), Err(SizeError::Empty));
    assert_eq!(parse_byte_size("-1"), Err(SizeError::InvalidDigit));
    assert_eq!(parse_byte_size("18446744073709551616"), Err(SizeError::NumberTooLarge));
    assert_eq!(parse_byte_size("5tb"), Err(SizeError::UnknownSuffix(vec!['T', 'B'])));
    assert_eq!(
        parse_byte_size("18446744073709551615KB"),
        Err(SizeError::Overflow { base: u64::MAX, suffix: vec!['K', 'B'] })
    );
}
