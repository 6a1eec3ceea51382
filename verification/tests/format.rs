use gapped::bytes::{bytes_equal, copy_range, push_le, read_le, to_array16};
use gapped::commands::content::check_diff_version;
use gapped::commands::snapshot::{load_snapshot, read_entries, SnapshotReader};
use gapped::error::{FormatProblem, GappedError};
use gapped::format::compression::{Compressor, Decompressor};
use gapped::format::filter::{RecordFilter, Selection};
use gapped::format::header::{
    FileHeader, RecordType, EOR, MAGIC, MAGIC_COMPRESSED, MAGIC_LEN, RECORD_HEADER_SIZE, RECORD_LEN_SIZE,
    RECORD_TYPE_SIZE, TRAILER_SIZE,
};
use gapped::format::reader::{FormatReader, RecordHeader, Step};
use gapped::format::writer::FormatWriter;
use gapped::model::diff::Diff;
use gapped::model::snapshot::Snapshot;
use gapped::parallel::{
    worker_count, ContentRead, ContentReader, FileStream, PrefetchPool, CHUNK_DEPTH, CHUNK_SIZE,
};

fn digest(data: &[u8]) -> [u8; 16] {
    xxhash_rust::xxh3::xxh3_128(data).to_le_bytes()
}

fn snapshot_file(entries: &[&[u8]], compress: bool) -> Vec<u8> {
    let mut w = FormatWriter::maybe_compressed(b"head", compress).unwrap();
    let mut file: Vec<u8> = vec![];
    for e in entries {
        w.write_snapshot_entry(e).unwrap();
        file.extend(w.take_output());
    }
    file.extend(w.finish().unwrap());
    file
}

fn opened(file: &[u8]) -> FormatReader {
    let mut magic = [0u8; 9];
    magic.copy_from_slice(&file[..9]);
    let mut r = FormatReader::new(&magic).unwrap();
    r.feed(&file[9..]);
    r.end_input();
    r
}

#[test]
fn a_file_is_laid_out_as_documented() {
    let file = snapshot_file(&[b"ab", b""], false);
    let mut expected: Vec<u8> = vec![];
    expected.extend(b"GAPPED\x00\x03\x00");
    expected.extend([4, 0, 0, 0]);
    expected.extend(b"head");
    expected.extend([2, 0, 0, 0, 0, 0, 0, 0, 1]);
    expected.extend(b"ab");
    expected.extend([0, 0, 0, 0, 0, 0, 0, 0, 1]);
    expected.extend([0; 9]);
    let sum = digest(&expected);
    expected.extend(sum);
    assert_eq!(file, expected);
}

#[test]
fn sizes_of_the_parts() {
    assert_eq!(MAGIC.len(), MAGIC_LEN);
    assert_eq!(MAGIC_COMPRESSED.len(), MAGIC_LEN);
    assert_eq!(EOR.len() as u64, RECORD_HEADER_SIZE);
    assert_eq!((RECORD_LEN_SIZE + RECORD_TYPE_SIZE) as u64, RECORD_HEADER_SIZE);
    assert_ne!(MAGIC, MAGIC_COMPRESSED);
    let empty = FormatWriter::maybe_compressed(b"", false).unwrap().finish().unwrap();
    assert_eq!(empty.len() as u64, 9 + 4 + TRAILER_SIZE);
}

#[test]
fn record_types_have_their_bytes() {
    for t in [RecordType::SnapshotEntry, RecordType::DiffChange, RecordType::FileContent] {
        assert_eq!(RecordType::from_u8(t.to_u8()), Some(t));
    }
    assert_eq!(RecordType::from_u8(0), None);
    assert_eq!(RecordType::from_u8(4), None);
    assert_eq!(RecordType::FileContent.to_u8(), 3);
}

#[test]
fn headers() {
    let s = FileHeader::snapshot("/data", 77);
    assert_eq!(s.file_type, "snapshot");
    assert_eq!(s.version, Snapshot::CURRENT_VERSION);
    assert_eq!(s.root_dir, Some("/data".to_string()));
    assert_eq!(s.created_at, 77);
    let mut d = FileHeader::diff([5; 16], Some(2), -1);
    assert_eq!(d.file_type, "diff");
    assert_eq!(d.source_snapshot_hash, Some([5; 16]));
    assert_eq!(d.chunk_index, Some(2));
    assert_eq!(check_diff_version(&d), Ok(()));
    d.version = 9;
    assert_eq!(
        check_diff_version(&d),
        Err(GappedError::InvalidFormat(FormatProblem::UnsupportedDiffVersion {
            found: 9,
            supported: Diff::CURRENT_VERSION,
        }))
    );
    d.file_type = "snapshot".to_string();
    assert_eq!(check_diff_version(&d), Ok(()));
}

#[test]
fn a_file_reads_back() {
    for compress in [false, true] {
        let file = snapshot_file(&[b"one", b"", b"three"], compress);
        assert_eq!(&file[..9], if compress { &MAGIC_COMPRESSED[..] } else { &MAGIC[..] });
        let mut r = opened(&file);
        assert_eq!(r.read_header(), Ok(Step::Ready(b"head".to_vec())));
        let payloads = read_entries(r).unwrap();
        assert_eq!(payloads, vec![b"one".to_vec(), b"".to_vec(), b"three".to_vec()]);
        let (entries, header) = load_snapshot(&file).unwrap();
        assert_eq!(entries, payloads);
        assert_eq!(header, b"head".to_vec());
    }
}

#[test]
fn a_file_reads_back_byte_by_byte() {
    for compress in [false, true] {
        let file = snapshot_file(&[b"one", b"two"], compress);
        let mut magic = [0u8; 9];
        magic.copy_from_slice(&file[..9]);
        let mut r = FormatReader::new(&magic).unwrap();
        let mut at = 9;
        let header = loop {
            match r.read_header().unwrap() {
                Step::Ready(h) => break h,
                Step::NeedMore => {
                    r.feed(&file[at..at + 1]);
                    at += 1;
                },
            }
        };
        assert_eq!(header, b"head".to_vec());
        let mut s = SnapshotReader::open(r);
        let mut got: Vec<Vec<u8>> = vec![];
        loop {
            match s.next_entry().unwrap() {
                Step::Ready(Some(e)) => got.push(e),
                Step::Ready(None) => break,
                Step::NeedMore => {
                    s.feed(&file[at..at + 1]);
                    at += 1;
                },
            }
        }
        assert_eq!(got, vec![b"one".to_vec(), b"two".to_vec()]);
        if !compress {
            assert_eq!(at, file.len());
        }
    }
}

#[test]
fn payloads_can_be_skipped_and_copied() {
    let mut w = FormatWriter::maybe_compressed(b"", false).unwrap();
    w.write_diff_change(b"skipped").unwrap();
    w.begin_file_content(5).unwrap();
    let mut content = ContentReader::new(5);
    content.supply(b"bytes".to_vec());
    assert_eq!(w.write_file_content_from_reader(&mut content), Ok(true));
    assert_eq!(w.bytes_written(), 9 + 4 + (9 + 7) + (9 + 5));
    let file = w.finish().unwrap();
    let mut r = opened(&file);
    assert_eq!(r.read_header(), Ok(Step::Ready(vec![])));
    assert_eq!(
        r.next_record_header(),
        Ok(Step::Ready(Some(RecordHeader { record_type: RecordType::DiffChange, payload_len: 7 })))
    );
    r.skip_payload(7);
    assert_eq!(
        r.next_record_header(),
        Ok(Step::Ready(Some(RecordHeader { record_type: RecordType::FileContent, payload_len: 5 })))
    );
    let mut out = b">".to_vec();
    assert_eq!(r.copy_payload_to(5, &mut out), 0);
    assert_eq!(out, b">bytes".to_vec());
    assert_eq!(r.next_record_header(), Ok(Step::Ready(None)));
    assert!(r.at_end_of_input());
}

#[test]
fn read_payload_gives_exactly_the_payload() {
    let file = snapshot_file(&[b"payload"], false);
    let mut r = opened(&file);
    assert!(matches!(r.read_header(), Ok(Step::Ready(_))));
    assert!(matches!(r.next_record_header(), Ok(Step::Ready(Some(_)))));
    assert_eq!(r.read_payload(7), Ok(Step::Ready(b"payload".to_vec())));
}

#[test]
fn plain_and_compressed_files_are_opened() {
    assert!(FormatReader::new(&MAGIC).is_ok());
    assert!(FormatReader::new(&MAGIC_COMPRESSED).is_ok());
    assert!(Decompressor::new().is_ok());
    for level in [i32::MIN, -1, 0, 3, 22, i32::MAX] {
        assert!(Compressor::new(level).is_ok());
    }
}

#[test]
fn a_compressed_file_in_pieces_is_not_broken() {
    let file = snapshot_file(&[b"one", b"two"], true);
    for size in [1usize, 2, 7, 1000] {
        let mut r = FormatReader::new(&MAGIC_COMPRESSED).unwrap();
        for piece in file[9..].chunks(size) {
            r.feed(piece);
            assert!(!r.at_end_of_input());
        }
        r.end_input();
        assert_eq!(r.read_header(), Ok(Step::Ready(b"head".to_vec())));
        assert_eq!(read_entries(r), Ok(vec![b"one".to_vec(), b"two".to_vec()]));
    }
}

#[test]
fn other_magic_bytes_are_refused() {
    let magic = *b"NOTGAPPED";
    match FormatReader::new(&magic) {
        Err(e) => assert_eq!(e, GappedError::InvalidFormat(FormatProblem::BadMagic(magic))),
        Ok(_) => panic!("accepted"),
    }
    assert!(matches!(load_snapshot(b"GAPP"), Err(GappedError::UnexpectedEof)));
}

#[test]
fn a_flipped_byte_is_noticed() {
    let mut file = snapshot_file(&[b"some payload"], false);
    let at = file.len() - 16 - 9 - 3;
    let before = digest(&file[..file.len() - 16]);
    file[at] ^= 0xff;
    let got = digest(&file[..file.len() - 16]);
    assert_eq!(
        load_snapshot(&file),
        Err(GappedError::ChecksumMismatch { expected: before, got })
    );
}

#[test]
fn an_unknown_record_type_is_refused() {
    let mut file = snapshot_file(&[b"x"], false);
    let type_at = 9 + 4 + 4 + 8;
    assert_eq!(file[type_at], 1);
    file[type_at] = 7;
    assert_eq!(
        load_snapshot(&file),
        Err(GappedError::InvalidFormat(FormatProblem::UnknownRecordType(7)))
    );
}

#[test]
fn a_cut_file_is_refused() {
    let file = snapshot_file(&[b"one", b"two"], false);
    for n in 9..file.len() {
        assert_eq!(load_snapshot(&file[..n]), Err(GappedError::UnexpectedEof), "cut at {}", n);
    }
}

#[test]
fn a_broken_stream_is_refused() {
    let mut file = snapshot_file(&[b"one"], true);
    file[9] ^= 0xff;
    assert_eq!(load_snapshot(&file), Err(GappedError::Decompression));
}

#[test]
fn a_compressed_file_has_the_checksum_of_its_content() {
    let payload = vec![b'z'; 4000];
    let file = snapshot_file(&[&payload], true);
    assert!(file.len() < 400);
    let plain = zstd::stream::decode_all(&file[9..]).unwrap();
    let mut all = MAGIC_COMPRESSED.to_vec();
    all.extend(&plain);
    let n = all.len() - 16;
    assert_eq!(all[n..], digest(&all[..n]));
    assert_eq!(plain[..8], [4, 0, 0, 0, b'h', b'e', b'a', b'd']);
    assert_eq!(load_snapshot(&file).unwrap().0, vec![payload]);
}

#[test]
fn compressing_and_decompressing() {
    let data: Vec<u8> = (0..100_000u32).map(|i| (i % 251) as u8).collect();
    let mut c = Compressor::new(3).unwrap();
    let mut stream: Vec<u8> = vec![];
    for piece in data.chunks(1000) {
        c.write(piece).unwrap();
        stream.extend(c.take_output());
    }
    stream.extend(c.finish().unwrap());
    assert_ne!(stream, data);
    assert!(stream.len() < data.len());
    assert_eq!(zstd::stream::decode_all(&stream[..]).unwrap(), data);

    let mut d = Decompressor::new().unwrap();
    let mut back: Vec<u8> = vec![];
    for piece in stream.chunks(7) {
        let (out, ok) = d.feed(piece);
        assert!(ok);
        back.extend(out);
    }
    assert_eq!(back, data);
}

#[test]
fn decoded_bytes_are_not_held_back() {
    let stream = zstd::stream::encode_all(&b"short"[..], 0).unwrap();
    let mut d = Decompressor::new().unwrap();
    let (out, ok) = d.feed(&stream);
    assert!(ok);
    assert_eq!(out, b"short".to_vec());
    let mut broken = Decompressor::new().unwrap();
    let (out, ok) = broken.feed(b"this is no zstd stream");
    assert!(!ok);
    assert_eq!(out, b"".to_vec());
}

#[test]
fn records_are_picked_by_type() {
    let mut w = FormatWriter::maybe_compressed(b"", false).unwrap();
    w.write_diff_change(b"a").unwrap();
    w.write_snapshot_entry(b"b").unwrap();
    w.write_diff_change(b"c").unwrap();
    w.begin_file_content(0).unwrap();
    w.write_diff_change(b"d").unwrap();
    let file = w.finish().unwrap();

    let mut all: Vec<Vec<u8>> = vec![];
    let mut r = opened(&file);
    assert!(matches!(r.read_header(), Ok(Step::Ready(_))));
    let mut f = RecordFilter::new(r, Selection { wanted: RecordType::DiffChange, stop_at: None });
    assert_eq!(f.drain(&mut all), Ok(Step::Ready(())));
    assert_eq!(all, vec![b"a".to_vec(), b"c".to_vec(), b"d".to_vec()]);

    let mut r = opened(&file);
    assert!(matches!(r.read_header(), Ok(Step::Ready(_))));
    let mut f = RecordFilter::new(
        r,
        Selection { wanted: RecordType::DiffChange, stop_at: Some(RecordType::FileContent) },
    );
    assert_eq!(f.next_payload(), Ok(Step::Ready(Some(b"a".to_vec()))));
    assert_eq!(f.next_payload(), Ok(Step::Ready(Some(b"c".to_vec()))));
    assert_eq!(f.next_payload(), Ok(Step::Ready(None)));
}

#[test]
fn content_that_is_too_short_is_refused() {
    let mut w = FormatWriter::maybe_compressed(b"", false).unwrap();
    w.begin_file_content(10).unwrap();
    let mut content = ContentReader::new(4);
    content.supply(b"four".to_vec());
    assert_eq!(w.write_file_content_from_reader(&mut content), Err(GappedError::ContentShort(6)));
}

#[test]
fn content_comes_in_chunks() {
    let mut r = ContentReader::new(5);
    assert_eq!(r.read(10), ContentRead::NeedChunk);
    r.supply(b"abc".to_vec());
    assert_eq!(r.read(2), ContentRead::Data(b"ab".to_vec()));
    assert_eq!(r.remaining(), 3);
    assert_eq!(r.read(10), ContentRead::Data(b"c".to_vec()));
    assert_eq!(r.read(10), ContentRead::NeedChunk);
    r.supply(b"de".to_vec());
    assert_eq!(r.read(10), ContentRead::Data(b"de".to_vec()));
    assert_eq!(r.read(10), ContentRead::End);
    assert_eq!(r.remaining(), 0);
}

#[test]
fn reads_join_to_the_chunks() {
    let chunks: [&[u8]; 4] = [b"abc", b"", b"defgh", b"i"];
    for size in [1usize, 2, 3, 100] {
        let mut r = ContentReader::new(9);
        let mut next = chunks.iter();
        let mut got: Vec<u8> = vec![];
        loop {
            match r.read(size) {
                ContentRead::Data(d) => got.extend(d),
                ContentRead::NeedChunk => r.supply(next.next().unwrap().to_vec()),
                ContentRead::End => break,
            }
        }
        assert_eq!(got, b"abcdefghi".to_vec());
    }
}

#[test]
fn records_come_one_after_the_other() {
    let mut w = FormatWriter::maybe_compressed(b"h", false).unwrap();
    w.write_diff_change(b"one").unwrap();
    w.write_snapshot_entry(b"").unwrap();
    w.write_diff_change(b"three").unwrap();
    let mut r = opened(&w.finish().unwrap());
    assert_eq!(r.read_header(), Ok(Step::Ready(b"h".to_vec())));
    let expected: [(RecordType, &[u8]); 3] = [
        (RecordType::DiffChange, b"one"),
        (RecordType::SnapshotEntry, b""),
        (RecordType::DiffChange, b"three"),
    ];
    for (record_type, payload) in expected {
        let payload_len = payload.len() as u64;
        assert_eq!(r.next_record_header(), Ok(Step::Ready(Some(RecordHeader { record_type, payload_len }))));
        assert_eq!(r.read_payload(payload_len), Ok(Step::Ready(payload.to_vec())));
    }
    assert_eq!(r.next_record_header(), Ok(Step::Ready(None)));
    assert_eq!(r.next_record_header(), Ok(Step::Ready(None)));
}

#[test]
fn what_follows_the_first_content_header_is_not_looked_at() {
    let mut w = FormatWriter::maybe_compressed(b"", false).unwrap();
    w.write_diff_change(b"one").unwrap();
    w.write_diff_change(b"two").unwrap();
    w.begin_file_content(4).unwrap();
    let mut content = ContentReader::new(4);
    content.supply(b"data".to_vec());
    assert_eq!(w.write_file_content_from_reader(&mut content), Ok(true));
    let file = w.finish().unwrap();
    let front = 9 + 4 + 2 * (9 + 3) + 9;
    let mut damaged = file.clone();
    for b in &mut damaged[front..] {
        *b ^= 0xff;
    }
    let mut longer = file[..front].to_vec();
    longer.extend(b"something else altogether");
    for f in [&file, &damaged, &longer, &file[..front].to_vec()] {
        let mut r = opened(f);
        assert_eq!(r.read_header(), Ok(Step::Ready(vec![])));
        let selection = Selection { wanted: RecordType::DiffChange, stop_at: Some(RecordType::FileContent) };
        let mut picked: Vec<Vec<u8>> = vec![];
        assert_eq!(RecordFilter::new(r, selection).drain(&mut picked), Ok(Step::Ready(())));
        assert_eq!(picked, vec![b"one".to_vec(), b"two".to_vec()]);
    }
}

#[test]
fn a_file_is_streamed_in_pieces() {
    let mut s = FileStream::new(CHUNK_SIZE as u64 + 10);
    assert_eq!(s.want(), CHUNK_SIZE);
    assert_eq!(s.advance(CHUNK_SIZE), Ok(()));
    assert_eq!(s.want(), 10);
    assert_eq!(s.advance(0), Err(GappedError::FileTruncated));
    assert_eq!(s.advance(10), Ok(()));
    assert_eq!(s.want(), 0);
    assert_eq!(CHUNK_SIZE, 256 * 1024);
    assert_eq!(CHUNK_DEPTH, 4);
}

#[test]
fn a_pool_hands_out_every_file_in_order() {
    let mut pool = PrefetchPool::new(5, 2);
    let mut started: Vec<usize> = vec![];
    let mut got: Vec<usize> = vec![];
    loop {
        while let Some(i) = pool.top_up() {
            started.push(i);
        }
        assert!(started.len() <= got.len() + 2);
        match pool.next() {
            Some(i) => got.push(i),
            None => break,
        }
    }
    assert_eq!(got, vec![0, 1, 2, 3, 4]);
    assert_eq!(started, got);
}

#[test]
fn workers_are_capped() {
    assert_eq!(worker_count(None), 4);
    assert_eq!(worker_count(Some(1)), 1);
    assert_eq!(worker_count(Some(8)), 8);
    assert_eq!(worker_count(Some(64)), 8);
}

#[test]
fn numbers_are_stored_least_significant_first() {
    let mut out: Vec<u8> = vec![9];
    push_le(&mut out, 0x0102_0304, 4);
    assert_eq!(out, vec![9, 4, 3, 2, 1]);
    assert_eq!(read_le(&out, 1, 4), 0x0102_0304);
    assert_eq!(read_le(&out, 1, 2), 0x0304);
    assert!(bytes_equal(b"ab", b"ab"));
    assert!(!bytes_equal(b"ab", b"abc"));
    assert_eq!(copy_range(b"abcdef", 1, 3), b"bc".to_vec());
    assert_eq!(to_array16(&[6u8; 16]), [6u8; 16]);
}

#[test]
fn a_cut_stream_is_refused() {
    let payload: Vec<u8> = (0..5000u32).map(|i| (i * i % 251) as u8).collect();
    let file = snapshot_file(&[&payload], true);
    for n in [9, 10, file.len() / 2, file.len() - 30] {
        assert_eq!(load_snapshot(&file[..n]), Err(GappedError::UnexpectedEof), "cut at {}", n);
    }
}

#[test]
fn the_front_of_a_stream_gives_the_front_of_its_content() {
    let data: Vec<u8> = (0..400_000u32).map(|i| (i * 7919 >> 5) as u8).collect();
    let stream = zstd::stream::encode_all(&data[..], 3).unwrap();
    let mut d = Decompressor::new().unwrap();
    let (out, ok) = d.feed(&stream[..stream.len() / 2]);
    assert!(ok);
    assert!(!out.is_empty());
    assert!(out.len() < data.len());
    assert_eq!(out[..], data[..out.len()]);
    let (rest, ok) = d.feed(&stream[stream.len() / 2..]);
    assert!(ok);
    assert_eq!([out, rest].concat(), data);
}
