//! Reading snapshots.

use crate::bytes;
use crate::error::{FormatProblem, GappedError};
use crate::format::filter;
use crate::format::filter::{FilterModel, Pick, RecordFilter, Selection};
use crate::format::header;
use crate::format::header::{RecordModel, RecordType, MAGIC, MAGIC_COMPRESSED};
use crate::format::reader;
use crate::format::reader::{FormatReader, ReaderModel, Step};
use crate::format::roundtrip;
use crate::format::roundtrip::ReadAll;
use crate::format::writer;
use crate::model::entry;
use crate::model::entry::Entry;
use crate::model::path_map;
use crate::model::path_map::EntryMap;
use crate::order;
use vstd::prelude::*;

verus! {

/// Snapshot entries are picked up to the end of the file.
pub open spec fn entry_selection() -> Selection {
    Selection { wanted: RecordType::SnapshotEntry, stop_at: None }
}

/// Streaming reader of snapshot entries.
///
/// Reads one entry at a time without holding the whole list. Snapshots are
/// written in the order of paths, so the entries come in that order.
pub struct SnapshotReader {
    records: RecordFilter,
}

impl View for SnapshotReader {
    type V = FilterModel;

    closed spec fn view(&self) -> FilterModel {
        self.records@
    }
}

impl SnapshotReader {
    /// Whether the decoder of a compressed file has failed.
    pub closed spec fn gave_up(&self) -> bool {
        self.records.gave_up()
    }

    /// What holds between any two steps. A stream is broken only where its
    /// decoder has failed.
    pub open spec fn wf(&self) -> bool {
        self.inv() && self@.reader.broken == self.gave_up()
    }

    pub closed spec fn inv(&self) -> bool {
        self.records.wf() && self.records.selection() == entry_selection()
    }

    /// Reads the entries of a snapshot whose header has been read.
    pub fn open(format_reader: FormatReader) -> (r: Self)
        requires
            format_reader.wf(),
            !format_reader@.finished,
        ensures
            r.wf(),
            r@ == (FilterModel { reader: format_reader@, awaiting: None, done: false }),
    {
        let selection = Selection { wanted: RecordType::SnapshotEntry, stop_at: None };
        SnapshotReader { records: RecordFilter::new(format_reader, selection) }
    }

    /// Feeds the next bytes of the file.
    pub fn feed(&mut self, data: &[u8])
        requires
            old(self).wf(),
        ensures
            final(self).wf(),
            final(self)@.awaiting == old(self)@.awaiting,
            final(self)@.done == old(self)@.done,
            reader::is_fed(old(self)@.reader, data@, final(self)@.reader),
    {
        self.records.feed(data);
    }

    /// Takes note that no more bytes will be fed.
    pub fn end_input(&mut self)
        requires
            old(self).wf(),
        ensures
            final(self).wf(),
            final(self)@ == (FilterModel {
                reader: (ReaderModel { ended: true, ..old(self)@.reader }),
                ..old(self)@
            }),
    {
        self.records.end_input();
    }

    /// The next entry, as it is serialized. Other records are skipped. `None`
    /// at the end of the file.
    pub fn next_entry(&mut self) -> (r: Result<Step<Option<Vec<u8>>>, GappedError>)
        requires
            old(self).wf(),
        ensures
            final(self).wf(),
            ({
                let (after, picked) = filter::pick(old(self)@, entry_selection());
                &&& final(self)@ == after
                &&& match picked {
                    Pick::Short => after.reader.is_short(r),
                    Pick::Payload(p) => r matches Ok(Step::Ready(Some(v))) && v@ == p,
                    Pick::Done => r == Ok::<Step<Option<Vec<u8>>>, GappedError>(Step::Ready(None)),
                    Pick::BadChecksum { stored, actual } => r matches Err(e)
                        && e matches GappedError::ChecksumMismatch { expected, got }
                        && expected@ == stored && got@ == actual,
                    Pick::BadType(b) => r == Err::<Step<Option<Vec<u8>>>, GappedError>(
                        GappedError::InvalidFormat(FormatProblem::UnknownRecordType(b)),
                    ),
                }
            }),
    {
        self.records.next_payload()
    }
}

/// Whether `e` is the error for a file that is not all there.
pub open spec fn is_shortage(m: ReaderModel, e: GappedError) -> bool {
    e == if m.broken {
        GappedError::Decompression
    } else {
        GappedError::UnexpectedEof
    }
}

/// Whether `r` is what reading all entries gives from where a reader stands
/// that has all its input.
pub open spec fn is_list_read(m: ReaderModel, r: Result<Vec<Vec<u8>>, GappedError>) -> bool {
    match roundtrip::read_all(m) {
        ReadAll::All(rs) => r matches Ok(v) && order::views(v@) == filter::picked(
            rs,
            entry_selection(),
        ),
        ReadAll::Short => r matches Err(e) && is_shortage(m, e),
        ReadAll::BadChecksum { stored, actual } => r matches Err(e)
            && e matches GappedError::ChecksumMismatch { expected, got } && expected@ == stored
            && got@ == actual,
        ReadAll::BadType(b) => r == Err::<Vec<Vec<u8>>, GappedError>(
            GappedError::InvalidFormat(FormatProblem::UnknownRecordType(b)),
        ),
    }
}

/// Whether `r` is what loading a snapshot gives from where a reader stands that
/// has all its input, in front of the header.
pub open spec fn is_loaded(
    m: ReaderModel,
    r: Result<(Vec<Vec<u8>>, Vec<u8>), GappedError>,
) -> bool {
    if m.lacks(4) || m.lacks(4 + m.header_len()) {
        r matches Err(e) && is_shortage(m, e)
    } else {
        let after = m.advance(4 + m.header_len());
        match r {
            Ok((entries, head)) => {
                &&& is_list_read(after, Ok(entries))
                &&& head@ == m.pending().subrange(4, 4 + m.header_len())
            },
            Err(e) => is_list_read(after, Err(e)),
        }
    }
}

/// Reads all entries of a snapshot, as they are serialized, from where a reader
/// stands that has all its input.
pub fn read_entries(format_reader: FormatReader) -> (r: Result<Vec<Vec<u8>>, GappedError>)
    requires
        format_reader.wf(),
        format_reader@.ended,
        format_reader@.skip == 0,
        !format_reader@.finished,
    ensures
        is_list_read(format_reader@, r),
{
    let ghost m0 = format_reader@;
    let mut entries: Vec<Vec<u8>> = Vec::new();
    let mut snapshot = SnapshotReader::open(format_reader);
    let ghost mut rest: Seq<RecordModel> = match roundtrip::read_all(m0) {
        ReadAll::All(rs) => rs,
        _ => Seq::empty(),
    };
    proof {
        assert(order::views(entries@) =~= Seq::<Seq<u8>>::empty());
        assert(order::views(entries@) + filter::picked(rest, entry_selection()) =~= filter::picked(
            rest,
            entry_selection(),
        ));
    }
    loop
        invariant
            m0 == format_reader@,
            snapshot.wf(),
            snapshot@.reader.wf(),
            snapshot@.reader.skip == 0,
            snapshot@.awaiting is None,
            !snapshot@.done,
            snapshot@.reader.ended,
            snapshot@.reader.broken == m0.broken,
            match roundtrip::read_all(m0) {
                ReadAll::All(rs) => {
                    &&& roundtrip::read_all(snapshot@.reader) == ReadAll::All(rest)
                    &&& order::views(entries@) + filter::picked(rest, entry_selection())
                        == filter::picked(rs, entry_selection())
                },
                other => roundtrip::read_all(snapshot@.reader) == other,
            },
        decreases snapshot@.reader.pending().len(),
    {
        let ghost before = snapshot@;
        let ghost tail: Seq<RecordModel> = rest;
        proof {
            filter::lemma_picking_fails_as_reading_does(before, entry_selection());
            if roundtrip::read_all(m0) is All {
                rest =
                filter::law_picking_follows_the_records(before, entry_selection(), tail);
            }
        }
        match snapshot.next_entry() {
            Ok(Step::Ready(Some(payload))) => {
                proof {
                    if roundtrip::read_all(m0) is All {
                        let all = filter::picked(tail, entry_selection());
                        assert(all =~= seq![payload@] + filter::picked(rest, entry_selection()));
                        assert(order::views(entries@.push(payload)) =~= order::views(entries@).push(
                            payload@,
                        ));
                        assert(order::views(entries@) + all =~= order::views(
                            entries@.push(payload),
                        ) + filter::picked(rest, entry_selection()));
                    }
                }
                entries.push(payload);
            },
            Ok(Step::Ready(None)) => {
                proof {
                    assert(order::views(entries@) + Seq::<Seq<u8>>::empty() =~= order::views(
                        entries@,
                    ));
                    assert(filter::picked(tail, entry_selection()) =~= Seq::<Seq<u8>>::empty());
                }
                return Ok(entries);
            },
            Ok(Step::NeedMore) => {
                assert(false);
                return Err(GappedError::UnexpectedEof);
            },
            Err(e) => {
                return Err(e);
            },
        }
    }
}

/// Whether `f` is a reader that has been fed the compressed stream `stream` and
/// has read nothing yet.
pub open spec fn is_opened(f: FormatReader, stream: Seq<u8>) -> bool {
    &&& f.wf()
    &&& f@ == (ReaderModel {
        fed: stream,
        ..roundtrip::complete_reader(true, f@.received, f.gave_up())
    })
}

/// Whether a decoder has failed on a compressed stream.
pub open spec fn gives_up_on(stream: Seq<u8>) -> bool {
    exists|f: FormatReader| #[trigger] is_opened(f, stream) && f.gave_up()
}

/// Whether `r` is what loading the snapshot file `file` gives. Of a compressed
/// file it goes by what a reader has received that was fed the stream: all that
/// the stream decodes to, and the front of it where the decoder has failed.
pub open spec fn is_file_loaded(
    file: Seq<u8>,
    r: Result<(Vec<Vec<u8>>, Vec<u8>), GappedError>,
) -> bool {
    if file.len() < 9 {
        r == Err::<(Vec<Vec<u8>>, Vec<u8>), GappedError>(GappedError::UnexpectedEof)
    } else if file.take(9) == MAGIC@ {
        is_loaded(roundtrip::complete_reader(false, file.skip(9), false), r)
    } else if file.take(9) == MAGIC_COMPRESSED@ {
        exists|f: FormatReader| #[trigger] is_opened(f, file.skip(9)) && is_loaded(f@, r)
    } else {
        r matches Err(e) && e matches GappedError::InvalidFormat(FormatProblem::BadMagic(b)) && b@
            == file.take(9)
    }
}

/// Loads a snapshot from the bytes of its file: the entries, as they are
/// serialized, and the header.
///
/// Streaming comparison should use [`SnapshotReader`], which holds one entry at
/// a time.
pub fn load_snapshot(file: &[u8]) -> (r: Result<(Vec<Vec<u8>>, Vec<u8>), GappedError>)
    ensures
        is_file_loaded(file@, r),
{
    if file.len() < 9 {
        return Err(GappedError::UnexpectedEof);
    }
    let magic: [u8; 9] = [
        file[0],
        file[1],
        file[2],
        file[3],
        file[4],
        file[5],
        file[6],
        file[7],
        file[8],
    ];
    assert(magic@ =~= file@.take(9));
    assert(MAGIC@ != MAGIC_COMPRESSED@) by {
        assert(MAGIC@[6] != MAGIC_COMPRESSED@[6]);
    }
    let mut reader = match FormatReader::new(&magic) {
        Ok(f) => f,
        Err(e) => {
            return Err(e);
        },
    };
    let body = bytes::copy_range(file, 9, file.len());
    assert(body@ =~= file@.skip(9));
    reader.feed(body.as_slice());
    reader.end_input();
    let ghost f = reader;
    assert(Seq::<u8>::empty() + body@ =~= body@);
    let r = load_from(reader);
    proof {
        if f@.compressed {
            assert(is_opened(f, file@.skip(9)));
        } else {
            lemma_is_loaded_ignores_fed(
                f@,
                roundtrip::complete_reader(false, f@.received, false),
                r,
            );
        }
    }
    r
}

fn load_from(reader: FormatReader) -> (r: Result<(Vec<Vec<u8>>, Vec<u8>), GappedError>)
    requires
        reader.wf(),
        reader@.ended,
        reader@.skip == 0,
        !reader@.finished,
    ensures
        is_loaded(reader@, r),
{
    let mut reader = reader;
    match reader.read_header() {
        Ok(Step::Ready(head)) => {
            match read_entries(reader) {
                Ok(entries) => Ok((entries, head)),
                Err(e) => Err(e),
            }
        },
        Ok(Step::NeedMore) => Err(GappedError::UnexpectedEof),
        Err(e) => Err(e),
    }
}

proof fn lemma_is_loaded_ignores_fed(
    m: ReaderModel,
    n: ReaderModel,
    r: Result<(Vec<Vec<u8>>, Vec<u8>), GappedError>,
)
    requires
        n == (ReaderModel { fed: n.fed, ..m }),
    ensures
        is_loaded(m, r) == is_loaded(n, r),
{
    roundtrip::lemma_read_all_ignores_input(
        m.advance(4 + m.header_len()),
        n.advance(4 + n.header_len()),
    );
}

/// The entries of a snapshot by their paths, of two entries with the same path
/// the later one.
pub fn load_snapshot_entries(entries: Vec<Entry>) -> (r: EntryMap)
    ensures
        r.wf(),
        r@ == path_map::entries_by_path(entry::entry_views(entries@)),
{
    let mut r = EntryMap::new();
    let ghost all = entry::entry_views(entries@);
    let mut i: usize = 0;
    assert(all.take(0) =~= Seq::empty());
    while i < entries.len()
        invariant
            i <= entries@.len(),
            all == entry::entry_views(entries@),
            r.wf(),
            r@ == path_map::entries_by_path(all.take(i as int)),
        decreases entries@.len() - i,
    {
        let e = entries[i].clone();
        let path = e.path.clone();
        proof {
            let upto = all.take(i + 1);
            assert(upto.drop_last() =~= all.take(i as int));
            assert(upto.last() == all[i as int]);
        }
        r.insert(path, e);
        i = i + 1;
    }
    assert(all.take(i as int) =~= all);
    r
}

/// The records of a snapshot with the given entries.
pub open spec fn snapshot_records(entries: Seq<Seq<u8>>) -> Seq<RecordModel> {
    entries.map_values(
        |e: Seq<u8>| RecordModel { record_type: RecordType::SnapshotEntry, payload: e },
    )
}

proof fn lemma_picked_of_snapshot(entries: Seq<Seq<u8>>)
    ensures
        filter::picked(snapshot_records(entries), entry_selection()) == entries,
    decreases entries.len(),
{
    let rs = snapshot_records(entries);
    if entries.len() > 0 {
        assert(rs.drop_first() =~= snapshot_records(entries.drop_first()));
        lemma_picked_of_snapshot(entries.drop_first());
        assert(seq![entries[0]] + entries.drop_first() =~= entries);
    } else {
        assert(filter::picked(rs, entry_selection()) =~= entries);
    }
}

/// A snapshot that has been received completely is loaded.
proof fn lemma_loaded_whole(
    compressed: bool,
    head: Seq<u8>,
    entries: Seq<Seq<u8>>,
    broken: bool,
    r: Result<(Vec<Vec<u8>>, Vec<u8>), GappedError>,
)
    requires
        head.len() <= 0xffff_ffff,
        roundtrip::are_storable(snapshot_records(entries)),
        is_loaded(
            roundtrip::complete_reader(
                compressed,
                header::file_bytes(
                    header::magic_of(compressed),
                    head,
                    snapshot_records(entries),
                ).skip(9),
                broken,
            ),
            r,
        ),
    ensures
        r matches Ok((es, h)) && order::views(es@) == entries && h@ == head,
{
    let rs = snapshot_records(entries);
    let received = header::file_bytes(header::magic_of(compressed), head, rs).skip(9);
    let n = roundtrip::reader_at(compressed, received, 0);
    let m = roundtrip::complete_reader(compressed, received, broken);
    roundtrip::law_a_file_reads_back(compressed, head, rs);
    lemma_picked_of_snapshot(entries);
    assert(m.pending() == n.pending());
    roundtrip::lemma_read_all_ignores_input(n.advance(4 + n.header_len()), m.advance(4 + m.header_len()));
}

/// A snapshot of which only the front has been received is refused.
proof fn lemma_loaded_cut(
    compressed: bool,
    head: Seq<u8>,
    entries: Seq<Seq<u8>>,
    received: Seq<u8>,
    broken: bool,
    r: Result<(Vec<Vec<u8>>, Vec<u8>), GappedError>,
)
    requires
        head.len() <= 0xffff_ffff,
        roundtrip::are_storable(snapshot_records(entries)),
        ({
            let whole = header::file_bytes(
                header::magic_of(compressed),
                head,
                snapshot_records(entries),
            ).skip(9);
            received.is_prefix_of(whole) && received.len() < whole.len()
        }),
        is_loaded(roundtrip::complete_reader(compressed, received, broken), r),
    ensures
        r == Err::<(Vec<Vec<u8>>, Vec<u8>), GappedError>(
            if broken {
                GappedError::Decompression
            } else {
                GappedError::UnexpectedEof
            },
        ),
{
    let rs = snapshot_records(entries);
    let c = roundtrip::reader_at(compressed, received, 0);
    let m = roundtrip::complete_reader(compressed, received, broken);
    roundtrip::law_a_cut_file_is_too_short(compressed, head, rs, received);
    assert(m.pending() == c.pending());
    roundtrip::lemma_read_all_ignores_input(c.advance(4 + c.header_len()), m.advance(4 + m.header_len()));
}

/// A snapshot file that was written is loaded back: its header and all its
/// entries, in order. Only where the decoder has failed on a compressed file is
/// there an error, and it says so.
pub proof fn law_a_snapshot_loads_back(
    file: Seq<u8>,
    compressed: bool,
    head: Seq<u8>,
    entries: Seq<Seq<u8>>,
    r: Result<(Vec<Vec<u8>>, Vec<u8>), GappedError>,
)
    requires
        head.len() <= 0xffff_ffff,
        roundtrip::are_storable(snapshot_records(entries)),
        writer::stores(
            file,
            compressed,
            header::file_bytes(header::magic_of(compressed), head, snapshot_records(entries)),
        ),
        is_file_loaded(file, r),
    ensures
        ({
            ||| r matches Ok((es, h)) && order::views(es@) == entries && h@ == head
            ||| compressed && gives_up_on(file.skip(9)) && r == Err::<
                (Vec<Vec<u8>>, Vec<u8>),
                GappedError,
            >(GappedError::Decompression)
        }),
{
    let rs = snapshot_records(entries);
    let plain = header::file_bytes(header::magic_of(compressed), head, rs);
    assert(MAGIC@ != MAGIC_COMPRESSED@) by {
        assert(MAGIC@[6] != MAGIC_COMPRESSED@[6]);
    }
    assert(plain.take(9) =~= header::magic_of(compressed));
    if !compressed {
        lemma_loaded_whole(false, head, entries, false, r);
    } else {
        let f = choose|f: FormatReader| #[trigger]
            is_opened(f, file.skip(9)) && is_loaded(f@, r);
        let received = f@.received;
        lemma_is_loaded_ignores_fed(
            f@,
            roundtrip::complete_reader(true, received, f.gave_up()),
            r,
        );
        assert(file.skip(9).is_prefix_of(file.skip(9)));
        assert(received.is_prefix_of(plain.skip(9)));
        if received.len() == plain.skip(9).len() {
            assert(received =~= plain.skip(9));
            lemma_loaded_whole(true, head, entries, f.gave_up(), r);
        } else {
            lemma_loaded_cut(true, head, entries, received, f.gave_up(), r);
        }
    }
}

/// A plain snapshot file that is cut off anywhere is refused as too short.
pub proof fn law_a_cut_snapshot_is_refused(
    head: Seq<u8>,
    entries: Seq<Seq<u8>>,
    n: int,
    r: Result<(Vec<Vec<u8>>, Vec<u8>), GappedError>,
)
    requires
        head.len() <= 0xffff_ffff,
        roundtrip::are_storable(snapshot_records(entries)),
        ({
            let file = header::file_bytes(MAGIC@, head, snapshot_records(entries));
            0 <= n < file.len() && is_file_loaded(file.take(n), r)
        }),
    ensures
        r == Err::<(Vec<Vec<u8>>, Vec<u8>), GappedError>(GappedError::UnexpectedEof),
{
    let rs = snapshot_records(entries);
    let file = header::file_bytes(MAGIC@, head, rs);
    if n >= 9 {
        assert(file.take(n).take(9) =~= MAGIC@);
        let received = file.take(n).skip(9);
        assert(received =~= file.skip(9).take(n - 9));
        lemma_loaded_cut(false, head, entries, received, false, r);
    }
}

} // verus!
