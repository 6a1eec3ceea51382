//! What is written can be read back.

use crate::bytes;
use crate::format::checksum;
use crate::format::header;
use crate::format::header::{RecordModel, RecordType, EOR, TRAILER_SIZE};
use crate::format::reader;
use crate::format::reader::{NextHead, ReaderModel};
use vstd::prelude::*;

verus! {

/// What reading a file to its end gives.
#[verifier::ext_equal]
pub enum ReadAll {
    /// All its records; its checksum is right.
    All(Seq<RecordModel>),
    /// It is not all there.
    Short,
    /// Its checksum is wrong.
    BadChecksum { stored: Seq<u8>, actual: Seq<u8> },
    /// It holds a record of an unknown type.
    BadType(u8),
}

/// What reading on from where a reader stands gives.
pub open spec fn read_all(m: ReaderModel) -> ReadAll
    decreases m.pending().len(),
{
    match m.next_head() {
        NextHead::Record(t, len) => {
            let p = m.pending();
            if p.len() < 9 + len {
                ReadAll::Short
            } else {
                match read_all(m.advance(9 + len as int)) {
                    ReadAll::All(rest) => ReadAll::All(
                        seq![RecordModel { record_type: t, payload: p.subrange(9, 9 + len as int) }]
                            + rest,
                    ),
                    other => other,
                }
            }
        },
        NextHead::End => ReadAll::All(Seq::empty()),
        NextHead::Short => ReadAll::Short,
        NextHead::BadChecksum { stored, actual } => ReadAll::BadChecksum { stored, actual },
        NextHead::BadType(b) => ReadAll::BadType(b),
    }
}

/// Reading on from in front of a record gives what reading on from behind it
/// does, with the record in front.
pub proof fn lemma_read_all_step(m: ReaderModel, t: RecordType, len: nat)
    requires
        m.next_head() == NextHead::Record(t, len),
    ensures
        m.pending().len() < 9 + len ==> read_all(m) is Short,
        m.pending().len() >= 9 + len ==> ({
            let next = m.advance(9 + len as int);
            let r = RecordModel {
                record_type: t,
                payload: m.pending().subrange(9, 9 + len as int),
            };
            match read_all(next) {
                ReadAll::All(rest) => read_all(m) == ReadAll::All(seq![r] + rest),
                other => read_all(m) == other,
            }
        }),
{
}

/// Reading gives one record after the other, each with its type and payload, and
/// behind the last one the end of the file.
pub proof fn law_records_come_one_after_the_other(m: ReaderModel, rs: Seq<RecordModel>)
    requires
        m.wf(),
        m.skip == 0,
        read_all(m) == ReadAll::All(rs),
    ensures
        m.settled() == m,
        rs.len() == 0 ==> m.next_head() is End,
        rs.len() > 0 ==> {
            let n = rs[0].payload.len();
            let payload = m.advance(9);
            let next = payload.advance(n as int);
            &&& m.next_head() == NextHead::Record(rs[0].record_type, n)
            &&& !payload.lacks(n as int)
            &&& payload.pending().take(n as int) == rs[0].payload
            &&& next.wf()
            &&& next.skip == 0
            &&& read_all(next) == ReadAll::All(rs.drop_first())
        },
{
    reader::lemma_settled(m);
    if let NextHead::Record(t, len) = m.next_head() {
        lemma_read_all_step(m, t, len);
        let next = m.advance(9 + len as int);
        reader::lemma_advance(m, 9);
        reader::lemma_advance(m.advance(9), len as int);
        assert(m.advance(9).advance(len as int) == next);
        if let ReadAll::All(rest) = read_all(next) {
            assert(rs.drop_first() =~= rest);
            assert(m.advance(9).pending().take(len as int) =~= rs[0].payload);
        }
    }
}

/// A reader that has received `received` and read `taken` bytes of it.
pub open spec fn reader_at(compressed: bool, received: Seq<u8>, taken: nat) -> ReaderModel {
    ReaderModel {
        compressed,
        fed: Seq::empty(),
        received,
        taken,
        skip: 0,
        ended: false,
        broken: false,
        finished: false,
    }
}

/// A reader that has all its input and has read nothing: it has received
/// `received`, and the stream may be broken behind that.
pub open spec fn complete_reader(
    compressed: bool,
    received: Seq<u8>,
    broken: bool,
) -> ReaderModel {
    ReaderModel { ended: true, broken, ..reader_at(compressed, received, 0) }
}

/// How a file came in does not matter to what it holds.
pub proof fn lemma_read_all_ignores_input(m: ReaderModel, n: ReaderModel)
    requires
        n == (ReaderModel { fed: n.fed, ended: n.ended, broken: n.broken, ..m }),
    ensures
        read_all(m) == read_all(n),
    decreases m.pending().len(),
{
    assert(m.read_so_far() == n.read_so_far());
    assert(m.next_head() == n.next_head());
    match m.next_head() {
        NextHead::Record(t, len) => {
            if m.pending().len() >= 9 + len {
                lemma_read_all_ignores_input(m.advance(9 + len as int), n.advance(9 + len as int));
            }
        },
        _ => {},
    }
}

/// Payloads whose length can be stored.
pub open spec fn are_storable(rs: Seq<RecordModel>) -> bool {
    forall|i: int|
        0 <= i < rs.len() ==> (#[trigger] rs[i]).payload.len() <= 0xffff_ffff_ffff_ffff
}

/// The first of some records stands in front of the others.
pub proof fn lemma_records_bytes_front(r: RecordModel, rest: Seq<RecordModel>)
    ensures
        header::records_bytes(seq![r] + rest) == header::record_bytes(r) + header::records_bytes(
            rest,
        ),
    decreases rest.len(),
{
    let all = seq![r] + rest;
    if rest.len() == 0 {
        let none = Seq::<RecordModel>::empty();
        assert(header::records_bytes(none) =~= Seq::<u8>::empty());
        assert(all.drop_last() =~= none);
        assert(rest =~= none);
        assert(all.last() == r);
        assert(header::records_bytes(all) =~= header::record_bytes(r) + header::records_bytes(rest));
    } else {
        assert(all.drop_last() =~= seq![r] + rest.drop_last());
        assert(all.last() == rest.last());
        lemma_records_bytes_front(r, rest.drop_last());
        assert(header::records_bytes(all) =~= header::record_bytes(r) + header::records_bytes(rest));
    }
}

/// Length and type in front of a payload are read as such, whatever follows.
pub proof fn lemma_record_head_is_read(
    m: ReaderModel,
    record_type: RecordType,
    len: nat,
    tail: Seq<u8>,
)
    requires
        m.skip == 0,
        m.pending() == header::record_head(record_type, len) + tail,
        len <= 0xffff_ffff_ffff_ffff,
    ensures
        m.next_head() == NextHead::Record(record_type, len),
{
    let p = m.pending();
    bytes::lemma_le_bytes_len(len, 8);
    bytes::lemma_pow256();
    bytes::lemma_le_value_of_le_bytes(len, 8);
    assert(p.take(8) =~= bytes::le_bytes(len, 8));
    assert(p[8] == record_type.number());
    assert(p.take(9)[8] == p[8]);
    assert(EOR@[8] == 0);
}

/// What stands at the front of a record is read as such.
proof fn lemma_head_of_record(m: ReaderModel, r: RecordModel, tail: Seq<u8>)
    requires
        m.skip == 0,
        m.pending() == header::record_bytes(r) + tail,
        r.payload.len() <= 0xffff_ffff_ffff_ffff,
    ensures
        m.next_head() == NextHead::Record(r.record_type, r.payload.len()),
        m.pending().subrange(9, 9 + r.payload.len() as int) == r.payload,
        m.pending().skip(9 + r.payload.len() as int) == tail,
{
    let p = m.pending();
    let n = r.payload.len();
    bytes::lemma_le_bytes_len(n, 8);
    assert(p =~= header::record_head(r.record_type, n) + (r.payload + tail));
    lemma_record_head_is_read(m, r.record_type, n, r.payload + tail);
    assert(p.subrange(9, 9 + n as int) =~= r.payload);
    assert(p.skip(9 + n as int) =~= tail);
}

/// What stands at the end of a file is read as such, and the checksum decides.
proof fn lemma_head_of_trailer(m: ReaderModel, sum: Seq<u8>)
    requires
        m.skip == 0,
        sum.len() == 16,
        m.pending() == EOR@ + sum,
    ensures
        ({
            let actual = checksum::digest(m.read_so_far() + EOR@);
            m.next_head() == if sum == actual {
                NextHead::End
            } else {
                NextHead::BadChecksum { stored: sum, actual }
            }
        }),
{
    let p = m.pending();
    assert(p.take(9) =~= EOR@);
    assert(p.subrange(9, 25) =~= sum);
}

/// Reading what stands between a reader and the checksum `sum`.
proof fn lemma_read_all(m: ReaderModel, before: Seq<u8>, rs: Seq<RecordModel>, sum: Seq<u8>)
    requires
        m.skip == 0,
        m.taken == before.len(),
        m.received == before + header::records_bytes(rs) + EOR@ + sum,
        sum.len() == 16,
        are_storable(rs),
    ensures
        ({
            let whole = header::magic_of(m.compressed) + before + header::records_bytes(rs) + EOR@;
            read_all(m) == if sum == checksum::digest(whole) {
                ReadAll::All(rs)
            } else {
                ReadAll::BadChecksum { stored: sum, actual: checksum::digest(whole) }
            }
        }),
    decreases rs.len(),
{
    let whole = header::magic_of(m.compressed) + before + header::records_bytes(rs) + EOR@;
    if rs.len() == 0 {
        assert(m.pending() =~= EOR@ + sum);
        assert(m.read_so_far() + EOR@ =~= whole);
        lemma_head_of_trailer(m, sum);
        assert(rs =~= Seq::<RecordModel>::empty());
    } else {
        let r = rs[0];
        let rest = rs.drop_first();
        assert(seq![r] + rest =~= rs);
        lemma_records_bytes_front(r, rest);
        let tail = header::records_bytes(rest) + EOR@ + sum;
        assert(m.pending() =~= header::record_bytes(r) + tail);
        lemma_head_of_record(m, r, tail);
        let n = r.payload.len();
        let after = m.advance(9 + n as int);
        let before2 = before + header::record_bytes(r);
        bytes::lemma_le_bytes_len(n, 8);
        assert(header::record_bytes(r).len() == 9 + n);
        assert(m.received =~= before2 + header::records_bytes(rest) + EOR@ + sum);
        assert(header::magic_of(m.compressed) + before2 + header::records_bytes(rest) + EOR@
            =~= whole);
        assert(are_storable(rest)) by {
            assert forall|i: int| 0 <= i < rest.len() implies (#[trigger] rest[i]).payload.len()
                <= 0xffff_ffff_ffff_ffff by {
                assert(rest[i] == rs[i + 1]);
            }
        }
        lemma_read_all(after, before2, rest, sum);
        assert(after.pending().len() < m.pending().len());
        assert(RecordModel { record_type: r.record_type, payload: r.payload } == r);
        if sum == checksum::digest(whole) {
            assert(read_all(m) =~= ReadAll::All(seq![r] + rest));
        }
    }
}

/// Writing one more record puts its bytes behind what the file holds.
pub proof fn law_records_are_appended(
    compressed: bool,
    head: Seq<u8>,
    rs: Seq<RecordModel>,
    r: RecordModel,
)
    ensures
        header::content(header::magic_of(compressed), head, rs.push(r)) == header::content(
            header::magic_of(compressed),
            head,
            rs,
        ) + header::record_bytes(r),
{
    assert(rs.push(r).drop_last() =~= rs);
    assert(header::content(header::magic_of(compressed), head, rs.push(r)) =~= header::content(
        header::magic_of(compressed),
        head,
        rs,
    ) + header::record_bytes(r));
}

/// A file is as long as what stands in front of the end marker and what ends it
/// are together.
pub proof fn law_a_file_has_a_trailer(magic: Seq<u8>, head: Seq<u8>, rs: Seq<RecordModel>)
    ensures
        header::file_bytes(magic, head, rs).len() == header::content(magic, head, rs).len()
            + TRAILER_SIZE,
        header::content(magic, head, rs).len() == magic.len() + 4 + head.len()
            + header::records_bytes(rs).len(),
{
    let body = header::content(magic, head, rs);
    bytes::lemma_le_bytes_len(checksum::xxh3_128(body + EOR@) as nat, 16);
    bytes::lemma_le_bytes_len(header::stored_header_len(head.len()), 4);
}

/// A file that was written is read back: first its header, then its records,
/// up to a checksum that is found right.
pub proof fn law_a_file_reads_back(compressed: bool, head: Seq<u8>, rs: Seq<RecordModel>)
    requires
        head.len() <= 0xffff_ffff,
        are_storable(rs),
    ensures
        ({
            let magic = header::magic_of(compressed);
            let file = header::file_bytes(magic, head, rs);
            let m = reader_at(compressed, file.skip(9), 0);
            &&& file.take(9) == magic
            &&& !m.lacks(4)
            &&& m.header_len() == head.len()
            &&& !m.lacks(4 + m.header_len())
            &&& m.pending().subrange(4, 4 + m.header_len()) == head
            &&& read_all(m.advance(4 + m.header_len())) == ReadAll::All(rs)
        }),
{
    let magic = header::magic_of(compressed);
    let body = header::content(magic, head, rs);
    let sum = checksum::digest(body + EOR@);
    lemma_header_reads_back(compressed, head, rs, sum);
    let before = header::header_block(head);
    let file = header::file_bytes(magic, head, rs);
    assert(file =~= magic + before + header::records_bytes(rs) + EOR@ + sum);
    assert(file.skip(9) =~= before + header::records_bytes(rs) + EOR@ + sum);
    assert(file.take(9) =~= magic);
    let m = reader_at(compressed, file.skip(9), 0);
    bytes::lemma_le_bytes_len(checksum::xxh3_128(body + EOR@) as nat, 16);
    let after = m.advance(4 + m.header_len());
    assert(magic + before + header::records_bytes(rs) + EOR@ =~= body + EOR@);
    lemma_read_all(after, before, rs, sum);
}

proof fn lemma_header_reads_back(
    compressed: bool,
    head: Seq<u8>,
    rs: Seq<RecordModel>,
    sum: Seq<u8>,
)
    requires
        head.len() <= 0xffff_ffff,
    ensures
        ({
            let m = reader_at(
                compressed,
                header::header_block(head) + header::records_bytes(rs) + EOR@ + sum,
                0,
            );
            &&& !m.lacks(4)
            &&& m.header_len() == head.len()
            &&& !m.lacks(4 + m.header_len())
            &&& m.pending().subrange(4, 4 + m.header_len()) == head
            &&& header::header_block(head).len() == 4 + head.len()
        }),
{
    let received = header::header_block(head) + header::records_bytes(rs) + EOR@ + sum;
    let m = reader_at(compressed, received, 0);
    bytes::lemma_le_bytes_len(head.len(), 4);
    bytes::lemma_pow256();
    bytes::lemma_le_value_of_le_bytes(head.len(), 4);
    assert(m.pending() =~= received);
    assert(received.take(4) =~= bytes::le_bytes(head.len(), 4));
    assert(received.subrange(4, 4 + head.len() as int) =~= head);
}

/// Reading what is left of a file that has been cut in front of the end.
proof fn lemma_read_all_cut(m: ReaderModel, before: Seq<u8>, rs: Seq<RecordModel>, sum: Seq<u8>)
    requires
        m.skip == 0,
        m.taken == before.len() <= m.received.len(),
        m.received.is_prefix_of(before + header::records_bytes(rs) + EOR@ + sum),
        m.received.len() < before.len() + header::records_bytes(rs).len() + 25,
        sum.len() == 16,
        are_storable(rs),
    ensures
        read_all(m) is Short,
    decreases rs.len(),
{
    let all = before + header::records_bytes(rs) + EOR@ + sum;
    let p = m.pending();
    assert(p =~= all.subrange(before.len() as int, m.received.len() as int));
    if p.len() >= 9 {
        if rs.len() == 0 {
            assert(p.take(9) =~= EOR@);
        } else {
            let r = rs[0];
            let rest = rs.drop_first();
            let n = r.payload.len();
            assert(seq![r] + rest =~= rs);
            lemma_records_bytes_front(r, rest);
            bytes::lemma_le_bytes_len(n, 8);
            bytes::lemma_pow256();
            bytes::lemma_le_value_of_le_bytes(n, 8);
            let stored = header::record_bytes(r);
            assert(stored.len() == 9 + n);
            assert(all =~= before + stored + (header::records_bytes(rest) + EOR@ + sum));
            assert(p.take(8) =~= bytes::le_bytes(n, 8));
            assert(p[8] == r.record_type.number());
            assert(p.take(9)[8] == p[8] && EOR@[8] == 0);
            assert(m.next_head() == NextHead::Record(r.record_type, n));
            lemma_read_all_step(m, r.record_type, n);
            if p.len() >= 9 + n {
                let before2 = before + stored;
                assert(before2 + header::records_bytes(rest) + EOR@ + sum =~= all);
                assert forall|i: int| 0 <= i < rest.len() implies (
                #[trigger] rest[i]).payload.len() <= 0xffff_ffff_ffff_ffff by {
                    assert(rest[i] == rs[i + 1]);
                }
                lemma_read_all_cut(m.advance(9 + n as int), before2, rest, sum);
            }
        }
    }
}

/// A file that is cut off anywhere behind its magic bytes is found to be too
/// short: its header is, or what comes behind it.
pub proof fn law_a_cut_file_is_too_short(
    compressed: bool,
    head: Seq<u8>,
    rs: Seq<RecordModel>,
    received: Seq<u8>,
)
    requires
        head.len() <= 0xffff_ffff,
        are_storable(rs),
        ({
            let whole = header::file_bytes(header::magic_of(compressed), head, rs).skip(9);
            received.is_prefix_of(whole) && received.len() < whole.len()
        }),
    ensures
        ({
            let m = reader_at(compressed, received, 0);
            ||| m.lacks(4)
            ||| m.lacks(4 + m.header_len())
            ||| read_all(m.advance(4 + m.header_len())) is Short
        }),
{
    let magic = header::magic_of(compressed);
    let body = header::content(magic, head, rs);
    let sum = checksum::digest(body + EOR@);
    let before = header::header_block(head);
    let whole = before + header::records_bytes(rs) + EOR@ + sum;
    assert(header::file_bytes(magic, head, rs).skip(9) =~= whole);
    bytes::lemma_le_bytes_len(checksum::xxh3_128(body + EOR@) as nat, 16);
    lemma_header_reads_back(compressed, head, rs, sum);
    let m = reader_at(compressed, received, 0);
    assert(m.pending() =~= received);
    if received.len() >= 4 {
        assert(received.take(4) =~= whole.take(4));
        assert(reader_at(compressed, whole, 0).pending() =~= whole);
        assert(m.header_len() == head.len());
        if received.len() >= 4 + head.len() {
            lemma_read_all_cut(m.advance(4 + head.len() as int), before, rs, sum);
        }
    }
}

/// A file whose last sixteen bytes are not the checksum of what stands in front
/// of them is refused with both checksums.
pub proof fn law_a_wrong_checksum_is_refused(
    compressed: bool,
    head: Seq<u8>,
    rs: Seq<RecordModel>,
    sum: Seq<u8>,
)
    requires
        head.len() <= 0xffff_ffff,
        are_storable(rs),
        sum.len() == 16,
        sum != checksum::digest(header::content(header::magic_of(compressed), head, rs) + EOR@),
    ensures
        ({
            let received = header::header_block(head) + header::records_bytes(rs) + EOR@ + sum;
            let m = reader_at(compressed, received, 0);
            read_all(m.advance(4 + m.header_len())) == (ReadAll::BadChecksum {
                stored: sum,
                actual: checksum::digest(
                    header::content(header::magic_of(compressed), head, rs) + EOR@,
                ),
            })
        }),
{
    let magic = header::magic_of(compressed);
    let before = header::header_block(head);
    let received = before + header::records_bytes(rs) + EOR@ + sum;
    lemma_header_reads_back(compressed, head, rs, sum);
    let m = reader_at(compressed, received, 0);
    assert(magic + before + header::records_bytes(rs) + EOR@ =~= header::content(magic, head, rs)
        + EOR@);
    lemma_read_all(m.advance(4 + m.header_len()), before, rs, sum);
}

} // verus!
