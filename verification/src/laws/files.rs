//! What stands where in a file.

use crate::bytes;
use crate::format::checksum;
use crate::format::header;
use crate::format::header::{RecordModel, RecordType};
use crate::format::reader::{NextHead, ReaderModel};
use vstd::prelude::*;

verus! {

/// A number is stored in as many bytes as are asked for, the least significant
/// first, and found again from them.
pub proof fn law_numbers_are_stored_least_significant_first(x: nat, n: nat, s: Seq<u8>)
    ensures
        bytes::le_bytes(x, n).len() == n,
        n > 0 ==> bytes::le_bytes(x, n)[0] == x % 256,
        n > 0 ==> bytes::le_bytes(x, n).skip(1) == bytes::le_bytes(x / 256, (n - 1) as nat),
        s.len() == 4 ==> bytes::le_value(s) == s[0] + 0x100 * s[1] + 0x1_0000 * s[2] + 0x100_0000
            * s[3],
        s.len() == 8 ==> bytes::le_value(s) == s[0] + 0x100 * s[1] + 0x1_0000 * s[2] + 0x100_0000
            * s[3] + 0x1_0000_0000 * s[4] + 0x100_0000_0000 * s[5] + 0x1_0000_0000_0000 * s[6]
            + 0x100_0000_0000_0000 * s[7],
        n == 4 && x <= 0xffff_ffff ==> bytes::le_value(bytes::le_bytes(x, n)) == x,
        n == 8 && x <= 0xffff_ffff_ffff_ffff ==> bytes::le_value(bytes::le_bytes(x, n)) == x,
        bytes::le_bytes(bytes::le_value(s), s.len()) == s,
{
    bytes::lemma_le_bytes_len(x, n);
    bytes::lemma_le_bytes_of_le_value(s);
    bytes::lemma_pow256();
    if n > 0 {
        assert(bytes::le_bytes(x, n).skip(1) =~= bytes::le_bytes(x / 256, (n - 1) as nat));
    }
    if n == 4 && x <= 0xffff_ffff {
        bytes::lemma_le_value_of_le_bytes(x, n);
    }
    if n == 8 && x <= 0xffff_ffff_ffff_ffff {
        bytes::lemma_le_value_of_le_bytes(x, n);
    }
    if s.len() == 4 || s.len() == 8 {
        lemma_value_from(s, 0);
    }
}

/// The number that the bytes from a position on spell, one byte after the other.
proof fn lemma_value_from(s: Seq<u8>, k: int)
    requires
        0 <= k <= s.len(),
        s.len() <= 8,
    ensures
        k == s.len() ==> bytes::le_value(s.skip(k)) == 0,
        k < s.len() ==> bytes::le_value(s.skip(k)) == s[k] + 256 * bytes::le_value(s.skip(k + 1)),
        k + 4 == s.len() ==> bytes::le_value(s.skip(k)) == s[k] + 0x100 * s[k + 1] + 0x1_0000 * s[k
            + 2] + 0x100_0000 * s[k + 3],
        k + 8 == s.len() ==> bytes::le_value(s.skip(k)) == s[k] + 0x100 * s[k + 1] + 0x1_0000 * s[k
            + 2] + 0x100_0000 * s[k + 3] + 0x1_0000_0000 * s[k + 4] + 0x100_0000_0000 * s[k + 5]
            + 0x1_0000_0000_0000 * s[k + 6] + 0x100_0000_0000_0000 * s[k + 7],
        k == 0 ==> s.skip(k) == s,
    decreases s.len() - k,
{
    assert(s.skip(0) =~= s);
    if k < s.len() {
        assert(s.skip(k).drop_first() =~= s.skip(k + 1));
        lemma_value_from(s, k + 1);
        if k + 1 < s.len() {
            lemma_value_from(s, k + 2);
        }
        if k + 2 < s.len() {
            lemma_value_from(s, k + 3);
        }
        if k + 3 < s.len() {
            lemma_value_from(s, k + 4);
        }
    }
}

/// A checksum is stored in sixteen bytes that spell the hash.
pub proof fn law_a_checksum_is_stored_whole(data: Seq<u8>)
    ensures
        checksum::digest(data).len() == 16,
        bytes::le_value(checksum::digest(data)) == checksum::xxh3_128(data),
{
    bytes::lemma_pow256();
    bytes::lemma_le_bytes_len(checksum::xxh3_128(data) as nat, 16);
    bytes::lemma_le_value_of_le_bytes(checksum::xxh3_128(data) as nat, 16);
}

/// A record is the length of its payload in eight bytes, a byte for its type, and
/// the payload.
pub proof fn law_a_record_is_length_type_and_payload(r: RecordModel)
    requires
        r.payload.len() <= u64::MAX,
    ensures
        ({
            let b = header::record_bytes(r);
            &&& b.len() == 9 + r.payload.len()
            &&& bytes::le_value(b.take(8)) == r.payload.len()
            &&& b[8] == match r.record_type {
                RecordType::SnapshotEntry => 1u8,
                RecordType::DiffChange => 2u8,
                RecordType::FileContent => 3u8,
            }
            &&& b.skip(9) == r.payload
        }),
{
    let b = header::record_bytes(r);
    let n = r.payload.len();
    law_numbers_are_stored_least_significant_first(n, 8, Seq::empty());
    assert(b.take(8) =~= bytes::le_bytes(n, 8));
    assert(b.skip(9) =~= r.payload);
}

/// A file starts with its magic bytes, which say whether the rest is compressed,
/// goes on with the length of its header in four bytes, the header and its
/// records, one behind the other, and ends with nine zeros and the checksum of
/// everything in front of the checksum.
pub proof fn law_a_file_is_laid_out(
    compressed: bool,
    head: Seq<u8>,
    rs: Seq<RecordModel>,
    r: RecordModel,
)
    requires
        head.len() <= 0xffff_ffff,
    ensures
        ({
            let magic = header::magic_of(compressed);
            let f = header::file_bytes(magic, head, rs);
            let n = f.len() as int;
            let h = 13 + head.len() as int;
            &&& magic =~= if compressed {
                seq![0x47u8, 0x41, 0x50, 0x50, 0x45, 0x44, 0x5a, 0x30, 0x33]
            } else {
                seq![0x47u8, 0x41, 0x50, 0x50, 0x45, 0x44, 0x00, 0x03, 0x00]
            }
            &&& n >= h + 25
            &&& f.take(9) == magic
            &&& bytes::le_value(f.subrange(9, 13)) == head.len()
            &&& f.subrange(13, h) == head
            &&& f.subrange(h, n - 25) == header::records_bytes(rs)
            &&& forall|i: int| n - 25 <= i < n - 16 ==> #[trigger] f[i] == 0
            &&& f.skip(n - 16) == checksum::digest(f.take(n - 16))
        }),
        header::records_bytes(Seq::empty()) == Seq::<u8>::empty(),
        header::records_bytes(rs.push(r)) == header::records_bytes(rs) + header::record_bytes(r),
{
    let magic = header::magic_of(compressed);
    let f = header::file_bytes(magic, head, rs);
    let n = f.len() as int;
    let h = 13 + head.len() as int;
    let body = header::content(magic, head, rs);
    let records = header::records_bytes(rs);
    law_a_checksum_is_stored_whole(body + header::EOR@);
    law_numbers_are_stored_least_significant_first(head.len(), 4, Seq::empty());
    assert(n == h + records.len() + 25);
    assert(f.take(9) =~= magic);
    assert(f.subrange(9, 13) =~= bytes::le_bytes(head.len(), 4));
    assert(f.subrange(13, h) =~= head);
    assert(f.subrange(h, n - 25) =~= records);
    assert(f.take(n - 16) =~= body + header::EOR@);
    assert(f.skip(n - 16) =~= checksum::digest(body + header::EOR@));
    assert forall|i: int| n - 25 <= i < n - 16 implies #[trigger] f[i] == 0 by {
        assert(f[i] == header::EOR@[i - (n - 25)]);
    }
    assert(rs.push(r).drop_last() =~= rs);
}

/// What a reader finds next. Nine zeros are the end, which is good exactly if the
/// sixteen bytes behind them are the checksum of everything up to them; anything
/// else is the length of a payload and its type, which has to be a known one.
/// While bytes are missing, nothing is decided.
pub proof fn law_what_comes_next_is_told_by_its_bytes(m: ReaderModel)
    requires
        m.wf(),
        m.skip == 0,
    ensures
        ({
            let p = m.received.skip(m.taken as int);
            let seen = header::magic_of(m.compressed) + m.received.take((m.taken + 9) as int);
            let is_end = p.len() >= 9 && forall|i: int| 0 <= i < 9 ==> #[trigger] p[i] == 0;
            &&& p.len() < 9 ==> m.next_head() is Short
            &&& is_end && p.len() < 25 ==> m.next_head() is Short
            &&& is_end && p.len() >= 25 ==> {
                if p.subrange(9, 25) == checksum::digest(seen) {
                    m.next_head() is End
                } else {
                    m.next_head() == (NextHead::BadChecksum {
                        stored: p.subrange(9, 25),
                        actual: checksum::digest(seen),
                    })
                }
            }
            &&& !is_end && p.len() >= 9 ==> {
                let len = bytes::le_value(p.take(8));
                &&& p[8] == 1 ==> m.next_head() == NextHead::Record(RecordType::SnapshotEntry, len)
                &&& p[8] == 2 ==> m.next_head() == NextHead::Record(RecordType::DiffChange, len)
                &&& p[8] == 3 ==> m.next_head() == NextHead::Record(RecordType::FileContent, len)
                &&& p[8] == 0 || p[8] > 3 ==> m.next_head() == NextHead::BadType(p[8])
            }
        }),
{
    let p = m.pending();
    let seen = header::magic_of(m.compressed) + m.received.take((m.taken + 9) as int);
    assert(p == m.received.skip(m.taken as int));
    if p.len() >= 9 {
        if p.take(9) == header::EOR@ {
            assert forall|i: int| 0 <= i < 9 implies #[trigger] p[i] == 0 by {
                assert(p.take(9)[i] == header::EOR@[i]);
            }
            assert(m.received.take((m.taken + 9) as int) =~= m.received.take(m.taken as int)
                + p.take(9));
            assert(m.read_so_far() + header::EOR@ =~= seen);
        } else if forall|i: int| 0 <= i < 9 ==> #[trigger] p[i] == 0 {
            assert(p.take(9) =~= header::EOR@) by {
                assert forall|i: int| 0 <= i < 9 implies p.take(9)[i] == header::EOR@[i] by {
                    assert(p[i] == 0);
                }
            }
        }
    }
}

/// Skipping takes what is there, up to what is to be skipped, and no more.
pub proof fn law_skipping_takes_what_is_there(m: ReaderModel)
    requires
        m.wf(),
    ensures
        ({
            let s = m.settled();
            let there = m.received.len() - m.taken;
            &&& s.received == m.received
            &&& s.taken + s.skip == m.taken + m.skip
            &&& m.skip <= there ==> s.skip == 0
            &&& m.skip > there ==> s.taken == m.received.len()
        }),
{
}

} // verus!
