//! Reading a gapped file.
//!
//! The bytes of a file are fed in pieces of any size. Each step of reading
//! either has all the bytes it needs, and takes them, or takes nothing and asks
//! for more.

use crate::bytes;
use crate::error::{FormatProblem, GappedError};
use crate::format::checksum;
use crate::format::compression;
use crate::format::compression::Decompressor;
use crate::format::header;
use crate::format::header::{RecordType, EOR, MAGIC, MAGIC_COMPRESSED};
use vstd::prelude::*;
use vstd::slice::slice_subrange;
use xxhash_rust::xxh3::Xxh3;

verus! {

/// The result of a step that may have to wait for more input.
#[derive(Debug, PartialEq, Eq)]
pub enum Step<T> {
    /// More bytes have to be fed first.
    NeedMore,
    /// The step is done.
    Ready(T),
}

/// What stands in front of a payload.
#[derive(Clone, Copy, Debug, PartialEq, Eq, Structural)]
pub struct RecordHeader {
    pub record_type: RecordType,
    pub payload_len: u64,
}

/// How far a file has been read.
#[verifier::ext_equal]
pub struct ReaderModel {
    /// Whether the file is compressed.
    pub compressed: bool,
    /// The bytes of the file fed so far, behind the magic bytes.
    pub fed: Seq<u8>,
    /// What they hold before compression.
    pub received: Seq<u8>,
    /// How many of the received bytes have been read.
    pub taken: nat,
    /// How many of the bytes that come next are to be skipped.
    pub skip: nat,
    /// Whether no more bytes will be fed.
    pub ended: bool,
    /// Whether the compressed stream is broken.
    pub broken: bool,
    /// Whether the file has been read to its end.
    pub finished: bool,
}

/// What comes next in a file.
pub enum NextHead {
    /// It is not there yet.
    Short,
    /// A record with a payload of this length.
    Record(RecordType, nat),
    /// The end of the file, and the checksum is right.
    End,
    /// The end of the file, and the checksum is wrong.
    BadChecksum { stored: Seq<u8>, actual: Seq<u8> },
    /// A record of an unknown type.
    BadType(u8),
}

impl ReaderModel {
    /// The received bytes that have not been read.
    pub open spec fn pending(self) -> Seq<u8> {
        if self.taken <= self.received.len() {
            self.received.skip(self.taken as int)
        } else {
            Seq::empty()
        }
    }

    /// No more has been read than was received.
    pub open spec fn wf(self) -> bool {
        self.taken <= self.received.len()
    }

    /// Everything read so far, with the magic bytes in front.
    pub open spec fn read_so_far(self) -> Seq<u8> {
        header::magic_of(self.compressed) + self.received.take(self.taken as int)
    }

    /// The same after reading `n` more bytes.
    pub open spec fn advance(self, n: int) -> ReaderModel {
        ReaderModel { taken: (self.taken + n) as nat, ..self }
    }

    /// The same after skipping what is to be skipped and is there.
    pub open spec fn settled(self) -> ReaderModel {
        let n = if self.skip < self.pending().len() {
            self.skip
        } else {
            self.pending().len()
        };
        ReaderModel { taken: self.taken + n, skip: (self.skip - n) as nat, ..self }
    }

    /// Whether the next `n` bytes are not there yet.
    pub open spec fn lacks(self, n: int) -> bool {
        self.skip > 0 || self.pending().len() < n
    }

    /// What a step gives that lacks bytes: it asks for more, or fails if none
    /// will come.
    pub open spec fn is_short<T>(self, r: Result<Step<T>, GappedError>) -> bool {
        if self.broken {
            r == Err::<Step<T>, GappedError>(GappedError::Decompression)
        } else if self.ended {
            r == Err::<Step<T>, GappedError>(GappedError::UnexpectedEof)
        } else {
            r == Ok::<Step<T>, GappedError>(Step::NeedMore)
        }
    }

    /// What comes next, once nothing is left to be skipped.
    pub open spec fn next_head(self) -> NextHead {
        let p = self.pending();
        if self.lacks(9) {
            NextHead::Short
        } else if p.take(9) == EOR@ {
            let actual = checksum::digest(self.read_so_far() + EOR@);
            if self.lacks(25) {
                NextHead::Short
            } else if p.subrange(9, 25) == actual {
                NextHead::End
            } else {
                NextHead::BadChecksum { stored: p.subrange(9, 25), actual }
            }
        } else {
            match RecordType::of_number(p[8]) {
                Some(t) => NextHead::Record(t, bytes::le_value(p.take(8))),
                None => NextHead::BadType(p[8]),
            }
        }
    }

    /// The length of the header that comes next.
    pub open spec fn header_len(self) -> int {
        bytes::le_value(self.pending().take(4)) as int
    }
}

/// Whether `n` is what becomes of `m` when `data` is fed. A plain file is
/// received as it is fed. A compressed file that has been fed completely has
/// been received completely, unless its stream is broken; what has been received
/// is the front of it in any case. A broken stream takes nothing more.
pub open spec fn is_fed(m: ReaderModel, data: Seq<u8>, n: ReaderModel) -> bool {
    &&& m.received.is_prefix_of(n.received)
    &&& n == (ReaderModel { fed: n.fed, received: n.received, broken: n.broken, ..m })
    &&& !m.compressed ==> !n.broken && n.fed == m.fed + data && n.received == m.received + data
    &&& m.broken ==> n == m
    &&& !m.broken ==> n.fed == m.fed + data
    &&& m.compressed && !n.broken ==> compression::is_decoded(n.received, n.fed)
    &&& m.compressed ==> compression::is_front(n.received, n.fed)
}

/// Streaming reader for the gapped file format.
pub struct FormatReader {
    decoder: Option<Decompressor>,
    buf: Vec<u8>,
    pos: usize,
    hasher: Xxh3,
    skip: u64,
    ended: bool,
    broken: bool,
    finished: bool,
    fed: Ghost<Seq<u8>>,
    received: Ghost<Seq<u8>>,
}

impl View for FormatReader {
    type V = ReaderModel;

    closed spec fn view(&self) -> ReaderModel {
        ReaderModel {
            compressed: self.decoder is Some,
            fed: self.fed@,
            received: self.received@,
            taken: (self.received@.len() - (self.buf@.len() - self.pos)) as nat,
            skip: self.skip as nat,
            ended: self.ended,
            broken: self.broken,
            finished: self.finished,
        }
    }
}

/// Reading `n` bytes that are there takes them off the front of what is pending.
pub proof fn lemma_advance(m: ReaderModel, n: int)
    requires
        m.wf(),
        0 <= n <= m.pending().len(),
    ensures
        m.advance(n).wf(),
        m.advance(n).pending() == m.pending().skip(n),
{
    assert(m.advance(n).pending() =~= m.pending().skip(n));
}

/// Skipping leaves nothing to be skipped, or nothing pending.
pub proof fn lemma_settled(m: ReaderModel)
    requires
        m.wf(),
    ensures
        m.settled().wf(),
        m.settled().pending() == m.pending().skip(
            if m.skip < m.pending().len() {
                m.skip as int
            } else {
                m.pending().len() as int
            },
        ),
        m.skip == 0 ==> m.settled() == m,
        m.settled().skip == 0 || m.settled().pending().len() == 0,
        m.settled().settled() == m.settled(),
{
    let n = if m.skip < m.pending().len() {
        m.skip as int
    } else {
        m.pending().len() as int
    };
    lemma_advance(m, n);
    assert(m.settled().pending() =~= m.advance(n).pending());
}

impl FormatReader {
    /// Whether the decoder of a compressed file has failed.
    pub closed spec fn gave_up(&self) -> bool {
        match self.decoder {
            Some(d) => d.gave_up(),
            None => false,
        }
    }

    /// What holds between any two steps. A stream is broken only where its
    /// decoder has failed.
    pub open spec fn wf(&self) -> bool {
        &&& self.inv()
        &&& self@.wf()
        &&& self@.broken == self.gave_up()
        &&& !self@.compressed ==> !self.gave_up() && self@.received == self@.fed
        &&& self@.compressed ==> compression::is_front(self@.received, self@.fed)
        &&& self@.compressed && !self@.broken ==> compression::is_decoded(
            self@.received,
            self@.fed,
        )
    }

    pub closed spec fn inv(&self) -> bool {
        let m = self@;
        &&& self.pos <= self.buf@.len()
        &&& self.buf@.len() - self.pos <= self.received@.len()
        &&& m.pending() == self.buf@.skip(self.pos as int)
        &&& !self.finished ==> checksum::xxh3_input(self.hasher) == m.read_so_far()
        &&& match self.decoder {
            None => !self.broken && self.received@ == self.fed@,
            Some(d) => !self.broken ==> {
                &&& d.wf()
                &&& d.input() == self.fed@
                &&& d.taken() == self.received@
            },
        }
    }

    /// Starts reading a file that starts with the bytes `magic`.
    pub fn new(magic: &[u8; 9]) -> (r: Result<Self, GappedError>)
        ensures
            r is Ok <==> magic@ == MAGIC@ || magic@ == MAGIC_COMPRESSED@,
            r matches Err(e) ==> e == GappedError::InvalidFormat(FormatProblem::BadMagic(*magic)),
            r matches Ok(f) ==> f.wf() && f@ == (ReaderModel {
                compressed: magic@ == MAGIC_COMPRESSED@,
                fed: Seq::empty(),
                received: Seq::empty(),
                taken: 0,
                skip: 0,
                ended: false,
                broken: false,
                finished: false,
            }),
    {
        assert(MAGIC@ != MAGIC_COMPRESSED@) by {
            assert(MAGIC@[6] != MAGIC_COMPRESSED@[6]);
        }
        let decoder: Option<Decompressor>;
        if bytes::bytes_equal(magic.as_slice(), MAGIC.as_slice()) {
            decoder = None;
        } else if bytes::bytes_equal(magic.as_slice(), MAGIC_COMPRESSED.as_slice()) {
            match Decompressor::new() {
                Ok(d) => {
                    decoder = Some(d);
                },
                Err(e) => {
                    return Err(e);
                },
            }
        } else {
            return Err(GappedError::InvalidFormat(FormatProblem::BadMagic(*magic)));
        }
        let mut hasher = Xxh3::new();
        hasher.update(magic.as_slice());
        let f = FormatReader {
            decoder,
            buf: Vec::new(),
            pos: 0,
            hasher,
            skip: 0,
            ended: false,
            broken: false,
            finished: false,
            fed: Ghost(Seq::empty()),
            received: Ghost(Seq::empty()),
        };
        proof {
            assert(f@.pending() =~= f.buf@.skip(0));
            assert(f@.read_so_far() =~= magic@);
            assert(checksum::xxh3_input(f.hasher) =~= magic@);
            if let Some(d) = &f.decoder {
                assert(d.input() =~= f.fed@);
                assert(d.taken() =~= f.received@);
            }
        }
        Ok(f)
    }

    /// Feeds the next bytes of the file. A compressed stream is broken from then
    /// on if the decoder fails on them, and only then.
    pub fn feed(&mut self, data: &[u8])
        requires
            old(self).wf(),
        ensures
            final(self).wf(),
            final(self)@.broken == final(self).gave_up(),
            is_fed(old(self)@, data@, final(self)@),
    {
        let ghost m = self@;
        if self.broken || data.len() == 0 {
            assert(m.fed + data@ =~= m.fed || self.broken);
            assert(m.received + data@ =~= m.received || self.broken);
            return;
        }
        if self.pos > 0 {
            let rest = self.buf.split_off(self.pos);
            assert(rest@ =~= m.pending());
            self.buf = rest;
            self.pos = 0;
        }
        assert(self.buf@ =~= m.pending());
        let ghost mut fresh: Seq<u8> = data@;
        match &mut self.decoder {
            None => {
                self.buf.extend_from_slice(data);
            },
            Some(d) => {
                let (mut out, ok) = d.feed(data);
                proof {
                    fresh = out@;
                }
                self.buf.append(&mut out);
                if !ok {
                    self.broken = true;
                }
            },
        }
        let ghost fed = m.fed + data@;
        let ghost received = m.received + fresh;
        self.fed = Ghost(fed);
        self.received = Ghost(received);
        proof {
            assert(self.buf@ =~= m.pending() + fresh);
            assert(self@.taken == m.taken);
            assert(self@.pending() =~= m.pending() + fresh);
            assert(self.buf@.skip(0) =~= self.buf@);
            assert(self@.received.take(m.taken as int) =~= m.received.take(m.taken as int));
            assert(m.received.is_prefix_of(received)) by {
                assert(received.subrange(0, m.received.len() as int) =~= m.received);
            }
        }
    }

    /// Takes note that no more bytes will be fed.
    pub fn end_input(&mut self)
        requires
            old(self).wf(),
        ensures
            final(self).wf(),
            final(self)@ == (ReaderModel { ended: true, ..old(self)@ }),
    {
        self.ended = true;
        proof {
            assert(self@.pending() =~= old(self)@.pending());
            assert(self@.read_so_far() =~= old(self)@.read_so_far());
        }
    }

    /// The number of received bytes that have not been read.
    fn available(&self) -> (n: usize)
        requires
            self.wf(),
        ensures
            n == self@.pending().len(),
            self.pos + n == self.buf@.len() <= usize::MAX,
    {
        self.buf.len() - self.pos
    }

    /// Reads the next `n` bytes.
    fn take(&mut self, n: usize)
        requires
            old(self).wf(),
            !old(self)@.finished,
            n <= old(self)@.pending().len(),
        ensures
            final(self).wf(),
            final(self)@ == old(self)@.advance(n as int),
            final(self)@.pending() == old(self)@.pending().skip(n as int),
    {
        let ghost m = self@;
        assert(self.buf.len() == self.buf@.len());
        self.hasher.update(slice_subrange(self.buf.as_slice(), self.pos, self.pos + n));
        self.pos = self.pos + n;
        proof {
            let part = self.buf@.subrange(self.pos - n, self.pos as int);
            assert(part =~= m.pending().take(n as int));
            assert(m.received.take(m.taken as int) + part =~= m.received.take(m.taken + n));
            assert(self@.read_so_far() =~= m.read_so_far() + part);
            assert(self@.pending() =~= m.pending().skip(n as int));
            assert(self.buf@.skip(self.pos as int) =~= m.pending().skip(n as int));
        }
    }

    /// Skips what is to be skipped and is there.
    fn settle(&mut self)
        requires
            old(self).wf(),
            !old(self)@.finished,
        ensures
            final(self).wf(),
            final(self)@ == old(self)@.settled(),
    {
        let have: usize = self.available();
        let n: usize = if self.skip < have as u64 {
            self.skip as usize
        } else {
            have
        };
        self.take(n);
        self.skip = self.skip - n as u64;
        proof {
            assert(self@.pending() =~= old(self)@.advance(n as int).pending());
            assert(self@.read_so_far() =~= old(self)@.advance(n as int).read_so_far());
        }
    }

    fn short<T>(&self) -> (r: Result<Step<T>, GappedError>)
        ensures
            self@.is_short(r),
    {
        if self.broken {
            Err(GappedError::Decompression)
        } else if self.ended {
            Err(GappedError::UnexpectedEof)
        } else {
            Ok(Step::NeedMore)
        }
    }

    /// Reads the header of the file.
    pub fn read_header(&mut self) -> (r: Result<Step<Vec<u8>>, GappedError>)
        requires
            old(self).wf(),
            !old(self)@.finished,
            old(self)@.skip == 0,
        ensures
            final(self).wf(),
            ({
                let m = old(self)@;
                if m.lacks(4) || m.lacks(4 + m.header_len()) {
                    m.is_short(r) && final(self)@ == m
                } else {
                    &&& r matches Ok(Step::Ready(h)) && h@ == m.pending().subrange(
                        4,
                        4 + m.header_len(),
                    )
                    &&& final(self)@ == m.advance(4 + m.header_len())
                }
            }),
    {
        let ghost m = self@;
        let have: usize = self.available();
        if have < 4 {
            return self.short();
        }
        let n: u128 = bytes::read_le(self.buf.as_slice(), self.pos, 4);
        proof {
            assert(self.buf@.subrange(self.pos as int, self.pos + 4) =~= m.pending().take(4));
            bytes::lemma_le_value_bound(m.pending().take(4));
            bytes::lemma_pow256();
        }
        if (have as u128) < 4 + n {
            return self.short();
        }
        let len: usize = n as usize;
        let h = bytes::copy_range(self.buf.as_slice(), self.pos + 4, self.pos + 4 + len);
        assert(h@ =~= m.pending().subrange(4, 4 + len as int));
        self.take(4 + len);
        Ok(Step::Ready(h))
    }

    /// Reads the next record header; `None` at the end of the file, where the
    /// checksum is compared to that of everything read.
    ///
    /// After this, the payload has to be consumed with `read_payload`,
    /// `skip_payload` or `copy_payload_to` before calling this again.
    pub fn next_record_header(&mut self) -> (r: Result<Step<Option<RecordHeader>>, GappedError>)
        requires
            old(self).wf(),
        ensures
            final(self).wf(),
            old(self)@.finished ==> r == Ok::<Step<Option<RecordHeader>>, GappedError>(
                Step::Ready(None),
            ) && final(self)@ == old(self)@,
            !old(self)@.finished ==> {
                let m = old(self)@.settled();
                match m.next_head() {
                    NextHead::Short => m.is_short(r) && final(self)@ == m,
                    NextHead::Record(t, len) => {
                        &&& r matches Ok(Step::Ready(Some(h))) && h.record_type == t
                            && h.payload_len == len
                        &&& final(self)@ == m.advance(9)
                    },
                    NextHead::End => {
                        &&& r == Ok::<Step<Option<RecordHeader>>, GappedError>(Step::Ready(None))
                        &&& final(self)@ == (ReaderModel { finished: true, ..m.advance(25) })
                    },
                    NextHead::BadChecksum { stored, actual } => {
                        &&& r matches Err(e) && e matches GappedError::ChecksumMismatch {
                            expected,
                            got,
                        } && expected@ == stored && got@ == actual
                        &&& final(self)@ == m.advance(9)
                    },
                    NextHead::BadType(b) => {
                        &&& r == Err::<Step<Option<RecordHeader>>, GappedError>(
                            GappedError::InvalidFormat(FormatProblem::UnknownRecordType(b)),
                        )
                        &&& final(self)@ == m
                    },
                }
            },
    {
        if self.finished {
            return Ok(Step::Ready(None));
        }
        self.settle();
        let ghost m = self@;
        let have: usize = self.available();
        if self.skip > 0 || have < 9 {
            return self.short();
        }
        let ghost p = m.pending();
        let len: u128 = bytes::read_le(self.buf.as_slice(), self.pos, 8);
        assert(self.buf@.subrange(self.pos as int, self.pos + 8) =~= p.take(8));
        let type_byte: u8 = self.buf[self.pos + 8];
        assert(type_byte == p[8]);
        let end: bool = bytes::bytes_equal(
            slice_subrange(self.buf.as_slice(), self.pos, self.pos + 9),
            EOR.as_slice(),
        );
        assert(self.buf@.subrange(self.pos as int, self.pos + 9) =~= p.take(9));
        if end {
            if have < 25 {
                return self.short();
            }
            self.take(9);
            let ghost after = self@.pending();
            let rest: usize = self.available();
            assert(rest >= 16);
            let actual = checksum::stored_digest(&self.hasher);
            assert(m.received.take((m.taken + 9) as int) =~= m.received.take(m.taken as int) + p.take(9));
            assert(self@.read_so_far() =~= m.read_so_far() + EOR@);
            let stored = bytes::copy_range(self.buf.as_slice(), self.pos, self.pos + 16);
            assert(stored@ =~= p.subrange(9, 25));
            if !bytes::bytes_equal(stored.as_slice(), actual.as_slice()) {
                return Err(
                    GappedError::ChecksumMismatch {
                        expected: bytes::to_array16(stored.as_slice()),
                        got: actual,
                    },
                );
            }
            self.pos = self.pos + 16;
            self.finished = true;
            proof {
                assert(self@.pending() =~= after.skip(16));
                assert(self.buf@.skip(self.pos as int) =~= after.skip(16));
            }
            return Ok(Step::Ready(None));
        }
        match RecordType::from_u8(type_byte) {
            Some(record_type) => {
                proof {
                    bytes::lemma_le_value_bound(p.take(8));
                    bytes::lemma_pow256();
                }
                self.take(9);
                Ok(Step::Ready(Some(RecordHeader { record_type, payload_len: len as u64 })))
            },
            None => Err(GappedError::InvalidFormat(FormatProblem::UnknownRecordType(type_byte))),
        }
    }

    /// Reads a payload of `len` bytes as a whole.
    pub fn read_payload(&mut self, len: u64) -> (r: Result<Step<Vec<u8>>, GappedError>)
        requires
            old(self).wf(),
            !old(self)@.finished,
            old(self)@.skip == 0,
        ensures
            final(self).wf(),
            ({
                let m = old(self)@;
                if m.lacks(len as int) {
                    m.is_short(r) && final(self)@ == m
                } else {
                    &&& r matches Ok(Step::Ready(p)) && p@ == m.pending().take(len as int)
                    &&& final(self)@ == m.advance(len as int)
                }
            }),
    {
        let ghost m = self@;
        let have: usize = self.available();
        if (have as u64) < len {
            return self.short();
        }
        let n: usize = len as usize;
        let payload = bytes::copy_range(self.buf.as_slice(), self.pos, self.pos + n);
        assert(payload@ =~= m.pending().take(n as int));
        self.take(n);
        Ok(Step::Ready(payload))
    }

    /// Skips a payload of `len` bytes: what is there now, and the rest as it
    /// comes.
    pub fn skip_payload(&mut self, len: u64)
        requires
            old(self).wf(),
            !old(self)@.finished,
            old(self)@.skip == 0,
        ensures
            final(self).wf(),
            final(self)@ == (ReaderModel { skip: len as nat, ..old(self)@ }).settled(),
    {
        self.skip = len;
        proof {
            assert(self@.pending() =~= old(self)@.pending());
            assert(self@.read_so_far() =~= old(self)@.read_so_far());
        }
        self.settle();
    }

    /// Moves what is there of a payload of which `len` bytes are left to the
    /// end of `dest`. Gives the number of bytes that are still left.
    pub fn copy_payload_to(&mut self, len: u64, dest: &mut Vec<u8>) -> (left: u64)
        requires
            old(self).wf(),
            !old(self)@.finished,
            old(self)@.skip == 0,
        ensures
            final(self).wf(),
            ({
                let m = old(self)@;
                let n = if m.pending().len() < len {
                    m.pending().len() as int
                } else {
                    len as int
                };
                &&& left == len - n
                &&& final(dest)@ == old(dest)@ + m.pending().take(n)
                &&& final(self)@ == m.advance(n)
            }),
    {
        let ghost m = self@;
        let have: usize = self.available();
        let n: usize = if (have as u64) < len {
            have
        } else {
            len as usize
        };
        dest.extend_from_slice(slice_subrange(self.buf.as_slice(), self.pos, self.pos + n));
        assert(self.buf@.subrange(self.pos as int, self.pos + n) =~= m.pending().take(n as int));
        assert(dest@ =~= old(dest)@ + m.pending().take(n as int));
        self.take(n);
        len - n as u64
    }

    /// Whether no more bytes can come.
    pub fn at_end_of_input(&self) -> (r: bool)
        ensures
            r == (self@.ended || self@.broken),
    {
        self.ended || self.broken
    }
}

} // verus!
