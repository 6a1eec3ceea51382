//! Writing a gapped file.

use crate::bytes;
use crate::error::GappedError;
use crate::format::checksum;
use crate::format::compression;
use crate::format::compression::Compressor;
use crate::format::header;
use crate::format::header::{RecordModel, RecordType, EOR, MAGIC, MAGIC_COMPRESSED};
use crate::parallel::{ContentRead, ContentReader};
use vstd::prelude::*;
use xxhash_rust::xxh3::Xxh3;

verus! {

const STREAM_BUF: usize = 65_536;

/// Compression level of compressed files.
pub const LEVEL: i32 = 3;

/// Streaming writer for the gapped file format.
///
/// It is given one record at a time, keeps a checksum of everything written,
/// and hands out the bytes of the file as they come.
pub struct FormatWriter {
    out: Vec<u8>,
    encoder: Option<Compressor>,
    hasher: Xxh3,
    bytes_written: u64,
    content_left: u64,
    emitted: Ghost<Seq<u8>>,
}

/// What `bytes` is to a file that holds `plain`: the same, or, if it is
/// compressed, the magic bytes and a stream that decodes to the rest.
pub open spec fn stores(bytes: Seq<u8>, compressed: bool, plain: Seq<u8>) -> bool {
    if compressed {
        &&& plain.len() >= 9
        &&& bytes.len() >= 9
        &&& bytes.take(9) == plain.take(9)
        &&& compression::zstd_decoded(bytes.skip(9)) == Some(plain.skip(9))
    } else {
        bytes == plain
    }
}

impl FormatWriter {
    /// Everything written so far, before compression.
    pub closed spec fn written(&self) -> Seq<u8> {
        checksum::xxh3_input(self.hasher)
    }

    /// The compression level, if the file is compressed.
    pub closed spec fn level(&self) -> Option<i32> {
        match self.encoder {
            Some(c) => Some(c.level()),
            None => None,
        }
    }

    /// Whether the file is compressed.
    pub open spec fn compressed(&self) -> bool {
        self.level() is Some
    }

    /// The bytes of the file that have been handed out.
    pub closed spec fn emitted(&self) -> Seq<u8> {
        self.emitted@
    }

    /// The bytes of the file that have come out so far: all that were written,
    /// or, if the file is compressed, the magic bytes and what has come out of
    /// the encoder.
    pub closed spec fn produced(&self) -> Seq<u8> {
        match self.encoder {
            Some(c) => MAGIC_COMPRESSED@ + c.output(),
            None => self.written(),
        }
    }

    /// How many bytes the file content that is being written still lacks.
    pub closed spec fn content_left(&self) -> nat {
        self.content_left as nat
    }

    /// Whether the encoder of a compressed file has failed.
    pub closed spec fn gave_up(&self) -> bool {
        match self.encoder {
            Some(c) => c.gave_up(),
            None => false,
        }
    }

    pub closed spec fn wf(&self) -> bool {
        &&& self.bytes_written == self.written().len()
        &&& match self.encoder {
            Some(c) => {
                &&& c.wf()
                &&& !c.gave_up()
                &&& self.written() == MAGIC_COMPRESSED@ + c.input()
                &&& self.emitted@ + self.out@ == MAGIC_COMPRESSED@ + c.taken()
            },
            None => self.emitted@ + self.out@ == self.written(),
        }
    }

    /// Starts a file with the given header. That fails only where the encoder of a
    /// compressed file does.
    pub fn maybe_compressed(header: &[u8], compress: bool) -> (r: Result<Self, GappedError>)
        requires
            header@.len() <= u64::MAX - 13,
        ensures
            !compress ==> r is Ok,
            r matches Err(e) ==> e == GappedError::Compression && exists|c: Compressor|
                #[trigger] c.gave_up() && c.level() == LEVEL,
            r matches Ok(w) ==> {
                &&& w.wf()
                &&& w.level() == if compress {
                    Some(LEVEL)
                } else {
                    None
                }
                &&& w.written() == header::magic_of(compress) + header::header_block(header@)
                &&& w.emitted() == Seq::<u8>::empty()
                &&& w.content_left() == 0
            },
    {
        let mut hasher = Xxh3::new();
        let mut out: Vec<u8> = Vec::new();
        let encoder: Option<Compressor>;
        if compress {
            hasher.update(MAGIC_COMPRESSED.as_slice());
            out.extend_from_slice(MAGIC_COMPRESSED.as_slice());
            match Compressor::new(LEVEL) {
                Ok(c) => {
                    encoder = Some(c);
                },
                Err(e) => {
                    return Err(e);
                },
            }
        } else {
            hasher.update(MAGIC.as_slice());
            out.extend_from_slice(MAGIC.as_slice());
            encoder = None;
        }
        let mut w = FormatWriter {
            out,
            encoder,
            hasher,
            bytes_written: 9,
            content_left: 0,
            emitted: Ghost(Seq::empty()),
        };
        assert(w.wf()) by {
            assert(w.written() =~= header::magic_of(compress));
            assert(w.emitted@ + w.out@ =~= header::magic_of(compress));
            if let Some(c) = w.encoder {
                assert(w.written() =~= MAGIC_COMPRESSED@ + c.input());
                assert(MAGIC_COMPRESSED@ + c.taken() =~= MAGIC_COMPRESSED@);
            }
        }
        let mut head: Vec<u8> = Vec::new();
        bytes::push_le(&mut head, header.len() as u128 % 0x1_0000_0000, 4);
        head.extend_from_slice(header);
        proof {
            bytes::lemma_le_bytes_len(header::stored_header_len(header@.len()), 4);
            assert(head@ =~= header::header_block(header@));
        }
        match w.hashed_write(head.as_slice()) {
            Ok(_) => {
                assert(w.written() =~= header::magic_of(compress) + header::header_block(header@));
                Ok(w)
            },
            Err(e) => {
                proof {
                    match w.encoder {
                        Some(c) => {
                            assert(c.gave_up() && c.level() == LEVEL);
                        },
                        None => {},
                    }
                }
                Err(e)
            },
        }
    }

    fn hashed_write(&mut self, buf: &[u8]) -> (r: Result<(), GappedError>)
        requires
            old(self).wf(),
            old(self).written().len() + buf@.len() <= u64::MAX,
        ensures
            final(self).gave_up() == (r is Err),
            !old(self).compressed() ==> r is Ok,
            r matches Err(e) ==> e == GappedError::Compression,
            final(self).level() == old(self).level(),
            final(self).emitted() == old(self).emitted(),
            final(self).content_left() == old(self).content_left(),
            r is Ok ==> final(self).wf() && final(self).written() == old(self).written() + buf@,
    {
        match &mut self.encoder {
            Some(c) => {
                match c.write(buf) {
                    Ok(_) => {},
                    Err(e) => {
                        return Err(e);
                    },
                }
            },
            None => {
                self.out.extend_from_slice(buf);
            },
        }
        self.hasher.update(buf);
        self.bytes_written = self.bytes_written + buf.len() as u64;
        proof {
            match &self.encoder {
                Some(c) => {
                    assert(self.written() =~= MAGIC_COMPRESSED@ + c.input());
                },
                None => {
                    assert(self.emitted@ + self.out@ =~= self.written());
                },
            }
        }
        Ok(())
    }

    fn write_record(&mut self, record_type: RecordType, payload: &[u8]) -> (r: Result<
        (),
        GappedError,
    >)
        requires
            old(self).wf(),
            old(self).written().len() + 9 + payload@.len() <= u64::MAX,
        ensures
            final(self).gave_up() == (r is Err),
            !old(self).compressed() ==> r is Ok,
            r matches Err(e) ==> e == GappedError::Compression,
            final(self).level() == old(self).level(),
            final(self).emitted() == old(self).emitted(),
            final(self).content_left() == old(self).content_left(),
            r is Ok ==> final(self).wf() && final(self).written() == old(self).written()
                + header::record_bytes(RecordModel { record_type, payload: payload@ }),
    {
        let ghost before = self.written();
        match self.write_head(record_type, payload.len() as u64) {
            Ok(_) => {},
            Err(e) => {
                return Err(e);
            },
        }
        proof {
            bytes::lemma_le_bytes_len(payload@.len(), 8);
        }
        let r = self.hashed_write(payload);
        proof {
            if r is Ok {
                assert(self.written() =~= before + header::record_bytes(
                    RecordModel { record_type, payload: payload@ },
                ));
            }
        }
        r
    }

    fn write_head(&mut self, record_type: RecordType, len: u64) -> (r: Result<(), GappedError>)
        requires
            old(self).wf(),
            old(self).written().len() + 9 <= u64::MAX,
        ensures
            final(self).gave_up() == (r is Err),
            !old(self).compressed() ==> r is Ok,
            r matches Err(e) ==> e == GappedError::Compression,
            final(self).level() == old(self).level(),
            final(self).emitted() == old(self).emitted(),
            final(self).content_left() == old(self).content_left(),
            r is Ok ==> final(self).wf() && final(self).written() == old(self).written()
                + header::record_head(record_type, len as nat),
    {
        let mut head: Vec<u8> = Vec::new();
        bytes::push_le(&mut head, len as u128, 8);
        head.push(record_type.to_u8());
        proof {
            bytes::lemma_le_bytes_len(len as nat, 8);
            assert(head@ =~= header::record_head(record_type, len as nat));
        }
        self.hashed_write(head.as_slice())
    }

    /// Writes an entry of a snapshot, given as it is serialized.
    pub fn write_snapshot_entry(&mut self, entry: &[u8]) -> (r: Result<(), GappedError>)
        requires
            old(self).wf(),
            old(self).content_left() == 0,
            old(self).written().len() + 9 + entry@.len() <= u64::MAX,
        ensures
            final(self).gave_up() == (r is Err),
            !old(self).compressed() ==> r is Ok,
            r matches Err(e) ==> e == GappedError::Compression,
            final(self).level() == old(self).level(),
            final(self).emitted() == old(self).emitted(),
            final(self).content_left() == 0,
            r is Ok ==> final(self).wf() && final(self).written() == old(self).written()
                + header::record_bytes(
                (RecordModel { record_type: RecordType::SnapshotEntry, payload: entry@ }),
            ),
    {
        self.write_record(RecordType::SnapshotEntry, entry)
    }

    /// Writes a change of a diff, given as it is serialized.
    pub fn write_diff_change(&mut self, change: &[u8]) -> (r: Result<(), GappedError>)
        requires
            old(self).wf(),
            old(self).content_left() == 0,
            old(self).written().len() + 9 + change@.len() <= u64::MAX,
        ensures
            final(self).gave_up() == (r is Err),
            !old(self).compressed() ==> r is Ok,
            r matches Err(e) ==> e == GappedError::Compression,
            final(self).level() == old(self).level(),
            final(self).emitted() == old(self).emitted(),
            final(self).content_left() == 0,
            r is Ok ==> final(self).wf() && final(self).written() == old(self).written()
                + header::record_bytes(
                (RecordModel { record_type: RecordType::DiffChange, payload: change@ }),
            ),
    {
        self.write_record(RecordType::DiffChange, change)
    }

    /// Starts a record of exactly `size` bytes of file content.
    pub fn begin_file_content(&mut self, size: u64) -> (r: Result<(), GappedError>)
        requires
            old(self).wf(),
            old(self).content_left() == 0,
            old(self).written().len() + 9 + size <= u64::MAX,
        ensures
            final(self).gave_up() == (r is Err),
            !old(self).compressed() ==> r is Ok,
            r matches Err(e) ==> e == GappedError::Compression,
            final(self).level() == old(self).level(),
            final(self).emitted() == old(self).emitted(),
            r is Ok ==> final(self).wf() && final(self).content_left() == size
                && final(self).written() == old(self).written() + header::record_head(
                RecordType::FileContent,
                size as nat,
            ),
    {
        match self.write_head(RecordType::FileContent, size) {
            Ok(_) => {
                self.content_left = size;
                Ok(())
            },
            Err(e) => Err(e),
        }
    }

    /// Writes what `reader` has at hand of the file content that was started.
    /// Says whether the content is complete; if it is not, the reader needs
    /// another chunk. A reader that is at its end before the content is
    /// complete is an error.
    pub fn write_file_content_from_reader(&mut self, reader: &mut ContentReader) -> (r: Result<
        bool,
        GappedError,
    >)
        requires
            old(self).wf(),
            old(reader).wf(),
            old(self).written().len() + old(self).content_left() <= u64::MAX,
        ensures
            final(reader).wf(),
            final(self).level() == old(self).level(),
            final(self).emitted() == old(self).emitted(),
            final(self).gave_up() <==> r == Err::<bool, GappedError>(GappedError::Compression),
            final(self).gave_up() ==> old(self).compressed(),
            r matches Err(e) ==> e is ContentShort || e == GappedError::Compression,
            !(r matches Err(e) && e == GappedError::Compression) ==> {
                let have = old(reader).at_hand();
                let n = if have.len() < old(self).content_left() {
                    have.len()
                } else {
                    old(self).content_left()
                };
                let lacking = (old(self).content_left() - n) as nat;
                &&& final(self).wf()
                &&& final(self).written() == old(self).written() + have.take(n as int)
                &&& final(self).content_left() == lacking
                &&& final(reader).at_hand() == have.skip(n as int)
                &&& final(reader).supplied() == old(reader).supplied()
                &&& final(reader).given() == old(reader).given() + have.take(n as int)
                &&& final(reader).left() == if old(reader).left() < n {
                    0
                } else {
                    (old(reader).left() - n) as nat
                }
                &&& r == if lacking == 0 {
                    Ok::<bool, GappedError>(true)
                } else if final(reader).left() == 0 {
                    Err(GappedError::ContentShort(lacking as u64))
                } else {
                    Ok(false)
                }
            },
    {
        let ghost have = reader.at_hand();
        let ghost before = self.written();
        let ghost total = self.content_left();
        let ghost left0 = reader.left();
        let ghost mut done: int = 0;
        assert(have.skip(0) =~= have);
        let ghost given0 = reader.given();
        assert(before + have.take(0) =~= before);
        assert(given0 + have.take(0) =~= given0);
        while self.content_left > 0
            invariant
                self.wf(),
                reader.wf(),
                self.level() == old(self).level(),
                self.emitted() == old(self).emitted(),
                0 <= done <= have.len(),
                done <= total,
                total == old(self).content_left(),
                have == old(reader).at_hand(),
                left0 == old(reader).left(),
                before == old(self).written(),
                before.len() + total <= u64::MAX,
                self.content_left() == total - done,
                self.written() == before + have.take(done),
                reader.at_hand() == have.skip(done),
                reader.supplied() == old(reader).supplied(),
                given0 == old(reader).given(),
                reader.given() == given0 + have.take(done),
                reader.left() == if left0 < done {
                    0
                } else {
                    left0 - done
                },
            decreases self.content_left,
        {
            let want: usize = if self.content_left < STREAM_BUF as u64 {
                self.content_left as usize
            } else {
                STREAM_BUF
            };
            match reader.read(want) {
                ContentRead::Data(data) => {
                    let ghost n = data@.len() as int;
                    match self.hashed_write(data.as_slice()) {
                        Ok(_) => {},
                        Err(e) => {
                            return Err(e);
                        },
                    }
                    self.content_left = self.content_left - data.len() as u64;
                    proof {
                        assert(have.skip(done).take(n) =~= have.subrange(done, done + n));
                        assert(before + have.take(done) + have.subrange(done, done + n) =~= before
                            + have.take(done + n));
                        assert(given0 + have.take(done) + have.subrange(done, done + n) =~= given0
                            + have.take(done + n));
                        assert(have.skip(done).skip(n) =~= have.skip(done + n));
                        done = done + n;
                    }
                },
                ContentRead::NeedChunk => {
                    assert(reader.given() =~= given0 + have.take(done));
                    return Ok(false);
                },
                ContentRead::End => {
                    assert(reader.given() =~= given0 + have.take(done));
                    return Err(GappedError::ContentShort(self.content_left));
                },
            }
        }
        Ok(true)
    }

    /// Hands out the bytes of the file that have come out since the last call.
    pub fn take_output(&mut self) -> (r: Vec<u8>)
        requires
            old(self).wf(),
        ensures
            final(self).wf(),
            final(self).written() == old(self).written(),
            final(self).level() == old(self).level(),
            final(self).content_left() == old(self).content_left(),
            final(self).emitted() == old(self).emitted() + r@,
            final(self).produced() == old(self).produced(),
            final(self).emitted() == final(self).produced(),
            !old(self).compressed() ==> final(self).emitted() == final(self).written(),
    {
        let mut r: Vec<u8> = Vec::new();
        let ghost held = self.out@;
        let ghost earlier = self.emitted@;
        let ghost mut fresh: Seq<u8> = Seq::empty();
        r.append(&mut self.out);
        assert(r@ =~= held);
        match &mut self.encoder {
            Some(c) => {
                let mut more = c.take_output();
                proof {
                    fresh = more@;
                }
                r.append(&mut more);
            },
            None => {},
        }
        assert(r@ =~= held + fresh);
        let ghost emitted = self.emitted@ + r@;
        self.emitted = Ghost(emitted);
        assert(self.emitted@ + self.out@ =~= (earlier + held) + fresh);
        proof {
            match &self.encoder {
                Some(c) => {
                    assert(self.emitted@ + self.out@ =~= MAGIC_COMPRESSED@ + c.taken());
                    assert(self.emitted@ =~= MAGIC_COMPRESSED@ + c.output());
                },
                None => {
                    assert(self.emitted@ + self.out@ =~= self.written());
                    assert(self.emitted@ =~= self.written());
                },
            }
        }
        r
    }

    /// Ends the file: writes the end marker and the checksum, and hands out the
    /// rest of the bytes. All that was handed out stores all that was written,
    /// the end marker and the checksum of both. That fails only where the encoder
    /// of a compressed file does.
    pub fn finish(self) -> (r: Result<Vec<u8>, GappedError>)
        requires
            self.wf(),
            self.content_left() == 0,
            self.written().len() + 25 <= u64::MAX,
        ensures
            !self.compressed() ==> r is Ok,
            r matches Err(e) ==> e == GappedError::Compression && exists|c: Compressor|
                #[trigger] c.gave_up() && Some(c.level()) == self.level(),
            r matches Ok(rest) ==> stores(
                self.emitted() + rest@,
                self.compressed(),
                self.written() + header::trailer(self.written()),
            ),
    {
        let mut w = self;
        match w.hashed_write(EOR.as_slice()) {
            Ok(_) => {},
            Err(e) => {
                assert(w.encoder is Some && w.encoder->0.gave_up());
                return Err(e);
            },
        }
        let sum = checksum::stored_digest(&w.hasher);
        let ghost plain = self.written() + header::trailer(self.written());
        assert(w.written() + sum@ =~= plain);
        match w.encoder {
            Some(c) => {
                let mut c = c;
                match c.write(sum.as_slice()) {
                    Ok(_) => {},
                    Err(e) => {
                        assert(c.gave_up());
                        return Err(e);
                    },
                }
                assert(plain =~= MAGIC_COMPRESSED@ + c.input());
                assert(plain.skip(9) =~= c.input());
                let ghost taken = c.taken();
                match c.finish() {
                    Ok(mut more) => {
                        let ghost stream = taken + more@;
                        let ghost fresh = more@;
                        let ghost held = w.out@;
                        let mut r: Vec<u8> = Vec::new();
                        let mut out = w.out;
                        r.append(&mut out);
                        r.append(&mut more);
                        proof {
                            let all = self.emitted() + r@;
                            assert(r@ =~= held + fresh);
                            assert(all =~= (self.emitted() + held) + fresh);
                            assert(all =~= MAGIC_COMPRESSED@ + stream);
                            assert(all.skip(9) =~= stream);
                            assert(all.take(9) =~= MAGIC_COMPRESSED@);
                            assert(plain.take(9) =~= MAGIC_COMPRESSED@);
                        }
                        Ok(r)
                    },
                    Err(e) => Err(e),
                }
            },
            None => {
                let mut r: Vec<u8> = Vec::new();
                let mut out = w.out;
                r.append(&mut out);
                r.extend_from_slice(sum.as_slice());
                assert(self.emitted() + r@ =~= plain);
                Ok(r)
            },
        }
    }

    /// How many bytes have been written so far, before compression.
    pub fn bytes_written(&self) -> (r: u64)
        requires
            self.wf(),
        ensures
            r == self.written().len(),
    {
        self.bytes_written
    }
}

} // verus!
