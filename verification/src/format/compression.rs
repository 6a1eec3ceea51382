//! Zstandard compression of a stream of bytes.

use crate::error::GappedError;
use std::io::Write;
use vstd::prelude::*;
use zstd::stream::raw::{Decoder, Encoder};
use zstd::stream::zio::Writer;

verus! {

/// The in-memory encoder of `zstd`.
#[verifier::external_type_specification]
#[verifier::external_body]
pub struct ExEncoder<'a>(Encoder<'a>);

/// The in-memory decoder of `zstd`.
#[verifier::external_type_specification]
#[verifier::external_body]
pub struct ExDecoder<'a>(Decoder<'a>);

/// The adapter of `zstd` that runs what is written to it through an encoder or
/// a decoder and writes what comes out to the writer that it wraps.
#[verifier::external_type_specification]
#[verifier::external_body]
#[verifier::reject_recursive_types(W)]
#[verifier::reject_recursive_types(D)]
pub struct ExWriter<W, D>(Writer<W, D>);

/// An I/O error of `std`.
#[verifier::external_type_specification]
#[verifier::external_body]
pub struct ExIoError(std::io::Error);

/// The compression level that a compressing adapter was made with.
pub uninterp spec fn encoder_level(w: Writer<Vec<u8>, Encoder<'static>>) -> i32;

/// What a complete zstd stream decodes to, if it is one.
pub uninterp spec fn zstd_decoded(stream: Seq<u8>) -> Option<Seq<u8>>;

/// Everything that has been written to a compressing adapter.
pub uninterp spec fn encoder_input(w: Writer<Vec<u8>, Encoder<'static>>) -> Seq<u8>;

/// Everything that a compressing adapter has written to the vector it wraps.
pub uninterp spec fn encoder_output(w: Writer<Vec<u8>, Encoder<'static>>) -> Seq<u8>;

/// What the vector that a compressing adapter wraps holds.
pub uninterp spec fn encoder_held(w: Writer<Vec<u8>, Encoder<'static>>) -> Seq<u8>;

/// Whether a call on a compressing adapter has failed.
pub uninterp spec fn encoder_failed(w: Writer<Vec<u8>, Encoder<'static>>) -> bool;

/// Everything that has been written to a decompressing adapter.
pub uninterp spec fn decoder_input(w: Writer<Vec<u8>, Decoder<'static>>) -> Seq<u8>;

/// Everything that a decompressing adapter has written to the vector it wraps.
pub uninterp spec fn decoder_output(w: Writer<Vec<u8>, Decoder<'static>>) -> Seq<u8>;

/// What the vector that a decompressing adapter wraps holds.
pub uninterp spec fn decoder_held(w: Writer<Vec<u8>, Decoder<'static>>) -> Seq<u8>;

/// Whether a call on a decompressing adapter has failed.
pub uninterp spec fn decoder_failed(w: Writer<Vec<u8>, Decoder<'static>>) -> bool;

/// Whether `output` is the front of what any complete stream decodes to that
/// starts with `input`.
pub open spec fn is_front(output: Seq<u8>, input: Seq<u8>) -> bool {
    forall|stream: Seq<u8>|
        input.is_prefix_of(stream) && (#[trigger] zstd_decoded(stream)) is Some
            ==> output.is_prefix_of(zstd_decoded(stream)->0)
}

/// Whether `output` is what `input` decodes to, if that is a complete stream.
pub open spec fn is_decoded(output: Seq<u8>, input: Seq<u8>) -> bool {
    zstd_decoded(input) matches Some(plain) ==> output == plain
}

/// Output and held bytes have grown by the same bytes.
pub open spec fn grown(
    output: Seq<u8>,
    held: Seq<u8>,
    output_after: Seq<u8>,
    held_after: Seq<u8>,
) -> bool {
    &&& output.is_prefix_of(output_after)
    &&& held_after == held + output_after.skip(output.len() as int)
}

/// `zstd::stream::raw::Encoder::new` and `zstd::stream::zio::Writer::new`: a
/// compressing adapter for a compression level, around an empty vector, as
/// `zstd::stream::write::Encoder::new` makes it. That does not fail: a fresh
/// context takes any level, which it brings into range, and no dictionary.
#[verifier::external_body]
fn encoder_new(level: i32) -> (r: Result<Writer<Vec<u8>, Encoder<'static>>, std::io::Error>)
    ensures
        r is Ok,
        r matches Ok(w) ==> encoder_level(w) == level && !encoder_failed(w),
        r matches Ok(w) ==> encoder_input(w).len() == 0 && encoder_output(w).len() == 0
            && encoder_held(w).len() == 0,
{
    Ok(Writer::new(Vec::new(), Encoder::new(level)?))
}

/// `Write::write_all` on a compressing adapter takes all of `data`, and may put
/// something into the vector.
#[verifier::external_body]
fn encoder_write_all(w: &mut Writer<Vec<u8>, Encoder<'static>>, data: &[u8]) -> (r: Result<
    (),
    std::io::Error,
>)
    requires
        !encoder_failed(*old(w)),
    ensures
        encoder_failed(*final(w)) == (r is Err),
        encoder_level(*final(w)) == encoder_level(*old(w)),
        r is Ok ==> encoder_input(*final(w)) == encoder_input(*old(w)) + data@,
        r is Ok ==> grown(
            encoder_output(*old(w)),
            encoder_held(*old(w)),
            encoder_output(*final(w)),
            encoder_held(*final(w)),
        ),
{
    w.write_all(data)
}

/// `Write::flush` on a compressing adapter takes nothing, and may put something
/// into the vector.
#[verifier::external_body]
fn encoder_flush(w: &mut Writer<Vec<u8>, Encoder<'static>>) -> (r: Result<(), std::io::Error>)
    requires
        !encoder_failed(*old(w)),
    ensures
        encoder_failed(*final(w)) == (r is Err),
        encoder_level(*final(w)) == encoder_level(*old(w)),
        r is Ok ==> encoder_input(*final(w)) == encoder_input(*old(w)),
        r is Ok ==> grown(
            encoder_output(*old(w)),
            encoder_held(*old(w)),
            encoder_output(*final(w)),
            encoder_held(*final(w)),
        ),
{
    w.flush()
}

/// `zstd::stream::zio::Writer::finish` on a compressing adapter ends the stream
/// and puts the rest of it into the vector: all that was written to the adapter
/// is what the whole output decodes to.
#[verifier::external_body]
fn encoder_finish(w: &mut Writer<Vec<u8>, Encoder<'static>>) -> (r: Result<(), std::io::Error>)
    requires
        !encoder_failed(*old(w)),
    ensures
        encoder_failed(*final(w)) == (r is Err),
        encoder_level(*final(w)) == encoder_level(*old(w)),
        r is Ok ==> encoder_input(*final(w)) == encoder_input(*old(w)),
        r is Ok ==> grown(
            encoder_output(*old(w)),
            encoder_held(*old(w)),
            encoder_output(*final(w)),
            encoder_held(*final(w)),
        ),
        r is Ok ==> zstd_decoded(encoder_output(*final(w))) == Some(encoder_input(*final(w))),
{
    w.finish()
}

/// `zstd::stream::zio::Writer::writer_mut` on a compressing adapter gives
/// access to the vector, which is replaced by an empty one.
#[verifier::external_body]
fn encoder_take(w: &mut Writer<Vec<u8>, Encoder<'static>>) -> (r: Vec<u8>)
    ensures
        encoder_failed(*final(w)) == encoder_failed(*old(w)),
        encoder_level(*final(w)) == encoder_level(*old(w)),
        r@ == encoder_held(*old(w)),
        encoder_held(*final(w)) == Seq::<u8>::empty(),
        encoder_input(*final(w)) == encoder_input(*old(w)),
        encoder_output(*final(w)) == encoder_output(*old(w)),
{
    std::mem::take(w.writer_mut())
}

/// `zstd::stream::raw::Decoder::new` and `zstd::stream::zio::Writer::new`: a
/// decompressing adapter around an empty vector. That does not fail: a fresh
/// context takes no dictionary. Nothing decodes to nothing.
#[verifier::external_body]
fn decoder_new() -> (r: Result<Writer<Vec<u8>, Decoder<'static>>, std::io::Error>)
    ensures
        r is Ok,
        r matches Ok(w) ==> !decoder_failed(w) && decoder_input(w).len() == 0
            && decoder_output(w).len() == 0 && decoder_held(w).len() == 0 && is_decoded(
            decoder_output(w),
            decoder_input(w),
        ),
{
    Ok(Writer::new(Vec::new(), Decoder::new()?))
}

/// `Write::write_all` on a decompressing adapter takes all of `data`, and may
/// put something into the vector, even where it fails. What has come out is the
/// front of what a stream decodes to that starts with what has gone in.
#[verifier::external_body]
fn decoder_write_all(w: &mut Writer<Vec<u8>, Decoder<'static>>, data: &[u8]) -> (r: Result<
    (),
    std::io::Error,
>)
    requires
        !decoder_failed(*old(w)),
    ensures
        decoder_failed(*final(w)) == (r is Err),
        r is Ok ==> decoder_input(*final(w)) == decoder_input(*old(w)) + data@,
        grown(
            decoder_output(*old(w)),
            decoder_held(*old(w)),
            decoder_output(*final(w)),
            decoder_held(*final(w)),
        ),
        is_front(decoder_output(*final(w)), decoder_input(*old(w)) + data@),
{
    w.write_all(data)
}

/// `Write::flush` on a decompressing adapter puts everything into the vector
/// that can be decoded from what it has taken: all of it, if that is a complete
/// stream, and else the front of what a stream decodes to that starts with it.
#[verifier::external_body]
fn decoder_flush(w: &mut Writer<Vec<u8>, Decoder<'static>>) -> (r: Result<(), std::io::Error>)
    requires
        !decoder_failed(*old(w)),
    ensures
        decoder_failed(*final(w)) == (r is Err),
        r is Ok ==> decoder_input(*final(w)) == decoder_input(*old(w)),
        grown(
            decoder_output(*old(w)),
            decoder_held(*old(w)),
            decoder_output(*final(w)),
            decoder_held(*final(w)),
        ),
        is_front(decoder_output(*final(w)), decoder_input(*old(w))),
        r is Ok ==> is_decoded(decoder_output(*final(w)), decoder_input(*final(w))),
{
    w.flush()
}

/// `zstd::stream::zio::Writer::writer_mut` on a decompressing adapter gives
/// access to the vector, which is replaced by an empty one.
#[verifier::external_body]
fn decoder_take(w: &mut Writer<Vec<u8>, Decoder<'static>>) -> (r: Vec<u8>)
    ensures
        decoder_failed(*final(w)) == decoder_failed(*old(w)),
        r@ == decoder_held(*old(w)),
        decoder_held(*final(w)) == Seq::<u8>::empty(),
        decoder_input(*final(w)) == decoder_input(*old(w)),
        decoder_output(*final(w)) == decoder_output(*old(w)),
{
    std::mem::take(w.writer_mut())
}

/// Compresses a stream piece by piece.
pub struct Compressor {
    adapter: Writer<Vec<u8>, Encoder<'static>>,
    taken: Ghost<Seq<u8>>,
}

impl Compressor {
    /// The compression level.
    pub closed spec fn level(&self) -> i32 {
        encoder_level(self.adapter)
    }

    /// Everything written so far.
    pub closed spec fn input(&self) -> Seq<u8> {
        encoder_input(self.adapter)
    }

    /// Everything handed out so far.
    pub closed spec fn taken(&self) -> Seq<u8> {
        self.taken@
    }

    /// Everything that has come out of the encoder so far.
    pub closed spec fn output(&self) -> Seq<u8> {
        encoder_output(self.adapter)
    }

    /// Whether the encoder has failed.
    pub closed spec fn gave_up(&self) -> bool {
        encoder_failed(self.adapter)
    }

    /// What has been handed out and what is still held make up the output.
    pub closed spec fn wf(&self) -> bool {
        &&& !encoder_failed(self.adapter)
        &&& self.taken@ + encoder_held(self.adapter) == encoder_output(self.adapter)
    }

    /// Starts a stream at compression level `level`.
    pub fn new(level: i32) -> (r: Result<Self, GappedError>)
        ensures
            r is Ok,
            r matches Ok(c) ==> c.wf() && !c.gave_up() && c.level() == level && c.input().len()
                == 0 && c.output().len() == 0 && c.taken().len() == 0,
    {
        match encoder_new(level) {
            Ok(adapter) => {
                let c = Compressor { adapter, taken: Ghost(Seq::empty()) };
                assert(c.taken@ + encoder_held(c.adapter) =~= encoder_output(c.adapter));
                Ok(c)
            },
            Err(_) => Err(GappedError::Compression),
        }
    }

    /// Adds `data` to the stream. That fails only where the encoder does.
    pub fn write(&mut self, data: &[u8]) -> (r: Result<(), GappedError>)
        requires
            old(self).wf(),
        ensures
            final(self).gave_up() == (r is Err),
            r is Ok ==> final(self).wf(),
            r is Ok ==> final(self).input() == old(self).input() + data@,
            r is Ok ==> old(self).output().is_prefix_of(final(self).output()),
            final(self).taken() == old(self).taken(),
            final(self).level() == old(self).level(),
            r matches Err(e) ==> e == GappedError::Compression,
    {
        let ghost before = encoder_output(self.adapter);
        match encoder_write_all(&mut self.adapter, data) {
            Ok(_) => {
                proof {
                    let after = encoder_output(self.adapter);
                    assert(before + after.skip(before.len() as int) =~= after);
                    assert(self.taken@ + encoder_held(self.adapter) =~= after);
                }
                Ok(())
            },
            Err(_) => Err(GappedError::Compression),
        }
    }

    /// Hands out everything that has come out of the encoder and has not been
    /// handed out.
    pub fn take_output(&mut self) -> (r: Vec<u8>)
        requires
            old(self).wf(),
        ensures
            final(self).wf(),
            !final(self).gave_up(),
            final(self).level() == old(self).level(),
            final(self).input() == old(self).input(),
            final(self).output() == old(self).output(),
            final(self).taken() == old(self).taken() + r@,
            final(self).taken() == final(self).output(),
    {
        let r = encoder_take(&mut self.adapter);
        let ghost taken = self.taken@ + r@;
        self.taken = Ghost(taken);
        assert(self.taken@ + encoder_held(self.adapter) =~= encoder_output(self.adapter));
        assert(self.taken@ =~= encoder_output(self.adapter));
        r
    }

    /// Ends the stream and hands out the rest of it. All that was handed out
    /// decodes to all that was written. That fails only where the encoder does,
    /// in the end of the same stream.
    pub fn finish(self) -> (r: Result<Vec<u8>, GappedError>)
        requires
            self.wf(),
        ensures
            r matches Ok(rest) ==> zstd_decoded(self.taken() + rest@) == Some(self.input()),
            r matches Ok(rest) ==> self.output().is_prefix_of(self.taken() + rest@),
            r matches Err(e) ==> e == GappedError::Compression && exists|c: Compressor|
                #[trigger] c.gave_up() && c.level() == self.level() && c.taken() == self.taken(),
    {
        let mut adapter = self.adapter;
        let ghost before = encoder_output(adapter);
        if encoder_flush(&mut adapter).is_err() {
            assert((Compressor { adapter, taken: self.taken }).gave_up());
            return Err(GappedError::Compression);
        }
        let ghost middle = encoder_output(adapter);
        assert(before + middle.skip(before.len() as int) =~= middle);
        assert(self.taken@ + encoder_held(adapter) =~= middle);
        if encoder_finish(&mut adapter).is_err() {
            assert((Compressor { adapter, taken: self.taken }).gave_up());
            return Err(GappedError::Compression);
        }
        let ghost after = encoder_output(adapter);
        assert(middle + after.skip(middle.len() as int) =~= after);
        assert(self.taken@ + encoder_held(adapter) =~= after);
        assert(before.is_prefix_of(after)) by {
            assert(after.subrange(0, before.len() as int) =~= middle.subrange(
                0,
                before.len() as int,
            ));
        }
        Ok(encoder_take(&mut adapter))
    }
}

/// Decompresses a stream piece by piece.
pub struct Decompressor {
    adapter: Writer<Vec<u8>, Decoder<'static>>,
    taken: Ghost<Seq<u8>>,
}

impl Decompressor {
    /// Everything fed so far.
    pub closed spec fn input(&self) -> Seq<u8> {
        decoder_input(self.adapter)
    }

    /// Everything handed out so far.
    pub closed spec fn taken(&self) -> Seq<u8> {
        self.taken@
    }

    /// Whether the decoder has failed.
    pub closed spec fn gave_up(&self) -> bool {
        decoder_failed(self.adapter)
    }

    /// Everything decoded has been handed out, and a complete stream has been
    /// decoded completely.
    pub closed spec fn wf(&self) -> bool {
        &&& is_decoded(self.taken@, decoder_input(self.adapter))
        &&& !decoder_failed(self.adapter)
        &&& decoder_held(self.adapter) == Seq::<u8>::empty()
        &&& self.taken@ == decoder_output(self.adapter)
    }

    /// Starts a stream.
    pub fn new() -> (r: Result<Self, GappedError>)
        ensures
            r is Ok,
            r matches Ok(d) ==> d.wf() && !d.gave_up() && d.input().len() == 0 && d.taken().len()
                == 0 && is_decoded(d.taken(), d.input()),
    {
        match decoder_new() {
            Ok(adapter) => {
                let d = Decompressor { adapter, taken: Ghost(Seq::empty()) };
                assert(d.taken@ =~= decoder_output(d.adapter));
                assert(decoder_held(d.adapter) =~= Seq::empty());
                Ok(d)
            },
            Err(_) => Err(GappedError::Decompression),
        }
    }

    /// Feeds `data` and hands out what has been decoded. The flag says whether
    /// the decoder took everything; if it did not, the stream is broken from
    /// there on. Once a complete stream has been taken, all that was handed out
    /// is what the stream decodes to; in any case it is the front of that.
    pub fn feed(&mut self, data: &[u8]) -> (r: (Vec<u8>, bool))
        requires
            old(self).wf(),
        ensures
            r.1 == !final(self).gave_up(),
            r.1 ==> final(self).wf(),
            r.1 ==> final(self).input() == old(self).input() + data@,
            r.1 ==> final(self).taken() == old(self).taken() + r.0@,
            r.1 ==> is_decoded(final(self).taken(), final(self).input()),
            is_front(old(self).taken() + r.0@, old(self).input() + data@),
    {
        let ghost before = decoder_output(self.adapter);
        let written = decoder_write_all(&mut self.adapter, data);
        let ghost middle = decoder_output(self.adapter);
        assert(before + middle.skip(before.len() as int) =~= middle);
        if written.is_err() {
            let out = decoder_take(&mut self.adapter);
            assert(old(self).taken() + out@ =~= middle);
            return (out, false);
        }
        let flushed = decoder_flush(&mut self.adapter);
        let ghost after = decoder_output(self.adapter);
        assert(middle + after.skip(middle.len() as int) =~= after);
        if flushed.is_err() {
            let out = decoder_take(&mut self.adapter);
            assert(old(self).taken() + out@ =~= after);
            return (out, false);
        }
        let out = decoder_take(&mut self.adapter);
        let ghost taken = self.taken@ + out@;
        proof {
            assert(taken =~= after);
        }
        self.taken = Ghost(taken);
        (out, true)
    }
}

} // verus!
