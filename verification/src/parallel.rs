//! Reading files ahead in parallel: what is read when, and in what order it is
//! handed out.

use crate::bytes;
use crate::error::GappedError;
use vstd::prelude::*;

verus! {

/// Bytes per chunk of a file that is read ahead.
pub const CHUNK_SIZE: usize = 262_144;

/// How many chunks of a file may be waiting.
pub const CHUNK_DEPTH: usize = 4;

const DEFAULT_WORKERS: usize = 4;

const MAX_WORKERS: usize = 8;

/// How many workers to use, given how many threads the machine can run, if that
/// is known.
pub fn worker_count(available: Option<usize>) -> (r: usize)
    ensures
        r == match available {
            Some(n) if n < 8 => n,
            Some(_) => 8,
            None => 4,
        },
{
    let n: usize = match available {
        Some(n) => n,
        None => DEFAULT_WORKERS,
    };
    if n < MAX_WORKERS {
        n
    } else {
        MAX_WORKERS
    }
}

/// What a read from a [`ContentReader`] gives.
#[derive(Debug, PartialEq, Eq)]
pub enum ContentRead {
    /// The next bytes of the content.
    Data(Vec<u8>),
    /// Another chunk has to be supplied first.
    NeedChunk,
    /// The content is at its end.
    End,
}

/// A file content that comes in chunks.
pub struct ContentReader {
    current: Vec<u8>,
    pos: usize,
    remaining: u64,
    supplied: Ghost<Seq<u8>>,
    given: Ghost<Seq<u8>>,
}

impl ContentReader {
    pub closed spec fn wf(&self) -> bool {
        &&& self.pos <= self.current@.len()
        &&& self.given@ + self.at_hand() == self.supplied@
    }

    /// All chunks that have been supplied, one after the other.
    pub closed spec fn supplied(&self) -> Seq<u8> {
        self.supplied@
    }

    /// All that has been read, one piece after the other.
    pub closed spec fn given(&self) -> Seq<u8> {
        self.given@
    }

    /// The bytes that have been supplied and not been read.
    pub closed spec fn at_hand(&self) -> Seq<u8> {
        self.current@.skip(self.pos as int)
    }

    /// How many bytes of the announced size have not been read.
    pub closed spec fn left(&self) -> nat {
        self.remaining as nat
    }

    /// A content of `size` bytes of which nothing has been supplied.
    pub fn new(size: u64) -> (r: Self)
        ensures
            r.wf(),
            r.at_hand() == Seq::<u8>::empty(),
            r.left() == size,
            r.supplied() == Seq::<u8>::empty(),
            r.given() == Seq::<u8>::empty(),
    {
        let r = ContentReader {
            current: Vec::new(),
            pos: 0,
            remaining: size,
            supplied: Ghost(Seq::empty()),
            given: Ghost(Seq::empty()),
        };
        assert(r.at_hand() =~= Seq::<u8>::empty());
        assert(r.given@ + r.at_hand() =~= r.supplied@);
        r
    }

    /// How many bytes of the announced size have not been read.
    pub fn remaining(&self) -> (r: u64)
        ensures
            r == self.left(),
    {
        self.remaining
    }

    /// Supplies the next chunk.
    pub fn supply(&mut self, chunk: Vec<u8>)
        requires
            old(self).wf(),
            old(self).at_hand().len() == 0,
        ensures
            final(self).wf(),
            final(self).at_hand() == chunk@,
            final(self).left() == old(self).left(),
            final(self).supplied() == old(self).supplied() + chunk@,
            final(self).given() == old(self).given(),
    {
        let ghost supplied = self.supplied@ + chunk@;
        assert(self.given@ =~= self.supplied@);
        self.supplied = Ghost(supplied);
        self.current = chunk;
        self.pos = 0;
        assert(self.at_hand() =~= chunk@);
    }

    /// Reads up to `want` bytes.
    pub fn read(&mut self, want: usize) -> (r: ContentRead)
        requires
            old(self).wf(),
        ensures
            final(self).wf(),
            final(self).supplied() == old(self).supplied(),
            final(self).given() == old(self).given() + match r {
                ContentRead::Data(d) => d@,
                _ => Seq::empty(),
            },
            ({
                let have = old(self).at_hand();
                let n = if have.len() < want {
                    have.len() as int
                } else {
                    want as int
                };
                if have.len() > 0 {
                    &&& r matches ContentRead::Data(d) && d@ == have.take(n)
                    &&& final(self).at_hand() == have.skip(n)
                    &&& final(self).left() == if old(self).left() < n {
                        0
                    } else {
                        old(self).left() - n
                    }
                } else {
                    &&& r == if old(self).left() == 0 {
                        ContentRead::End
                    } else {
                        ContentRead::NeedChunk
                    }
                    &&& final(self).at_hand() == have
                    &&& final(self).left() == old(self).left()
                }
            }),
    {
        let ghost have = self.at_hand();
        if self.pos >= self.current.len() {
            assert(self.given@ + Seq::<u8>::empty() =~= self.given@);
            return if self.remaining == 0 {
                ContentRead::End
            } else {
                ContentRead::NeedChunk
            };
        }
        let left: usize = self.current.len() - self.pos;
        let n: usize = if left < want {
            left
        } else {
            want
        };
        let data = bytes::copy_range(self.current.as_slice(), self.pos, self.pos + n);
        assert(data@ =~= have.take(n as int));
        self.pos = self.pos + n;
        self.remaining = self.remaining.saturating_sub(n as u64);
        assert(self.at_hand() =~= have.skip(n as int));
        let ghost given = self.given@ + data@;
        self.given = Ghost(given);
        assert(self.given@ + self.at_hand() =~= old(self).given@ + have);
        ContentRead::Data(data)
    }
}

/// What has been read and what is at hand are the chunks that were supplied, one
/// after the other: reading neither loses nor repeats nor reorders a byte.
pub proof fn law_reads_join_to_the_chunks(r: ContentReader)
    requires
        r.wf(),
    ensures
        r.given() + r.at_hand() == r.supplied(),
        r.at_hand().len() == 0 ==> r.given() == r.supplied(),
{
    assert(r.given() + Seq::<u8>::empty() =~= r.given());
}

/// How far the streaming of one file has come.
pub struct FileStream {
    remaining: u64,
}

impl FileStream {
    /// How many bytes are still to be read.
    pub closed spec fn left(&self) -> nat {
        self.remaining as nat
    }

    /// The streaming of a file of `size` bytes.
    pub fn new(size: u64) -> (r: Self)
        ensures
            r.left() == size,
    {
        FileStream { remaining: size }
    }

    /// How many bytes to read next: a chunk, or what is left; zero at the end.
    pub fn want(&self) -> (r: usize)
        ensures
            r == if self.left() < CHUNK_SIZE {
                self.left()
            } else {
                CHUNK_SIZE as nat
            },
    {
        if self.remaining < CHUNK_SIZE as u64 {
            self.remaining as usize
        } else {
            CHUNK_SIZE
        }
    }

    /// Takes note that `n` bytes have been read. Nothing read where something
    /// was wanted means that the file has been cut short.
    pub fn advance(&mut self, n: usize) -> (r: Result<(), GappedError>)
        requires
            0 < old(self).left(),
            n <= old(self).left(),
        ensures
            r is Ok <==> n > 0,
            r matches Err(e) ==> e == GappedError::FileTruncated,
            final(self).left() == old(self).left() - n,
    {
        if n == 0 {
            return Err(GappedError::FileTruncated);
        }
        self.remaining = self.remaining - n as u64;
        Ok(())
    }
}

/// The order in which files are read ahead and handed out: every file once, in
/// the order in which they were queued, with at most a given number of files in
/// flight.
pub struct PrefetchPool {
    count: usize,
    handed_out: usize,
    next_spawn: usize,
    max_in_flight: usize,
}

impl PrefetchPool {
    /// How many files there are.
    pub closed spec fn count(&self) -> nat {
        self.count as nat
    }

    /// How many files have been handed out: those in front of this one.
    pub closed spec fn handed_out(&self) -> nat {
        self.handed_out as nat
    }

    /// How many files have been dispatched: those in front of this one.
    pub closed spec fn dispatched(&self) -> nat {
        self.next_spawn as nat
    }

    /// How many files may be in flight at once.
    pub closed spec fn limit(&self) -> nat {
        self.max_in_flight as nat
    }

    /// What is in flight was dispatched and not handed out, and is no more than
    /// the limit.
    pub open spec fn wf(&self) -> bool {
        &&& self.handed_out() <= self.dispatched() <= self.count()
        &&& self.dispatched() - self.handed_out() <= self.limit()
    }

    /// As many files are in flight as may be.
    pub open spec fn topped_up(&self) -> bool {
        self.dispatched() == self.count() || self.dispatched() - self.handed_out() >= self.limit()
    }

    /// A pool for `count` files with `n_workers` workers; nothing has been
    /// dispatched.
    pub fn new(count: usize, n_workers: usize) -> (r: Self)
        ensures
            r.wf(),
            r.count() == count,
            r.limit() == n_workers,
            r.handed_out() == 0,
            r.dispatched() == 0,
    {
        PrefetchPool { count, handed_out: 0, next_spawn: 0, max_in_flight: n_workers }
    }

    /// The next file to dispatch, if one more may be in flight.
    pub fn top_up(&mut self) -> (r: Option<usize>)
        requires
            old(self).wf(),
        ensures
            final(self).wf(),
            final(self).count() == old(self).count(),
            final(self).limit() == old(self).limit(),
            final(self).handed_out() == old(self).handed_out(),
            match r {
                Some(i) => {
                    &&& !old(self).topped_up()
                    &&& i == old(self).dispatched()
                    &&& final(self).dispatched() == old(self).dispatched() + 1
                },
                None => {
                    &&& old(self).topped_up()
                    &&& final(self).dispatched() == old(self).dispatched()
                },
            },
    {
        if self.next_spawn - self.handed_out < self.max_in_flight && self.next_spawn < self.count {
            let i: usize = self.next_spawn;
            self.next_spawn = self.next_spawn + 1;
            Some(i)
        } else {
            None
        }
    }

    /// The next file in queue order, or `None` once every file that was
    /// dispatched has been handed out.
    pub fn next(&mut self) -> (r: Option<usize>)
        requires
            old(self).wf(),
        ensures
            final(self).wf(),
            final(self).count() == old(self).count(),
            final(self).limit() == old(self).limit(),
            final(self).dispatched() == old(self).dispatched(),
            match r {
                Some(i) => {
                    &&& old(self).handed_out() < old(self).dispatched()
                    &&& i == old(self).handed_out()
                    &&& final(self).handed_out() == old(self).handed_out() + 1
                },
                None => {
                    &&& old(self).handed_out() == old(self).dispatched()
                    &&& final(self).handed_out() == old(self).handed_out()
                },
            },
    {
        if self.handed_out < self.next_spawn {
            let i: usize = self.handed_out;
            self.handed_out = self.handed_out + 1;
            Some(i)
        } else {
            None
        }
    }
}

/// A pool that is topped up before each request and has at least one worker
/// ends only when every file has been handed out.
pub proof fn law_a_pool_hands_out_every_file(pool: PrefetchPool)
    requires
        pool.wf(),
        pool.topped_up(),
        pool.limit() > 0,
    ensures
        pool.handed_out() == pool.dispatched() ==> pool.handed_out() == pool.count(),
{
}

/// A pool is topped up exactly if no file is left to be dispatched or as many are
/// in flight as there are workers.
pub proof fn law_a_topped_up_pool_is_full(pool: PrefetchPool)
    requires
        pool.wf(),
    ensures
        pool.handed_out() <= pool.dispatched() <= pool.count(),
        pool.dispatched() <= pool.handed_out() + pool.limit(),
        pool.topped_up() <==> pool.dispatched() == pool.count() || pool.dispatched()
            == pool.handed_out() + pool.limit(),
{
}

} // verus!
