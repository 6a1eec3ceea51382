//! Putting file content together from the records of a diff.
//!
//! Changes and file content are paired by position across the whole diff: each
//! change that has content is queued as it is read, and the content records
//! that come fill the queued changes one after the other. One file may span
//! several records; it is complete when it has the size that the metadata of
//! its change says.

use crate::bytes;
use crate::error::{FormatProblem, GappedError};
use crate::format::header::{FileHeader, RecordModel, RecordType};
use crate::format::reader;
use crate::format::reader::{FormatReader, NextHead, ReaderModel, Step};
use crate::format::roundtrip;
use crate::format::roundtrip::ReadAll;
use crate::model::diff;
use crate::model::diff::{Change, ChangeKind, ChangeModel, Diff};
use std::collections::VecDeque;
use vstd::prelude::*;

verus! {

/// Whether a diff is of a version that can be applied.
pub fn check_diff_version(header: &FileHeader) -> (r: Result<(), GappedError>)
    ensures
        r is Ok <==> !(header.file_type@ == "diff"@ && header.version != Diff::CURRENT_VERSION),
        r matches Err(e) ==> e == GappedError::InvalidFormat(
            FormatProblem::UnsupportedDiffVersion {
                found: header.version,
                supported: Diff::CURRENT_VERSION,
            },
        ),
{
    if header.file_type == "diff".to_owned() && header.version != Diff::CURRENT_VERSION {
        return Err(
            GappedError::InvalidFormat(
                FormatProblem::UnsupportedDiffVersion {
                    found: header.version,
                    supported: Diff::CURRENT_VERSION,
                },
            ),
        );
    }
    Ok(())
}

/// How many bytes of file content belong to a change.
pub fn expected_content_size(change: &Change) -> (r: u64)
    requires
        change@.wf(),
    ensures
        r == change@.content_size(),
{
    match &change.kind {
        ChangeKind::Added(added) => if added.has_content {
            added.entry.metadata.size
        } else {
            0
        },
        ChangeKind::Modified(modified) => if modified.has_content {
            match modified.new_metadata {
                Some(m) => m.size,
                None => 0,
            }
        } else {
            0
        },
        ChangeKind::Removed(_) => 0,
    }
}

/// A file content that is complete, with the change that it belongs to.
#[derive(Debug)]
pub struct WriteJob {
    pub change: Change,
    pub payload: Vec<u8>,
}

/// The changes that wait for content: those queued, and the one whose content
/// has begun to come, with what has come.
#[verifier::ext_equal]
pub struct PendingModel {
    pub queue: Seq<ChangeModel>,
    pub current: Option<(ChangeModel, Seq<u8>)>,
}

impl PendingModel {
    /// After reading a change.
    pub open spec fn with_change(self, c: ChangeModel) -> PendingModel {
        if c.has_content() {
            PendingModel { queue: self.queue.push(c), ..self }
        } else {
            self
        }
    }

    /// Whether nothing waits for content.
    pub open spec fn is_idle(self) -> bool {
        self.current is None && self.queue.len() == 0
    }

    /// With the next change in the queue taken up, if none is.
    pub open spec fn taken_up(self) -> PendingModel {
        if self.current is None && self.queue.len() > 0 {
            PendingModel {
                queue: self.queue.drop_first(),
                current: Some((self.queue[0], Seq::empty())),
            }
        } else {
            self
        }
    }

    /// With more bytes for the change that has been taken up.
    pub open spec fn extended(self, data: Seq<u8>) -> PendingModel {
        match self.current {
            Some((c, buffer)) => PendingModel { current: Some((c, buffer + data)), ..self },
            None => self,
        }
    }

    /// Whether the content that has been taken up is complete.
    pub open spec fn is_complete(self) -> bool {
        self.current matches Some((c, buffer)) && buffer.len() >= c.content_size()
    }

    /// After reading a content record: what then waits, and the content that it
    /// completes, if it does. A record that no change waits for is dropped.
    pub open spec fn with_content(self, data: Seq<u8>) -> (
        PendingModel,
        Option<(ChangeModel, Seq<u8>)>,
    ) {
        if self.is_idle() {
            (self, None)
        } else {
            let next = self.taken_up().extended(data);
            if next.is_complete() {
                (PendingModel { current: None, ..next }, next.current)
            } else {
                (next, None)
            }
        }
    }
}

/// Where in a record the reading of a diff stands.
#[derive(Clone, Copy, Debug, PartialEq, Eq, Structural)]
pub enum Stage {
    /// In front of a record.
    Idle,
    /// In front of the payload of a change, of this length.
    Payload(u64),
    /// In a file content of which this many bytes are left.
    Content(u64),
}

/// How far the content of a diff has been put together.
#[verifier::ext_equal]
pub struct AssemblerModel {
    pub pending: PendingModel,
    pub stage: Stage,
}

/// What comes next in a diff.
pub enum EventModel {
    /// It is not there yet.
    Short,
    /// A change, as it is serialized.
    Change(Seq<u8>),
    /// A file content that is complete.
    Job(ChangeModel, Seq<u8>),
    /// The end of the file.
    End,
    /// The file ends in a wrong checksum.
    BadChecksum { stored: Seq<u8>, actual: Seq<u8> },
    /// There is a record of an unknown type.
    BadType(u8),
}

/// What comes next in a diff, and how far reading it goes.
pub open spec fn next_event(a: AssemblerModel, r: ReaderModel) -> (
    AssemblerModel,
    ReaderModel,
    EventModel,
)
    decreases
            r.pending().len(),
            (if a.stage is Content {
                1nat
            } else {
                0nat
            }),
{
    let idle = AssemblerModel { stage: Stage::Idle, ..a };
    match a.stage {
        Stage::Payload(len) => if r.lacks(len as int) {
            (a, r, EventModel::Short)
        } else {
            (idle, r.advance(len as int), EventModel::Change(r.pending().take(len as int)))
        },
        Stage::Content(left) => {
            let n = if r.pending().len() < left {
                r.pending().len() as int
            } else {
                left as int
            };
            let pending = a.pending.extended(r.pending().take(n));
            let after = r.advance(n);
            if n < left && !r.ended && !r.broken {
                (
                    AssemblerModel { pending, stage: Stage::Content((left - n) as u64) },
                    after,
                    EventModel::Short,
                )
            } else if pending.is_complete() {
                (
                    AssemblerModel {
                        pending: PendingModel { current: None, ..pending },
                        stage: Stage::Idle,
                    },
                    after,
                    EventModel::Job((pending.current->0).0, (pending.current->0).1),
                )
            } else {
                next_event(AssemblerModel { pending, stage: Stage::Idle }, after)
            }
        },
        Stage::Idle => {
            let s = r.settled();
            match s.next_head() {
                NextHead::Short => (a, s, EventModel::Short),
                NextHead::End => (
                    a,
                    (ReaderModel { finished: true, ..s.advance(25) }),
                    EventModel::End,
                ),
                NextHead::BadChecksum { stored, actual } => (
                    a,
                    s.advance(9),
                    EventModel::BadChecksum { stored, actual },
                ),
                NextHead::BadType(b) => (a, s, EventModel::BadType(b)),
                NextHead::Record(t, len) => {
                    let after = s.advance(9);
                    if t == RecordType::DiffChange {
                        if after.lacks(len as int) {
                            (
                                AssemblerModel { stage: Stage::Payload(len as u64), ..a },
                                after,
                                EventModel::Short,
                            )
                        } else {
                            (
                                a,
                                after.advance(len as int),
                                EventModel::Change(after.pending().take(len as int)),
                            )
                        }
                    } else if t == RecordType::FileContent && !a.pending.is_idle() {
                        next_event(
                            AssemblerModel {
                                pending: a.pending.taken_up(),
                                stage: Stage::Content(len as u64),
                            },
                            after,
                        )
                    } else {
                        next_event(a, (ReaderModel { skip: len, ..after }).settled())
                    }
                },
            }
        },
    }
}

/// What comes next in a diff.
#[derive(Debug)]
pub enum DiffEvent {
    /// A change, as it is serialized. It is to be handed to
    /// [`ContentAssembler::push_change`].
    Change(Vec<u8>),
    /// A file content that is complete.
    Job(WriteJob),
    /// The end of the file.
    End,
}

/// A change whose content has begun to come.
#[derive(Debug)]
pub struct PendingContent {
    change: Change,
    buffer: Vec<u8>,
}

/// Puts file content together from the records of a diff. The files of a split
/// diff are read one after the other with the same assembler.
pub struct ContentAssembler {
    queue: VecDeque<Change>,
    current: Option<PendingContent>,
    stage: Stage,
}

impl View for ContentAssembler {
    type V = AssemblerModel;

    closed spec fn view(&self) -> AssemblerModel {
        AssemblerModel {
            pending: PendingModel {
                queue: diff::change_views(self.queue@),
                current: match self.current {
                    Some(pc) => Some((pc.change@, pc.buffer@)),
                    None => None,
                },
            },
            stage: self.stage,
        }
    }
}

impl ContentAssembler {
    /// Every change that waits says how long its content is.
    pub closed spec fn wf(&self) -> bool {
        &&& forall|i: int| 0 <= i < self.queue@.len() ==> (#[trigger] self.queue@[i])@.wf()
        &&& self.current matches Some(pc) ==> pc.change@.wf()
        &&& self.stage is Content ==> self.current is Some
    }

    /// Nothing waits for content.
    pub fn new() -> (r: Self)
        ensures
            r.wf(),
            r@ == (AssemblerModel {
                pending: PendingModel { queue: Seq::empty(), current: None },
                stage: Stage::Idle,
            }),
    {
        let r = ContentAssembler { queue: VecDeque::new(), current: None, stage: Stage::Idle };
        assert(r@.pending.queue =~= Seq::empty());
        r
    }

    /// Takes note of a change that was read.
    pub fn push_change(&mut self, change: Change)
        requires
            old(self).wf(),
            change@.wf(),
        ensures
            final(self).wf(),
            final(self)@ == (AssemblerModel {
                pending: old(self)@.pending.with_change(change@),
                ..old(self)@
            }),
    {
        let ghost c = change@;
        if change.has_content() {
            self.queue.push_back(change);
            assert(self@.pending.queue =~= old(self)@.pending.queue.push(c));
        }
    }

    /// Reads on in a file of the diff up to the next change, the next file
    /// content that is complete, or the end of the file.
    pub fn next_event(&mut self, reader: &mut FormatReader) -> (r: Result<
        Step<DiffEvent>,
        GappedError,
    >)
        requires
            old(self).wf(),
            old(reader).wf(),
            !old(reader)@.finished,
            old(self)@.stage is Idle || old(reader)@.skip == 0,
        ensures
            final(self).wf(),
            final(reader).wf(),
            final(self)@.stage is Idle || final(reader)@.skip == 0,
            ({
                let (a, m, event) = next_event(old(self)@, old(reader)@);
                &&& final(self)@ == a
                &&& final(reader)@ == m
                &&& match event {
                    EventModel::Short => m.is_short(r),
                    EventModel::Change(p) => r matches Ok(Step::Ready(DiffEvent::Change(v))) && v@
                        == p,
                    EventModel::Job(c, p) => r matches Ok(Step::Ready(DiffEvent::Job(j)))
                        && j.change@ == c && j.payload@ == p,
                    EventModel::End => r == Ok::<Step<DiffEvent>, GappedError>(
                        Step::Ready(DiffEvent::End),
                    ),
                    EventModel::BadChecksum { stored, actual } => r matches Err(e)
                        && e matches GappedError::ChecksumMismatch { expected, got }
                        && expected@ == stored && got@ == actual,
                    EventModel::BadType(b) => r == Err::<Step<DiffEvent>, GappedError>(
                        GappedError::InvalidFormat(FormatProblem::UnknownRecordType(b)),
                    ),
                }
            }),
    {
        let ghost goal = next_event(self@, reader@);
        loop
            invariant
                self.wf(),
                reader.wf(),
                !reader@.finished,
                self@.stage is Idle || reader@.skip == 0,
                goal == next_event(old(self)@, old(reader)@),
                next_event(self@, reader@) == goal,
            decreases
                    reader@.pending().len(),
                    (if self@.stage is Content {
                        1int
                    } else {
                        0int
                    }),
        {
            let ghost a = self@;
            let ghost m = reader@;
            match self.stage {
                Stage::Payload(len) => {
                    match reader.read_payload(len) {
                        Ok(Step::Ready(payload)) => {
                            self.stage = Stage::Idle;
                            return Ok(Step::Ready(DiffEvent::Change(payload)));
                        },
                        Ok(Step::NeedMore) => {
                            return Ok(Step::NeedMore);
                        },
                        Err(e) => {
                            return Err(e);
                        },
                    }
                },
                Stage::Content(len) => {
                    let mut left: u64 = len;
                    let mut complete: bool = false;
                    proof {
                        let n = if m.pending().len() < len {
                            m.pending().len() as int
                        } else {
                            len as int
                        };
                        reader::lemma_advance(m, n);
                    }
                    match &mut self.current {
                        Some(pc) => {
                            left = reader.copy_payload_to(len, &mut pc.buffer);
                            complete = pc.buffer.len() as u64 >= expected_content_size(&pc.change);
                        },
                        None => {},
                    }
                    assert(self@.pending == a.pending.extended(m.pending().take(len - left)));
                    if left > 0 && !reader.at_end_of_input() {
                        self.stage = Stage::Content(left);
                        assert(m.is_short(Ok::<Step<DiffEvent>, GappedError>(Step::NeedMore)));
                        return Ok(Step::NeedMore);
                    }
                    self.stage = Stage::Idle;
                    if complete {
                        match self.current.take() {
                            Some(pc) => {
                                return Ok(
                                    Step::Ready(
                                        DiffEvent::Job(
                                            WriteJob { change: pc.change, payload: pc.buffer },
                                        ),
                                    ),
                                );
                            },
                            None => {},
                        }
                    }
                },
                Stage::Idle => {
                    proof {
                        reader::lemma_settled(m);
                    }
                    match reader.next_record_header() {
                        Ok(Step::Ready(Some(h))) => {
                            proof {
                                reader::lemma_advance(m.settled(), 9);
                            }
                            match h.record_type {
                                RecordType::DiffChange => {
                                    match reader.read_payload(h.payload_len) {
                                        Ok(Step::Ready(payload)) => {
                                            return Ok(Step::Ready(DiffEvent::Change(payload)));
                                        },
                                        Ok(Step::NeedMore) => {
                                            self.stage = Stage::Payload(h.payload_len);
                                            return Ok(Step::NeedMore);
                                        },
                                        Err(e) => {
                                            self.stage = Stage::Payload(h.payload_len);
                                            return Err(e);
                                        },
                                    }
                                },
                                RecordType::FileContent => {
                                    if self.current.is_none() {
                                        match self.queue.pop_front() {
                                            Some(change) => {
                                                self.current =
                                                Some(PendingContent { change, buffer: Vec::new() });
                                                self.stage = Stage::Content(h.payload_len);
                                                proof {
                                                    assert(self@.pending.queue
                                                        =~= a.pending.queue.drop_first());
                                                    assert(self.current->0.buffer@
                                                        =~= Seq::<u8>::empty());
                                                    assert(self@.pending =~= a.pending.taken_up());
                                                }
                                            },
                                            None => {
                                                assert(a.pending.is_idle());
                                                reader.skip_payload(h.payload_len);
                                                proof {
                                                    lemma_skipped(m.settled(), h.payload_len as nat);
                                                }
                                            },
                                        }
                                    } else {
                                        self.stage = Stage::Content(h.payload_len);
                                    }
                                },
                                RecordType::SnapshotEntry => {
                                    reader.skip_payload(h.payload_len);
                                    proof {
                                        lemma_skipped(m.settled(), h.payload_len as nat);
                                    }
                                },
                            }
                        },
                        Ok(Step::Ready(None)) => {
                            return Ok(Step::Ready(DiffEvent::End));
                        },
                        Ok(Step::NeedMore) => {
                            return Ok(Step::NeedMore);
                        },
                        Err(e) => {
                            return Err(e);
                        },
                    }
                },
            }
        }
    }

    /// Whether all announced file content has come, once all files of the diff
    /// have been read.
    pub fn finish(&self) -> (r: Result<(), GappedError>)
        ensures
            r is Ok <==> self@.pending.is_idle(),
            r matches Err(e) ==> e == GappedError::InvalidFormat(FormatProblem::UnresolvedContent),
    {
        if self.current.is_some() || self.queue.len() > 0 {
            return Err(GappedError::InvalidFormat(FormatProblem::UnresolvedContent));
        }
        Ok(())
    }
}

/// A change record gives its payload.
proof fn lemma_change_event(a: AssemblerModel, r: ReaderModel, len: nat)
    requires
        a.stage is Idle,
        r.wf(),
        r.skip == 0,
        r.next_head() == NextHead::Record(RecordType::DiffChange, len),
        r.pending().len() >= 9 + len,
    ensures
        next_event(a, r) == (
            a,
            r.advance(9 + len as int),
            EventModel::Change(r.pending().subrange(9, 9 + len as int)),
        ),
{
    reader::lemma_settled(r);
    reader::lemma_advance(r, 9);
    let behind = r.advance(9);
    reader::lemma_advance(behind, len as int);
    assert(behind.advance(len as int) == r.advance(9 + len as int));
    assert(behind.pending().take(len as int) =~= r.pending().subrange(9, 9 + len as int));
}

/// A content record goes to the change that waits for it.
proof fn lemma_content_event(a: AssemblerModel, r: ReaderModel, len: nat)
    requires
        a.stage is Idle,
        r.wf(),
        r.skip == 0,
        len <= u64::MAX,
        r.next_head() == NextHead::Record(RecordType::FileContent, len),
        r.pending().len() >= 9 + len,
        !a.pending.is_idle(),
    ensures
        ({
            let after = r.advance(9 + len as int);
            let payload = r.pending().subrange(9, 9 + len as int);
            let (pending, job) = a.pending.with_content(payload);
            let filled = AssemblerModel { pending, stage: Stage::Idle };
            match job {
                Some((c, content)) => next_event(a, r) == (
                    filled,
                    after,
                    EventModel::Job(c, content),
                ),
                None => next_event(a, r) == next_event(filled, after),
            }
        }),
{
    reader::lemma_settled(r);
    reader::lemma_advance(r, 9);
    let behind = r.advance(9);
    reader::lemma_advance(behind, len as int);
    let after = r.advance(9 + len as int);
    let payload = r.pending().subrange(9, 9 + len as int);
    assert(behind.advance(len as int) == after);
    assert(behind.pending().take(len as int) =~= payload);
    let begun = AssemblerModel {
        pending: a.pending.taken_up(),
        stage: Stage::Content(len as u64),
    };
    assert(next_event(a, r) == next_event(begun, behind));
    let pending = begun.pending.extended(payload);
    assert(pending == a.pending.taken_up().extended(payload));
    if pending.is_complete() {
        assert(next_event(begun, behind) == (
            AssemblerModel {
                pending: PendingModel { current: None, ..pending },
                stage: Stage::Idle,
            },
            after,
            EventModel::Job((pending.current->0).0, (pending.current->0).1),
        ));
    } else {
        assert(next_event(begun, behind) == next_event(
            AssemblerModel { pending, stage: Stage::Idle },
            after,
        ));
    }
}

/// A record that nothing waits for is passed over.
proof fn lemma_other_event(a: AssemblerModel, r: ReaderModel, t: RecordType, len: nat)
    requires
        a.stage is Idle,
        r.wf(),
        r.skip == 0,
        r.next_head() == NextHead::Record(t, len),
        r.pending().len() >= 9 + len,
        t == RecordType::SnapshotEntry || (t == RecordType::FileContent && a.pending.is_idle()),
    ensures
        next_event(a, r) == next_event(a, r.advance(9 + len as int)),
{
    reader::lemma_settled(r);
    reader::lemma_advance(r, 9);
    let behind = r.advance(9);
    let skipping = ReaderModel { skip: len, ..behind };
    reader::lemma_settled(skipping);
    assert(skipping.settled() =~= r.advance(9 + len as int));
    assert(next_event(a, r) == next_event(a, skipping.settled()));
}

proof fn lemma_skipped(s: ReaderModel, len: nat)
    requires
        s.wf(),
        s.skip == 0,
        s.pending().len() >= 9,
    ensures
        (ReaderModel { skip: len, ..s.advance(9) }).settled().pending().len() < s.pending().len(),
{
    reader::lemma_advance(s, 9);
    reader::lemma_settled(ReaderModel { skip: len, ..s.advance(9) });
}

/// Reading a diff follows its records: a change record gives its payload, a
/// content record goes to the change that waits for it and gives a complete
/// file content if it completes it, other records are passed over, and at the
/// end of the records comes the end.
pub proof fn law_events_follow_the_records(
    a: AssemblerModel,
    r: ReaderModel,
    rs: Seq<RecordModel>,
)
    requires
        a.stage is Idle,
        r.wf(),
        r.skip == 0,
        roundtrip::read_all(r) == ReadAll::All(rs),
    ensures
        rs.len() == 0 ==> next_event(a, r).2 is End && next_event(a, r).0 == a,
        rs.len() > 0 ==> {
            let after = r.advance(9 + rs[0].payload.len() as int);
            let (pending, job) = a.pending.with_content(rs[0].payload);
            let filled = AssemblerModel { pending, stage: Stage::Idle };
            &&& after.wf()
            &&& after.skip == 0
            &&& roundtrip::read_all(after) == ReadAll::All(rs.drop_first())
            &&& match rs[0].record_type {
                RecordType::DiffChange => next_event(a, r) == (
                    a,
                    after,
                    EventModel::Change(rs[0].payload),
                ),
                RecordType::FileContent => match job {
                    Some((c, content)) => next_event(a, r) == (
                        filled,
                        after,
                        EventModel::Job(c, content),
                    ),
                    None => next_event(a, r) == next_event(filled, after),
                },
                RecordType::SnapshotEntry => next_event(a, r) == next_event(a, after),
            }
        },
{
    reader::lemma_settled(r);
    match r.next_head() {
        NextHead::Record(t, len) => {
            let p = r.pending();
            let head = RecordModel { record_type: t, payload: p.subrange(9, 9 + len as int) };
            let after = r.advance(9 + len as int);
            roundtrip::lemma_read_all_step(r, t, len);
            match roundtrip::read_all(after) {
                ReadAll::All(q) => {
                    assert(rs =~= seq![head] + q);
                    assert(rs.drop_first() =~= q);
                },
                _ => {},
            }
            assert(rs[0] == head);
            bytes::lemma_le_value_bound(p.take(8));
            bytes::lemma_pow256();
            reader::lemma_advance(r, 9 + len as int);
            match t {
                RecordType::DiffChange => {
                    lemma_change_event(a, r, len);
                },
                RecordType::FileContent if !a.pending.is_idle() => {
                    lemma_content_event(a, r, len);
                },
                _ => {
                    lemma_other_event(a, r, t, len);
                    assert(AssemblerModel { pending: a.pending, stage: Stage::Idle } == a);
                },
            }
        },
        _ => {},
    }
}

} // verus!
