//! Picking the records of one type out of a file.

use crate::error::{FormatProblem, GappedError};
use crate::format::header::{RecordModel, RecordType};
use crate::format::reader;
use crate::format::reader::{FormatReader, NextHead, ReaderModel, Step};
use crate::format::roundtrip;
use crate::format::roundtrip::ReadAll;
use crate::order;
use vstd::prelude::*;

verus! {

/// Which records are picked, and where picking ends.
#[derive(Clone, Copy, Debug, PartialEq, Eq, Structural)]
pub struct Selection {
    /// The type of the records that are picked.
    pub wanted: RecordType,
    /// A record of this type ends the picking, as the end of the file does.
    pub stop_at: Option<RecordType>,
}

/// How far records have been picked out of a file.
#[verifier::ext_equal]
pub struct FilterModel {
    pub reader: ReaderModel,
    /// The length of the payload that is waited for.
    pub awaiting: Option<nat>,
    /// Whether nothing more will be picked.
    pub done: bool,
}

/// What the next pick gives.
pub enum Pick {
    /// It is not there yet.
    Short,
    /// The payload of a record of the wanted type.
    Payload(Seq<u8>),
    /// There is none.
    Done,
    /// The file ends in a wrong checksum.
    BadChecksum { stored: Seq<u8>, actual: Seq<u8> },
    /// There is a record of an unknown type.
    BadType(u8),
}

/// The next pick, and how far it leaves the file.
pub open spec fn pick(m: FilterModel, selection: Selection) -> (FilterModel, Pick)
    decreases m.reader.pending().len(),
{
    if m.done {
        (m, Pick::Done)
    } else {
        match m.awaiting {
            Some(len) => if m.reader.lacks(len as int) {
                (m, Pick::Short)
            } else {
                (
                    FilterModel {
                        reader: m.reader.advance(len as int),
                        awaiting: None,
                        done: false,
                    },
                    Pick::Payload(m.reader.pending().take(len as int)),
                )
            },
            None => {
                let r = m.reader.settled();
                match r.next_head() {
                    NextHead::Short => (FilterModel { reader: r, ..m }, Pick::Short),
                    NextHead::End => (
                        FilterModel {
                            reader: ReaderModel { finished: true, ..r.advance(25) },
                            awaiting: None,
                            done: true,
                        },
                        Pick::Done,
                    ),
                    NextHead::BadChecksum { stored, actual } => (
                        FilterModel { reader: r.advance(9), ..m },
                        Pick::BadChecksum { stored, actual },
                    ),
                    NextHead::BadType(b) => (FilterModel { reader: r, ..m }, Pick::BadType(b)),
                    NextHead::Record(t, len) => {
                        let after = r.advance(9);
                        if t == selection.wanted {
                            if after.lacks(len as int) {
                                (
                                    FilterModel {
                                        reader: after,
                                        awaiting: Some(len),
                                        done: false,
                                    },
                                    Pick::Short,
                                )
                            } else {
                                (
                                    FilterModel {
                                        reader: after.advance(len as int),
                                        awaiting: None,
                                        done: false,
                                    },
                                    Pick::Payload(after.pending().take(len as int)),
                                )
                            }
                        } else if selection.stop_at == Some(t) {
                            (
                                FilterModel { reader: after, awaiting: None, done: true },
                                Pick::Done,
                            )
                        } else {
                            pick(
                                FilterModel {
                                    reader: (ReaderModel { skip: len, ..after }).settled(),
                                    awaiting: None,
                                    done: false,
                                },
                                selection,
                            )
                        }
                    },
                }
            },
        }
    }
}

/// Picks the records of one type out of a file, one at a time.
pub struct RecordFilter {
    reader: FormatReader,
    selection: Selection,
    awaiting: Option<u64>,
    done: bool,
}

impl RecordFilter {
    pub closed spec fn selection(&self) -> Selection {
        self.selection
    }

    /// Whether the decoder of a compressed file has failed.
    pub closed spec fn gave_up(&self) -> bool {
        self.reader.gave_up()
    }

    /// What holds between any two steps. A stream is broken only where its
    /// decoder has failed.
    pub open spec fn wf(&self) -> bool {
        self.inv() && self@.reader.broken == self.gave_up()
    }

    pub closed spec fn inv(&self) -> bool {
        &&& self.reader.wf()
        &&& self.reader@.finished ==> self.done
        &&& self.awaiting is Some ==> self.reader@.skip == 0
    }
}

impl View for RecordFilter {
    type V = FilterModel;

    closed spec fn view(&self) -> FilterModel {
        FilterModel {
            reader: self.reader@,
            awaiting: match self.awaiting {
                Some(len) => Some(len as nat),
                None => None,
            },
            done: self.done,
        }
    }
}

impl RecordFilter {
    /// Picks records from where `reader` stands.
    pub fn new(reader: FormatReader, selection: Selection) -> (r: Self)
        requires
            reader.wf(),
            !reader@.finished,
        ensures
            r.wf(),
            r.selection() == selection,
            r@ == (FilterModel { reader: reader@, awaiting: None, done: false }),
    {
        RecordFilter { reader, selection, awaiting: None, done: false }
    }

    /// Feeds the next bytes of the file.
    pub fn feed(&mut self, data: &[u8])
        requires
            old(self).wf(),
        ensures
            final(self).wf(),
            final(self).selection() == old(self).selection(),
            final(self)@.awaiting == old(self)@.awaiting,
            final(self)@.done == old(self)@.done,
            reader::is_fed(old(self)@.reader, data@, final(self)@.reader),
    {
        self.reader.feed(data);
    }

    /// Takes note that no more bytes will be fed.
    pub fn end_input(&mut self)
        requires
            old(self).wf(),
        ensures
            final(self).wf(),
            final(self).selection() == old(self).selection(),
            final(self)@ == (FilterModel {
                reader: (ReaderModel { ended: true, ..old(self)@.reader }),
                ..old(self)@
            }),
    {
        self.reader.end_input();
    }

    /// The payload of the next record of the wanted type; `None` if there is
    /// none.
    pub fn next_payload(&mut self) -> (r: Result<Step<Option<Vec<u8>>>, GappedError>)
        requires
            old(self).wf(),
        ensures
            final(self).wf(),
            final(self).selection() == old(self).selection(),
            ({
                let (after, picked) = pick(old(self)@, old(self).selection());
                &&& final(self)@ == after
                &&& match picked {
                    Pick::Short => after.reader.is_short(r),
                    Pick::Payload(p) => r matches Ok(Step::Ready(Some(v))) && v@ == p,
                    Pick::Done => r == Ok::<Step<Option<Vec<u8>>>, GappedError>(Step::Ready(None)),
                    Pick::BadChecksum { stored, actual } => r matches Err(e)
                        && e matches GappedError::ChecksumMismatch { expected, got }
                        && expected@ == stored && got@ == actual,
                    Pick::BadType(b) => r == Err::<Step<Option<Vec<u8>>>, GappedError>(
                        GappedError::InvalidFormat(FormatProblem::UnknownRecordType(b)),
                    ),
                }
            }),
    {
        let ghost goal = pick(self@, self.selection);
        loop
            invariant
                self.wf(),
                self.selection() == old(self).selection(),
                goal == pick(old(self)@, old(self).selection()),
                pick(self@, self.selection) == goal,
            decreases self@.reader.pending().len(), (if self@.awaiting is Some {
                0int
            } else {
                1int
            }),
        {
            if self.done {
                return Ok(Step::Ready(None));
            }
            match self.awaiting {
                Some(len) => {
                    let ghost before = self@;
                    match self.reader.read_payload(len) {
                        Ok(Step::Ready(payload)) => {
                            self.awaiting = None;
                            return Ok(Step::Ready(Some(payload)));
                        },
                        Ok(Step::NeedMore) => {
                            return Ok(Step::NeedMore);
                        },
                        Err(e) => {
                            return Err(e);
                        },
                    }
                },
                None => {
                    let ghost before = self@;
                    match self.reader.next_record_header() {
                        Ok(Step::Ready(Some(h))) => {
                            if h.record_type == self.selection.wanted {
                                self.awaiting = Some(h.payload_len);
                            } else {
                                let stop = match self.selection.stop_at {
                                    Some(t) => t == h.record_type,
                                    None => false,
                                };
                                if stop {
                                    self.done = true;
                                    return Ok(Step::Ready(None));
                                }
                                self.reader.skip_payload(h.payload_len);
                            }
                        },
                        Ok(Step::Ready(None)) => {
                            self.done = true;
                            return Ok(Step::Ready(None));
                        },
                        Ok(Step::NeedMore) => {
                            return Ok(Step::NeedMore);
                        },
                        Err(e) => {
                            return Err(e);
                        },
                    }
                },
            }
        }
    }
}

/// The payloads of the wanted records up to the first record that ends the
/// picking.
pub open spec fn picked(rs: Seq<RecordModel>, selection: Selection) -> Seq<Seq<u8>>
    decreases rs.len(),
{
    if rs.len() == 0 {
        Seq::empty()
    } else if rs[0].record_type == selection.wanted {
        seq![rs[0].payload] + picked(rs.drop_first(), selection)
    } else if selection.stop_at == Some(rs[0].record_type) {
        Seq::empty()
    } else {
        picked(rs.drop_first(), selection)
    }
}

/// Picking from a file that reads to its end gives the payloads of the wanted
/// records, in order, and then nothing.
pub proof fn law_picking_follows_the_records(
    m: FilterModel,
    selection: Selection,
    rs: Seq<RecordModel>,
) -> (rest: Seq<RecordModel>)
    requires
        m.reader.wf(),
        m.reader.skip == 0,
        m.awaiting is None,
        !m.done,
        roundtrip::read_all(m.reader) == ReadAll::All(rs),
    ensures
        ({
            let (after, p) = pick(m, selection);
            if picked(rs, selection).len() == 0 {
                p == Pick::Done && after.done
            } else {
                &&& p == Pick::Payload(picked(rs, selection)[0])
                &&& picked(rest, selection) == picked(rs, selection).drop_first()
                &&& after.reader.wf()
                &&& after.reader.skip == 0
                &&& after.awaiting is None
                &&& !after.done
                &&& roundtrip::read_all(after.reader) == ReadAll::All(rest)
            }
        }),
    decreases rs.len(),
{
    let r = m.reader;
    reader::lemma_settled(r);
    match r.next_head() {
        NextHead::Record(t, len) => {
            let p = r.pending();
            let tail = rs.drop_first();
            let head = RecordModel { record_type: t, payload: p.subrange(9, 9 + len as int) };
            let next = r.advance(9 + len as int);
            match roundtrip::read_all(next) {
                ReadAll::All(q) => {
                    assert(rs =~= seq![head] + q);
                    assert(tail =~= q);
                },
                _ => {},
            }
            assert(rs[0] == head);
            reader::lemma_advance(r, 9);
            reader::lemma_advance(r.advance(9), len as int);
            assert(r.advance(9).advance(len as int) == next);
            assert(r.advance(9).pending().take(len as int) =~= head.payload);
            if t == selection.wanted {
                assert(picked(rs, selection).drop_first() =~= picked(tail, selection));
                tail
            } else if selection.stop_at == Some(t) {
                tail
            } else {
                let skipped = (ReaderModel { skip: len, ..r.advance(9) }).settled();
                reader::lemma_settled(ReaderModel { skip: len, ..r.advance(9) });
                assert(skipped =~= next);
                law_picking_follows_the_records(
                    FilterModel { reader: next, awaiting: None, done: false },
                    selection,
                    tail,
                )
            }
        },
        _ => rs,
    }
}

/// Picking to the end of a file fails exactly where reading it does, and with
/// the same fault.
pub proof fn lemma_picking_fails_as_reading_does(m: FilterModel, selection: Selection)
    requires
        m.reader.wf(),
        m.reader.skip == 0,
        m.awaiting is None,
        !m.done,
        selection.stop_at is None,
    ensures
        ({
            let (after, p) = pick(m, selection);
            match p {
                Pick::Payload(_) => {
                    &&& after.reader.wf()
                    &&& after.reader.skip == 0
                    &&& after.awaiting is None
                    &&& !after.done
                    &&& after.reader.ended == m.reader.ended
                    &&& after.reader.broken == m.reader.broken
                    &&& after.reader.pending().len() < m.reader.pending().len()
                    &&& (roundtrip::read_all(m.reader) is All <==> roundtrip::read_all(
                        after.reader,
                    ) is All)
                    &&& (roundtrip::read_all(m.reader) is All
                        || roundtrip::read_all(m.reader) == roundtrip::read_all(after.reader))
                },
                Pick::Done => roundtrip::read_all(m.reader) is All,
                Pick::Short => {
                    &&& roundtrip::read_all(m.reader) is Short
                    &&& after.reader.ended == m.reader.ended
                    &&& after.reader.broken == m.reader.broken
                },
                Pick::BadChecksum { stored, actual } => roundtrip::read_all(m.reader)
                    == (ReadAll::BadChecksum { stored, actual }),
                Pick::BadType(b) => roundtrip::read_all(m.reader) == ReadAll::BadType(b),
            }
        }),
    decreases m.reader.pending().len(),
{
    let r = m.reader;
    reader::lemma_settled(r);
    match r.next_head() {
        NextHead::Record(t, len) => {
            reader::lemma_advance(r, 9);
            roundtrip::lemma_read_all_step(r, t, len);
            let after = r.advance(9);
            assert(after.pending().len() == r.pending().len() - 9);
            if after.pending().len() >= len {
                reader::lemma_advance(after, len as int);
                assert(after.advance(len as int) == r.advance(9 + len as int));
                assert(!after.lacks(len as int));
            }
            if t != selection.wanted {
                let skipped = ReaderModel { skip: len, ..after };
                reader::lemma_settled(skipped);
                let next = FilterModel {
                    reader: skipped.settled(),
                    awaiting: None,
                    done: false,
                };
                assert(pick(m, selection) == pick(next, selection));
                if after.pending().len() >= len {
                    assert(skipped.settled() =~= r.advance(9 + len as int));
                    lemma_picking_fails_as_reading_does(next, selection);
                } else {
                    reader::lemma_settled(skipped.settled());
                    assert(next.reader.lacks(9));
                    assert(pick(next, selection) == (next, Pick::Short));
                }
            }
        },
        _ => {},
    }
}

/// A pick leaves less behind than it found.
proof fn lemma_pick_shrinks(m: FilterModel, selection: Selection)
    ensures
        ({
            let (after, p) = pick(m, selection);
            p is Payload ==> {
                ||| after.reader.pending().len() < m.reader.pending().len()
                ||| after.reader.pending().len() <= m.reader.pending().len() && m.awaiting is Some
                    && after.awaiting is None
            }
        }),
    decreases m.reader.pending().len(),
{
    let r = m.reader;
    if !m.done && m.awaiting is None && r.wf() {
        reader::lemma_settled(r);
        let s = r.settled();
        match s.next_head() {
            NextHead::Record(t, len) => {
                reader::lemma_advance(s, 9);
                let after = s.advance(9);
                if t == selection.wanted {
                    if !after.lacks(len as int) {
                        reader::lemma_advance(after, len as int);
                    }
                } else {
                    let skipped = ReaderModel { skip: len, ..after };
                    reader::lemma_settled(skipped);
                    lemma_pick_shrinks(
                        FilterModel { reader: skipped.settled(), awaiting: None, done: false },
                        selection,
                    );
                }
            },
            _ => {},
        }
    } else if m.awaiting is Some && r.wf() {
        let len = m.awaiting->0;
        if !r.lacks(len as int) {
            reader::lemma_advance(r, len as int);
        }
    }
}

/// Picking as long as there is something: the payloads picked, how far that
/// leaves the file, and what ended it.
pub open spec fn pick_run(m: FilterModel, selection: Selection) -> (
    FilterModel,
    Seq<Seq<u8>>,
    Pick,
)
    decreases
            m.reader.pending().len(),
            (if m.awaiting is Some {
                1nat
            } else {
                0nat
            }),
    via pick_run_ends
{
    match pick(m, selection) {
        (after, Pick::Payload(p)) => {
            let (end, rest, why) = pick_run(after, selection);
            (end, seq![p] + rest, why)
        },
        (after, why) => (after, Seq::empty(), why),
    }
}

#[via_fn]
proof fn pick_run_ends(m: FilterModel, selection: Selection) {
    lemma_pick_shrinks(m, selection);
}

/// Picking from a file that reads to its end gives the payloads of the wanted
/// records, up to the first record that ends the picking.
pub proof fn law_a_run_picks_everything(
    m: FilterModel,
    selection: Selection,
    rs: Seq<RecordModel>,
)
    requires
        m.reader.wf(),
        m.reader.skip == 0,
        m.awaiting is None,
        !m.done,
        roundtrip::read_all(m.reader) == ReadAll::All(rs),
    ensures
        pick_run(m, selection).1 == picked(rs, selection),
        pick_run(m, selection).2 is Done,
    decreases m.reader.pending().len(),
{
    let rest = law_picking_follows_the_records(m, selection, rs);
    let all = picked(rs, selection);
    if all.len() > 0 {
        lemma_pick_shrinks(m, selection);
        law_a_run_picks_everything(pick(m, selection).0, selection, rest);
        assert(seq![all[0]] + all.drop_first() =~= all);
    } else {
        assert(pick_run(m, selection).1 =~= all);
    }
}

/// Whether two readers stand at the same place of files whose first `n` bytes,
/// behind the magic ones, are the same.
pub open spec fn agree_up_to(a: ReaderModel, b: ReaderModel, n: nat) -> bool {
    &&& a.compressed == b.compressed
    &&& a.taken == b.taken <= n
    &&& a.skip == 0
    &&& b.skip == 0
    &&& n <= a.received.len()
    &&& n <= b.received.len()
    &&& a.received.take(n as int) == b.received.take(n as int)
}

/// A pick that comes to something reads on by a record header at least.
proof fn lemma_pick_reads_on(m: FilterModel, selection: Selection)
    requires
        m.reader.wf(),
        m.reader.skip == 0,
        m.awaiting is None,
        !m.done,
    ensures
        ({
            let (after, p) = pick(m, selection);
            p is Done || p is Payload ==> {
                &&& after.reader.wf()
                &&& after.reader.skip == 0
                &&& after.awaiting is None
                &&& after.done == (p is Done)
                &&& after.reader.taken >= m.reader.taken + 9
            }
        }),
    decreases m.reader.pending().len(),
{
    let r = m.reader;
    reader::lemma_settled(r);
    if let NextHead::Record(t, len) = r.next_head() {
        let after = r.advance(9);
        reader::lemma_advance(r, 9);
        if after.pending().len() >= len {
            reader::lemma_advance(after, len as int);
        }
        if t != selection.wanted && selection.stop_at != Some(t) {
            let skipped = ReaderModel { skip: len, ..after };
            reader::lemma_settled(skipped);
            let next = FilterModel { reader: skipped.settled(), awaiting: None, done: false };
            if after.pending().len() >= len {
                lemma_pick_reads_on(next, selection);
            } else {
                reader::lemma_settled(skipped.settled());
                assert(next.reader.lacks(9));
            }
        }
    }
}

/// A pick that comes to something is the same in files that are the same up to
/// where it ends.
proof fn lemma_pick_agrees(m: FilterModel, n: FilterModel, selection: Selection, upto: nat)
    requires
        agree_up_to(m.reader, n.reader, upto),
        m.awaiting is None,
        n.awaiting is None,
        !m.done,
        !n.done,
        pick(m, selection).1 is Done || pick(m, selection).1 is Payload,
        pick(m, selection).0.reader.taken <= upto,
    ensures
        pick(n, selection).1 == pick(m, selection).1,
        agree_up_to(pick(m, selection).0.reader, pick(n, selection).0.reader, upto),
    decreases m.reader.pending().len(),
{
    let r = m.reader;
    let s = n.reader;
    reader::lemma_settled(r);
    reader::lemma_settled(s);
    lemma_pick_reads_on(m, selection);
    let left = upto - r.taken;
    let p = r.pending();
    let q = s.pending();
    assert(left >= 9);
    assert(p.take(left) =~= q.take(left)) by {
        assert(p.take(left) =~= r.received.take(upto as int).skip(r.taken as int));
        assert(q.take(left) =~= s.received.take(upto as int).skip(s.taken as int));
    }
    assert(p.take(9) =~= p.take(left).take(9));
    assert(q.take(9) =~= q.take(left).take(9));
    assert(p.take(8) =~= p.take(9).take(8));
    assert(q.take(8) =~= q.take(9).take(8));
    assert(p[8] == p.take(9)[8] && q[8] == q.take(9)[8]);
    assert(r.received.take(r.taken as int) =~= r.received.take(upto as int).take(r.taken as int));
    assert(s.received.take(s.taken as int) =~= s.received.take(upto as int).take(s.taken as int));
    assert(r.read_so_far() == s.read_so_far());
    match r.next_head() {
        NextHead::End => {
            assert(p.subrange(9, 25) =~= p.take(left).subrange(9, 25));
            assert(q.subrange(9, 25) =~= q.take(left).subrange(9, 25));
            assert(s.next_head() is End);
        },
        NextHead::Record(t, len) => {
            assert(s.next_head() == NextHead::Record(t, len));
            let after = r.advance(9);
            let after_s = s.advance(9);
            reader::lemma_advance(r, 9);
            reader::lemma_advance(s, 9);
            if t == selection.wanted {
                assert(!after.lacks(len as int));
                assert(9 + len <= left);
                assert(after.pending().take(len as int) =~= p.take(left).subrange(
                    9,
                    9 + len as int,
                ));
                assert(after_s.pending().take(len as int) =~= q.take(left).subrange(
                    9,
                    9 + len as int,
                ));
            } else if selection.stop_at != Some(t) {
                let skipped = ReaderModel { skip: len, ..after };
                let skipped_s = ReaderModel { skip: len, ..after_s };
                reader::lemma_settled(skipped);
                reader::lemma_settled(skipped_s);
                let next = FilterModel { reader: skipped.settled(), awaiting: None, done: false };
                let next_s = FilterModel {
                    reader: skipped_s.settled(),
                    awaiting: None,
                    done: false,
                };
                assert(pick(m, selection) == pick(next, selection));
                assert(pick(n, selection) == pick(next_s, selection));
                if after.pending().len() < len {
                    reader::lemma_settled(skipped.settled());
                    assert(next.reader.lacks(9));
                    assert(pick(next, selection).1 is Short);
                }
                lemma_pick_reads_on(next, selection);
                assert(9 + len <= left);
                lemma_pick_agrees(next, next_s, selection, upto);
            }
        },
        _ => {},
    }
}

/// Where picking comes to an end it has read on.
proof fn lemma_run_reads_on(m: FilterModel, selection: Selection)
    requires
        m.reader.wf(),
        m.reader.skip == 0,
        m.awaiting is None,
        !m.done,
        pick_run(m, selection).2 is Done,
    ensures
        pick_run(m, selection).0.reader.taken >= pick(m, selection).0.reader.taken,
        pick_run(m, selection).0.reader.taken <= pick_run(m, selection).0.reader.received.len(),
    decreases m.reader.pending().len(),
{
    lemma_pick_reads_on(m, selection);
    let (after, p) = pick(m, selection);
    if p is Payload {
        lemma_pick_shrinks(m, selection);
        lemma_pick_reads_on(after, selection);
        lemma_run_reads_on(after, selection);
    }
}

/// What stands behind where picking ends has no influence: two files that are
/// the same up to there give the same payloads. So the changes of a diff do not
/// depend on anything behind the header of its first file content.
pub proof fn law_what_follows_the_end_has_no_influence(
    m: FilterModel,
    n: FilterModel,
    selection: Selection,
)
    requires
        m.awaiting is None,
        n.awaiting is None,
        !m.done,
        !n.done,
        pick_run(m, selection).2 is Done,
        agree_up_to(m.reader, n.reader, pick_run(m, selection).0.reader.taken),
    ensures
        pick_run(n, selection).1 == pick_run(m, selection).1,
        pick_run(n, selection).2 is Done,
        pick_run(n, selection).0.reader.taken == pick_run(m, selection).0.reader.taken,
    decreases m.reader.pending().len(),
{
    let upto = pick_run(m, selection).0.reader.taken;
    let (after, p) = pick(m, selection);
    assert(p is Done || p is Payload);
    lemma_run_reads_on(m, selection);
    lemma_pick_agrees(m, n, selection, upto);
    lemma_pick_reads_on(m, selection);
    lemma_pick_reads_on(n, selection);
    if p is Payload {
        lemma_pick_shrinks(m, selection);
        law_what_follows_the_end_has_no_influence(after, pick(n, selection).0, selection);
    }
}

impl RecordFilter {
    /// Picks records as long as there are any, and appends their payloads to
    /// `out`. Ready once nothing more will be picked.
    pub fn drain(&mut self, out: &mut Vec<Vec<u8>>) -> (r: Result<Step<()>, GappedError>)
        requires
            old(self).wf(),
        ensures
            final(self).wf(),
            final(self).selection() == old(self).selection(),
            ({
                let (after, picks, why) = pick_run(old(self)@, old(self).selection());
                &&& final(self)@ == after
                &&& order::views(final(out)@) == order::views(old(out)@) + picks
                &&& match why {
                    Pick::Done => r == Ok::<Step<()>, GappedError>(Step::Ready(())),
                    Pick::BadChecksum { stored, actual } => r matches Err(e)
                        && e matches GappedError::ChecksumMismatch { expected, got }
                        && expected@ == stored && got@ == actual,
                    Pick::BadType(b) => r == Err::<Step<()>, GappedError>(
                        GappedError::InvalidFormat(FormatProblem::UnknownRecordType(b)),
                    ),
                    _ => after.reader.is_short(r),
                }
            }),
    {
        let ghost goal = pick_run(self@, self.selection);
        proof {
            assert(order::views(out@) + goal.1 =~= order::views(old(out)@) + goal.1);
        }
        loop
            invariant
                self.wf(),
                self.selection() == old(self).selection(),
                goal == pick_run(old(self)@, old(self).selection()),
                pick_run(self@, self.selection).0 == goal.0,
                pick_run(self@, self.selection).2 == goal.2,
                order::views(out@) + pick_run(self@, self.selection).1 == order::views(old(out)@)
                    + goal.1,
            decreases
                    self@.reader.pending().len(),
                    (if self@.awaiting is Some {
                        1int
                    } else {
                        0int
                    }),
        {
            let ghost before = self@;
            proof {
                lemma_pick_shrinks(before, self.selection);
            }
            match self.next_payload() {
                Ok(Step::Ready(Some(payload))) => {
                    proof {
                        let rest = pick_run(self@, self.selection).1;
                        assert(order::views(out@.push(payload)) =~= order::views(out@).push(
                            payload@,
                        ));
                        assert(order::views(out@) + (seq![payload@] + rest) =~= order::views(
                            out@.push(payload),
                        ) + rest);
                    }
                    out.push(payload);
                },
                Ok(Step::Ready(None)) => {
                    assert(order::views(out@) + Seq::<Seq<u8>>::empty() =~= order::views(out@));
                    return Ok(Step::Ready(()));
                },
                Ok(Step::NeedMore) => {
                    assert(order::views(out@) + Seq::<Seq<u8>>::empty() =~= order::views(out@));
                    return Ok(Step::NeedMore);
                },
                Err(e) => {
                    assert(order::views(out@) + Seq::<Seq<u8>>::empty() =~= order::views(out@));
                    return Err(e);
                },
            }
        }
    }
}

} // verus!
