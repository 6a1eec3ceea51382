//! What reading a file gives.

use crate::bytes;
use crate::commands::apply;
use crate::commands::content;
use crate::commands::content::{AssemblerModel, EventModel, PendingModel, Stage};
use crate::commands::snapshot;
use crate::error::{FormatProblem, GappedError};
use crate::format::checksum;
use crate::format::filter;
use crate::format::filter::{FilterModel, Pick, Selection};
use crate::format::header;
use crate::format::header::{RecordModel, RecordType};
use crate::format::reader;
use crate::format::reader::{NextHead, ReaderModel, Step};
use crate::format::roundtrip;
use crate::format::roundtrip::ReadAll;
use crate::laws::files;
use crate::model::diff::ChangeModel;
use crate::order;
use vstd::prelude::*;

verus! {

/// Whether the end marker and a right checksum stand at a position of what a
/// reader has received.
pub open spec fn ends_well_at(m: ReaderModel, at: int) -> bool {
    &&& 0 <= at
    &&& at + 25 <= m.received.len()
    &&& forall|i: int| at <= i < at + 9 ==> #[trigger] m.received[i] == 0
    &&& m.received.subrange(at + 9, at + 25) == checksum::digest(
        header::magic_of(m.compressed) + m.received.take(at + 9),
    )
}

proof fn lemma_end_is_good(m: ReaderModel)
    requires
        m.wf(),
        m.next_head() is End,
    ensures
        ends_well_at(m, m.taken as int),
{
    files::law_what_comes_next_is_told_by_its_bytes(m);
    let p = m.pending();
    let at = m.taken as int;
    assert(m.received.subrange(at + 9, at + 25) =~= p.subrange(9, 25));
    assert forall|i: int| at <= i < at + 9 implies #[trigger] m.received[i] == 0 by {
        assert(m.received[i] == p[i - at]);
    }
}

/// Whether the end marker stands right in front of a position of what a reader has
/// received, and `stored` behind it, which is another checksum than `actual`, the
/// one of everything up to there.
pub open spec fn ends_badly_at(m: ReaderModel, at: int, stored: Seq<u8>, actual: Seq<u8>) -> bool {
    &&& 9 <= at
    &&& at + 16 <= m.received.len()
    &&& forall|i: int| at - 9 <= i < at ==> #[trigger] m.received[i] == 0
    &&& stored == m.received.subrange(at, at + 16)
    &&& actual == checksum::digest(header::magic_of(m.compressed) + m.received.take(at))
    &&& stored != actual
}

/// Whether what a reader has received does not tell what comes next: bytes that are
/// to be skipped have not come, or there are too few for the length and type of a
/// record, or for the checksum behind an end marker.
pub open spec fn is_undecided(m: ReaderModel) -> bool {
    let left = m.received.len() - m.taken;
    ||| m.skip > 0 && left == 0
    ||| left < 9
    ||| left < 25 && forall|i: int| m.taken <= i < m.taken + 9 ==> #[trigger] m.received[i] == 0
}

proof fn lemma_undecided(m: ReaderModel)
    requires
        m.wf(),
        m.skip == 0 || m.pending().len() == 0,
        m.next_head() is Short,
    ensures
        is_undecided(m),
{
    if m.skip == 0 && m.pending().len() >= 9 {
        files::law_what_comes_next_is_told_by_its_bytes(m);
        let p = m.pending();
        assert forall|i: int| m.taken <= i < m.taken + 9 implies #[trigger] m.received[i]
            == 0 by {
            assert(m.received[i] == p[i - m.taken]);
        }
    }
}

/// Whether `b` stands at the place of a record type, and is none.
pub open spec fn is_unknown_type_at(m: ReaderModel, at: int, b: u8) -> bool {
    &&& 0 <= at
    &&& at + 9 <= m.received.len()
    &&& b == m.received[at + 8]
    &&& b == 0 || b > 3
}

proof fn lemma_bad_end(m: ReaderModel, stored: Seq<u8>, actual: Seq<u8>)
    requires
        m.wf(),
        m.next_head() == (NextHead::BadChecksum { stored, actual }),
    ensures
        ends_badly_at(m, (m.taken + 9) as int, stored, actual),
{
    files::law_what_comes_next_is_told_by_its_bytes(m);
    let p = m.pending();
    let at = m.taken as int;
    assert(m.received.subrange(at + 9, at + 25) =~= p.subrange(9, 25));
    assert forall|i: int| at <= i < at + 9 implies #[trigger] m.received[i] == 0 by {
        assert(m.received[i] == p[i - at]);
    }
}

/// Records that are read are the bytes that are there: where reading to the end
/// gives some records, they stand there as they are stored, one behind the other,
/// with the end marker and a right checksum behind them.
pub proof fn law_records_that_are_read_are_there(m: ReaderModel, rs: Seq<RecordModel>)
    requires
        m.wf(),
        m.skip == 0,
        roundtrip::read_all(m) == ReadAll::All(rs),
    ensures
        ({
            let stored = header::records_bytes(rs);
            let end = m.taken + stored.len();
            &&& ends_well_at(m, end as int)
            &&& m.received.subrange(m.taken as int, end as int) == stored
        }),
    decreases m.pending().len(),
{
    let p = m.pending();
    match m.next_head() {
        NextHead::Record(t, len) => {
            roundtrip::lemma_read_all_step(m, t, len);
            let next = m.advance(9 + len as int);
            reader::lemma_advance(m, 9 + len as int);
            if let ReadAll::All(rest) = roundtrip::read_all(next) {
                law_records_that_are_read_are_there(next, rest);
                let r = RecordModel { record_type: t, payload: p.subrange(9, 9 + len as int) };
                assert(rs == seq![r] + rest);
                roundtrip::lemma_records_bytes_front(r, rest);
                bytes::lemma_le_bytes_of_le_value(p.take(8));
                assert(p.take(8).len() == 8);
                header::law_record_types_are_told_apart(t, p[8]);
                assert(header::record_bytes(r) =~= p.take(9 + len as int));
                let at = m.taken as int;
                let mid = at + 9 + len;
                let end = mid + header::records_bytes(rest).len();
                assert(m.received.subrange(at, end) =~= p.take(9 + len as int)
                    + m.received.subrange(mid, end));
                assert(end == m.taken + header::records_bytes(rs).len());
                assert(ends_well_at(m, end));
            }
        },
        NextHead::End => {
            lemma_end_is_good(m);
            assert(rs =~= Seq::<RecordModel>::empty());
            assert(header::records_bytes(rs) =~= Seq::<u8>::empty());
            assert(m.received.subrange(m.taken as int, m.taken as int) =~= Seq::<u8>::empty());
        },
        _ => {},
    }
}

/// The change that content goes to, with what has come of its content.
pub open spec fn first_waiting(p: PendingModel) -> Option<(ChangeModel, Seq<u8>)> {
    match p.current {
        Some(x) => Some(x),
        None => if p.queue.len() > 0 {
            Some((p.queue[0], Seq::empty()))
        } else {
            None
        },
    }
}

/// Content goes to the first change that waits for it, behind what has come for
/// it, and is handed out once it is as long as the change says. Content that no
/// change waits for is dropped. A change waits if it comes with content.
pub proof fn law_content_goes_to_the_first_change_that_waits(
    p: PendingModel,
    c: ChangeModel,
    data: Seq<u8>,
)
    ensures
        first_waiting(p) is None ==> p.with_content(data) == (p, None::<(ChangeModel, Seq<u8>)>),
        first_waiting(p) matches Some((d, had)) ==> {
            let (next, job) = p.with_content(data);
            &&& next.queue == if p.current is Some {
                p.queue
            } else {
                p.queue.skip(1)
            }
            &&& had.len() + data.len() >= d.content_size() ==> job == Some((d, had + data))
                && next.current is None
            &&& had.len() + data.len() < d.content_size() ==> job is None && next.current == Some(
                (d, had + data),
            )
        },
        c.has_content() ==> p.with_change(c).queue == p.queue.push(c),
        !c.has_content() ==> p.with_change(c).queue == p.queue,
        p.with_change(c).current == p.current,
        p.is_idle() <==> first_waiting(p) is None,
{
    if p.current is None && p.queue.len() > 0 {
        assert(p.queue.drop_first() =~= p.queue.skip(1));
    }
}

/// Whether an event is true to the bytes that a reader has received. A diff ends
/// only behind the end marker and a right checksum; another checksum there, or an
/// unknown type, is reported as it stands. A change is the bytes in front of where
/// reading stops. More bytes are asked for only where they are missing. A content
/// that is handed out belongs to the first change that waits, starts with what has
/// come for it, and is as long as the change says.
pub open spec fn is_true_event(
    a: AssemblerModel,
    r: ReaderModel,
    next: (AssemblerModel, ReaderModel, EventModel),
) -> bool {
    let (b, s, event) = next;
    &&& s.received == r.received
    &&& s.compressed == r.compressed
    &&& s.ended == r.ended
    &&& s.broken == r.broken
    &&& match event {
        EventModel::End => s.taken >= 25 && ends_well_at(r, s.taken - 25),
        EventModel::BadChecksum { stored, actual } => ends_badly_at(
            r,
            s.taken as int,
            stored,
            actual,
        ),
        EventModel::BadType(b) => is_unknown_type_at(r, s.taken as int, b),
        EventModel::Short => match b.stage {
            Stage::Idle => is_undecided(s),
            Stage::Payload(len) => s.received.len() - s.taken < len,
            Stage::Content(left) => left > 0 && s.taken == s.received.len() && !r.ended
                && !r.broken,
        },
        EventModel::Change(p) => p.len() <= s.taken <= r.received.len() && p
            == r.received.subrange(s.taken - p.len(), s.taken as int),
        EventModel::Job(c, data) => {
            &&& first_waiting(a.pending) matches Some((d, had))
            &&& c == d
            &&& had.is_prefix_of(data)
            &&& data.len() >= c.content_size()
        },
    }
}

/// Every event of a diff is true to the bytes that have been received.
pub proof fn law_events_are_true_to_the_bytes(a: AssemblerModel, r: ReaderModel)
    requires
        r.wf(),
        a.stage is Idle || r.skip == 0,
        a.stage is Content ==> a.pending.current is Some,
    ensures
        is_true_event(a, r, content::next_event(a, r)),
    decreases
            r.pending().len(),
            (if a.stage is Content {
                1nat
            } else {
                0nat
            }),
{
    match a.stage {
        Stage::Payload(len) => {
            lemma_payload(r, len as int);
        },
        Stage::Content(left) => {
            let n = if r.pending().len() < left {
                r.pending().len() as int
            } else {
                left as int
            };
            let pending = a.pending.extended(r.pending().take(n));
            reader::lemma_advance(r, n);
            if !(n < left && !r.ended && !r.broken) && !pending.is_complete() {
                law_events_are_true_to_the_bytes(
                    AssemblerModel { pending, stage: Stage::Idle },
                    r.advance(n),
                );
            }
            lemma_event_in_content(a, r, left);
        },
        Stage::Idle => {
            let s = r.settled();
            reader::lemma_settled(r);
            match s.next_head() {
                NextHead::Record(t, len) => {
                    reader::lemma_advance(s, 9);
                    let after = s.advance(9);
                    lemma_length_fits(s, t, len);
                    if t == RecordType::DiffChange {
                        lemma_payload(after, len as int);
                    } else if t == RecordType::FileContent && !a.pending.is_idle() {
                        let next = AssemblerModel {
                            pending: a.pending.taken_up(),
                            stage: Stage::Content(len as u64),
                        };
                        law_events_are_true_to_the_bytes(next, after);
                        assert(first_waiting(next.pending) == first_waiting(a.pending));
                    } else {
                        let skipped = ReaderModel { skip: len, ..after };
                        reader::lemma_settled(skipped);
                        law_events_are_true_to_the_bytes(a, skipped.settled());
                    }
                },
                _ => {
                    lemma_event_in_front(a, r);
                },
            }
        },
    }
}

proof fn lemma_length_fits(m: ReaderModel, t: RecordType, len: nat)
    requires
        m.next_head() == NextHead::Record(t, len),
    ensures
        len as u64 == len,
{
    bytes::lemma_le_value_bound(m.pending().take(8));
    bytes::lemma_pow256();
    assert(m.pending().take(8).len() == 8);
}

proof fn lemma_event_in_content(a: AssemblerModel, r: ReaderModel, left: u64)
    requires
        r.wf(),
        r.skip == 0,
        a.stage == Stage::Content(left),
        a.pending.current is Some,
        ({
            let n = if r.pending().len() < left {
                r.pending().len() as int
            } else {
                left as int
            };
            let pending = a.pending.extended(r.pending().take(n));
            let next = AssemblerModel { pending, stage: Stage::Idle };
            !(n < left && !r.ended && !r.broken) && !pending.is_complete() ==> is_true_event(
                next,
                r.advance(n),
                content::next_event(next, r.advance(n)),
            )
        }),
    ensures
        is_true_event(a, r, content::next_event(a, r)),
{
    let n = if r.pending().len() < left {
        r.pending().len() as int
    } else {
        left as int
    };
    let pending = a.pending.extended(r.pending().take(n));
    let had = (a.pending.current->0).1;
    let more = (pending.current->0).1;
    assert(more == had + r.pending().take(n));
    assert(more.take(had.len() as int) =~= had);
    if !(n < left && !r.ended && !r.broken) && !pending.is_complete() {
        let next = AssemblerModel { pending, stage: Stage::Idle };
        if let EventModel::Job(c, data) = content::next_event(next, r.advance(n)).2 {
            assert(more.is_prefix_of(data));
            assert(had =~= data.take(had.len() as int)) by {
                assert(more =~= data.take(more.len() as int));
            }
        }
    }
}

proof fn lemma_event_in_front(a: AssemblerModel, r: ReaderModel)
    requires
        r.wf(),
        a.stage is Idle,
        !(r.settled().next_head() is Record),
    ensures
        is_true_event(a, r, content::next_event(a, r)),
{
    let s = r.settled();
    reader::lemma_settled(r);
    match s.next_head() {
        NextHead::End => {
            lemma_end_is_good(s);
            assert(ends_well_at(r, s.taken as int));
        },
        NextHead::BadChecksum { stored, actual } => {
            lemma_bad_end(s, stored, actual);
            assert(ends_badly_at(r, (s.taken + 9) as int, stored, actual));
        },
        NextHead::BadType(b) => {
            files::law_what_comes_next_is_told_by_its_bytes(s);
            assert(s.pending()[8] == r.received[s.taken as int + 8]);
        },
        NextHead::Short => {
            lemma_undecided(s);
        },
        NextHead::Record(_, _) => {},
    }
}

proof fn lemma_payload(r: ReaderModel, len: int)
    requires
        r.wf(),
        0 <= len,
    ensures
        !r.lacks(len) ==> {
            &&& r.advance(len).taken == r.taken + len <= r.received.len()
            &&& r.pending().take(len) == r.received.subrange(r.taken as int, r.taken + len)
            &&& r.pending().take(len).len() == len
        },
{
    if !r.lacks(len) {
        assert(r.pending().take(len) =~= r.received.subrange(r.taken as int, r.taken + len));
    }
}

/// A payload that is picked is the bytes in front of where reading stops. Picking
/// ends only behind the end marker and a right checksum, or at a record at which it
/// is to stop; another checksum, or an unknown type, is reported as it stands. More
/// bytes are asked for only where they are missing.
pub proof fn law_a_pick_is_what_is_there(m: FilterModel, selection: Selection)
    requires
        m.reader.wf(),
        m.awaiting is Some ==> m.reader.skip == 0,
        !m.done,
    ensures
        ({
            let r = m.reader;
            let (after, pick) = filter::pick(m, selection);
            let s = after.reader;
            &&& s.received == r.received
            &&& s.compressed == r.compressed
            &&& pick matches Pick::Payload(p) ==> p.len() <= s.taken <= r.received.len() && p
                == r.received.subrange(s.taken - p.len(), s.taken as int)
            &&& pick is Done && selection.stop_at is None ==> s.taken >= 25 && ends_well_at(
                r,
                s.taken - 25,
            )
            &&& pick matches Pick::BadChecksum { stored, actual } ==> ends_badly_at(
                r,
                s.taken as int,
                stored,
                actual,
            )
            &&& pick matches Pick::BadType(b) ==> is_unknown_type_at(r, s.taken as int, b)
            &&& pick is Short ==> match after.awaiting {
                Some(len) => s.received.len() - s.taken < len,
                None => is_undecided(s),
            }
        }),
    decreases m.reader.pending().len(),
{
    let r = m.reader;
    match m.awaiting {
        Some(len) => {
            lemma_payload(r, len as int);
        },
        None => {
            let s = r.settled();
            reader::lemma_settled(r);
            match s.next_head() {
                NextHead::End => {
                    lemma_end_is_good(s);
                    assert(ends_well_at(r, s.taken as int));
                },
                NextHead::BadChecksum { stored, actual } => {
                    lemma_bad_end(s, stored, actual);
                    assert(ends_badly_at(r, (s.taken + 9) as int, stored, actual));
                },
                NextHead::BadType(b) => {
                    files::law_what_comes_next_is_told_by_its_bytes(s);
                    assert(s.pending()[8] == r.received[s.taken as int + 8]);
                },
                NextHead::Record(t, len) => {
                    reader::lemma_advance(s, 9);
                    let after = s.advance(9);
                    if t == selection.wanted {
                        lemma_payload(after, len as int);
                    } else if selection.stop_at != Some(t) {
                        let skipped = ReaderModel { skip: len, ..after };
                        reader::lemma_settled(skipped);
                        law_a_pick_is_what_is_there(
                            FilterModel {
                                reader: skipped.settled(),
                                awaiting: None,
                                done: false,
                            },
                            selection,
                        );
                    }
                },
                NextHead::Short => {
                    lemma_undecided(s);
                },
            }
        },
    }
}

/// The payloads of the wanted records are picked, in order, all of them, or all in
/// front of the first record at which picking stops.
pub proof fn law_wanted_records_are_picked(
    rs: Seq<RecordModel>,
    selection: Selection,
    k: int,
)
    requires
        0 <= k <= rs.len(),
        selection.stop_at matches Some(t) ==> t != selection.wanted,
        forall|i: int|
            0 <= i < k ==> Some((#[trigger] rs[i]).record_type) != selection.stop_at,
        k == rs.len() || Some(rs[k].record_type) == selection.stop_at,
    ensures
        filter::picked(rs, selection) == rs.take(k).filter(
            |r: RecordModel| r.record_type == selection.wanted,
        ).map_values(|r: RecordModel| r.payload),
    decreases k,
{
    let wanted = |r: RecordModel| r.record_type == selection.wanted;
    let payload = |r: RecordModel| r.payload;
    if k == 0 {
        reveal(Seq::filter);
        assert(rs.take(0) =~= Seq::<RecordModel>::empty());
        assert(rs.take(0).filter(wanted) =~= Seq::<RecordModel>::empty());
        assert(filter::picked(rs, selection) =~= rs.take(0).filter(wanted).map_values(payload));
    } else {
        let rest = rs.drop_first();
        assert forall|i: int| 0 <= i < k - 1 implies Some((#[trigger] rest[i]).record_type)
            != selection.stop_at by {
            assert(rest[i] == rs[i + 1]);
        }
        assert(rs[0].record_type == rs[0].record_type);
        law_wanted_records_are_picked(rest, selection, k - 1);
        let front = rs.take(k);
        assert(front =~= seq![rs[0]] + rest.take(k - 1));
        lemma_filter_front(rs[0], rest.take(k - 1), wanted);
        assert(filter::picked(rs, selection) =~= front.filter(wanted).map_values(payload));
    }
}

proof fn lemma_filter_front(
    r: RecordModel,
    rest: Seq<RecordModel>,
    wanted: spec_fn(RecordModel) -> bool,
)
    ensures
        (seq![r] + rest).filter(wanted) == if wanted(r) {
            seq![r] + rest.filter(wanted)
        } else {
            rest.filter(wanted)
        },
    decreases rest.len(),
{
    reveal(Seq::filter);
    let all = seq![r] + rest;
    if rest.len() == 0 {
        let none = Seq::<RecordModel>::empty();
        assert(rest =~= none);
        assert(all.drop_last() =~= none);
        assert(none.filter(wanted) =~= none);
        assert(all.last() == r);
        assert(all.filter(wanted) =~= if wanted(r) {
            seq![r] + rest.filter(wanted)
        } else {
            rest.filter(wanted)
        });
    } else {
        lemma_filter_front(r, rest.drop_last(), wanted);
        assert(all.drop_last() =~= seq![r] + rest.drop_last());
        assert(all.last() == rest.last());
        assert(all.filter(wanted) =~= if wanted(r) {
            seq![r] + rest.filter(wanted)
        } else {
            rest.filter(wanted)
        });
    }
}

/// From a snapshot come the payloads of all its entries, and from the front of a
/// file of a diff those of the changes up to the first file content.
pub proof fn law_entries_and_leading_changes_are_picked(rs: Seq<RecordModel>, k: int)
    requires
        0 <= k <= rs.len(),
        forall|i: int|
            0 <= i < k ==> (#[trigger] rs[i]).record_type != RecordType::FileContent,
        k == rs.len() || rs[k].record_type == RecordType::FileContent,
    ensures
        filter::picked(rs, snapshot::entry_selection()) == rs.filter(
            |r: RecordModel| r.record_type == RecordType::SnapshotEntry,
        ).map_values(|r: RecordModel| r.payload),
        filter::picked(rs, apply::change_selection()) == rs.take(k).filter(
            |r: RecordModel| r.record_type == RecordType::DiffChange,
        ).map_values(|r: RecordModel| r.payload),
{
    law_wanted_records_are_picked(rs, snapshot::entry_selection(), rs.len() as int);
    assert(rs.take(rs.len() as int) =~= rs);
    law_wanted_records_are_picked(rs, apply::change_selection(), k);
}

/// Where bytes are missing, more are asked for, as long as more can come; behind
/// the end of the input that is an error, and another one if the stream is broken.
pub proof fn law_missing_bytes_are_asked_for<T>(m: ReaderModel, r: Result<Step<T>, GappedError>)
    requires
        m.is_short(r),
    ensures
        m.broken ==> r == Err::<Step<T>, GappedError>(GappedError::Decompression),
        !m.broken && m.ended ==> r == Err::<Step<T>, GappedError>(GappedError::UnexpectedEof),
        !m.broken && !m.ended ==> r == Ok::<Step<T>, GappedError>(Step::NeedMore),
{
}

/// Of a plain file everything that is fed is received, behind what was there; what
/// has been read stays read. What has been received of any file stays received.
pub proof fn law_what_is_fed_is_received(m: ReaderModel, data: Seq<u8>, n: ReaderModel)
    requires
        reader::is_fed(m, data, n),
    ensures
        !m.compressed ==> n.received == m.received + data,
        n.received.len() >= m.received.len(),
        n.received.take(m.received.len() as int) == m.received,
        n.taken == m.taken,
        n.skip == m.skip,
        n.ended == m.ended,
        n.compressed == m.compressed,
        n.finished == m.finished,
{
    assert(m.received =~= n.received.take(m.received.len() as int));
}

/// A snapshot that is loaded has the header that stands behind its length, and the
/// entries behind that; one that is cut off in its header is refused.
pub proof fn law_a_snapshot_is_loaded_with_its_header(
    m: ReaderModel,
    r: Result<(Vec<Vec<u8>>, Vec<u8>), GappedError>,
)
    requires
        m.wf(),
        m.skip == 0,
        snapshot::is_loaded(m, r),
    ensures
        ({
            let p = m.received.skip(m.taken as int);
            let h = bytes::le_value(p.take(4)) as int;
            if p.len() < 4 || p.len() < 4 + h {
                r == Err::<(Vec<Vec<u8>>, Vec<u8>), GappedError>(
                    if m.broken {
                        GappedError::Decompression
                    } else {
                        GappedError::UnexpectedEof
                    },
                )
            } else {
                let behind = ReaderModel { taken: (m.taken + 4 + h) as nat, ..m };
                match r {
                    Ok((entries, head)) => head@ == p.subrange(4, 4 + h) && snapshot::is_list_read(
                        behind,
                        Ok(entries),
                    ),
                    Err(e) => snapshot::is_list_read(behind, Err(e)),
                }
            }
        }),
{
}

/// A file that is no snapshot is refused with what is wrong with it: too short for
/// magic bytes; with other magic bytes; cut off; with another checksum than that of
/// its bytes, which the error gives as what was stored and what it is; or with a
/// record of an unknown type. From a good one come the payloads of its entries.
pub proof fn law_a_bad_snapshot_is_refused_with_the_reason(
    file: Seq<u8>,
    m: ReaderModel,
    loaded: Result<(Vec<Vec<u8>>, Vec<u8>), GappedError>,
    r: Result<Vec<Vec<u8>>, GappedError>,
)
    ensures
        snapshot::is_file_loaded(file, loaded) && file.len() < 9 ==> loaded == Err::<
            (Vec<Vec<u8>>, Vec<u8>),
            GappedError,
        >(GappedError::UnexpectedEof),
        snapshot::is_file_loaded(file, loaded) && file.len() >= 9 && file.take(9) != seq![
            0x47u8,
            0x41,
            0x50,
            0x50,
            0x45,
            0x44,
            0x00,
            0x03,
            0x00,
        ] && file.take(9) != seq![0x47u8, 0x41, 0x50, 0x50, 0x45, 0x44, 0x5a, 0x30, 0x33] ==> {
            &&& loaded matches Err(GappedError::InvalidFormat(FormatProblem::BadMagic(b)))
            &&& b@ == file.take(9)
        },
        snapshot::is_list_read(m, r) ==> {
            &&& roundtrip::read_all(m) is Short ==> r == Err::<Vec<Vec<u8>>, GappedError>(
                if m.broken {
                    GappedError::Decompression
                } else {
                    GappedError::UnexpectedEof
                },
            )
            &&& roundtrip::read_all(m) matches ReadAll::BadChecksum { stored, actual } ==> {
                &&& r matches Err(GappedError::ChecksumMismatch { expected, got })
                &&& expected@ == stored
                &&& got@ == actual
            }
            &&& roundtrip::read_all(m) matches ReadAll::BadType(b) ==> r == Err::<
                Vec<Vec<u8>>,
                GappedError,
            >(GappedError::InvalidFormat(FormatProblem::UnknownRecordType(b)))
            &&& roundtrip::read_all(m) matches ReadAll::All(rs) ==> {
                &&& r matches Ok(v)
                &&& order::views(v@) == rs.filter(
                    |x: RecordModel| x.record_type == RecordType::SnapshotEntry,
                ).map_values(|x: RecordModel| x.payload)
            }
        },
{
    assert(header::MAGIC@ =~= seq![0x47u8, 0x41, 0x50, 0x50, 0x45, 0x44, 0x00, 0x03, 0x00]);
    assert(header::MAGIC_COMPRESSED@ =~= seq![
        0x47u8,
        0x41,
        0x50,
        0x50,
        0x45,
        0x44,
        0x5a,
        0x30,
        0x33,
    ]);
    if let ReadAll::All(rs) = roundtrip::read_all(m) {
        law_wanted_records_are_picked(rs, snapshot::entry_selection(), rs.len() as int);
        assert(rs.take(rs.len() as int) =~= rs);
    }
}

} // verus!
