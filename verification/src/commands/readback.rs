//! A diff that was written is read back.

use crate::bytes;
use crate::commands::apply;
use crate::commands::content;
use crate::commands::content::{AssemblerModel, EventModel, PendingModel, Stage};
use crate::commands::layout;
use crate::commands::layout::{DiffRecord, Material};
use crate::format::filter;
use crate::format::filter::FilterModel;
use crate::format::header;
use crate::format::header::{RecordModel, RecordType};
use crate::format::reader;
use crate::format::reader::ReaderModel;
use crate::format::roundtrip;
use crate::format::roundtrip::ReadAll;
use crate::model::diff::ChangeModel;
use vstd::prelude::*;

verus! {

/// What reading a file of a diff to its end gives, where every change that comes
/// is handed back: what then waits for content, and the contents that came.
/// Nothing if the end is not reached.
pub open spec fn read_events(
    a: AssemblerModel,
    r: ReaderModel,
    deserialized: spec_fn(Seq<u8>) -> ChangeModel,
) -> Option<(PendingModel, Seq<(ChangeModel, Seq<u8>)>)>
    decreases r.pending().len(),
{
    let (b, s, event) = content::next_event(a, r);
    match event {
        EventModel::End => Some((b.pending, Seq::empty())),
        EventModel::Change(p) => if s.pending().len() < r.pending().len() {
            read_events(
                AssemblerModel { pending: b.pending.with_change(deserialized(p)), ..b },
                s,
                deserialized,
            )
        } else {
            None
        },
        EventModel::Job(c, data) => if s.pending().len() < r.pending().len() {
            match read_events(b, s, deserialized) {
                Some((pending, jobs)) => Some((pending, seq![(c, data)] + jobs)),
                None => None,
            }
        } else {
            None
        },
        _ => None,
    }
}

/// What reading all files of a diff gives, from where `pending` waits.
pub open spec fn read_files(
    pending: PendingModel,
    readers: Seq<ReaderModel>,
    deserialized: spec_fn(Seq<u8>) -> ChangeModel,
) -> Option<(PendingModel, Seq<(ChangeModel, Seq<u8>)>)>
    decreases readers.len(),
{
    if readers.len() == 0 {
        Some((pending, Seq::empty()))
    } else {
        match read_files(pending, readers.drop_last(), deserialized) {
            Some((middle, jobs)) => match read_events(
                AssemblerModel { pending: middle, stage: Stage::Idle },
                readers.last(),
                deserialized,
            ) {
                Some((end, more)) => Some((end, jobs + more)),
                None => None,
            },
            None => None,
        }
    }
}

/// What `pending` becomes by some records, and the contents they complete.
pub open spec fn assembled_from(pending: PendingModel, rs: Seq<DiffRecord>) -> (
    PendingModel,
    Seq<(ChangeModel, Seq<u8>)>,
)
    decreases rs.len(),
{
    if rs.len() == 0 {
        (pending, Seq::empty())
    } else {
        let (middle, jobs) = assembled_from(pending, rs.drop_last());
        match rs.last() {
            DiffRecord::Change(c) => (middle.with_change(c), jobs),
            DiffRecord::Content(data) => {
                let (next, job) = middle.with_content(data);
                match job {
                    Some(j) => (next, jobs.push(j)),
                    None => (next, jobs),
                }
            },
        }
    }
}

/// Putting records together in two parts is putting them all together.
proof fn lemma_assembled_in_parts(pending: PendingModel, a: Seq<DiffRecord>, b: Seq<DiffRecord>)
    ensures
        ({
            let (middle, first) = assembled_from(pending, a);
            let (end, second) = assembled_from(middle, b);
            assembled_from(pending, a + b) == (end, first + second)
        }),
    decreases b.len(),
{
    let (middle, first) = assembled_from(pending, a);
    if b.len() == 0 {
        assert(a + b =~= a);
        assert(first + Seq::empty() =~= first);
    } else {
        assert((a + b).drop_last() =~= a + b.drop_last());
        assert((a + b).last() == b.last());
        lemma_assembled_in_parts(pending, a, b.drop_last());
        let (end, second) = assembled_from(middle, b.drop_last());
        if let DiffRecord::Content(data) = b.last() {
            if let Some(j) = end.with_content(data).1 {
                assert((first + second).push(j) =~= first + second.push(j));
            }
        }
    }
}

proof fn lemma_assembled_from_nothing(rs: Seq<DiffRecord>)
    ensures
        assembled_from(PendingModel { queue: Seq::empty(), current: None }, rs)
            == layout::assembled(rs),
    decreases rs.len(),
{
    if rs.len() > 0 {
        lemma_assembled_from_nothing(rs.drop_last());
    }
}

/// What one record in front does.
proof fn lemma_assembled_front(pending: PendingModel, rs: Seq<DiffRecord>)
    requires
        rs.len() > 0,
    ensures
        match rs[0] {
            DiffRecord::Change(c) => assembled_from(pending, rs) == assembled_from(
                pending.with_change(c),
                rs.drop_first(),
            ),
            DiffRecord::Content(data) => {
                let (next, job) = pending.with_content(data);
                let (end, jobs) = assembled_from(next, rs.drop_first());
                assembled_from(pending, rs) == match job {
                    Some(j) => (end, seq![j] + jobs),
                    None => (end, jobs),
                }
            },
        },
{
    let none = Seq::<DiffRecord>::empty();
    let front = seq![rs[0]];
    let rest = rs.drop_first();
    assert(front + rest =~= rs);
    assert(front.drop_last() =~= none);
    assert(front.last() == rs[0]);
    assert(assembled_from(pending, none) == (pending, Seq::<(ChangeModel, Seq<u8>)>::empty()));
    lemma_assembled_in_parts(pending, front, rest);
    let (middle, first) = assembled_from(pending, front);
    let (end, second) = assembled_from(middle, rest);
    match rs[0] {
        DiffRecord::Change(c) => {
            assert(first + second =~= second);
        },
        DiffRecord::Content(data) => {
            match pending.with_content(data).1 {
                Some(j) => {
                    assert(first =~= seq![j]);
                },
                None => {
                    assert(first + second =~= second);
                },
            }
        },
    }
}

/// Whether the changes among some records are found again from how they are
/// serialized.
pub open spec fn are_readable(
    rs: Seq<DiffRecord>,
    serialized: spec_fn(ChangeModel) -> Seq<u8>,
    deserialized: spec_fn(Seq<u8>) -> ChangeModel,
) -> bool {
    forall|i: int|
        0 <= i < rs.len() ==> ((#[trigger] rs[i]) matches DiffRecord::Change(c) ==> deserialized(
            serialized(c),
        ) == c)
}

/// Reading a file of a diff to its end puts its records together.
pub proof fn law_a_file_is_put_together(
    pending: PendingModel,
    r: ReaderModel,
    rs: Seq<DiffRecord>,
    serialized: spec_fn(ChangeModel) -> Seq<u8>,
    deserialized: spec_fn(Seq<u8>) -> ChangeModel,
)
    requires
        r.wf(),
        r.skip == 0,
        roundtrip::read_all(r) == ReadAll::All(layout::stored_records(rs, serialized)),
        are_readable(rs, serialized, deserialized),
    ensures
        read_events(AssemblerModel { pending, stage: Stage::Idle }, r, deserialized) == Some(
            assembled_from(pending, rs),
        ),
    decreases rs.len(),
{
    let a = AssemblerModel { pending, stage: Stage::Idle };
    let stored = layout::stored_records(rs, serialized);
    content::law_events_follow_the_records(a, r, stored);
    if rs.len() > 0 {
        let rest = rs.drop_first();
        let next = r.advance(9 + stored[0].payload.len() as int);
        assert(stored.drop_first() =~= layout::stored_records(rest, serialized));
        assert forall|i: int| 0 <= i < rest.len() implies (
        (#[trigger] rest[i]) matches DiffRecord::Change(c) ==> deserialized(serialized(c))
            == c) by {
            assert(rest[i] == rs[i + 1]);
        }
        lemma_assembled_front(pending, rs);
        assert(next.pending().len() < r.pending().len()) by {
            lemma_record_is_taken(r, stored[0].payload.len());
        }
        match rs[0] {
            DiffRecord::Change(c) => {
                law_a_file_is_put_together(
                    pending.with_change(c),
                    next,
                    rest,
                    serialized,
                    deserialized,
                );
            },
            DiffRecord::Content(data) => {
                let (filled, job) = pending.with_content(data);
                law_a_file_is_put_together(filled, next, rest, serialized, deserialized);
                if job is None {
                    lemma_same_events(
                        a,
                        r,
                        AssemblerModel { pending: filled, stage: Stage::Idle },
                        next,
                        deserialized,
                    );
                }
            },
        }
    }
}

/// What is read behind a record is less than what stands in front of it.
proof fn lemma_record_is_taken(r: ReaderModel, len: nat)
    requires
        r.advance(9 + len as int).wf(),
        r.wf(),
    ensures
        r.advance(9 + len as int).pending().len() < r.pending().len(),
{
}

/// Where the next event is the same, everything that follows is.
proof fn lemma_same_events(
    a: AssemblerModel,
    r: ReaderModel,
    b: AssemblerModel,
    s: ReaderModel,
    deserialized: spec_fn(Seq<u8>) -> ChangeModel,
)
    requires
        content::next_event(a, r) == content::next_event(b, s),
        s.pending().len() <= r.pending().len(),
        read_events(b, s, deserialized) is Some,
    ensures
        read_events(a, r, deserialized) == read_events(b, s, deserialized),
{
}

proof fn lemma_change_is_in(rs: Seq<DiffRecord>, i: int)
    requires
        0 <= i < rs.len(),
        rs[i] is Change,
    ensures
        layout::changes_in(rs).contains(rs[i]->Change_0),
    decreases rs.len(),
{
    let front = layout::changes_in(rs.drop_last());
    if i == rs.len() - 1 {
        let all = layout::changes_in(rs);
        assert(all[all.len() - 1] == rs[i]->Change_0);
    } else {
        lemma_change_is_in(rs.drop_last(), i);
        let n = choose|n: int| 0 <= n < front.len() && front[n] == rs[i]->Change_0;
        assert(layout::changes_in(rs)[n] == rs[i]->Change_0);
    }
}

/// A change in a file is one of the changes in all files.
proof fn lemma_change_occurs(files: Seq<Seq<DiffRecord>>, i: int, j: int)
    requires
        0 <= i < files.len(),
        0 <= j < files[i].len(),
        files[i][j] is Change,
    ensures
        layout::changes_in(layout::all_records(files)).contains(files[i][j]->Change_0),
{
    let n = lemma_record_occurs(files, i, j);
    lemma_change_is_in(layout::all_records(files), n);
}

proof fn lemma_record_occurs(files: Seq<Seq<DiffRecord>>, i: int, j: int) -> (n: int)
    requires
        0 <= i < files.len(),
        0 <= j < files[i].len(),
    ensures
        0 <= n < layout::all_records(files).len(),
        layout::all_records(files)[n] == files[i][j],
    decreases files.len(),
{
    if i == files.len() - 1 {
        layout::all_records(files.drop_last()).len() + j
    } else {
        assert(files.drop_last()[i] == files[i]);
        lemma_record_occurs(files.drop_last(), i, j)
    }
}

/// A diff that was laid out completely is read back. Reading its files one after
/// the other gives the content of each change that has any, in order, and leaves
/// nothing waiting; and the metadata of the files is that of all changes, in
/// order.
pub proof fn law_a_diff_reads_back(
    m: Material,
    k: nat,
    readers: Seq<ReaderModel>,
    serialized: spec_fn(ChangeModel) -> Seq<u8>,
    deserialized: spec_fn(Seq<u8>) -> ChangeModel,
)
    requires
        m.wf(),
        forall|i: int|
            0 <= i < m.changes.len() ==> deserialized(serialized(#[trigger] m.changes[i]))
                == m.changes[i],
        ({
            let l = layout::after(m, layout::start(m), k);
            &&& l.done
            &&& readers.len() == l.files.len()
            &&& forall|i: int|
                0 <= i < readers.len() ==> {
                    &&& (#[trigger] readers[i]).wf()
                    &&& readers[i].skip == 0
                    &&& roundtrip::read_all(readers[i]) == ReadAll::All(
                        layout::stored_records(l.files[i], serialized),
                    )
                }
        }),
    ensures
        read_files(PendingModel { queue: Seq::empty(), current: None }, readers, deserialized)
            == Some(
            (
                PendingModel { queue: Seq::empty(), current: None },
                layout::complete(m, m.changes.len()),
            ),
        ),
        metadata_of(readers) == m.changes.map_values(serialized),
{
    let l = layout::after(m, layout::start(m), k);
    let nothing = PendingModel { queue: Seq::empty(), current: None };
    layout::lemma_complete_layout(m, k);
    assert forall|i: int| 0 <= i < l.files.len() implies are_readable(
        #[trigger] l.files[i],
        serialized,
        deserialized,
    ) by {
        assert forall|j: int| 0 <= j < l.files[i].len() implies (
        (#[trigger] l.files[i][j]) matches DiffRecord::Change(c) ==> deserialized(serialized(c))
            == c) by {
            if let DiffRecord::Change(c) = l.files[i][j] {
                lemma_change_occurs(l.files, i, j);
                let n = choose|n: int| 0 <= n < m.changes.len() && m.changes[n] == c;
                assert(deserialized(serialized(m.changes[n])) == m.changes[n]);
            }
        }
    }
    lemma_read_files(nothing, readers, l.files, serialized, deserialized);
    lemma_assembled_from_nothing(layout::all_records(l.files));
    assert(layout::assembled(layout::all_records(l.files)).0 =~= nothing);
    lemma_metadata(readers, l.files, serialized);
}

/// The changes of a file of a diff are read without looking at what stands behind
/// the header of its first file content: whatever that is, and however much of it
/// there is, the same changes are read.
pub proof fn law_metadata_does_not_depend_on_content(
    m: ReaderModel,
    before: Seq<u8>,
    changes: Seq<Seq<u8>>,
    content_len: nat,
    tail: Seq<u8>,
)
    requires
        m.skip == 0,
        m.taken == before.len(),
        m.received == before + header::records_bytes(change_records(changes))
            + header::record_head(RecordType::FileContent, content_len) + tail,
        roundtrip::are_storable(change_records(changes)),
        content_len <= 0xffff_ffff_ffff_ffff,
    ensures
        ({
            let run = filter::pick_run(
                FilterModel { reader: m, awaiting: None, done: false },
                apply::change_selection(),
            );
            run.1 == changes && run.2 is Done
        }),
    decreases changes.len(),
{
    let at = FilterModel { reader: m, awaiting: None, done: false };
    let stop = header::record_head(RecordType::FileContent, content_len);
    let rs = change_records(changes);
    reader::lemma_settled(m);
    if changes.len() == 0 {
        assert(m.pending() =~= stop + tail);
        roundtrip::lemma_record_head_is_read(m, RecordType::FileContent, content_len, tail);
        assert(filter::pick_run(at, apply::change_selection()).1 =~= changes);
    } else {
        let rest = changes.drop_first();
        let first = rs[0];
        let n = first.payload.len();
        assert(rs =~= seq![first] + change_records(rest));
        roundtrip::lemma_records_bytes_front(first, change_records(rest));
        bytes::lemma_le_bytes_len(n, 8);
        let head = header::record_head(RecordType::DiffChange, n);
        let stored = header::record_bytes(first);
        let behind = header::records_bytes(change_records(rest)) + stop + tail;
        assert(m.received =~= before + stored + behind);
        assert(m.pending() =~= head + (first.payload + behind));
        roundtrip::lemma_record_head_is_read(
            m,
            RecordType::DiffChange,
            n,
            first.payload + behind,
        );
        reader::lemma_advance(m, 9);
        reader::lemma_advance(m.advance(9), n as int);
        let next = m.advance(9).advance(n as int);
        assert(m.advance(9).pending().take(n as int) =~= first.payload);
        assert forall|i: int| 0 <= i < change_records(rest).len() implies (
        #[trigger] change_records(rest)[i]).payload.len() <= 0xffff_ffff_ffff_ffff by {
            assert(change_records(rest)[i] == rs[i + 1]);
        }
        assert(m.received =~= (before + stored) + header::records_bytes(change_records(rest))
            + stop + tail);
        law_metadata_does_not_depend_on_content(next, before + stored, rest, content_len, tail);
        assert(filter::pick(at, apply::change_selection()) == (
            FilterModel { reader: next, awaiting: None, done: false },
            filter::Pick::Payload(first.payload),
        ));
        assert(seq![changes[0]] + rest =~= changes);
    }
}

/// The records of some serialized changes.
pub open spec fn change_records(changes: Seq<Seq<u8>>) -> Seq<RecordModel> {
    changes.map_values(
        |c: Seq<u8>| RecordModel { record_type: RecordType::DiffChange, payload: c },
    )
}

/// The serialized changes at the front of each file.
pub open spec fn metadata_of(readers: Seq<ReaderModel>) -> Seq<Seq<u8>>
    decreases readers.len(),
{
    if readers.len() == 0 {
        Seq::empty()
    } else {
        metadata_of(readers.drop_last()) + filter::pick_run(
            FilterModel { reader: readers.last(), awaiting: None, done: false },
            apply::change_selection(),
        ).1
    }
}

proof fn lemma_read_files(
    pending: PendingModel,
    readers: Seq<ReaderModel>,
    files: Seq<Seq<DiffRecord>>,
    serialized: spec_fn(ChangeModel) -> Seq<u8>,
    deserialized: spec_fn(Seq<u8>) -> ChangeModel,
)
    requires
        readers.len() == files.len(),
        forall|i: int|
            0 <= i < files.len() ==> are_readable(#[trigger] files[i], serialized, deserialized),
        forall|i: int|
            0 <= i < readers.len() ==> {
                &&& (#[trigger] readers[i]).wf()
                &&& readers[i].skip == 0
                &&& roundtrip::read_all(readers[i]) == ReadAll::All(
                    layout::stored_records(files[i], serialized),
                )
            },
    ensures
        read_files(pending, readers, deserialized) == Some(
            assembled_from(pending, layout::all_records(files)),
        ),
    decreases readers.len(),
{
    if readers.len() > 0 {
        let fewer = readers.drop_last();
        assert forall|i: int| 0 <= i < fewer.len() implies {
            &&& (#[trigger] fewer[i]).wf()
            &&& fewer[i].skip == 0
            &&& roundtrip::read_all(fewer[i]) == ReadAll::All(
                layout::stored_records(files.drop_last()[i], serialized),
            )
        } by {
            assert(fewer[i] == readers[i]);
        }
        assert forall|i: int| 0 <= i < files.drop_last().len() implies are_readable(
            #[trigger] files.drop_last()[i],
            serialized,
            deserialized,
        ) by {
            assert(files.drop_last()[i] == files[i]);
        }
        assert(files.last() == files[files.len() - 1]);
        lemma_read_files(pending, fewer, files.drop_last(), serialized, deserialized);
        let first = layout::all_records(files.drop_last());
        let (middle, jobs) = assembled_from(pending, first);
        assert(readers.last() == readers[readers.len() - 1]);
        law_a_file_is_put_together(
            middle,
            readers.last(),
            files.last(),
            serialized,
            deserialized,
        );
        lemma_assembled_in_parts(pending, first, files.last());
    }
}

proof fn lemma_metadata(
    readers: Seq<ReaderModel>,
    files: Seq<Seq<DiffRecord>>,
    serialized: spec_fn(ChangeModel) -> Seq<u8>,
)
    requires
        readers.len() == files.len(),
        forall|i: int|
            0 <= i < readers.len() ==> {
                &&& (#[trigger] readers[i]).wf()
                &&& readers[i].skip == 0
                &&& roundtrip::read_all(readers[i]) == ReadAll::All(
                    layout::stored_records(files[i], serialized),
                )
            },
    ensures
        metadata_of(readers) == layout::leading_changes_of(files).map_values(serialized),
    decreases readers.len(),
{
    if readers.len() > 0 {
        let fewer = readers.drop_last();
        assert forall|i: int| 0 <= i < fewer.len() implies {
            &&& (#[trigger] fewer[i]).wf()
            &&& fewer[i].skip == 0
            &&& roundtrip::read_all(fewer[i]) == ReadAll::All(
                layout::stored_records(files.drop_last()[i], serialized),
            )
        } by {
            assert(fewer[i] == readers[i]);
        }
        lemma_metadata(fewer, files.drop_last(), serialized);
        assert(readers.last() == readers[readers.len() - 1]);
        filter::law_a_run_picks_everything(
            FilterModel { reader: readers.last(), awaiting: None, done: false },
            apply::change_selection(),
            layout::stored_records(files.last(), serialized),
        );
        layout::law_metadata_is_the_leading_changes(files.last(), serialized);
        let a = layout::leading_changes_of(files.drop_last());
        let b = layout::leading_changes(files.last());
        assert((a + b).map_values(serialized) =~= a.map_values(serialized) + b.map_values(
            serialized,
        ));
    } else {
        assert(layout::leading_changes_of(files).map_values(serialized) =~= Seq::<
            Seq<u8>,
        >::empty());
    }
}

} // verus!
