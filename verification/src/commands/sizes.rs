//! How large the files of a diff are.

use crate::bytes;
use crate::commands::layout;
use crate::commands::layout::{DiffRecord, Layout, Material};
use crate::commands::split::StepModel;
use crate::format::header;
use crate::format::header::RecordModel;
use crate::format::roundtrip;
use crate::model::diff::ChangeModel;
use vstd::prelude::*;

verus! {

/// How many bytes the records of a file take.
pub open spec fn stored_size(
    rs: Seq<DiffRecord>,
    serialized: spec_fn(ChangeModel) -> Seq<u8>,
) -> nat {
    header::records_bytes(layout::stored_records(rs, serialized)).len()
}

proof fn lemma_size_of_push(
    rs: Seq<DiffRecord>,
    r: DiffRecord,
    serialized: spec_fn(ChangeModel) -> Seq<u8>,
)
    ensures
        stored_size(rs.push(r), serialized) == stored_size(rs, serialized) + 9 + match r {
            DiffRecord::Change(c) => serialized(c).len(),
            DiffRecord::Content(data) => data.len(),
        },
{
    let stored = layout::stored_records(rs, serialized);
    let more = layout::stored_records(rs.push(r), serialized);
    assert(more.drop_last() =~= stored);
    bytes::lemma_le_bytes_len(more.last().payload.len(), 8);
}

/// Whether the lengths that a layout goes by are those of the serialized changes.
pub open spec fn is_measured(m: Material, serialized: spec_fn(ChangeModel) -> Seq<u8>) -> bool {
    forall|i: int|
        0 <= i < m.changes.len() ==> #[trigger] m.change_lens[i] == serialized(m.changes[i]).len()
}

/// Whether the sizes that a layout goes by are those of its files.
spec fn are_true(m: Material, l: Layout, serialized: spec_fn(ChangeModel) -> Seq<u8>) -> bool {
    &&& l.files.len() > 0
    &&& l.written == (m.header)(l.files.len()) + stored_size(l.files.last(), serialized)
    &&& forall|k: int|
        0 <= k < l.files.len() - 1 ==> #[trigger] l.sizes[k] == (m.header)((k + 1) as nat)
            + stored_size(l.files[k], serialized)
}

proof fn lemma_step_keeps_true(
    m: Material,
    l: Layout,
    serialized: spec_fn(ChangeModel) -> Seq<u8>,
)
    requires
        m.wf(),
        is_measured(m, serialized),
        layout::inv(m, l),
        are_true(m, l, serialized),
    ensures
        are_true(m, layout::step(m, l), serialized),
{
    let next = layout::step(m, l);
    layout::lemma_step(m, l);
    if !l.done {
        match layout::next_step(m, l) {
            StepModel::WriteChange(i) => {
                let r = DiffRecord::Change(m.changes[i as int]);
                layout::lemma_with_record(l.files, r);
                lemma_size_of_push(l.files.last(), r, serialized);
                assert(i == l.plan.next_change && i < m.changes.len());
                assert(m.change_lens[i as int] == serialized(m.changes[i as int]).len());
            },
            StepModel::WriteContent { index, fragment } => {
                let content = m.contents[index as int];
                let from = content.len() - l.plan.open->0;
                let r = DiffRecord::Content(content.subrange(from, from + fragment));
                layout::lemma_with_record(l.files, r);
                lemma_size_of_push(l.files.last(), r, serialized);
                assert(0 <= from <= from + fragment <= content.len());
            },
            StepModel::NextChunk => {
                let none = layout::stored_records(Seq::empty(), serialized);
                assert(none =~= Seq::<RecordModel>::empty());
                assert(stored_size(Seq::empty(), serialized) == 0);
                assert(next.files.last() == Seq::<DiffRecord>::empty());
                assert forall|k: int| 0 <= k < next.files.len() - 1 implies #[trigger] next.sizes[k]
                    == (m.header)((k + 1) as nat) + stored_size(next.files[k], serialized) by {
                    if k < l.files.len() - 1 {
                        assert(next.sizes[k] == l.sizes[k]);
                        assert(next.files[k] == l.files[k]);
                    }
                }
            },
            _ => {},
        }
    }
}

proof fn lemma_after_keeps_true(
    m: Material,
    l: Layout,
    k: nat,
    serialized: spec_fn(ChangeModel) -> Seq<u8>,
)
    requires
        m.wf(),
        is_measured(m, serialized),
        layout::inv(m, l),
        are_true(m, l, serialized),
    ensures
        are_true(m, layout::after(m, l, k), serialized),
    decreases k,
{
    if k > 0 {
        layout::lemma_step(m, l);
        lemma_step_keeps_true(m, l, serialized);
        lemma_after_keeps_true(m, layout::step(m, l), (k - 1) as nat, serialized);
    }
}

/// The files of a diff keep to the size limit as a whole, from the magic bytes to
/// the checksum, where the limit leaves room for a header, any one change, and
/// what ends a file. That holds of files before compression.
pub proof fn law_files_keep_to_the_limit(
    m: Material,
    k: nat,
    compressed: bool,
    heads: Seq<Seq<u8>>,
    serialized: spec_fn(ChangeModel) -> Seq<u8>,
)
    requires
        m.wf(),
        m.is_roomy(),
        is_measured(m, serialized),
        heads.len() == layout::after(m, layout::start(m), k).files.len(),
        forall|i: int|
            0 <= i < heads.len() ==> (m.header)((i + 1) as nat) == 13 + (#[trigger] heads[i]).len(),
    ensures
        ({
            let files = layout::after(m, layout::start(m), k).files;
            m.limit matches Some(max) ==> forall|i: int|
                0 <= i < files.len() ==> header::file_bytes(
                    header::magic_of(compressed),
                    heads[i],
                    layout::stored_records(#[trigger] files[i], serialized),
                ).len() <= max
        }),
{
    let l0 = layout::start(m);
    let l = layout::after(m, l0, k);
    assert(layout::stored_records(Seq::empty(), serialized) =~= Seq::<RecordModel>::empty());
    layout::lemma_start(m);
    layout::lemma_after(m, l0, k);
    lemma_after_keeps_true(m, l0, k, serialized);
    if let Some(max) = m.limit {
        assert forall|i: int| 0 <= i < l.files.len() implies header::file_bytes(
            header::magic_of(compressed),
            heads[i],
            layout::stored_records(#[trigger] l.files[i], serialized),
        ).len() <= max by {
            let rs = layout::stored_records(l.files[i], serialized);
            roundtrip::law_a_file_has_a_trailer(header::magic_of(compressed), heads[i], rs);
            if i < l.files.len() - 1 {
                assert(m.fits(l.sizes[i]));
            } else {
                assert(l.files[i] == l.files.last());
                assert(m.fits(l.written));
            }
        }
    }
}

} // verus!
