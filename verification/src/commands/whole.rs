//! What the commands promise from one end to the other.

use crate::commands::apply;
use crate::commands::content::PendingModel;
use crate::commands::diff;
use crate::commands::layout;
use crate::commands::layout::{DiffRecord, Material};
use crate::commands::phases;
use crate::commands::readback;
use crate::commands::simulate;
use crate::commands::snapshot;
use crate::commands::sync;
use crate::commands::verify;
use crate::error::GappedError;
use crate::format::header;
use crate::format::header::RecordModel;
use crate::format::reader::{FormatReader, ReaderModel};
use crate::format::roundtrip;
use crate::format::roundtrip::ReadAll;
use crate::format::writer;
use crate::fs::walk;
use crate::model::diff::ChangeModel;
use crate::model::entry::EntryModel;
use crate::model::path_map;
use crate::order;
use vstd::prelude::*;

verus! {

/// What readers have received and read.
pub open spec fn reader_views(readers: Seq<FormatReader>) -> Seq<ReaderModel> {
    readers.map_values(|f: FormatReader| f@)
}

/// Whether a reader that was fed a file that was written stands behind the header
/// of the file, and its decoder, if it has one, has not failed.
pub open spec fn is_behind_header(
    f: FormatReader,
    file: Seq<u8>,
    compressed: bool,
    head: Seq<u8>,
    rs: Seq<RecordModel>,
) -> bool {
    &&& f.wf()
    &&& !f.gave_up()
    &&& f@.compressed == compressed
    &&& f@.fed == file.skip(9)
    &&& f@.taken == 4 + head.len()
    &&& f@.skip == 0
    &&& !f@.finished
    &&& writer::stores(
        file,
        compressed,
        header::file_bytes(header::magic_of(compressed), head, rs),
    )
}

/// A reader that was fed the front of a file has received the front of what the
/// file stores, compressed or not; and all of it once it was fed all of the file,
/// unless its decoder has failed.
pub proof fn law_a_stored_file_is_received(
    f: FormatReader,
    file: Seq<u8>,
    plain: Seq<u8>,
)
    requires
        f.wf(),
        f@.fed.is_prefix_of(file.skip(9)),
        writer::stores(file, f@.compressed, plain),
    ensures
        f@.received.is_prefix_of(plain.skip(9)),
        f@.fed == file.skip(9) && !f.gave_up() ==> f@.received == plain.skip(9),
{
}

/// A file that was written is read record by record, compressed or not: from
/// behind the header on all its records come, each with its type and payload, and
/// then the end, with a checksum that is found right.
pub proof fn law_a_stored_file_reads_back(
    f: FormatReader,
    file: Seq<u8>,
    compressed: bool,
    head: Seq<u8>,
    rs: Seq<RecordModel>,
)
    requires
        is_behind_header(f, file, compressed, head, rs),
        head.len() <= 0xffff_ffff,
        roundtrip::are_storable(rs),
    ensures
        roundtrip::read_all(f@) == ReadAll::All(rs),
{
    let plain = header::file_bytes(header::magic_of(compressed), head, rs);
    assert(f@.fed.is_prefix_of(file.skip(9)));
    law_a_stored_file_is_received(f, file, plain);
    roundtrip::law_a_file_reads_back(compressed, head, rs);
    let at = roundtrip::reader_at(compressed, plain.skip(9), 0);
    roundtrip::lemma_read_all_ignores_input(at.advance(4 + at.header_len()), f@);
}

/// Whether every header and every record of some files has a length that can be
/// stored.
pub open spec fn can_be_stored(
    heads: Seq<Seq<u8>>,
    files: Seq<Seq<DiffRecord>>,
    serialized: spec_fn(ChangeModel) -> Seq<u8>,
) -> bool {
    &&& heads.len() == files.len()
    &&& forall|i: int| 0 <= i < heads.len() ==> (#[trigger] heads[i]).len() <= 0xffff_ffff
    &&& forall|i: int|
        0 <= i < files.len() ==> roundtrip::are_storable(
            layout::stored_records(#[trigger] files[i], serialized),
        )
}

/// Whether some values are found again from how they are serialized.
pub open spec fn is_found_again<T>(
    values: Seq<T>,
    serialized: spec_fn(T) -> Seq<u8>,
    deserialized: spec_fn(Seq<u8>) -> T,
) -> bool {
    forall|i: int|
        0 <= i < values.len() ==> deserialized(serialized(#[trigger] values[i])) == values[i]
}

proof fn lemma_found_again<T>(
    values: Seq<T>,
    serialized: spec_fn(T) -> Seq<u8>,
    deserialized: spec_fn(Seq<u8>) -> T,
)
    requires
        is_found_again(values, serialized, deserialized),
    ensures
        values.map_values(serialized).map_values(deserialized) == values,
{
    assert(values.map_values(serialized).map_values(deserialized) =~= values);
}

/// Whether readers that were fed the files of a diff stand behind their headers.
pub open spec fn are_behind_headers(
    readers: Seq<FormatReader>,
    stored: Seq<Seq<u8>>,
    compressed: bool,
    heads: Seq<Seq<u8>>,
    files: Seq<Seq<DiffRecord>>,
    serialized: spec_fn(ChangeModel) -> Seq<u8>,
) -> bool {
    &&& readers.len() == files.len()
    &&& forall|i: int|
        0 <= i < readers.len() ==> is_behind_header(
            #[trigger] readers[i],
            stored[i],
            compressed,
            heads[i],
            layout::stored_records(files[i], serialized),
        )
}

/// The files of a diff that was laid out completely and stored, compressed or not,
/// are read back: all changes, in order, from the fronts of the files, and the
/// content of each change that has any, in order, from all of them, with nothing
/// left waiting.
pub proof fn law_a_stored_diff_reads_back(
    m: Material,
    k: nat,
    compressed: bool,
    heads: Seq<Seq<u8>>,
    stored: Seq<Seq<u8>>,
    readers: Seq<FormatReader>,
    serialized: spec_fn(ChangeModel) -> Seq<u8>,
    deserialized: spec_fn(Seq<u8>) -> ChangeModel,
)
    requires
        m.wf(),
        is_found_again(m.changes, serialized, deserialized),
        ({
            let l = layout::after(m, layout::start(m), k);
            &&& l.done
            &&& can_be_stored(heads, l.files, serialized)
            &&& are_behind_headers(readers, stored, compressed, heads, l.files, serialized)
        }),
    ensures
        ({
            let nothing = PendingModel { queue: Seq::empty(), current: None };
            &&& readback::metadata_of(reader_views(readers)).map_values(deserialized) == m.changes
            &&& readback::read_files(nothing, reader_views(readers), deserialized) == Some(
                (nothing, layout::complete(m, m.changes.len())),
            )
        }),
{
    let files = layout::after(m, layout::start(m), k).files;
    let views = reader_views(readers);
    assert forall|i: int| 0 <= i < views.len() implies {
        &&& (#[trigger] views[i]).wf()
        &&& views[i].skip == 0
        &&& roundtrip::read_all(views[i]) == ReadAll::All(
            layout::stored_records(files[i], serialized),
        )
    } by {
        let rs = layout::stored_records(files[i], serialized);
        assert(views[i] == readers[i]@);
        assert(heads[i].len() <= 0xffff_ffff);
        assert(roundtrip::are_storable(layout::stored_records(files[i], serialized)));
        law_a_stored_file_reads_back(readers[i], stored[i], compressed, heads[i], rs);
    }
    readback::law_a_diff_reads_back(m, k, views, serialized, deserialized);
    lemma_found_again(m.changes, serialized, deserialized);
}

/// A diff carries a tree from one machine to another. Take the changes from the
/// old to the new state, lay them out over files, store the files, read the
/// changes back from them, and apply those in phases to the old state: that leads
/// to the new state, and verifying it against the new state finds nothing.
pub proof fn law_a_diff_carries_the_tree_over(
    old: Seq<EntryModel>,
    new: Seq<EntryModel>,
    m: Material,
    k: nat,
    compressed: bool,
    heads: Seq<Seq<u8>>,
    stored: Seq<Seq<u8>>,
    readers: Seq<FormatReader>,
    serialized: spec_fn(ChangeModel) -> Seq<u8>,
    deserialized: spec_fn(Seq<u8>) -> ChangeModel,
    removals: Seq<usize>,
    others: Seq<usize>,
    left_alone: Set<Seq<Seq<u8>>>,
)
    requires
        diff::sorted_by_path(old),
        diff::sorted_by_path(new),
        sync::are_expressible(old, new),
        m.wf(),
        m.changes == diff::diff_of(old, new),
        m.changes.len() <= usize::MAX,
        is_found_again(m.changes, serialized, deserialized),
        ({
            let l = layout::after(m, layout::start(m), k);
            let received = readback::metadata_of(reader_views(readers)).map_values(deserialized);
            &&& l.done
            &&& can_be_stored(heads, l.files, serialized)
            &&& are_behind_headers(readers, stored, compressed, heads, l.files, serialized)
            &&& apply::is_by_depth(received, apply::removes(), true, removals)
            &&& apply::is_by_depth(received, apply::puts(), false, others)
        }),
    ensures
        ({
            let received = readback::metadata_of(reader_views(readers)).map_values(deserialized);
            let after = simulate::after_changes(
                path_map::entries_by_path(old),
                phases::chosen(received, removals) + phases::chosen(received, others),
            );
            let target = path_map::entries_by_path(new);
            &&& after.dom() == target.dom()
            &&& forall|p: Seq<Seq<u8>>| #[trigger]
                target.dom().contains(p) ==> diff::same_state(after[p], target[p])
            &&& verify::conforms(after, target, left_alone)
        }),
{
    law_a_stored_diff_reads_back(
        m,
        k,
        compressed,
        heads,
        stored,
        readers,
        serialized,
        deserialized,
    );
    phases::law_a_diff_is_settled(old, new);
    phases::law_phases_do_not_matter(
        path_map::entries_by_path(old),
        m.changes,
        removals,
        others,
    );
    sync::law_a_diff_leads_to_the_new_state(old, new, left_alone);
}

/// A snapshot of a walk loads back what the walk found: the header, and the
/// entries, one for each node, in the strict order of their paths. Only where the
/// decoder has failed on a compressed file is there an error, and it says so.
pub proof fn law_a_walk_loads_back(
    found: Seq<EntryModel>,
    entries: Seq<EntryModel>,
    file: Seq<u8>,
    compressed: bool,
    head: Seq<u8>,
    serialized: spec_fn(EntryModel) -> Seq<u8>,
    deserialized: spec_fn(Seq<u8>) -> EntryModel,
    r: Result<(Vec<Vec<u8>>, Vec<u8>), GappedError>,
)
    requires
        walk::is_sorted_copy(found, entries),
        found.len() <= usize::MAX,
        forall|i: int, j: int|
            0 <= i < j < found.len() ==> (#[trigger] found[i]).path != (#[trigger] found[j]).path,
        is_found_again(entries, serialized, deserialized),
        head.len() <= 0xffff_ffff,
        roundtrip::are_storable(snapshot::snapshot_records(entries.map_values(serialized))),
        writer::stores(
            file,
            compressed,
            header::file_bytes(
                header::magic_of(compressed),
                head,
                snapshot::snapshot_records(entries.map_values(serialized)),
            ),
        ),
        snapshot::is_file_loaded(file, r),
    ensures
        ({
            ||| r matches Ok((es, h)) && {
                let loaded = order::views(es@).map_values(deserialized);
                &&& loaded == entries
                &&& diff::sorted_by_path(loaded)
                &&& loaded.len() == found.len()
                &&& forall|i: int| 0 <= i < found.len() ==> loaded.contains(#[trigger] found[i])
                &&& h@ == head
            }
            ||| compressed && snapshot::gives_up_on(file.skip(9)) && r == Err::<
                (Vec<Vec<u8>>, Vec<u8>),
                GappedError,
            >(GappedError::Decompression)
        }),
{
    walk::law_a_walk_is_sorted(found, entries);
    snapshot::law_a_snapshot_loads_back(file, compressed, head, entries.map_values(serialized), r);
    lemma_found_again(entries, serialized, deserialized);
}

} // verus!
