//! Entries and their metadata.

use crate::fs::metadata::{NodeType, RawStat};
use crate::model::diff::{Change, ChangeKind, ChangeModel, KindModel};
use crate::model::entry::{Entry, EntryKind, EntryModel, Metadata};
use crate::model::path_map;
use vstd::prelude::*;

verus! {

/// Metadata agrees exactly if nothing but the modification time tells it apart,
/// and the two times are at most a second from each other.
pub proof fn law_agreeing_metadata_differs_in_time_only(a: Metadata, b: Metadata)
    ensures
        a.agrees(b) <==> {
            let apart = (a.mtime_sec - b.mtime_sec) * 1_000_000_000 + (a.mtime_nsec
                - b.mtime_nsec);
            &&& -1_000_000_000 <= apart <= 1_000_000_000
            &&& (Metadata { mtime_sec: b.mtime_sec, mtime_nsec: b.mtime_nsec, ..a }) == b
        },
{
}

/// Metadata in which one field has another value does not agree; a time agrees
/// that is moved by less than a second in its nanoseconds.
pub proof fn law_every_field_of_metadata_counts(a: Metadata, b: Metadata)
    ensures
        (Metadata { size: b.size, ..a }).agrees(a) <==> b.size == a.size,
        (Metadata { permissions: b.permissions, ..a }).agrees(a) <==> b.permissions
            == a.permissions,
        (Metadata { uid: b.uid, ..a }).agrees(a) <==> b.uid == a.uid,
        (Metadata { gid: b.gid, ..a }).agrees(a) <==> b.gid == a.gid,
        a.mtime_nsec < 1_000_000_000 && b.mtime_nsec < 1_000_000_000 ==> (Metadata {
            mtime_nsec: b.mtime_nsec,
            ..a
        }).agrees(a),
        b.mtime_sec - a.mtime_sec > 1 ==> !(Metadata { mtime_sec: b.mtime_sec, ..a }).agrees(a),
        a.mtime_sec - b.mtime_sec > 1 ==> !(Metadata { mtime_sec: b.mtime_sec, ..a }).agrees(a),
        -1 <= b.mtime_sec - a.mtime_sec <= 1 ==> (Metadata {
            mtime_sec: b.mtime_sec,
            ..a
        }).agrees(a),
{
}

/// The metadata that is kept of a node is what the system says of it: owner and
/// time as they are, the low nine bits of the mode, and the length of a file,
/// where anything else counts as empty.
pub proof fn law_kept_metadata_is_what_the_system_says(s: RawStat)
    ensures
        s.kept().uid == s.uid,
        s.kept().gid == s.gid,
        s.kept().mtime_sec == s.mtime_sec,
        0 <= s.mtime_nsec <= u32::MAX ==> s.kept().mtime_nsec == s.mtime_nsec,
        s.kept().permissions == s.mode % 512,
        s.node == NodeType::File ==> s.kept().size == s.len,
        s.node != NodeType::File ==> s.kept().size == 0,
{
    let mode = s.mode;
    assert(mode & 0o777 == mode % 512) by (bit_vector);
}

/// Each kind has a number of its own.
pub proof fn law_kinds_are_told_apart(a: EntryKind, b: EntryKind)
    ensures
        a.number() == b.number() <==> a == b,
{
}

/// An entry is seen with everything it holds.
pub proof fn law_an_entry_is_seen_whole(e: Entry)
    ensures
        e@.path == e.path@,
        e@.kind == e.kind,
        e@.metadata == e.metadata,
        e.hash matches Some(h) ==> e@.hash == Some(h@),
        e.hash is None ==> e@.hash is None,
        e.symlink_target matches Some(t) ==> e@.symlink_target == Some(t@),
        e.symlink_target is None ==> e@.symlink_target is None,
        e.dir_hash matches Some(h) ==> e@.dir_hash == Some(h@),
        e.dir_hash is None ==> e@.dir_hash is None,
{
}

/// A change is seen with everything it says.
pub proof fn law_a_change_is_seen_whole(c: Change)
    ensures
        c@.path == c.path@,
        c.kind matches ChangeKind::Removed(k) ==> c@.kind == KindModel::Removed(k),
        c.kind matches ChangeKind::Added(a) ==> c@.kind == (KindModel::Added {
            entry: a.entry@,
            has_content: a.has_content,
        }),
        c.kind matches ChangeKind::Modified(m) ==> {
            &&& c@.kind matches KindModel::Modified {
                new_metadata,
                new_hash,
                has_content,
                new_symlink_target,
            }
            &&& new_metadata == m.new_metadata
            &&& has_content == m.has_content
            &&& (m.new_hash matches Some(h) ==> new_hash == Some(h@))
            &&& (m.new_hash is None ==> new_hash is None)
            &&& (m.new_symlink_target matches Some(t) ==> new_symlink_target == Some(t@))
            &&& (m.new_symlink_target is None ==> new_symlink_target is None)
        },
{
}

/// What a change says of content and metadata is in the change: content comes
/// where its flag is set, and then as many bytes belong to it as the metadata
/// that it brings says.
pub proof fn law_content_is_announced_in_the_change(c: ChangeModel)
    ensures
        c.kind is Removed ==> !c.has_content() && c.metadata_after() is None && c.content_size()
            == 0,
        c.kind matches KindModel::Added { entry, has_content } ==> {
            &&& c.has_content() == has_content
            &&& c.metadata_after() == Some(entry.metadata)
            &&& (has_content ==> c.content_size() == entry.metadata.size)
        },
        c.kind matches KindModel::Modified { new_metadata, has_content, .. } ==> {
            &&& c.has_content() == has_content
            &&& c.metadata_after() == new_metadata
            &&& (has_content ==> (new_metadata matches Some(m) ==> c.content_size() == m.size))
        },
        !c.has_content() ==> c.content_size() == 0,
        c.wf() <==> !(c.has_content() && c.metadata_after() is None),
{
}

/// Whether position `i` is the last one with the path `p`.
pub open spec fn is_last_with(es: Seq<EntryModel>, p: Seq<Seq<u8>>, i: int) -> bool {
    &&& 0 <= i < es.len()
    &&& es[i].path == p
    &&& forall|j: int| i < j < es.len() ==> (#[trigger] es[j]).path != p
}

/// A map of entries by path holds, at each path that occurs, the last entry with
/// that path, and nothing else.
pub proof fn law_the_last_entry_of_a_path_counts(es: Seq<EntryModel>, p: Seq<Seq<u8>>, i: int)
    ensures
        is_last_with(es, p, i) ==> path_map::entries_by_path(es).dom().contains(p)
            && path_map::entries_by_path(es)[p] == es[i],
        (forall|j: int| 0 <= j < es.len() ==> (#[trigger] es[j]).path != p)
            ==> !path_map::entries_by_path(es).dom().contains(p),
    decreases es.len(),
{
    if es.len() > 0 {
        let front = es.drop_last();
        let n = es.len() - 1;
        law_the_last_entry_of_a_path_counts(front, p, i);
        assert(es[n] == es.last());
        if is_last_with(es, p, i) && i < n {
            assert(es[n].path != p);
            assert(is_last_with(front, p, i));
        }
        if forall|j: int| 0 <= j < es.len() ==> (#[trigger] es[j]).path != p {
            assert forall|j: int| 0 <= j < front.len() implies (#[trigger] front[j]).path != p by {
                assert(front[j] == es[j]);
            }
        }
    }
}

} // verus!
