//! Walks over a tree, and which files are hashed again.

use crate::fs::metadata::{NodeType, RawStat};
use crate::fs::walk;
use crate::fs::walk::{ClassifyError, HashOutcome, RawEntry};
use crate::laws::paths;
use crate::model::entry::{EntryKind, EntryModel, Metadata};
use crate::model::path;
use crate::order;
use vstd::prelude::*;

verus! {

/// A node below the root is classified by what the system says it is: its path is
/// what stands behind the root, its metadata is what is kept of what the system
/// says, and a link has its target. What could not be read is an error, and what is
/// neither file, directory nor link is left out.
pub proof fn law_a_node_is_classified_by_its_type(
    root: Seq<u8>,
    names: Seq<Seq<u8>>,
    stat: Option<RawStat>,
    target: Option<Seq<u8>>,
)
    requires
        path::are_names(names),
    ensures
        ({
            let full = path::as_prefix(root) + path::joined(names);
            let r = walk::classified(full, root, stat, target);
            &&& stat is None ==> r == Err::<EntryModel, ClassifyError>(ClassifyError::Failed)
            &&& stat matches Some(s) ==> {
                &&& s.node == NodeType::Other <==> r == Err::<EntryModel, ClassifyError>(
                    ClassifyError::Skip,
                )
                &&& s.node == NodeType::Symlink && target is None <==> r == Err::<
                    EntryModel,
                    ClassifyError,
                >(ClassifyError::Failed)
                &&& r matches Ok(e) ==> {
                    &&& e.path == names
                    &&& e.kind == EntryKind::File <==> s.node == NodeType::File
                    &&& e.kind == EntryKind::Directory <==> s.node == NodeType::Directory
                    &&& e.kind == EntryKind::Symlink <==> s.node == NodeType::Symlink
                    &&& e.metadata == s.kept()
                    &&& e.hash is None
                    &&& e.dir_hash is None
                    &&& s.node == NodeType::Symlink ==> e.symlink_target == target
                    &&& s.node != NodeType::Symlink ==> e.symlink_target is None
                }
            }
        }),
{
    path::law_strip_of_full_path(root, names);
}

/// A path that does not start with the components of the root is an error.
pub proof fn law_a_node_outside_the_root_is_an_error(
    full: Seq<u8>,
    root: Seq<u8>,
    stat: Option<RawStat>,
    target: Option<Seq<u8>>,
    k: int,
)
    requires
        0 <= k < path::components_of(root).len(),
        k >= path::components_of(full).len() || path::components_of(full)[k]
            != path::components_of(root)[k],
    ensures
        walk::classified(full, root, stat, target) == Err::<EntryModel, ClassifyError>(
            ClassifyError::Failed,
        ),
{
    let a = path::components_of(root);
    let b = path::components_of(full);
    if a.is_prefix_of(b) {
        assert(a =~= b.subrange(0, a.len() as int));
        assert(a[k] == b[k]);
    }
}

/// However a full path is written, the path of a node is the components behind
/// those of the root; one that leads up among them is an error.
pub proof fn law_a_node_has_the_path_behind_the_root(
    full: Seq<u8>,
    root: Seq<u8>,
    stat: Option<RawStat>,
    target: Option<Seq<u8>>,
)
    requires
        path::components_of(root).len() > 0,
        path::components_of(root).is_prefix_of(path::components_of(full)),
    ensures
        ({
            let k = path::components_of(root).len() as int;
            let parts = path::components_of(full);
            let r = walk::classified(full, root, stat, target);
            &&& r matches Ok(e) ==> e.path == parts.skip(k)
            &&& (exists|i: int| k <= i < parts.len() && #[trigger] parts[i] == seq![0x2eu8, 0x2eu8])
                ==> r == Err::<EntryModel, ClassifyError>(ClassifyError::Failed)
            &&& r == Err::<EntryModel, ClassifyError>(ClassifyError::Failed) ==> {
                ||| exists|i: int|
                    k <= i < parts.len() && #[trigger] parts[i] == seq![0x2eu8, 0x2eu8]
                ||| stat is None
                ||| stat matches Some(s) && s.node == NodeType::Symlink && target is None
            }
        }),
{
    let k = path::components_of(root).len() as int;
    let parts = path::components_of(full);
    paths::law_what_stands_behind_has_the_other_components(full, k);
    assert(path::is_relative(path::behind(full, k)) <==> !(exists|i: int|
        k <= i < parts.len() && #[trigger] parts[i] == seq![0x2eu8, 0x2eu8]));
}

/// A hash is taken over only from a file that looks unchanged: it had that hash,
/// the same size and the same second of modification. A file that does is not
/// hashed again, and one with another size or time is.
pub proof fn law_a_hash_is_kept_only_for_an_unchanged_file(
    metadata: Metadata,
    old: Option<EntryModel>,
    h: Seq<u8>,
)
    ensures
        walk::kept_hash(metadata, old) == Some(h) ==> {
            &&& old matches Some(e)
            &&& e.kind == EntryKind::File
            &&& e.hash == Some(h)
            &&& e.metadata.size == metadata.size
            &&& e.metadata.mtime_sec == metadata.mtime_sec
        },
        old matches Some(e) ==> {
            &&& (e.metadata.size != metadata.size ==> walk::kept_hash(metadata, old) is None)
            &&& (e.metadata.mtime_sec != metadata.mtime_sec ==> walk::kept_hash(metadata, old)
                is None)
            &&& (e.kind == EntryKind::File && e.metadata == metadata ==> walk::kept_hash(
                metadata,
                old,
            ) == e.hash)
            &&& walk::kept_hash(
                (Metadata { size: e.metadata.size, mtime_sec: e.metadata.mtime_sec, ..metadata }),
                old,
            ) == if e.kind == EntryKind::File {
                e.hash
            } else {
                None
            }
        },
        old is None ==> walk::kept_hash(metadata, old) is None,
{
}

/// A file keeps a known hash, else it has the hash of its content, else it fails;
/// nothing else has a content hash.
pub proof fn law_a_hash_is_known_or_taken_from_the_content(
    kind: EntryKind,
    known: Option<[u8; 16]>,
    hashed: Option<[u8; 16]>,
    h: [u8; 16],
)
    ensures
        walk::outcome_of(kind, known, hashed) == HashOutcome::Reused(h) <==> kind
            == EntryKind::File && known == Some(h),
        walk::outcome_of(kind, known, hashed) == HashOutcome::Hashed(h) <==> kind
            == EntryKind::File && known is None && hashed == Some(h),
        walk::outcome_of(kind, known, hashed) is Failed <==> kind == EntryKind::File
            && known is None && hashed is None,
        walk::outcome_of(kind, known, hashed) is NotAFile <==> kind != EntryKind::File,
{
}

/// A node is seen with everything that was found of it.
pub proof fn law_a_node_is_seen_whole(raw: RawEntry)
    ensures
        raw@.path == raw.path@,
        raw@.kind == raw.kind,
        raw@.metadata == raw.metadata,
        raw.symlink_target matches Some(t) ==> raw@.symlink_target == Some(t@),
        raw.symlink_target is None ==> raw@.symlink_target is None,
        raw@.hash is None,
        raw@.dir_hash is None,
{
}

/// The hash that an outcome brings, if it brings one.
pub open spec fn brought_hash(outcome: HashOutcome) -> Option<Seq<u8>> {
    match outcome {
        HashOutcome::Reused(h) => Some(h@),
        HashOutcome::Hashed(h) => Some(h@),
        HashOutcome::NotAFile => None,
        HashOutcome::Failed => None,
    }
}

/// An entry has the path, kind, metadata and link target of the node that it was
/// found as; a file has the hash that its outcome brings, and there is no entry
/// for a file without one; nothing else has a content hash.
pub proof fn law_an_entry_is_the_node_it_was_found_as(raw: EntryModel, outcome: HashOutcome)
    requires
        raw.hash is None,
        raw.dir_hash is None,
    ensures
        walk::built(raw, outcome) is None <==> raw.kind == EntryKind::File && brought_hash(outcome)
            is None,
        walk::built(raw, outcome) matches Some(e) ==> {
            &&& e.path == raw.path
            &&& e.kind == raw.kind
            &&& e.metadata == raw.metadata
            &&& e.symlink_target == raw.symlink_target
            &&& e.hash == if raw.kind == EntryKind::File {
                brought_hash(outcome)
            } else {
                None
            }
            &&& e.dir_hash is None
        },
{
}

/// Whether entry `e` is what was found as a node, given where its hash comes from.
pub open spec fn is_found_as(e: EntryModel, raw: RawEntry, outcome: HashOutcome) -> bool {
    &&& e.path == raw.path@
    &&& e.kind == raw.kind
    &&& e.metadata == raw.metadata
    &&& match raw.symlink_target {
        Some(t) => e.symlink_target == Some(t@),
        None => e.symlink_target is None,
    }
    &&& e.hash == if raw.kind == EntryKind::File {
        brought_hash(outcome)
    } else {
        None
    }
    &&& e.dir_hash is None
}

/// Whether an entry was found as one of some nodes.
pub open spec fn was_found(
    e: EntryModel,
    found: Seq<RawEntry>,
    outcomes: Seq<HashOutcome>,
) -> bool {
    exists|i: int| 0 <= i < found.len() && is_found_as(e, #[trigger] found[i], outcomes[i])
}

/// Whether a node has an entry among some entries.
pub open spec fn is_recorded(es: Seq<EntryModel>, raw: RawEntry, outcome: HashOutcome) -> bool {
    exists|k: int| 0 <= k < es.len() && is_found_as(#[trigger] es[k], raw, outcome)
}

proof fn lemma_all_built(found: Seq<RawEntry>, outcomes: Seq<HashOutcome>)
    requires
        found.len() == outcomes.len(),
    ensures
        ({
            let es = walk::all_built(walk::raw_views(found), outcomes);
            &&& forall|k: int|
                0 <= k < es.len() ==> was_found(#[trigger] es[k], found, outcomes)
            &&& forall|i: int|
                0 <= i < found.len() && ((#[trigger] found[i]).kind != EntryKind::File
                    || brought_hash(outcomes[i]) is Some) ==> is_recorded(
                    es,
                    found[i],
                    outcomes[i],
                )
        }),
    decreases found.len(),
{
    let es = walk::all_built(walk::raw_views(found), outcomes);
    if found.len() > 0 {
        let n = found.len() - 1;
        let front = found.drop_last();
        let before = outcomes.drop_last();
        let es0 = walk::all_built(walk::raw_views(front), before);
        lemma_all_built(front, before);
        assert(walk::raw_views(found).drop_last() =~= walk::raw_views(front));
        let last = found[n]@;
        law_a_node_is_seen_whole(found[n]);
        law_an_entry_is_the_node_it_was_found_as(last, outcomes[n]);
        assert(walk::raw_views(found).last() == last);
        assert forall|k: int| 0 <= k < es.len() implies was_found(
            #[trigger] es[k],
            found,
            outcomes,
        ) by {
            if k < es0.len() {
                assert(es[k] == es0[k]);
                assert(was_found(es0[k], front, before));
                let i = choose|i: int|
                    0 <= i < front.len() && is_found_as(es0[k], #[trigger] front[i], before[i]);
                assert(front[i] == found[i] && before[i] == outcomes[i]);
                assert(is_found_as(es[k], found[i], outcomes[i]));
            } else {
                assert(is_found_as(es[k], found[n], outcomes[n]));
            }
        }
        assert forall|i: int|
            0 <= i < found.len() && ((#[trigger] found[i]).kind != EntryKind::File
                || brought_hash(outcomes[i]) is Some) implies is_recorded(
            es,
            found[i],
            outcomes[i],
        ) by {
            if i < n {
                assert(front[i] == found[i] && before[i] == outcomes[i]);
                assert(is_recorded(es0, front[i], before[i]));
                let k = choose|k: int|
                    0 <= k < es0.len() && is_found_as(#[trigger] es0[k], front[i], before[i]);
                assert(es[k] == es0[k]);
                assert(is_found_as(es[k], found[i], outcomes[i]));
            } else {
                assert(is_found_as(es[es.len() - 1], found[n], outcomes[n]));
            }
        }
    }
}

/// A walk records every node as it was found. There is an entry, with the path,
/// kind, metadata and link target of the node and the hash that was brought, for
/// every directory, every link and every file that has a hash; there is no entry
/// that was not found; and no path stands in front of a lesser one.
pub proof fn law_a_walk_records_every_node(
    found: Seq<RawEntry>,
    outcomes: Seq<HashOutcome>,
    entries: Seq<EntryModel>,
)
    requires
        found.len() == outcomes.len(),
        found.len() <= usize::MAX,
        walk::is_sorted_copy(walk::all_built(walk::raw_views(found), outcomes), entries),
    ensures
        forall|k: int|
            0 <= k < entries.len() ==> was_found(#[trigger] entries[k], found, outcomes),
        forall|i: int|
            0 <= i < found.len() && ((#[trigger] found[i]).kind != EntryKind::File || brought_hash(
                outcomes[i],
            ) is Some) ==> is_recorded(entries, found[i], outcomes[i]),
        forall|a: int, b: int|
            0 <= a < b < entries.len() ==> !order::path_lt(
                (#[trigger] entries[b]).path,
                (#[trigger] entries[a]).path,
            ),
{
    let es = walk::all_built(walk::raw_views(found), outcomes);
    lemma_all_built(found, outcomes);
    walk::law_every_file_is_accounted_for(walk::raw_views(found), outcomes);
    let at = choose|at: Seq<usize>| #[trigger]
        walk::is_path_order(es, at) && entries == walk::picked(es, at);
    assert(entries.len() == at.len());
    assert forall|k: int| 0 <= k < entries.len() implies was_found(
        #[trigger] entries[k],
        found,
        outcomes,
    ) by {
        assert(at[k] < es.len());
        assert(entries[k] == es[at[k] as int]);
    }
    assert forall|i: int|
        0 <= i < found.len() && ((#[trigger] found[i]).kind != EntryKind::File || brought_hash(
            outcomes[i],
        ) is Some) implies is_recorded(entries, found[i], outcomes[i]) by {
        assert(is_recorded(es, found[i], outcomes[i]));
        let j = choose|j: int|
            0 <= j < es.len() && is_found_as(#[trigger] es[j], found[i], outcomes[i]);
        assert(at.contains(j as usize));
        let k = choose|k: int| 0 <= k < at.len() && at[k] == j as usize;
        assert(entries[k] == es[j]);
        assert(is_found_as(entries[k], found[i], outcomes[i]));
    }
    assert forall|a: int, b: int| 0 <= a < b < entries.len() implies !order::path_lt(
        (#[trigger] entries[b]).path,
        (#[trigger] entries[a]).path,
    ) by {
        assert(entries[a] == es[at[a] as int] && entries[b] == es[at[b] as int]);
        order::lemma_path_lt_exclusive(entries[a].path, entries[b].path);
        order::lemma_path_lt_irreflexive(entries[a].path);
    }
}

/// Whether the entry at one position of a list comes before that at another in a
/// second list.
pub open spec fn keep_their_order(
    es: Seq<EntryModel>,
    r: Seq<EntryModel>,
    i: int,
    j: int,
) -> bool {
    exists|a: int, b: int|
        0 <= a < b < r.len() && (#[trigger] r[a]) == es[i] && (#[trigger] r[b]) == es[j]
}

/// Sorting entries keeps them all, puts a lesser path in front, and leaves entries
/// with the same path in the order in which they stood.
pub proof fn law_sorting_keeps_equal_paths_in_order(
    es: Seq<EntryModel>,
    r: Seq<EntryModel>,
    i: int,
    j: int,
)
    requires
        walk::is_sorted_copy(es, r),
        es.len() <= usize::MAX,
        0 <= i < es.len(),
        0 <= j < es.len(),
        order::path_lt(es[i].path, es[j].path) || (es[i].path == es[j].path && i < j),
    ensures
        r.len() == es.len(),
        keep_their_order(es, r, i, j),
{
    let at = choose|at: Seq<usize>| #[trigger]
        walk::is_path_order(es, at) && r == walk::picked(es, at);
    assert(at.contains(i as usize) && at.contains(j as usize));
    let a = choose|a: int| 0 <= a < at.len() && at[a] == i as usize;
    let b = choose|b: int| 0 <= b < at.len() && at[b] == j as usize;
    assert(r[a] == es[i] && r[b] == es[j]);
    order::lemma_path_lt_exclusive(es[i].path, es[j].path);
    order::lemma_path_lt_irreflexive(es[i].path);
    assert(a < b);
}

/// The nodes of a kind are counted one by one.
pub proof fn law_nodes_are_counted_by_kind(raws: Seq<EntryModel>, kind: EntryKind)
    ensures
        walk::count_kind(raws, kind) == raws.filter(|e: EntryModel| e.kind == kind).len(),
    decreases raws.len(),
{
    reveal(Seq::filter);
    if raws.len() > 0 {
        law_nodes_are_counted_by_kind(raws.drop_last(), kind);
    }
}

/// Files are counted by where their hashes come from, one by one, and each file
/// that has none takes an entry away.
pub proof fn law_hashes_are_counted_by_origin(raws: Seq<EntryModel>, outcomes: Seq<HashOutcome>)
    requires
        raws.len() == outcomes.len(),
    ensures
        walk::count_hashed(raws, outcomes) == raws.zip_with(outcomes).filter(
            |p: (EntryModel, HashOutcome)| p.0.kind == EntryKind::File && p.1 is Hashed,
        ).len(),
        walk::count_reused(raws, outcomes) == raws.zip_with(outcomes).filter(
            |p: (EntryModel, HashOutcome)| p.0.kind == EntryKind::File && p.1 is Reused,
        ).len(),
        raws.len() - walk::all_built(raws, outcomes).len() == raws.zip_with(outcomes).filter(
            |p: (EntryModel, HashOutcome)|
                p.0.kind == EntryKind::File && !(p.1 is Hashed) && !(p.1 is Reused),
        ).len(),
    decreases raws.len(),
{
    reveal(Seq::filter);
    let both = raws.zip_with(outcomes);
    if raws.len() > 0 {
        law_hashes_are_counted_by_origin(raws.drop_last(), outcomes.drop_last());
        assert(both.drop_last() =~= raws.drop_last().zip_with(outcomes.drop_last()));
        assert(both.last() == (raws.last(), outcomes.last()));
    }
}

/// The statistics with one more entry: it is counted once, under its kind.
pub proof fn law_an_entry_is_counted_once(stats: walk::WalkStats, kind: EntryKind)
    requires
        stats.wf(),
        stats.total_entries < usize::MAX,
    ensures
        ({
            let next = stats.counted(kind);
            &&& next.wf()
            &&& next.total_entries == stats.total_entries + 1
            &&& kind == EntryKind::File ==> next.files == stats.files + 1
            &&& kind == EntryKind::Directory ==> next.directories == stats.directories + 1
            &&& kind == EntryKind::Symlink ==> next.symlinks == stats.symlinks + 1
            &&& next.errors == stats.errors
            &&& next.files_hashed == stats.files_hashed
            &&& next.files_hash_reused == stats.files_hash_reused
        }),
{
}

} // verus!
