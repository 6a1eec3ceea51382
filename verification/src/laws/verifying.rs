//! What it means that verifying finds nothing, and what the lines say where it
//! finds something.

use crate::commands::simulate;
use crate::commands::verify;
use crate::commands::verify::{Discrepancy, LineModel};
use crate::laws::applying;
use crate::laws::diffs;
use crate::model::diff::ChangeModel;
use crate::model::entry::{EntryKind, EntryModel};
use vstd::prelude::*;

verus! {

/// Whether a path is a directory in both states, and one that is left alone.
pub open spec fn is_exempt(
    simulated: Map<Seq<Seq<u8>>, EntryModel>,
    target: Map<Seq<Seq<u8>>, EntryModel>,
    left_alone: Set<Seq<Seq<u8>>>,
    p: Seq<Seq<u8>>,
) -> bool {
    &&& left_alone.contains(p)
    &&& simulated[p].kind == EntryKind::Directory
    &&& target[p].kind == EntryKind::Directory
}

/// A state conforms to the expected one exactly if they have the same paths, and
/// at each path nothing tells the entries apart: kind, size, permissions, owner,
/// group, hash, link target, and the modification time but for a second. Only of
/// a directory that is left alone the metadata does not count.
pub proof fn law_a_conforming_state_is_the_expected_one(
    simulated: Map<Seq<Seq<u8>>, EntryModel>,
    target: Map<Seq<Seq<u8>>, EntryModel>,
    left_alone: Set<Seq<Seq<u8>>>,
)
    ensures
        verify::conforms(simulated, target, left_alone) <==> {
            &&& simulated.dom() == target.dom()
            &&& forall|p: Seq<Seq<u8>>| #[trigger]
                target.dom().contains(p) ==> {
                    &&& simulated[p].kind == target[p].kind
                    &&& simulated[p].hash == target[p].hash
                    &&& simulated[p].symlink_target == target[p].symlink_target
                    &&& !is_exempt(simulated, target, left_alone, p)
                        ==> !diffs::is_other_metadata(simulated[p].metadata, target[p].metadata)
                }
        },
{
    assert forall|p: Seq<Seq<u8>>| #[trigger] target.dom().contains(p) implies (
    verify::metadata_conforms(simulated[p], target[p], left_alone.contains(p)) <==> (is_exempt(
        simulated,
        target,
        left_alone,
        p,
    ) || !diffs::is_other_metadata(simulated[p].metadata, target[p].metadata))) by {}
}

/// If verifying a diff finds nothing, then applying the diff gives the expected
/// state in every field, at every path but the directories that the diff touches
/// from below only: those have the metadata that they had.
pub proof fn law_a_verified_diff_gives_the_expected_state(
    before: Map<Seq<Seq<u8>>, EntryModel>,
    cs: Seq<ChangeModel>,
    target: Map<Seq<Seq<u8>>, EntryModel>,
)
    requires
        verify::conforms(
            simulate::after_changes(before, cs),
            target,
            Set::new(|p: Seq<Seq<u8>>| simulate::is_left_alone(cs, p)),
        ),
    ensures
        ({
            let after = simulate::after_changes(before, cs);
            &&& after.dom() == target.dom()
            &&& forall|p: Seq<Seq<u8>>| #[trigger]
                target.dom().contains(p) ==> {
                    &&& after[p].kind == target[p].kind
                    &&& after[p].hash == target[p].hash
                    &&& after[p].symlink_target == target[p].symlink_target
                    &&& diffs::is_other_metadata(after[p].metadata, target[p].metadata) ==> {
                        &&& after[p].kind == EntryKind::Directory
                        &&& applying::has_change_in(cs, p)
                        &&& forall|i: int| 0 <= i < cs.len() ==> (#[trigger] cs[i]).path != p
                        &&& before.dom().contains(p)
                        &&& after[p].metadata == before[p].metadata
                    }
                }
        }),
{
    let after = simulate::after_changes(before, cs);
    let left = Set::new(|p: Seq<Seq<u8>>| simulate::is_left_alone(cs, p));
    law_a_conforming_state_is_the_expected_one(after, target, left);
    assert forall|p: Seq<Seq<u8>>|
        #![trigger target.dom().contains(p)]
        target.dom().contains(p) && diffs::is_other_metadata(
            after[p].metadata,
            target[p].metadata,
        ) implies {
        &&& after[p].kind == EntryKind::Directory
        &&& applying::has_change_in(cs, p)
        &&& forall|i: int| 0 <= i < cs.len() ==> (#[trigger] cs[i]).path != p
        &&& before.dom().contains(p)
        &&& after[p].metadata == before[p].metadata
    } by {
        assert(is_exempt(after, target, left, p));
        applying::law_a_directory_is_left_alone_by_its_own_changes(cs, p);
        simulate::law_other_paths_keep_their_entries(before, cs, p);
        assert(after.dom().contains(p));
    }
}

/// A line is seen with everything it says.
pub proof fn law_a_line_is_seen_whole(d: Discrepancy)
    ensures
        d matches Discrepancy::Missing(p) ==> d@ == LineModel::Missing(p@),
        d matches Discrepancy::Extra(p) ==> d@ == LineModel::Extra(p@),
        d matches Discrepancy::KindMismatch { path, expected, got } ==> {
            &&& d@ matches LineModel::KindMismatch { path: q, expected: e, got: g }
            &&& q == path@
            &&& e == expected
            &&& g == got
        },
        d matches Discrepancy::MetadataMismatch(p) ==> d@ == LineModel::MetadataMismatch(p@),
        d matches Discrepancy::SimulatedMetadata(m) ==> d@ == LineModel::SimulatedMetadata(m),
        d matches Discrepancy::TargetMetadata(m) ==> d@ == LineModel::TargetMetadata(m),
        d matches Discrepancy::HashMismatch(p) ==> d@ == LineModel::HashMismatch(p@),
        d matches Discrepancy::SymlinkMismatch(p) ==> d@ == LineModel::SymlinkMismatch(p@),
{
}

/// The lines for an expected entry say what differs, and nothing else: that it is
/// missing; or the kinds, if they differ; that metadata differs, with what it is
/// and what was expected in the next two lines; the hash; the link target.
pub proof fn law_the_lines_of_an_entry_say_what_differs(
    simulated: Map<Seq<Seq<u8>>, EntryModel>,
    p: Seq<Seq<u8>>,
    target: EntryModel,
    left_alone: Set<Seq<Seq<u8>>>,
)
    ensures
        ({
            let lines = verify::entry_lines(simulated, p, target, left_alone);
            let s = simulated[p];
            let there = simulated.dom().contains(p);
            let meta = diffs::is_other_metadata(s.metadata, target.metadata) && !(
            left_alone.contains(p) && s.kind == EntryKind::Directory && target.kind
                == EntryKind::Directory);
            &&& !there ==> lines == seq![LineModel::Missing(p)]
            &&& there ==> {
                &&& !lines.contains(LineModel::Missing(p))
                &&& lines.contains(
                    LineModel::KindMismatch { path: p, expected: target.kind, got: s.kind },
                ) <==> s.kind != target.kind
                &&& lines.contains(LineModel::MetadataMismatch(p)) <==> meta
                &&& lines.contains(LineModel::HashMismatch(p)) <==> s.hash != target.hash
                &&& lines.contains(LineModel::SymlinkMismatch(p)) <==> s.symlink_target
                    != target.symlink_target
                &&& lines.len() == (if s.kind != target.kind {
                    1int
                } else {
                    0
                }) + (if meta {
                    3int
                } else {
                    0
                }) + (if s.hash != target.hash {
                    1int
                } else {
                    0
                }) + (if s.symlink_target != target.symlink_target {
                    1int
                } else {
                    0
                })
                &&& forall|k: int|
                    0 <= k < lines.len() && #[trigger] lines[k] == LineModel::MetadataMismatch(p)
                        ==> k + 2 < lines.len() && lines[k + 1] == LineModel::SimulatedMetadata(
                        s.metadata,
                    ) && lines[k + 2] == LineModel::TargetMetadata(target.metadata)
            }
        }),
{
    let lines = verify::entry_lines(simulated, p, target, left_alone);
    let s = simulated[p];
    if simulated.dom().contains(p) {
        let meta = !verify::metadata_conforms(s, target, left_alone.contains(p));
        let a: int = if s.kind != target.kind {
            1
        } else {
            0
        };
        let b: int = if meta {
            3
        } else {
            0
        };
        let c: int = if s.hash != target.hash {
            1
        } else {
            0
        };
        if s.kind != target.kind {
            assert(lines[0] == LineModel::KindMismatch {
                path: p,
                expected: target.kind,
                got: s.kind,
            });
        }
        if meta {
            assert(lines[a] == LineModel::MetadataMismatch(p));
            assert(lines[a + 1] == LineModel::SimulatedMetadata(s.metadata));
            assert(lines[a + 2] == LineModel::TargetMetadata(target.metadata));
        }
        if s.hash != target.hash {
            assert(lines[a + b] == LineModel::HashMismatch(p));
        }
        if s.symlink_target != target.symlink_target {
            assert(lines[a + b + c] == LineModel::SymlinkMismatch(p));
        }
    }
}

/// Whether a line is one of those for an expected entry.
pub open spec fn is_line_of_some_entry(
    simulated: Map<Seq<Seq<u8>>, EntryModel>,
    keys: Seq<Seq<Seq<u8>>>,
    targets: Seq<EntryModel>,
    left_alone: Set<Seq<Seq<u8>>>,
    line: LineModel,
) -> bool {
    exists|i: int|
        0 <= i < keys.len() && verify::entry_lines(
            simulated,
            #[trigger] keys[i],
            targets[i],
            left_alone,
        ).contains(line)
}

/// The lines for the expected entries are those of each of them.
pub proof fn law_every_expected_entry_is_looked_at(
    simulated: Map<Seq<Seq<u8>>, EntryModel>,
    keys: Seq<Seq<Seq<u8>>>,
    targets: Seq<EntryModel>,
    left_alone: Set<Seq<Seq<u8>>>,
    line: LineModel,
)
    requires
        keys.len() == targets.len(),
    ensures
        verify::target_lines(simulated, keys, targets, left_alone).contains(line)
            <==> is_line_of_some_entry(simulated, keys, targets, left_alone, line),
    decreases keys.len(),
{
    let all = verify::target_lines(simulated, keys, targets, left_alone);
    if keys.len() > 0 {
        let keys0 = keys.drop_last();
        let targets0 = targets.drop_last();
        let n = keys.len() - 1;
        let front = verify::target_lines(simulated, keys0, targets0, left_alone);
        let last = verify::entry_lines(simulated, keys[n], targets[n], left_alone);
        law_every_expected_entry_is_looked_at(simulated, keys0, targets0, left_alone, line);
        assert(all == front + last);
        if all.contains(line) {
            let k = choose|k: int| 0 <= k < all.len() && all[k] == line;
            if k < front.len() {
                assert(front[k] == line);
                let i = choose|i: int|
                    0 <= i < keys0.len() && verify::entry_lines(
                        simulated,
                        #[trigger] keys0[i],
                        targets0[i],
                        left_alone,
                    ).contains(line);
                assert(keys0[i] == keys[i] && targets0[i] == targets[i]);
            } else {
                assert(last[k - front.len()] == line);
                assert(last.contains(line));
                assert(keys[n] == keys.last());
            }
        }
        if is_line_of_some_entry(simulated, keys, targets, left_alone, line) {
            let i = choose|i: int|
                0 <= i < keys.len() && verify::entry_lines(
                    simulated,
                    #[trigger] keys[i],
                    targets[i],
                    left_alone,
                ).contains(line);
            if i < n {
                assert(keys0[i] == keys[i] && targets0[i] == targets[i]);
                let k = choose|k: int| 0 <= k < front.len() && front[k] == line;
                assert(all[k] == line);
            } else {
                let k = choose|k: int| 0 <= k < last.len() && last[k] == line;
                assert(all[front.len() + k] == line);
            }
        }
    }
}

/// The lines for entries that were not expected name the paths that the expected
/// state does not have, each once and in order.
pub proof fn law_every_unexpected_entry_is_named(
    target: Map<Seq<Seq<u8>>, EntryModel>,
    keys: Seq<Seq<Seq<u8>>>,
)
    ensures
        verify::extra_lines(target, keys) == keys.filter(
            |p: Seq<Seq<u8>>| !target.dom().contains(p),
        ).map_values(|p: Seq<Seq<u8>>| LineModel::Extra(p)),
    decreases keys.len(),
{
    reveal(Seq::filter);
    if keys.len() > 0 {
        law_every_unexpected_entry_is_named(target, keys.drop_last());
    }
    assert(verify::extra_lines(target, keys) =~= keys.filter(
        |p: Seq<Seq<u8>>| !target.dom().contains(p),
    ).map_values(|p: Seq<Seq<u8>>| LineModel::Extra(p)));
}

} // verus!
