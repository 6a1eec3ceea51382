//! Checking that a diff leads to an expected state.

use crate::commands::simulate;
use crate::commands::snapshot;
use crate::error::GappedError;
use crate::model::diff;
use crate::model::diff::Change;
use crate::model::entry;
use crate::model::entry::{Entry, EntryKind, EntryModel, Metadata};
use crate::model::path::RelativePath;
use crate::model::path_map;
use crate::model::path_map::{EntryMap, PathSet};
use crate::order;
use vstd::prelude::*;

verus! {

/// One line of what is wrong with a simulated state.
#[derive(Debug, PartialEq, Eq)]
pub enum Discrepancy {
    /// An expected entry is missing.
    Missing(RelativePath),
    /// An entry has another kind than expected.
    KindMismatch { path: RelativePath, expected: EntryKind, got: EntryKind },
    /// An entry has other metadata than expected; the next two lines say which.
    MetadataMismatch(RelativePath),
    /// The metadata of the entry of the line before.
    SimulatedMetadata(Metadata),
    /// The metadata that was expected of it.
    TargetMetadata(Metadata),
    /// A file has another content hash than expected.
    HashMismatch(RelativePath),
    /// A symbolic link has another target than expected.
    SymlinkMismatch(RelativePath),
    /// There is an entry that was not expected.
    Extra(RelativePath),
}

/// What a [`Discrepancy`] says.
#[verifier::ext_equal]
pub enum LineModel {
    Missing(Seq<Seq<u8>>),
    KindMismatch { path: Seq<Seq<u8>>, expected: EntryKind, got: EntryKind },
    MetadataMismatch(Seq<Seq<u8>>),
    SimulatedMetadata(Metadata),
    TargetMetadata(Metadata),
    HashMismatch(Seq<Seq<u8>>),
    SymlinkMismatch(Seq<Seq<u8>>),
    Extra(Seq<Seq<u8>>),
}

impl View for Discrepancy {
    type V = LineModel;

    open spec fn view(&self) -> LineModel {
        match self {
            Discrepancy::Missing(p) => LineModel::Missing(p@),
            Discrepancy::KindMismatch { path, expected, got } => LineModel::KindMismatch {
                path: path@,
                expected: *expected,
                got: *got,
            },
            Discrepancy::MetadataMismatch(p) => LineModel::MetadataMismatch(p@),
            Discrepancy::SimulatedMetadata(m) => LineModel::SimulatedMetadata(*m),
            Discrepancy::TargetMetadata(m) => LineModel::TargetMetadata(*m),
            Discrepancy::HashMismatch(p) => LineModel::HashMismatch(p@),
            Discrepancy::SymlinkMismatch(p) => LineModel::SymlinkMismatch(p@),
            Discrepancy::Extra(p) => LineModel::Extra(p@),
        }
    }
}

/// What the lines of a list say.
pub open spec fn line_views(v: Seq<Discrepancy>) -> Seq<LineModel> {
    v.map_values(|d: Discrepancy| d@)
}

/// Whether the metadata of an entry is the expected one. That of a directory that
/// is left alone does not count.
pub open spec fn metadata_conforms(
    simulated: EntryModel,
    target: EntryModel,
    left_alone: bool,
) -> bool {
    ||| simulated.metadata.agrees(target.metadata)
    ||| left_alone && simulated.kind == EntryKind::Directory && target.kind == EntryKind::Directory
}

/// The lines for one expected entry.
pub open spec fn entry_lines(
    simulated: Map<Seq<Seq<u8>>, EntryModel>,
    path: Seq<Seq<u8>>,
    target: EntryModel,
    left_alone: Set<Seq<Seq<u8>>>,
) -> Seq<LineModel> {
    if !simulated.dom().contains(path) {
        seq![LineModel::Missing(path)]
    } else {
        let s = simulated[path];
        (if s.kind != target.kind {
            seq![LineModel::KindMismatch { path, expected: target.kind, got: s.kind }]
        } else {
            Seq::empty()
        }) + (if !metadata_conforms(s, target, left_alone.contains(path)) {
            seq![
                LineModel::MetadataMismatch(path),
                LineModel::SimulatedMetadata(s.metadata),
                LineModel::TargetMetadata(target.metadata),
            ]
        } else {
            Seq::empty()
        }) + (if s.hash != target.hash {
            seq![LineModel::HashMismatch(path)]
        } else {
            Seq::empty()
        }) + (if s.symlink_target != target.symlink_target {
            seq![LineModel::SymlinkMismatch(path)]
        } else {
            Seq::empty()
        })
    }
}

/// The lines for all expected entries, in order.
pub open spec fn target_lines(
    simulated: Map<Seq<Seq<u8>>, EntryModel>,
    keys: Seq<Seq<Seq<u8>>>,
    targets: Seq<EntryModel>,
    left_alone: Set<Seq<Seq<u8>>>,
) -> Seq<LineModel>
    decreases keys.len(),
{
    if keys.len() == 0 {
        Seq::empty()
    } else {
        target_lines(simulated, keys.drop_last(), targets.drop_last(), left_alone) + entry_lines(
            simulated,
            keys.last(),
            targets.last(),
            left_alone,
        )
    }
}

/// The lines for entries that were not expected, in order.
pub open spec fn extra_lines(
    target: Map<Seq<Seq<u8>>, EntryModel>,
    keys: Seq<Seq<Seq<u8>>>,
) -> Seq<LineModel>
    decreases keys.len(),
{
    if keys.len() == 0 {
        Seq::empty()
    } else if target.dom().contains(keys.last()) {
        extra_lines(target, keys.drop_last())
    } else {
        extra_lines(target, keys.drop_last()).push(LineModel::Extra(keys.last()))
    }
}

/// Whether a simulated state is the expected one: the same paths, and at each
/// the same state, where the metadata of directories that are left alone does
/// not count.
pub open spec fn conforms(
    simulated: Map<Seq<Seq<u8>>, EntryModel>,
    target: Map<Seq<Seq<u8>>, EntryModel>,
    left_alone: Set<Seq<Seq<u8>>>,
) -> bool {
    &&& simulated.dom() == target.dom()
    &&& forall|p: Seq<Seq<u8>>| #[trigger]
        target.dom().contains(p) ==> {
            &&& simulated[p].kind == target[p].kind
            &&& metadata_conforms(simulated[p], target[p], left_alone.contains(p))
            &&& simulated[p].hash == target[p].hash
            &&& simulated[p].symlink_target == target[p].symlink_target
        }
}

proof fn lemma_push_line(v: Seq<Discrepancy>, d: Discrepancy)
    ensures
        line_views(v.push(d)) == line_views(v).push(d@),
{
    assert(line_views(v.push(d)) =~= line_views(v).push(d@));
}

fn compare_entry(
    out: &mut Vec<Discrepancy>,
    simulated: &EntryMap,
    path: &RelativePath,
    target: &Entry,
    left_alone: &PathSet,
)
    requires
        simulated.wf(),
        left_alone.wf(),
    ensures
        line_views(final(out)@) == line_views(old(out)@) + entry_lines(
            simulated@,
            path@,
            target@,
            left_alone@.dom(),
        ),
{
    let ghost start = line_views(out@);
    match simulated.get(path) {
        None => {
            let d = Discrepancy::Missing(path.clone());
            proof {
                lemma_push_line(out@, d);
            }
            out.push(d);
            assert(line_views(out@) =~= start + entry_lines(
                simulated@,
                path@,
                target@,
                left_alone@.dom(),
            ));
        },
        Some(s) => {
            let ghost none = Seq::<LineModel>::empty();
            let ghost mut a = none;
            let ghost mut b = none;
            let ghost mut c = none;
            let ghost mut e = none;
            if s.kind != target.kind {
                let d = Discrepancy::KindMismatch {
                    path: path.clone(),
                    expected: target.kind,
                    got: s.kind,
                };
                proof {
                    lemma_push_line(out@, d);
                    a = seq![d@];
                }
                out.push(d);
            }
            assert(line_views(out@) =~= start + a);
            let does_not_count: bool = s.kind == EntryKind::Directory && target.kind
                == EntryKind::Directory && left_alone.contains(path);
            if !s.metadata.matches(&target.metadata) && !does_not_count {
                let d = Discrepancy::MetadataMismatch(path.clone());
                let d2 = Discrepancy::SimulatedMetadata(s.metadata);
                let d3 = Discrepancy::TargetMetadata(target.metadata);
                proof {
                    lemma_push_line(out@, d);
                    lemma_push_line(out@.push(d), d2);
                    lemma_push_line(out@.push(d).push(d2), d3);
                    b = seq![d@, d2@, d3@];
                }
                out.push(d);
                out.push(d2);
                out.push(d3);
            }
            assert(line_views(out@) =~= start + a + b);
            if !entry::same_hash(&s.hash, &target.hash) {
                let d = Discrepancy::HashMismatch(path.clone());
                proof {
                    lemma_push_line(out@, d);
                    c = seq![d@];
                }
                out.push(d);
            }
            assert(line_views(out@) =~= start + a + b + c);
            if !entry::same_target(&s.symlink_target, &target.symlink_target) {
                let d = Discrepancy::SymlinkMismatch(path.clone());
                proof {
                    lemma_push_line(out@, d);
                    e = seq![d@];
                }
                out.push(d);
            }
            assert(line_views(out@) =~= start + (a + b + c + e));
        },
    }
}

/// Compares a simulated state to the expected one. The metadata of the
/// directories in `left_alone` is not compared.
pub fn compare_entries(
    simulated: &EntryMap,
    target: &EntryMap,
    left_alone: &PathSet,
) -> (r: Vec<Discrepancy>)
    requires
        simulated.wf(),
        target.wf(),
        left_alone.wf(),
    ensures
        line_views(r@) == target_lines(
            simulated@,
            target.key_list(),
            target.value_list(),
            left_alone@.dom(),
        ) + extra_lines(target@, simulated.key_list()),
        r@.len() == 0 <==> conforms(simulated@, target@, left_alone@.dom()),
{
    let mut r: Vec<Discrepancy> = Vec::new();
    let ghost keys = target.key_list();
    let ghost values = target.value_list();
    let ghost left = left_alone@.dom();
    let mut i: usize = 0;
    proof {
        assert(keys.take(0) =~= Seq::empty());
        assert(line_views(r@) =~= Seq::empty());
    }
    while i < target.len()
        invariant
            simulated.wf(),
            target.wf(),
            left_alone.wf(),
            keys == target.key_list(),
            values == target.value_list(),
            left == left_alone@.dom(),
            i <= keys.len() == values.len(),
            line_views(r@) == target_lines(
                simulated@,
                keys.take(i as int),
                values.take(i as int),
                left,
            ),
        decreases keys.len() - i,
    {
        proof {
            assert(keys.take(i + 1).drop_last() =~= keys.take(i as int));
            assert(values.take(i + 1).drop_last() =~= values.take(i as int));
        }
        compare_entry(&mut r, simulated, target.key_at(i), target.value_at(i), left_alone);
        i = i + 1;
    }
    let ghost front = line_views(r@);
    let ghost skeys = simulated.key_list();
    let mut j: usize = 0;
    proof {
        assert(keys.take(i as int) =~= keys);
        assert(values.take(i as int) =~= values);
        assert(skeys.take(0) =~= Seq::empty());
        assert(front + Seq::<LineModel>::empty() =~= front);
    }
    while j < simulated.len()
        invariant
            simulated.wf(),
            target.wf(),
            skeys == simulated.key_list(),
            j <= skeys.len(),
            line_views(r@) == front + extra_lines(target@, skeys.take(j as int)),
        decreases skeys.len() - j,
    {
        let path = simulated.key_at(j);
        proof {
            assert(skeys.take(j + 1).drop_last() =~= skeys.take(j as int));
            assert(skeys.take(j + 1).last() == path@);
        }
        if !target.contains(path) {
            let d = Discrepancy::Extra(path.clone());
            proof {
                lemma_push_line(r@, d);
                assert((front + extra_lines(target@, skeys.take(j as int))).push(d@) =~= front
                    + extra_lines(target@, skeys.take(j as int)).push(d@));
            }
            r.push(d);
        }
        j = j + 1;
    }
    proof {
        assert(skeys.take(j as int) =~= skeys);
        assert(r@.len() == line_views(r@).len());
        lemma_lines_empty(simulated@, target@, skeys, simulated.value_list(), keys, values, left);
    }
    r
}

proof fn lemma_target_lines_empty(
    simulated: Map<Seq<Seq<u8>>, EntryModel>,
    keys: Seq<Seq<Seq<u8>>>,
    values: Seq<EntryModel>,
    left: Set<Seq<Seq<u8>>>,
)
    requires
        keys.len() == values.len(),
    ensures
        target_lines(simulated, keys, values, left).len() == 0 <==> forall|i: int|
            0 <= i < keys.len() ==> entry_lines(
                simulated,
                #[trigger] keys[i],
                values[i],
                left,
            ).len() == 0,
    decreases keys.len(),
{
    if keys.len() > 0 {
        lemma_target_lines_empty(simulated, keys.drop_last(), values.drop_last(), left);
        let n = keys.len() - 1;
        if forall|i: int|
            0 <= i < keys.len() ==> entry_lines(simulated, #[trigger] keys[i], values[i], left).len()
                == 0 {
            assert forall|i: int| 0 <= i < keys.drop_last().len() implies entry_lines(
                simulated,
                #[trigger] keys.drop_last()[i],
                values.drop_last()[i],
                left,
            ).len() == 0 by {
                assert(keys.drop_last()[i] == keys[i]);
            }
            assert(keys[n] == keys.last());
        }
        if target_lines(simulated, keys, values, left).len() == 0 {
            assert forall|i: int| 0 <= i < keys.len() implies entry_lines(
                simulated,
                #[trigger] keys[i],
                values[i],
                left,
            ).len() == 0 by {
                if i < n {
                    assert(keys.drop_last()[i] == keys[i]);
                    assert(values.drop_last()[i] == values[i]);
                }
            }
        }
    }
}

proof fn lemma_extra_lines_empty(target: Map<Seq<Seq<u8>>, EntryModel>, keys: Seq<Seq<Seq<u8>>>)
    ensures
        extra_lines(target, keys).len() == 0 <==> forall|i: int|
            0 <= i < keys.len() ==> target.dom().contains(#[trigger] keys[i]),
    decreases keys.len(),
{
    if keys.len() > 0 {
        lemma_extra_lines_empty(target, keys.drop_last());
        let n = keys.len() - 1;
        if forall|i: int| 0 <= i < keys.len() ==> target.dom().contains(#[trigger] keys[i]) {
            assert forall|i: int| 0 <= i < keys.drop_last().len() implies target.dom().contains(
                #[trigger] keys.drop_last()[i],
            ) by {
                assert(keys.drop_last()[i] == keys[i]);
            }
            assert(target.dom().contains(keys[n]));
        }
        if extra_lines(target, keys).len() == 0 {
            assert forall|i: int| 0 <= i < keys.len() implies target.dom().contains(
                #[trigger] keys[i],
            ) by {
                if i < n {
                    assert(keys.drop_last()[i] == keys[i]);
                }
            }
        }
    }
}

/// There are no lines exactly if the states conform.
proof fn lemma_lines_empty(
    simulated: Map<Seq<Seq<u8>>, EntryModel>,
    target: Map<Seq<Seq<u8>>, EntryModel>,
    skeys: Seq<Seq<Seq<u8>>>,
    svalues: Seq<EntryModel>,
    keys: Seq<Seq<Seq<u8>>>,
    values: Seq<EntryModel>,
    left: Set<Seq<Seq<u8>>>,
)
    requires
        path_map::is_sorted(keys),
        keys.len() == values.len(),
        target == path_map::map_of(keys, values),
        simulated == path_map::map_of(skeys, svalues),
    ensures
        (target_lines(simulated, keys, values, left) + extra_lines(target, skeys)).len() == 0
            <==> conforms(simulated, target, left),
{
    lemma_target_lines_empty(simulated, keys, values, left);
    lemma_extra_lines_empty(target, skeys);
    if target_lines(simulated, keys, values, left).len() == 0 && extra_lines(target, skeys).len()
        == 0 {
        assert forall|p: Seq<Seq<u8>>| simulated.dom().contains(p) == target.dom().contains(p) by {
            if skeys.contains(p) {
                let i = skeys.index_of(p);
                assert(skeys[i] == p);
            }
            if keys.contains(p) {
                let i = keys.index_of(p);
                assert(keys[i] == p);
                assert(entry_lines(simulated, keys[i], values[i], left).len() == 0);
            }
        }
        assert(simulated.dom() =~= target.dom());
        assert forall|p: Seq<Seq<u8>>| #[trigger] target.dom().contains(p) implies {
            &&& simulated[p].kind == target[p].kind
            &&& simulated[p].metadata.agrees(target[p].metadata) || left.contains(p)
            &&& simulated[p].hash == target[p].hash
            &&& simulated[p].symlink_target == target[p].symlink_target
        } by {
            let i = keys.index_of(p);
            assert(keys[i] == p);
            assert(entry_lines(simulated, keys[i], values[i], left).len() == 0);
        }
    }
    if conforms(simulated, target, left) {
        assert forall|i: int| 0 <= i < keys.len() implies entry_lines(
            simulated,
            #[trigger] keys[i],
            values[i],
            left,
        ).len() == 0 by {
            path_map::lemma_index_of(keys, i);
            assert(target.dom().contains(keys[i]));
            assert(target[keys[i]] == values[i]);
        }
        assert forall|i: int| 0 <= i < skeys.len() implies target.dom().contains(
            #[trigger] skeys[i],
        ) by {
            assert(skeys.contains(skeys[i]));
            assert(simulated.dom().contains(skeys[i]));
        }
    }
}

/// The verdict on some discrepancies.
pub fn verdict(discrepancies: &Vec<Discrepancy>) -> (r: Result<(), GappedError>)
    ensures
        r is Ok <==> discrepancies@.len() == 0,
        r matches Err(e) ==> e == GappedError::VerificationFailed(discrepancies@.len() as usize),
{
    if discrepancies.len() == 0 {
        Ok(())
    } else {
        Err(GappedError::VerificationFailed(discrepancies.len()))
    }
}

/// Simulates applying changes to the current entries of a tree and compares the
/// result to the expected entries.
pub fn verify_entries(
    current: Vec<Entry>,
    changes: &Vec<Change>,
    target: &EntryMap,
) -> (r: Vec<Discrepancy>)
    requires
        target.wf(),
    ensures
        ({
            let before = path_map::entries_by_path(entry::entry_views(current@));
            let cs = diff::change_views(changes@);
            let after = simulate::after_changes(before, cs);
            let left = Set::new(|p: Seq<Seq<u8>>| simulate::is_left_alone(cs, p));
            &&& r@.len() == 0 <==> conforms(after, target@, left)
            &&& exists|keys: Seq<Seq<Seq<u8>>>|
                {
                    &&& path_map::is_sorted(keys)
                    &&& forall|p: Seq<Seq<u8>>| keys.contains(p) <==> after.dom().contains(p)
                    &&& line_views(r@) == target_lines(
                        after,
                        target.key_list(),
                        target.value_list(),
                        left,
                    ) + #[trigger] extra_lines(target@, keys)
                }
        }),
{
    let mut simulated = snapshot::load_snapshot_entries(current);
    let ghost before = simulated@;
    let left_alone = simulate::simulate_apply(&mut simulated, changes);
    let r = compare_entries(&simulated, target, &left_alone);
    proof {
        let cs = diff::change_views(changes@);
        assert(left_alone@.dom() =~= Set::new(
            |p: Seq<Seq<u8>>| simulate::is_left_alone(cs, p),
        ));
        let keys = simulated.key_list();
        assert(forall|p: Seq<Seq<u8>>| keys.contains(p) <==> simulated@.dom().contains(p));
        assert(line_views(r@) == target_lines(
            simulated@,
            target.key_list(),
            target.value_list(),
            left_alone@.dom(),
        ) + extra_lines(target@, keys));
    }
    r
}

} // verus!
