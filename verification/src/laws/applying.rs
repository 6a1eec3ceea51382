//! Applying changes: what is done for each, in which order, and how it is counted.

use crate::commands::apply;
use crate::commands::apply::{Action, ApplyResult, Outcome};
use crate::commands::diff;
use crate::commands::phases;
use crate::commands::simulate;
use crate::fs::metadata::NodeType;
use crate::laws::diffs;
use crate::model::diff::{ChangeModel, KindModel};
use crate::model::entry::{EntryKind, EntryModel, Metadata};
use vstd::prelude::*;

verus! {

/// A change says what becomes of its own path, and of no other. What a
/// modification does not say stays.
pub proof fn law_a_change_is_of_its_path_only(
    state: Map<Seq<Seq<u8>>, EntryModel>,
    c: ChangeModel,
    p: Seq<Seq<u8>>,
)
    ensures
        ({
            let after = simulate::after_change(state, c);
            &&& p != c.path ==> (after.dom().contains(p) <==> state.dom().contains(p))
            &&& p != c.path && state.dom().contains(p) ==> after[p] == state[p]
            &&& c.kind is Removed ==> !after.dom().contains(c.path)
            &&& c.kind matches KindModel::Added { entry, .. } ==> after.dom().contains(c.path)
                && after[c.path] == entry
            &&& c.kind matches KindModel::Modified {
                new_metadata,
                new_hash,
                new_symlink_target,
                ..
            } ==> {
                let a = after[c.path];
                let b = state[c.path];
                &&& after.dom().contains(c.path) <==> state.dom().contains(c.path)
                &&& state.dom().contains(c.path) ==> {
                    &&& a.path == b.path
                    &&& a.kind == b.kind
                    &&& a.dir_hash == b.dir_hash
                    &&& (new_metadata matches Some(m) ==> a.metadata == m)
                    &&& (new_metadata is None ==> a.metadata == b.metadata)
                    &&& (new_hash is Some ==> a.hash == new_hash)
                    &&& (new_hash is None ==> a.hash == b.hash)
                    &&& (new_symlink_target is Some ==> a.symlink_target == new_symlink_target)
                    &&& (new_symlink_target is None ==> a.symlink_target == b.symlink_target)
                }
            }
        }),
{
}

/// Changes take effect one after the other: none leaves a state as it is, and one
/// more works on what the others have left.
pub proof fn law_changes_take_effect_in_turn(
    state: Map<Seq<Seq<u8>>, EntryModel>,
    cs: Seq<ChangeModel>,
    c: ChangeModel,
)
    ensures
        simulate::after_changes(state, Seq::empty()) == state,
        simulate::after_changes(state, cs.push(c)) == simulate::after_change(
            simulate::after_changes(state, cs),
            c,
        ),
{
    assert(cs.push(c).drop_last() =~= cs);
}

/// What is asked for before any content is written. A modification without
/// content replaces the link exactly if it has a new target, and sets metadata
/// exactly if it has new metadata, each whatever the other is. What comes with
/// content, and what is removed, waits. A directory is created, and so is a link
/// that has a target.
pub proof fn law_an_action_is_what_the_change_asks_for(c: ChangeModel)
    ensures
        c.kind matches KindModel::Modified { new_metadata, has_content, new_symlink_target, .. }
            ==> {
            &&& apply::action_of(c) is Wait <==> has_content
            &&& !has_content ==> {
                &&& apply::action_of(c) matches Action::Modify { replace_link, set_metadata }
                &&& (replace_link <==> new_symlink_target is Some)
                &&& (set_metadata <==> new_metadata is Some)
            }
        },
        c.kind matches KindModel::Added { entry, has_content } ==> {
            &&& apply::action_of(c) == Action::CreateDirectory <==> entry.kind
                == EntryKind::Directory
            &&& apply::action_of(c) == Action::CreateSymlink <==> entry.kind == EntryKind::Symlink
                && entry.symlink_target is Some
            &&& apply::action_of(c) is Wait <==> entry.kind == EntryKind::File && has_content
            &&& !(apply::action_of(c) is Modify)
        },
        c.kind is Removed ==> apply::action_of(c) is Wait,
{
}

/// What there is at the path of a change once its action has been carried out and
/// the content that it waits for, if any, has been written. A directory or a link
/// is created as the added entry says; a link is replaced, and metadata set, where
/// the action says so; and a written file has the added entry, or the new hash and
/// metadata.
pub open spec fn carried_out(
    v: Option<EntryModel>,
    c: ChangeModel,
    action: Action,
) -> Option<EntryModel> {
    match c.kind {
        KindModel::Removed(_) => None,
        KindModel::Added { entry, .. } => match action {
            Action::CreateDirectory => Some(
                EntryModel { kind: EntryKind::Directory, ..entry },
            ),
            Action::CreateSymlink => Some(EntryModel { kind: EntryKind::Symlink, ..entry }),
            Action::Wait => Some(EntryModel { kind: EntryKind::File, ..entry }),
            Action::Count => v,
            Action::Modify { .. } => v,
        },
        KindModel::Modified { new_metadata, new_hash, new_symlink_target, .. } => match v {
            None => None,
            Some(e) => match action {
                Action::Modify { replace_link, set_metadata } => {
                    let linked = if replace_link {
                        EntryModel { symlink_target: new_symlink_target, ..e }
                    } else {
                        e
                    };
                    if set_metadata {
                        Some(EntryModel { metadata: new_metadata->0, ..linked })
                    } else {
                        Some(linked)
                    }
                },
                Action::Wait => Some(
                    EntryModel {
                        hash: new_hash,
                        metadata: match new_metadata {
                            Some(m) => m,
                            None => e.metadata,
                        },
                        ..e
                    },
                ),
                _ => v,
            },
        },
    }
}

/// Whether a change holds what carrying it out needs: an added file comes with its
/// content and an added link with its target; a modification comes with content
/// exactly if it has a new hash, and then the link target stays.
pub open spec fn is_complete(c: ChangeModel) -> bool {
    match c.kind {
        KindModel::Removed(_) => true,
        KindModel::Added { entry, has_content } => {
            &&& entry.kind == EntryKind::File ==> has_content
            &&& entry.kind == EntryKind::Symlink ==> entry.symlink_target is Some
        },
        KindModel::Modified { new_hash, has_content, new_symlink_target, .. } => {
            &&& has_content <==> new_hash is Some
            &&& has_content ==> new_symlink_target is None
        },
    }
}

/// A state after the planned actions of some changes have been carried out, one
/// after the other.
pub open spec fn all_carried_out(
    state: Map<Seq<Seq<u8>>, EntryModel>,
    cs: Seq<ChangeModel>,
) -> Map<Seq<Seq<u8>>, EntryModel>
    decreases cs.len(),
{
    if cs.len() == 0 {
        state
    } else {
        let before = all_carried_out(state, cs.drop_last());
        let c = cs.last();
        let v = if before.dom().contains(c.path) {
            Some(before[c.path])
        } else {
            None
        };
        match carried_out(v, c, apply::action_of(c)) {
            Some(e) => before.insert(c.path, e),
            None => before.remove(c.path),
        }
    }
}

/// Carrying out the planned actions of changes gives the state that simulating
/// the changes gives.
pub proof fn law_carrying_out_gives_the_simulated_state(
    state: Map<Seq<Seq<u8>>, EntryModel>,
    cs: Seq<ChangeModel>,
)
    requires
        forall|k: int| 0 <= k < cs.len() ==> is_complete(#[trigger] cs[k]),
    ensures
        all_carried_out(state, cs) == simulate::after_changes(state, cs),
    decreases cs.len(),
{
    if cs.len() > 0 {
        let front = cs.drop_last();
        let c = cs.last();
        assert forall|k: int| 0 <= k < front.len() implies is_complete(#[trigger] front[k]) by {
            assert(front[k] == cs[k]);
        }
        law_carrying_out_gives_the_simulated_state(state, front);
        assert(is_complete(cs[cs.len() - 1]));
        assert(all_carried_out(state, cs) =~= simulate::after_changes(state, cs));
    }
}

/// Whether entries are what a walk records: a file has a hash and no link target,
/// a link has a target, and what is no file has no hash.
pub open spec fn are_recorded(es: Seq<EntryModel>) -> bool {
    forall|i: int|
        0 <= i < es.len() ==> {
            &&& (#[trigger] es[i]).kind == EntryKind::File <==> es[i].hash is Some
            &&& es[i].kind == EntryKind::Symlink <==> es[i].symlink_target is Some
        }
}

/// Carrying out the planned actions of a diff, its removals and then everything
/// else, gives what simulating the diff gives.
pub proof fn law_carrying_out_a_diff_gives_the_simulated_state(
    state: Map<Seq<Seq<u8>>, EntryModel>,
    old: Seq<EntryModel>,
    new: Seq<EntryModel>,
    removals: Seq<usize>,
    others: Seq<usize>,
)
    requires
        diff::sorted_by_path(old),
        diff::sorted_by_path(new),
        are_recorded(old),
        are_recorded(new),
        diff::diff_of(old, new).len() <= usize::MAX,
        apply::is_by_depth(diff::diff_of(old, new), apply::removes(), true, removals),
        apply::is_by_depth(diff::diff_of(old, new), apply::puts(), false, others),
    ensures
        ({
            let cs = diff::diff_of(old, new);
            all_carried_out(state, phases::chosen(cs, removals) + phases::chosen(cs, others))
                == simulate::after_changes(state, cs)
        }),
{
    let cs = diff::diff_of(old, new);
    let phased = phases::chosen(cs, removals) + phases::chosen(cs, others);
    diffs::law_every_change_is_called_for(old, new);
    assert forall|k: int| 0 <= k < cs.len() implies is_complete(#[trigger] cs[k]) by {
        let c = cs[k];
        assert(diffs::is_called_for(c, old, new));
        if let KindModel::Added { entry, .. } = c.kind {
            let j = choose|j: int| 0 <= j < new.len() && new[j] == entry;
            assert(new[j] == entry);
        }
    }
    assert forall|k: int| 0 <= k < phased.len() implies is_complete(#[trigger] phased[k]) by {
        if k < removals.len() {
            assert(phased[k] == cs[removals[k] as int]);
        } else {
            assert(phased[k] == cs[others[k - removals.len()] as int]);
        }
    }
    law_carrying_out_gives_the_simulated_state(state, phased);
    phases::law_a_diff_is_settled(old, new);
    phases::law_phases_do_not_matter(state, cs, removals, others);
}

/// A directory is left alone exactly if some change is of a name in it, and none
/// is of the directory itself.
pub proof fn law_a_directory_is_left_alone_by_its_own_changes(
    cs: Seq<ChangeModel>,
    p: Seq<Seq<u8>>,
)
    ensures
        simulate::is_left_alone(cs, p) <==> has_change_in(cs, p) && (forall|i: int|
            0 <= i < cs.len() ==> (#[trigger] cs[i]).path != p),
{
    lemma_change_in(cs, p);
}

/// Whether some change is of a name that lies right in a directory.
pub open spec fn has_change_in(cs: Seq<ChangeModel>, p: Seq<Seq<u8>>) -> bool {
    exists|i: int|
        0 <= i < cs.len() && (#[trigger] cs[i]).path.len() == p.len() + 1 && cs[i].path.take(
            p.len() as int,
        ) == p
}

proof fn lemma_change_in(cs: Seq<ChangeModel>, p: Seq<Seq<u8>>)
    ensures
        has_change_in(cs, p) <==> exists|i: int|
            0 <= i < cs.len() && #[trigger] simulate::touches_from_below(cs[i], p),
{
    if has_change_in(cs, p) {
        let i = choose|i: int|
            0 <= i < cs.len() && (#[trigger] cs[i]).path.len() == p.len() + 1 && cs[i].path.take(
                p.len() as int,
            ) == p;
        assert(cs[i].path.drop_last() =~= cs[i].path.take(p.len() as int));
        assert(simulate::touches_from_below(cs[i], p));
    }
    if exists|i: int| 0 <= i < cs.len() && #[trigger] simulate::touches_from_below(cs[i], p) {
        let i = choose|i: int|
            0 <= i < cs.len() && #[trigger] simulate::touches_from_below(cs[i], p);
        assert(cs[i].path.drop_last() =~= cs[i].path.take(p.len() as int));
        assert(cs[i].path.len() == p.len() + 1);
    }
}

/// The time of a directory is saved exactly if some change is of a name in it, and
/// none adds it as a directory or gives metadata to a directory that is there.
pub proof fn law_times_are_saved_of_directories_touched_from_below(
    cs: Seq<ChangeModel>,
    live_dirs: Seq<bool>,
    p: Seq<Seq<u8>>,
)
    ensures
        apply::is_saved(cs, live_dirs, p) <==> has_change_in(cs, p) && (forall|i: int|
            0 <= i < cs.len() && (#[trigger] cs[i]).path == p ==> {
                &&& !(cs[i].kind matches KindModel::Added { entry, .. } && entry.kind
                    == EntryKind::Directory)
                &&& !(cs[i].kind matches KindModel::Modified { new_metadata: Some(_), .. }
                    && live_dirs[i])
            }),
        apply::is_kept(cs, live_dirs, p) <==> has_change_in(cs, p) && (forall|i: int|
            0 <= i < cs.len() ==> (#[trigger] cs[i]).path != p),
{
    lemma_change_in(cs, p);
}

/// Every removal is carried out once, a deeper one in front; everything else is
/// carried out once, a deeper one behind. Where depths tie, the order of the
/// changes stays.
pub proof fn law_every_change_has_its_turn(
    cs: Seq<ChangeModel>,
    removals: Seq<usize>,
    others: Seq<usize>,
    x: usize,
)
    requires
        apply::is_by_depth(cs, apply::removes(), true, removals),
        apply::is_by_depth(cs, apply::puts(), false, others),
    ensures
        removals.contains(x) <==> x < cs.len() && cs[x as int].kind is Removed,
        others.contains(x) <==> x < cs.len() && !(cs[x as int].kind is Removed),
        removals.no_duplicates(),
        others.no_duplicates(),
        forall|a: int, b: int|
            0 <= a < b < removals.len() ==> {
                let m = cs[#[trigger] removals[a] as int].path.len();
                let n = cs[#[trigger] removals[b] as int].path.len();
                m > n || (m == n && removals[a] < removals[b])
            },
        forall|a: int, b: int|
            0 <= a < b < others.len() ==> {
                let m = cs[#[trigger] others[a] as int].path.len();
                let n = cs[#[trigger] others[b] as int].path.len();
                m < n || (m == n && others[a] < others[b])
            },
{
    assert forall|a: int, b: int| 0 <= a < b < removals.len() implies removals[a]
        != removals[b] by {
        assert(apply::comes_first(cs, true, removals[a] as int, removals[b] as int));
    }
    assert forall|a: int, b: int| 0 <= a < b < others.len() implies others[a] != others[b] by {
        assert(apply::comes_first(cs, false, others[a] as int, others[b] as int));
    }
    if x < cs.len() {
        assert((apply::removes())(cs[x as int]) <==> cs[x as int].kind is Removed);
        assert((apply::puts())(cs[x as int]) <==> !(cs[x as int].kind is Removed));
    }
    if removals.contains(x) {
        let k = choose|k: int| 0 <= k < removals.len() && removals[k] == x;
        assert(removals[k] < cs.len());
    }
    if others.contains(x) {
        let k = choose|k: int| 0 <= k < others.len() && others[k] == x;
        assert(others[k] < cs.len());
    }
}

/// The counts of applying changes are seen as they are, with every directory.
pub proof fn law_a_result_is_seen_whole(r: ApplyResult)
    ensures
        r@.added == r.add_count,
        r@.modified == r.mod_count,
        r@.errors == r.err_count,
        r@.dirs.len() == r.dir_metadata_changes@.len(),
        forall|i: int|
            0 <= i < r@.dirs.len() ==> (#[trigger] r@.dirs[i]).0 == r.dir_metadata_changes@[i].0@
                && r@.dirs[i].1 == r.dir_metadata_changes@[i].1,
{
}

/// Whether a change comes with content that is written later, or removes.
pub open spec fn comes_at_another_time(c: ChangeModel) -> bool {
    match c.kind {
        KindModel::Removed(_) => true,
        KindModel::Added { entry, has_content } => entry.kind == EntryKind::File && has_content,
        KindModel::Modified { has_content, .. } => has_content,
    }
}

/// What is counted of a step that needs no content: a success of an addition, a
/// success of a modification, or a failure of either.
pub open spec fn counts_as(c: ChangeModel, outcome: Outcome) -> (nat, nat, nat) {
    if comes_at_another_time(c) {
        (0, 0, 0)
    } else if !outcome.succeeded {
        (0, 0, 1)
    } else if c.kind is Added {
        (1, 0, 0)
    } else {
        (0, 1, 0)
    }
}

/// Whether a step sets the metadata of a directory: it succeeds, needs no content,
/// and adds the directory, or gives metadata to what is a directory then.
pub open spec fn sets_directory(
    c: ChangeModel,
    outcome: Outcome,
    p: Seq<Seq<u8>>,
    m: Metadata,
) -> bool {
    &&& !comes_at_another_time(c)
    &&& outcome.succeeded
    &&& c.path == p
    &&& match c.kind {
        KindModel::Removed(_) => false,
        KindModel::Added { entry, .. } => entry.kind == EntryKind::Directory && entry.metadata
            == m,
        KindModel::Modified { new_metadata, .. } => new_metadata == Some(m) && outcome.live
            == Some(NodeType::Directory),
    }
}

/// Whether one of some steps sets the metadata of a directory.
pub open spec fn some_step_sets(
    cs: Seq<ChangeModel>,
    order: Seq<usize>,
    outcomes: Seq<Outcome>,
    p: Seq<Seq<u8>>,
    m: Metadata,
) -> bool {
    exists|k: int|
        0 <= k < order.len() && sets_directory(
            cs[#[trigger] order[k] as int],
            outcomes[k],
            p,
            m,
        )
}

/// Every step is counted once: a tally of one step more has one success of an
/// addition, one success of a modification or one failure more, unless the step
/// comes at another time. The directories of a tally are those that a step sets.
pub proof fn law_every_step_is_counted_once(
    cs: Seq<ChangeModel>,
    order: Seq<usize>,
    outcomes: Seq<Outcome>,
)
    requires
        order.len() == outcomes.len(),
    ensures
        ({
            let t = apply::tally_of(cs, order, outcomes);
            &&& order.len() == 0 ==> t.added == 0 && t.modified == 0 && t.errors == 0
                && t.dirs.len() == 0
            &&& order.len() > 0 ==> {
                let before = apply::tally_of(cs, order.drop_last(), outcomes.drop_last());
                let step = counts_as(cs[order.last() as int], outcomes.last());
                &&& t.added == before.added + step.0
                &&& t.modified == before.modified + step.1
                &&& t.errors == before.errors + step.2
            }
            &&& forall|p: Seq<Seq<u8>>, m: Metadata| #[trigger]
                t.dirs.contains((p, m)) <==> some_step_sets(cs, order, outcomes, p, m)
            &&& t.dirs.len() <= t.added + t.modified
        }),
    decreases order.len(),
{
    let t = apply::tally_of(cs, order, outcomes);
    if order.len() > 0 {
        let order0 = order.drop_last();
        let outcomes0 = outcomes.drop_last();
        let n = order.len() - 1;
        let t0 = apply::tally_of(cs, order0, outcomes0);
        law_every_step_is_counted_once(cs, order0, outcomes0);
        let c = cs[order.last() as int];
        let outcome = outcomes.last();
        assert(order[n] == order.last() && outcomes[n] == outcome);
        assert forall|p: Seq<Seq<u8>>, m: Metadata| #[trigger]
            t.dirs.contains((p, m)) <==> some_step_sets(cs, order, outcomes, p, m) by {
            assert(t0.dirs.contains((p, m)) <==> some_step_sets(cs, order0, outcomes0, p, m));
            if t.dirs.contains((p, m)) {
                let k = choose|k: int| 0 <= k < t.dirs.len() && t.dirs[k] == (p, m);
                if k < t0.dirs.len() {
                    assert(t0.dirs[k] == (p, m));
                    let i = choose|i: int|
                        0 <= i < order0.len() && sets_directory(
                            cs[#[trigger] order0[i] as int],
                            outcomes0[i],
                            p,
                            m,
                        );
                    assert(order[i] == order0[i] && outcomes[i] == outcomes0[i]);
                } else {
                    assert(sets_directory(cs[order[n] as int], outcomes[n], p, m));
                }
            }
            if some_step_sets(cs, order, outcomes, p, m) {
                let i = choose|i: int|
                    0 <= i < order.len() && sets_directory(
                        cs[#[trigger] order[i] as int],
                        outcomes[i],
                        p,
                        m,
                    );
                if i < n {
                    assert(order[i] == order0[i] && outcomes[i] == outcomes0[i]);
                    let k = choose|k: int| 0 <= k < t0.dirs.len() && t0.dirs[k] == (p, m);
                    assert(t.dirs[k] == (p, m));
                } else {
                    assert(t.dirs[t.dirs.len() - 1] == (p, m));
                }
            }
        }
    }
}

} // verus!
