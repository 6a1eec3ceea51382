//! Simulating the effect of a diff on the entries of a tree.

use crate::model::diff;
use crate::model::diff::{Change, ChangeKind, ChangeModel, KindModel, ModifiedEntry};
use crate::model::entry;
use crate::model::entry::{Entry, EntryModel, Metadata};
use crate::model::path_map::{EntryMap, PathSet};
use vstd::prelude::*;

verus! {

/// An entry after a modification that says only what changed.
pub open spec fn modified(
    e: EntryModel,
    new_metadata: Option<Metadata>,
    new_hash: Option<Seq<u8>>,
    new_symlink_target: Option<Seq<u8>>,
) -> EntryModel {
    EntryModel {
        metadata: match new_metadata {
            Some(m) => m,
            None => e.metadata,
        },
        hash: match new_hash {
            Some(h) => Some(h),
            None => e.hash,
        },
        symlink_target: match new_symlink_target {
            Some(t) => Some(t),
            None => e.symlink_target,
        },
        ..e
    }
}

/// The entries of a tree after one change.
pub open spec fn after_change(
    state: Map<Seq<Seq<u8>>, EntryModel>,
    c: ChangeModel,
) -> Map<Seq<Seq<u8>>, EntryModel> {
    match c.kind {
        KindModel::Removed(_) => state.remove(c.path),
        KindModel::Added { entry, .. } => state.insert(c.path, entry),
        KindModel::Modified { new_metadata, new_hash, new_symlink_target, .. } => if state.dom().contains(
            c.path,
        ) {
            state.insert(
                c.path,
                modified(state[c.path], new_metadata, new_hash, new_symlink_target),
            )
        } else {
            state
        },
    }
}

/// The entries of a tree after some changes, one after the other.
pub open spec fn after_changes(
    state: Map<Seq<Seq<u8>>, EntryModel>,
    cs: Seq<ChangeModel>,
) -> Map<Seq<Seq<u8>>, EntryModel>
    decreases cs.len(),
{
    if cs.len() == 0 {
        state
    } else {
        after_change(after_changes(state, cs.drop_last()), cs.last())
    }
}

/// Whether a change touches the directory `p` from below.
pub open spec fn touches_from_below(c: ChangeModel, p: Seq<Seq<u8>>) -> bool {
    c.path.len() > 0 && c.path.drop_last() == p
}

/// Whether some change is of the path `p` itself.
pub open spec fn has_change(cs: Seq<ChangeModel>, p: Seq<Seq<u8>>) -> bool {
    exists|i: int| 0 <= i < cs.len() && (#[trigger] cs[i]).path == p
}

/// Whether some changes touch the directory `p` from below, and none is of `p`
/// itself.
pub open spec fn is_left_alone(cs: Seq<ChangeModel>, p: Seq<Seq<u8>>) -> bool {
    &&& exists|i: int| 0 <= i < cs.len() && #[trigger] touches_from_below(cs[i], p)
    &&& !has_change(cs, p)
}

/// Whether two states have the same at a path: the same entry, or nothing.
pub open spec fn same_at(
    a: Map<Seq<Seq<u8>>, EntryModel>,
    b: Map<Seq<Seq<u8>>, EntryModel>,
    p: Seq<Seq<u8>>,
) -> bool {
    &&& a.dom().contains(p) <==> b.dom().contains(p)
    &&& a.dom().contains(p) ==> a[p] == b[p]
}

/// A path that no change is of keeps its entry.
pub proof fn law_other_paths_keep_their_entries(
    state: Map<Seq<Seq<u8>>, EntryModel>,
    cs: Seq<ChangeModel>,
    p: Seq<Seq<u8>>,
)
    requires
        !has_change(cs, p),
    ensures
        same_at(state, after_changes(state, cs), p),
    decreases cs.len(),
{
    if cs.len() > 0 {
        let front = cs.drop_last();
        assert(!has_change(front, p)) by {
            if has_change(front, p) {
                let i = choose|i: int| 0 <= i < front.len() && (#[trigger] front[i]).path == p;
                assert(cs[i].path == p);
            }
        }
        law_other_paths_keep_their_entries(state, front, p);
        assert(cs[cs.len() - 1].path != p);
    }
}

fn apply_modification(e: &Entry, m: &ModifiedEntry) -> (r: Entry)
    ensures
        r@ == modified(
            e@,
            m.new_metadata,
            entry::hash_view(m.new_hash),
            entry::target_view(m.new_symlink_target),
        ),
{
    let mut r = e.clone();
    match m.new_metadata {
        Some(metadata) => {
            r.metadata = metadata;
        },
        None => {},
    }
    match m.new_hash {
        Some(hash) => {
            r.hash = Some(hash);
        },
        None => {},
    }
    if m.new_symlink_target.is_some() {
        r.symlink_target = entry::copy_target(&m.new_symlink_target);
    }
    r
}

/// Applies changes to the entries of a tree, one after the other. A
/// modification of an entry that is not there does nothing.
pub fn simulate_changes(simulated: &mut EntryMap, changes: &Vec<Change>)
    requires
        old(simulated).wf(),
    ensures
        final(simulated).wf(),
        final(simulated)@ == after_changes(old(simulated)@, diff::change_views(changes@)),
{
    let ghost cs = diff::change_views(changes@);
    let ghost start = simulated@;
    let mut i: usize = 0;
    assert(cs.take(0) =~= Seq::empty());
    while i < changes.len()
        invariant
            i <= changes@.len(),
            cs == diff::change_views(changes@),
            simulated.wf(),
            simulated@ == after_changes(start, cs.take(i as int)),
        decreases changes@.len() - i,
    {
        let change = &changes[i];
        proof {
            let upto = cs.take(i + 1);
            assert(upto.drop_last() =~= cs.take(i as int));
            assert(upto.last() == change@);
        }
        match &change.kind {
            ChangeKind::Removed(_) => {
                simulated.remove(&change.path);
            },
            ChangeKind::Added(added) => {
                simulated.insert(change.path.clone(), added.entry.clone());
            },
            ChangeKind::Modified(m) => {
                let next: Option<Entry> = match simulated.get(&change.path) {
                    Some(existing) => Some(apply_modification(existing, m)),
                    None => None,
                };
                match next {
                    Some(e) => {
                        simulated.insert(change.path.clone(), e);
                    },
                    None => {},
                }
            },
        }
        i = i + 1;
    }
    assert(cs.take(i as int) =~= cs);
}

/// Simulates applying a diff to the entries of a tree.
///
/// Applying keeps the modification time of directories that are touched only by
/// adding or removing something in them, without a change of their own in the
/// diff. The result is the set of those directories: their entries are left as
/// they are.
pub fn simulate_apply(state: &mut EntryMap, changes: &Vec<Change>) -> (r: PathSet)
    requires
        old(state).wf(),
    ensures
        final(state).wf(),
        final(state)@ == after_changes(old(state)@, diff::change_views(changes@)),
        r.wf(),
        forall|p: Seq<Seq<u8>>| #[trigger]
            r@.dom().contains(p) <==> is_left_alone(diff::change_views(changes@), p),
        forall|p: Seq<Seq<u8>>| #[trigger]
            r@.dom().contains(p) ==> same_at(old(state)@, final(state)@, p),
{
    let ghost before = state@;
    let r = implicit_dirs(changes);
    simulate_changes(state, changes);
    proof {
        let cs = diff::change_views(changes@);
        assert forall|p: Seq<Seq<u8>>| #[trigger] r@.dom().contains(p) implies same_at(
            before,
            state@,
            p,
        ) by {
            law_other_paths_keep_their_entries(before, cs, p);
        }
    }
    r
}

fn implicit_dirs(changes: &Vec<Change>) -> (r: PathSet)
    ensures
        r.wf(),
        forall|p: Seq<Seq<u8>>| #[trigger]
            r@.dom().contains(p) <==> is_left_alone(diff::change_views(changes@), p),
{
    let ghost cs = diff::change_views(changes@);
    let mut affected_parents = PathSet::new();
    let mut i: usize = 0;
    while i < changes.len()
        invariant
            i <= changes@.len(),
            cs == diff::change_views(changes@),
            affected_parents.wf(),
            forall|p: Seq<Seq<u8>>| #[trigger]
                affected_parents@.dom().contains(p) <==> exists|k: int|
                    0 <= k < i && #[trigger] touches_from_below(cs[k], p),
        decreases changes@.len() - i,
    {
        let change = &changes[i];
        let ghost c = cs[i as int];
        assert(c == change@);
        let ghost affected0 = affected_parents@;
        match change.path.parent() {
            Some(parent) => {
                affected_parents.insert(parent, ());
            },
            None => {},
        }
        proof {
            assert forall|p: Seq<Seq<u8>>| #[trigger]
                affected_parents@.dom().contains(p) <==> exists|k: int|
                    0 <= k < i + 1 && #[trigger] touches_from_below(cs[k], p) by {
                assert(affected_parents@.dom().contains(p) <==> affected0.dom().contains(p)
                    || touches_from_below(c, p));
                if touches_from_below(cs[i as int], p) {
                    assert(exists|k: int| 0 <= k < i + 1 && #[trigger] touches_from_below(cs[k], p));
                }
            }
        }
        i = i + 1;
    }
    difference(&affected_parents, &changed_paths(changes))
}

/// The paths that some change is of.
pub(crate) fn changed_paths(changes: &Vec<Change>) -> (r: PathSet)
    ensures
        r.wf(),
        forall|p: Seq<Seq<u8>>| #[trigger]
            r@.dom().contains(p) <==> has_change(diff::change_views(changes@), p),
{
    let ghost cs = diff::change_views(changes@);
    let mut r = PathSet::new();
    let mut i: usize = 0;
    while i < changes.len()
        invariant
            i <= changes@.len(),
            cs == diff::change_views(changes@),
            r.wf(),
            forall|p: Seq<Seq<u8>>| #[trigger]
                r@.dom().contains(p) <==> exists|k: int| 0 <= k < i && (#[trigger] cs[k]).path == p,
        decreases changes@.len() - i,
    {
        let ghost r0 = r@;
        assert(cs[i as int] == changes@[i as int]@);
        r.insert(changes[i].path.clone(), ());
        proof {
            assert forall|p: Seq<Seq<u8>>| #[trigger]
                r@.dom().contains(p) <==> exists|k: int|
                    0 <= k < i + 1 && (#[trigger] cs[k]).path == p by {
                assert(r@.dom().contains(p) <==> r0.dom().contains(p) || cs[i as int].path == p);
            }
        }
        i = i + 1;
    }
    r
}

/// The paths of one set that are not in another.
pub(crate) fn difference(a: &PathSet, b: &PathSet) -> (r: PathSet)
    requires
        a.wf(),
        b.wf(),
    ensures
        r.wf(),
        r@.dom() == a@.dom().difference(b@.dom()),
{
    let mut r = PathSet::new();
    let ghost keys = a.key_list();
    let mut i: usize = 0;
    while i < a.len()
        invariant
            a.wf(),
            b.wf(),
            r.wf(),
            keys == a.key_list(),
            i <= keys.len(),
            forall|p: Seq<Seq<u8>>| #[trigger]
                r@.dom().contains(p) <==> keys.take(i as int).contains(p) && !b@.dom().contains(p),
        decreases keys.len() - i,
    {
        let path = a.key_at(i);
        let ghost r0 = r@;
        if !b.contains(path) {
            r.insert(path.clone(), ());
        }
        proof {
            assert(keys.take(i + 1) =~= keys.take(i as int).push(path@));
            assert forall|p: Seq<Seq<u8>>| #[trigger]
                r@.dom().contains(p) <==> keys.take(i + 1).contains(p) && !b@.dom().contains(p) by {
                assert(r0.dom().contains(p) <==> keys.take(i as int).contains(p)
                    && !b@.dom().contains(p));
                let longer = keys.take(i + 1);
                if keys.take(i as int).contains(p) {
                    let k = choose|k: int| 0 <= k < i && keys.take(i as int)[k] == p;
                    assert(longer[k] == p);
                }
                if longer.contains(p) && p != path@ {
                    let k = choose|k: int| 0 <= k < longer.len() && longer[k] == p;
                    assert(keys.take(i as int)[k] == p);
                }
                assert(longer[i as int] == path@);
            }
        }
        i = i + 1;
    }
    assert(keys.take(i as int) =~= keys);
    assert(r@.dom() =~= a@.dom().difference(b@.dom()));
    r
}

} // verus!
