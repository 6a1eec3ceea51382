//! Applying a diff in phases: removals from the deepest, then everything else
//! from the shallowest.

use crate::commands::apply;
use crate::commands::diff;
use crate::commands::simulate;
use crate::commands::sync;
use crate::model::diff::{ChangeModel, KindModel};
use crate::model::entry::EntryModel;
use crate::order;
use vstd::prelude::*;

verus! {

/// What there is at a path.
pub open spec fn value_at(
    state: Map<Seq<Seq<u8>>, EntryModel>,
    p: Seq<Seq<u8>>,
) -> Option<EntryModel> {
    if state.dom().contains(p) {
        Some(state[p])
    } else {
        None
    }
}

/// What a change makes of what there is at its path.
pub open spec fn value_after(v: Option<EntryModel>, c: ChangeModel) -> Option<EntryModel> {
    match c.kind {
        KindModel::Removed(_) => None,
        KindModel::Added { entry, .. } => Some(entry),
        KindModel::Modified { new_metadata, new_hash, new_symlink_target, .. } => match v {
            Some(e) => Some(simulate::modified(e, new_metadata, new_hash, new_symlink_target)),
            None => None,
        },
    }
}

/// Whether there is at most one change of a path, or a removal and then another
/// change.
pub open spec fn is_settled(cs: Seq<ChangeModel>) -> bool {
    forall|i: int, j: int|
        0 <= i < j < cs.len() && (#[trigger] cs[i]).path == (#[trigger] cs[j]).path
            ==> cs[i].kind is Removed && !(cs[j].kind is Removed)
}

/// Whether a path is removed by some changes.
pub open spec fn is_removed(cs: Seq<ChangeModel>, p: Seq<Seq<u8>>) -> bool {
    exists|i: int| 0 <= i < cs.len() && (#[trigger] cs[i]).path == p && cs[i].kind is Removed
}

/// Whether `c` is a change of a path, among some changes, that does not remove
/// it.
pub open spec fn is_put(cs: Seq<ChangeModel>, p: Seq<Seq<u8>>, c: ChangeModel) -> bool {
    exists|i: int| 0 <= i < cs.len() && (#[trigger] cs[i]) == c && c.path == p && !(c.kind is Removed)
}

/// The changes at some positions.
pub open spec fn chosen(cs: Seq<ChangeModel>, at: Seq<usize>) -> Seq<ChangeModel> {
    at.map_values(|i: usize| cs[i as int])
}

proof fn lemma_value_after_change(
    state: Map<Seq<Seq<u8>>, EntryModel>,
    c: ChangeModel,
    p: Seq<Seq<u8>>,
)
    ensures
        value_at(simulate::after_change(state, c), p) == if c.path == p {
            value_after(value_at(state, p), c)
        } else {
            value_at(state, p)
        },
{
}

/// What settled changes make of a path: what the change that does not remove it
/// makes of it, if there is one, behind the removal, if there is one.
proof fn lemma_settled_value(
    state: Map<Seq<Seq<u8>>, EntryModel>,
    cs: Seq<ChangeModel>,
    p: Seq<Seq<u8>>,
)
    requires
        is_settled(cs),
    ensures
        ({
            let base = if is_removed(cs, p) {
                None
            } else {
                value_at(state, p)
            };
            let v = value_at(simulate::after_changes(state, cs), p);
            &&& forall|c: ChangeModel| #[trigger] is_put(cs, p, c) ==> v == value_after(base, c)
            &&& (forall|c: ChangeModel| !#[trigger] is_put(cs, p, c)) ==> v == base
        }),
    decreases cs.len(),
{
    if cs.len() > 0 {
        let front = cs.drop_last();
        let c = cs.last();
        let n = cs.len() - 1;
        assert(is_settled(front)) by {
            assert forall|i: int, j: int|
                0 <= i < j < front.len() && (#[trigger] front[i]).path == (
                #[trigger] front[j]).path implies front[i].kind is Removed && !(
            front[j].kind is Removed) by {
                assert(front[i] == cs[i] && front[j] == cs[j]);
            }
        }
        lemma_settled_value(state, front, p);
        lemma_value_after_change(simulate::after_changes(state, front), c, p);
        assert forall|d: ChangeModel| is_put(cs, p, d) <==> is_put(front, p, d) || (d == c
            && c.path == p && !(c.kind is Removed)) by {
            if is_put(cs, p, d) {
                let i = choose|i: int| 0 <= i < cs.len() && (#[trigger] cs[i]) == d;
                if i < n {
                    assert(front[i] == d);
                }
            }
            if is_put(front, p, d) {
                let i = choose|i: int| 0 <= i < front.len() && (#[trigger] front[i]) == d;
                assert(cs[i] == d);
            }
            assert(cs[n] == c);
        }
        assert(is_removed(cs, p) <==> is_removed(front, p) || (c.path == p && c.kind is Removed))
            by {
            if is_removed(cs, p) {
                let i = choose|i: int|
                    0 <= i < cs.len() && (#[trigger] cs[i]).path == p && cs[i].kind is Removed;
                if i < n {
                    assert(front[i] == cs[i]);
                }
            }
            if is_removed(front, p) {
                let i = choose|i: int|
                    0 <= i < front.len() && (#[trigger] front[i]).path == p
                        && front[i].kind is Removed;
                assert(cs[i] == front[i]);
            }
            assert(cs[n] == c);
        }
        if c.path == p {
            assert forall|d: ChangeModel| !is_put(front, p, d) by {
                if is_put(front, p, d) {
                    let i = choose|i: int| 0 <= i < front.len() && (#[trigger] front[i]) == d;
                    assert(cs[i] == d && cs[n] == c);
                }
            }
            if !(c.kind is Removed) {
                assert(is_put(cs, p, c));
            }
        }
    }
}

/// Changes taken in phases are settled if they are in order, and they are the
/// same changes.
proof fn lemma_phases(cs: Seq<ChangeModel>, removals: Seq<usize>, others: Seq<usize>)
    requires
        is_settled(cs),
        cs.len() <= usize::MAX,
        apply::is_by_depth(cs, apply::removes(), true, removals),
        apply::is_by_depth(cs, apply::puts(), false, others),
    ensures
        ({
            let phases = chosen(cs, removals) + chosen(cs, others);
            &&& is_settled(phases)
            &&& forall|p: Seq<Seq<u8>>| is_removed(phases, p) <==> is_removed(cs, p)
            &&& forall|p: Seq<Seq<u8>>, c: ChangeModel|
                is_put(phases, p, c) <==> is_put(cs, p, c)
        }),
{
    let m = removals.len() as int;
    let phases = chosen(cs, removals) + chosen(cs, others);
    assert(phases.len() == m + others.len());
    assert forall|k: int| 0 <= k < phases.len() implies {
        let at = if k < m {
            removals[k] as int
        } else {
            others[k - m] as int
        };
        &&& 0 <= at < cs.len()
        &&& (#[trigger] phases[k]) == cs[at]
        &&& (k < m <==> phases[k].kind is Removed)
    } by {}
    assert forall|i: int, j: int|
        0 <= i < j < phases.len() && (#[trigger] phases[i]).path == (
        #[trigger] phases[j]).path implies phases[i].kind is Removed && !(
    phases[j].kind is Removed) by {
        if j < m {
            assert(apply::comes_first(cs, true, removals[i] as int, removals[j] as int));
            assert(cs[removals[i] as int].path == cs[removals[j] as int].path);
        } else if i >= m {
            assert(apply::comes_first(cs, false, others[i - m] as int, others[j - m] as int));
            assert(cs[others[i - m] as int].path == cs[others[j - m] as int].path);
        }
    }
    assert forall|p: Seq<Seq<u8>>| is_removed(phases, p) <==> is_removed(cs, p) by {
        if is_removed(phases, p) {
            let k = choose|k: int|
                0 <= k < phases.len() && (#[trigger] phases[k]).path == p
                    && phases[k].kind is Removed;
            assert(cs[removals[k] as int].path == p);
        }
        if is_removed(cs, p) {
            let i = choose|i: int|
                0 <= i < cs.len() && (#[trigger] cs[i]).path == p && cs[i].kind is Removed;
            assert(removals.contains(i as usize));
            let k = choose|k: int| 0 <= k < removals.len() && removals[k] == i as usize;
            assert(phases[k] == cs[i]);
        }
    }
    assert forall|p: Seq<Seq<u8>>, c: ChangeModel| is_put(phases, p, c) <==> is_put(cs, p, c) by {
        if is_put(phases, p, c) {
            let k = choose|k: int| 0 <= k < phases.len() && (#[trigger] phases[k]) == c;
            assert(k >= m);
            assert(cs[others[k - m] as int] == c);
        }
        if is_put(cs, p, c) {
            let i = choose|i: int| 0 <= i < cs.len() && (#[trigger] cs[i]) == c;
            assert(others.contains(i as usize));
            let k = choose|k: int| 0 <= k < others.len() && others[k] == i as usize;
            assert(phases[m + k] == c);
        }
    }
}

/// Applying settled changes in phases has the effect of applying them in their
/// own order: so simulating them in their order says what applying them does.
pub proof fn law_phases_do_not_matter(
    state: Map<Seq<Seq<u8>>, EntryModel>,
    cs: Seq<ChangeModel>,
    removals: Seq<usize>,
    others: Seq<usize>,
)
    requires
        is_settled(cs),
        cs.len() <= usize::MAX,
        apply::is_by_depth(cs, apply::removes(), true, removals),
        apply::is_by_depth(cs, apply::puts(), false, others),
    ensures
        simulate::after_changes(state, chosen(cs, removals) + chosen(cs, others))
            == simulate::after_changes(state, cs),
{
    let phases = chosen(cs, removals) + chosen(cs, others);
    let a = simulate::after_changes(state, phases);
    let b = simulate::after_changes(state, cs);
    lemma_phases(cs, removals, others);
    assert forall|p: Seq<Seq<u8>>| value_at(a, p) == value_at(b, p) by {
        lemma_settled_value(state, phases, p);
        lemma_settled_value(state, cs, p);
        if exists|c: ChangeModel| is_put(cs, p, c) {
            let c = choose|c: ChangeModel| is_put(cs, p, c);
            assert(is_put(phases, p, c));
        } else {
            assert forall|c: ChangeModel| !is_put(phases, p, c) by {
                assert(is_put(phases, p, c) <==> is_put(cs, p, c));
            }
        }
    }
    assert forall|p: Seq<Seq<u8>>| a.dom().contains(p) <==> b.dom().contains(p) by {
        assert(value_at(a, p) == value_at(b, p));
    }
    assert forall|p: Seq<Seq<u8>>| a.dom().contains(p) implies a[p] == b[p] by {
        assert(value_at(a, p) == value_at(b, p));
    }
    assert(a =~= b);
}

/// The changes that a diff holds are settled.
pub proof fn law_a_diff_is_settled(old: Seq<EntryModel>, new: Seq<EntryModel>)
    requires
        diff::sorted_by_path(old),
        diff::sorted_by_path(new),
    ensures
        is_settled(diff::diff_of(old, new)),
    decreases old.len() + new.len(),
{
    let all = diff::diff_of(old, new);
    if old.len() == 0 && new.len() == 0 {
        assert(all =~= Seq::<ChangeModel>::empty());
    } else {
        let (item, olds, news) = if new.len() == 0 || (old.len() > 0 && order::path_lt(
            old[0].path,
            new[0].path,
        )) {
            (diff::ItemModel::Removed(old[0]), old.drop_first(), new)
        } else if old.len() == 0 || order::path_lt(new[0].path, old[0].path) {
            (diff::ItemModel::Added(new[0]), old, new.drop_first())
        } else {
            order::lemma_path_lt_total(old[0].path, new[0].path);
            (
                diff::ItemModel::Both { new: new[0], old: old[0] },
                old.drop_first(),
                new.drop_first(),
            )
        };
        let p0 = match item {
            diff::ItemModel::Removed(e) => e.path,
            diff::ItemModel::Added(e) => e.path,
            diff::ItemModel::Both { new: e, .. } => e.path,
        };
        if old.len() > 0 {
            sync::lemma_rest_is_sorted(old);
        }
        if new.len() > 0 {
            sync::lemma_rest_is_sorted(new);
        }
        if item is Removed && new.len() > 0 {
            sync::lemma_first_is_least(new, p0);
        }
        if item is Added && old.len() > 0 {
            sync::lemma_first_is_least(old, p0);
        }
        assert(!sync::has_path(olds, p0) && !sync::has_path(news, p0));
        law_a_diff_is_settled(olds, news);
        sync::law_a_diff_is_minimal(olds, news);
        let first = diff::item_changes(item);
        let rest = diff::diff_of(olds, news);
        sync::lemma_changes_of_front(item, diff::joined_items(olds, news));
        assert(all =~= first + rest);
        assert forall|k: int| 0 <= k < first.len() implies (#[trigger] first[k]).path == p0 by {}
        assert forall|k: int| 0 <= k < rest.len() implies (#[trigger] rest[k]).path != p0 by {}
        assert forall|i: int, j: int|
            0 <= i < j < all.len() && (#[trigger] all[i]).path == (#[trigger] all[j]).path implies
            all[i].kind is Removed && !(all[j].kind is Removed) by {
            let n = first.len() as int;
            if j < n {
                assert(all[i] == first[i] && all[j] == first[j]);
            } else if i < n {
                assert(all[i] == first[i] && all[j] == rest[j - n]);
            } else {
                assert(all[i] == rest[i - n] && all[j] == rest[j - n]);
            }
        }
    }
}

} // verus!
