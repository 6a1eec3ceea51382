//! The shape of a diff: in which order its changes stand, and what it becomes
//! when the two states are exchanged.

use crate::commands::diff;
use crate::commands::diff::ItemModel;
use crate::commands::sync;
use crate::model::diff::{ChangeModel, KindModel};
use crate::model::entry::{EntryKind, EntryModel};
use crate::order;
use vstd::prelude::*;

verus! {

/// Whether all entries of a list stand behind a path.
spec fn are_behind(es: Seq<EntryModel>, p: Seq<Seq<u8>>) -> bool {
    forall|i: int| 0 <= i < es.len() ==> order::path_lt(p, (#[trigger] es[i]).path)
}

proof fn lemma_rest_is_behind(es: Seq<EntryModel>, p: Seq<Seq<u8>>)
    requires
        diff::sorted_by_path(es),
        es.len() > 0,
        order::path_le(p, es[0].path),
    ensures
        are_behind(es.drop_first(), p),
        order::path_lt(p, es[0].path) ==> are_behind(es, p),
{
    assert forall|i: int| 0 < i < es.len() implies order::path_lt(p, (#[trigger] es[i]).path) by {
        assert(order::path_lt(es[0].path, es[i].path));
        if p != es[0].path {
            order::lemma_path_lt_transitive(p, es[0].path, es[i].path);
        }
    }
    let rest = es.drop_first();
    assert forall|i: int| 0 <= i < rest.len() implies order::path_lt(p, (#[trigger] rest[i]).path)
        by {
        assert(rest[i] == es[i + 1]);
    }
}

/// Whether the second of two changes stands where it may behind the first: at a
/// later path, or directly behind the removal that makes room for an entry of
/// another kind.
pub open spec fn are_in_order(cs: Seq<ChangeModel>, i: int, j: int) -> bool {
    ||| order::path_lt(cs[i].path, cs[j].path)
    ||| {
        &&& cs[i].path == cs[j].path
        &&& j == i + 1
        &&& match (cs[i].kind, cs[j].kind) {
            (KindModel::Removed(kind), KindModel::Added { entry, .. }) => kind != entry.kind,
            _ => false,
        }
    }
}

/// The paths of a diff never go down, and two changes share a path only where
/// an entry of another kind takes the place of a removed one: these two stand
/// next to each other, the removal first.
pub proof fn law_a_diff_is_in_order(old: Seq<EntryModel>, new: Seq<EntryModel>)
    requires
        diff::sorted_by_path(old),
        diff::sorted_by_path(new),
    ensures
        forall|i: int, j: int|
            0 <= i < j < diff::diff_of(old, new).len() ==> #[trigger] are_in_order(
                diff::diff_of(old, new),
                i,
                j,
            ),
    decreases old.len() + new.len(),
{
    let all = diff::diff_of(old, new);
    if old.len() == 0 && new.len() == 0 {
        assert(all =~= Seq::<ChangeModel>::empty());
    } else {
        let (item, p, olds, news) = if new.len() == 0 || (old.len() > 0 && order::path_lt(
            old[0].path,
            new[0].path,
        )) {
            (ItemModel::Removed(old[0]), old[0].path, old.drop_first(), new)
        } else if old.len() == 0 || order::path_lt(new[0].path, old[0].path) {
            (ItemModel::Added(new[0]), new[0].path, old, new.drop_first())
        } else {
            order::lemma_path_lt_total(old[0].path, new[0].path);
            (
                ItemModel::Both { new: new[0], old: old[0] },
                old[0].path,
                old.drop_first(),
                new.drop_first(),
            )
        };
        if old.len() > 0 {
            sync::lemma_rest_is_sorted(old);
            lemma_rest_is_behind(old, p);
        }
        if new.len() > 0 {
            sync::lemma_rest_is_sorted(new);
            lemma_rest_is_behind(new, p);
        }
        assert(are_behind(olds, p) && are_behind(news, p));
        law_a_diff_is_in_order(olds, news);
        sync::law_a_diff_is_minimal(olds, news);
        let first = diff::item_changes(item);
        let rest = diff::diff_of(olds, news);
        sync::lemma_changes_of_front(item, diff::joined_items(olds, news));
        assert(all =~= first + rest);
        let n = first.len() as int;
        assert forall|k: int| 0 <= k < rest.len() implies order::path_lt(
            p,
            (#[trigger] rest[k]).path,
        ) by {
            let q = rest[k].path;
            if sync::has_path(olds, q) {
                let i = choose|i: int| 0 <= i < olds.len() && (#[trigger] olds[i]).path == q;
                assert(order::path_lt(p, olds[i].path));
            } else {
                assert(sync::has_path(news, q));
                let i = choose|i: int| 0 <= i < news.len() && (#[trigger] news[i]).path == q;
                assert(order::path_lt(p, news[i].path));
            }
        }
        assert forall|i: int, j: int| 0 <= i < j < all.len() implies #[trigger] are_in_order(
            all,
            i,
            j,
        ) by {
            if i >= n {
                assert(are_in_order(rest, i - n, j - n));
                assert(all[i] == rest[i - n] && all[j] == rest[j - n]);
            } else {
                assert(all[i] == first[i] && first[i].path == p);
                if j >= n {
                    assert(all[j] == rest[j - n]);
                } else {
                    assert(all[j] == first[j]);
                }
            }
        }
    }
}

/// An item of the join with the two sides exchanged.
pub open spec fn exchanged(item: ItemModel) -> ItemModel {
    match item {
        ItemModel::Added(e) => ItemModel::Removed(e),
        ItemModel::Both { new, old } => ItemModel::Both { new: old, old: new },
        ItemModel::Removed(e) => ItemModel::Added(e),
    }
}

/// Whether some changes add an entry of a kind at a path.
pub open spec fn adds(cs: Seq<ChangeModel>, p: Seq<Seq<u8>>, kind: EntryKind) -> bool {
    exists|m: int| 0 <= m < cs.len() && is_addition(#[trigger] cs[m], p, kind)
}

/// Whether a change adds an entry of a kind at a path.
pub open spec fn is_addition(c: ChangeModel, p: Seq<Seq<u8>>, kind: EntryKind) -> bool {
    c.path == p && match c.kind {
        KindModel::Added { entry, .. } => entry.kind == kind,
        _ => false,
    }
}

/// Whether `back` undoes what `there` does, change by change: at each position it
/// changes the same path, it modifies what was modified, removes what was added,
/// and adds an entry of the kind that was removed.
pub open spec fn mirrors(there: Seq<ChangeModel>, back: Seq<ChangeModel>) -> bool {
    &&& there.len() == back.len()
    &&& forall|k: int|
        0 <= k < there.len() ==> {
            &&& (#[trigger] there[k]).path == back[k].path
            &&& match there[k].kind {
                KindModel::Modified { .. } => back[k].kind is Modified,
                KindModel::Added { entry, .. } => back.contains(
                    ChangeModel { path: there[k].path, kind: KindModel::Removed(entry.kind) },
                ),
                KindModel::Removed(kind) => adds(back, there[k].path, kind),
            }
        }
}

proof fn lemma_mirrors_item(item: ItemModel)
    requires
        item matches ItemModel::Both { new, old } ==> new.path == old.path,
    ensures
        mirrors(diff::item_changes(item), diff::item_changes(exchanged(item))),
{
    let there = diff::item_changes(item);
    let back = diff::item_changes(exchanged(item));
    match item {
        ItemModel::Added(e) => {
            assert(back[0] == diff::removal(e));
        },
        ItemModel::Removed(e) => {
            assert(back[0] == diff::addition(e));
        },
        ItemModel::Both { new, old } => {
            if new.kind != old.kind {
                assert(back[0] == diff::removal(new));
                assert(back[1] == diff::addition(old));
            }
        },
    }
}

proof fn lemma_mirrors_parts(
    a: Seq<ChangeModel>,
    a_back: Seq<ChangeModel>,
    b: Seq<ChangeModel>,
    b_back: Seq<ChangeModel>,
)
    requires
        mirrors(a, a_back),
        mirrors(b, b_back),
    ensures
        mirrors(a + b, a_back + b_back),
{
    let there = a + b;
    let back = a_back + b_back;
    let n = a.len() as int;
    assert forall|m: int| 0 <= m < a_back.len() implies back[m] == #[trigger] a_back[m] by {}
    assert forall|m: int| 0 <= m < b_back.len() implies back[n + m] == #[trigger] b_back[m] by {}
    assert forall|k: int| 0 <= k < there.len() implies {
        &&& (#[trigger] there[k]).path == back[k].path
        &&& match there[k].kind {
            KindModel::Modified { .. } => back[k].kind is Modified,
            KindModel::Added { entry, .. } => back.contains(
                ChangeModel { path: there[k].path, kind: KindModel::Removed(entry.kind) },
            ),
            KindModel::Removed(kind) => adds(back, there[k].path, kind),
        }
    } by {
        let (part, part_back, at, off) = if k < n {
            (a, a_back, k, 0)
        } else {
            (b, b_back, k - n, n)
        };
        assert(there[k] == part[at] && back[k] == part_back[at]);
        match part[at].kind {
            KindModel::Modified { .. } => {},
            KindModel::Added { entry, .. } => {
                let c = ChangeModel { path: part[at].path, kind: KindModel::Removed(entry.kind) };
                assert(part_back.contains(c));
                let m = choose|m: int| 0 <= m < part_back.len() && part_back[m] == c;
                assert(back[off + m] == c);
            },
            KindModel::Removed(kind) => {
                assert(adds(part_back, part[at].path, kind));
                let m = choose|m: int|
                    0 <= m < part_back.len() && is_addition(
                        #[trigger] part_back[m],
                        part[at].path,
                        kind,
                    );
                assert(back[off + m] == part_back[m]);
            },
        }
    }
}

/// Exchanging the two states exchanges additions and removals: the two diffs
/// change the same paths in the same order, a modification stays one, what the
/// one adds the other removes, and what the one removes the other adds.
pub proof fn law_exchanged_states_exchange_additions_and_removals(
    old: Seq<EntryModel>,
    new: Seq<EntryModel>,
)
    ensures
        mirrors(diff::diff_of(old, new), diff::diff_of(new, old)),
    decreases old.len() + new.len(),
{
    let there = diff::diff_of(old, new);
    let back = diff::diff_of(new, old);
    if old.len() == 0 && new.len() == 0 {
        assert(there =~= Seq::<ChangeModel>::empty());
        assert(back =~= Seq::<ChangeModel>::empty());
    } else {
        if old.len() > 0 && new.len() > 0 {
            order::lemma_path_lt_total(old[0].path, new[0].path);
            order::lemma_path_lt_exclusive(old[0].path, new[0].path);
            order::lemma_path_lt_exclusive(new[0].path, old[0].path);
        }
        let (item, olds, news) = if new.len() == 0 || (old.len() > 0 && order::path_lt(
            old[0].path,
            new[0].path,
        )) {
            (ItemModel::Removed(old[0]), old.drop_first(), new)
        } else if old.len() == 0 || order::path_lt(new[0].path, old[0].path) {
            (ItemModel::Added(new[0]), old, new.drop_first())
        } else {
            (
                ItemModel::Both { new: new[0], old: old[0] },
                old.drop_first(),
                new.drop_first(),
            )
        };
        law_exchanged_states_exchange_additions_and_removals(olds, news);
        lemma_mirrors_item(item);
        let forth = diff::joined_items(olds, news);
        let rest = diff::joined_items(news, olds);
        assert(diff::joined_items(old, new) == seq![item] + forth);
        assert(diff::joined_items(new, old) == seq![exchanged(item)] + rest);
        sync::lemma_changes_of_front(item, forth);
        sync::lemma_changes_of_front(exchanged(item), rest);
        lemma_mirrors_parts(
            diff::item_changes(item),
            diff::item_changes(exchanged(item)),
            diff::diff_of(olds, news),
            diff::diff_of(news, olds),
        );
    }
}

} // verus!
