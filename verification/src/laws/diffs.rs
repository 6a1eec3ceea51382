//! What a diff says, and what replaying it gives.

use crate::commands::diff;
use crate::commands::diff::{ItemModel, WalkItem};
use crate::commands::simulate;
use crate::commands::sync;
use crate::model::diff::{ChangeModel, KindModel};
use crate::model::entry::{EntryKind, EntryModel, Metadata};
use crate::model::path;
use crate::model::path_map;
use crate::order;
use vstd::prelude::*;

verus! {

/// Whether some entry has a path and a kind.
pub open spec fn has_kind(es: Seq<EntryModel>, p: Seq<Seq<u8>>, kind: EntryKind) -> bool {
    exists|i: int| 0 <= i < es.len() && (#[trigger] es[i]).path == p && es[i].kind == kind
}

/// Whether something but a modification time within a second tells metadata apart.
pub open spec fn is_other_metadata(a: Metadata, b: Metadata) -> bool {
    let apart = (a.mtime_sec - b.mtime_sec) * 1_000_000_000 + (a.mtime_nsec - b.mtime_nsec);
    ||| a.size != b.size
    ||| a.permissions != b.permissions
    ||| a.uid != b.uid
    ||| a.gid != b.gid
    ||| apart > 1_000_000_000
    ||| apart < -1_000_000_000
}

/// Whether an entry became another one, of the same kind, that differs in
/// something.
pub open spec fn is_other_entry(old: EntryModel, new: EntryModel) -> bool {
    ||| is_other_metadata(old.metadata, new.metadata)
    ||| old.hash != new.hash
    ||| old.symlink_target != new.symlink_target
}

/// Whether a modification says what became of an entry: the metadata if it is
/// another or if content comes, the hash and the link target if they are others,
/// and content exactly for a file with another hash.
pub open spec fn says_what_changed(c: ChangeModel, old: EntryModel, new: EntryModel) -> bool {
    &&& c.path == new.path
    &&& c.kind matches KindModel::Modified {
        new_metadata,
        new_hash,
        has_content,
        new_symlink_target,
    }
    &&& (has_content <==> new.kind == EntryKind::File && old.hash != new.hash)
    &&& (is_other_metadata(old.metadata, new.metadata) || has_content ==> new_metadata == Some(
        new.metadata,
    ))
    &&& (!is_other_metadata(old.metadata, new.metadata) && !has_content ==> new_metadata is None)
    &&& (old.hash != new.hash ==> new_hash == new.hash)
    &&& (old.hash == new.hash ==> new_hash is None)
    &&& (old.symlink_target != new.symlink_target ==> new_symlink_target == new.symlink_target)
    &&& (old.symlink_target == new.symlink_target ==> new_symlink_target is None)
}

/// Whether a change is one that has to be made: it adds an entry of the new state
/// that the old state does not have in that kind, and a file with its content; it
/// removes an entry of a kind that the new state does not have there; or it says
/// what changed of an entry that differs.
pub open spec fn is_called_for(
    c: ChangeModel,
    old: Seq<EntryModel>,
    new: Seq<EntryModel>,
) -> bool {
    match c.kind {
        KindModel::Added { entry, has_content } => {
            &&& entry.path == c.path
            &&& new.contains(entry)
            &&& !has_kind(old, c.path, entry.kind)
            &&& (has_content <==> entry.kind == EntryKind::File)
        },
        KindModel::Removed(kind) => has_kind(old, c.path, kind) && !has_kind(new, c.path, kind),
        KindModel::Modified { .. } => exists|i: int, j: int|
            {
                &&& 0 <= i < old.len()
                &&& 0 <= j < new.len()
                &&& (#[trigger] old[i]).path == c.path
                &&& old[i].kind == (#[trigger] new[j]).kind
                &&& is_other_entry(old[i], new[j])
                &&& says_what_changed(c, old[i], new[j])
            },
    }
}

/// Two entries with the same path and kind give a change exactly if something
/// tells them apart, and it says what.
pub proof fn law_a_modification_says_what_changed(old: EntryModel, new: EntryModel)
    requires
        old.path == new.path,
        old.kind == new.kind,
    ensures
        diff::entry_change(old, new) is Some <==> is_other_entry(old, new),
        diff::entry_change(old, new) matches Some(c) ==> says_what_changed(c, old, new),
        old.kind == EntryKind::File && old.hash != new.hash ==> {
            &&& diff::entry_change(old, new) matches Some(c)
            &&& c.kind matches KindModel::Modified { has_content: true, new_metadata, new_hash, .. }
            &&& new_metadata == Some(new.metadata)
            &&& new_hash == new.hash
        },
{
}

/// Two entries describe the same state exactly if nothing tells them apart.
pub proof fn law_the_same_state_has_the_same_fields(a: EntryModel, b: EntryModel)
    ensures
        diff::same_state(a, b) <==> a.kind == b.kind && !is_other_entry(a, b),
{
}

proof fn lemma_kind_at(es: Seq<EntryModel>, p: Seq<Seq<u8>>, kind: EntryKind)
    requires
        diff::sorted_by_path(es),
        es.len() > 0,
    ensures
        p != es[0].path ==> has_kind(es, p, kind) == has_kind(es.drop_first(), p, kind),
        p == es[0].path ==> has_kind(es, p, kind) == (es[0].kind == kind),
        order::path_lt(p, es[0].path) ==> !has_kind(es, p, kind),
{
    let rest = es.drop_first();
    sync::lemma_rest_is_sorted(es);
    if has_kind(es, p, kind) {
        let i = choose|i: int|
            0 <= i < es.len() && (#[trigger] es[i]).path == p && es[i].kind == kind;
        if i > 0 {
            assert(rest[i - 1] == es[i]);
            assert(sync::has_path(rest, p));
        }
        assert(sync::has_path(es, p));
    }
    if has_kind(rest, p, kind) {
        let i = choose|i: int|
            0 <= i < rest.len() && (#[trigger] rest[i]).path == p && rest[i].kind == kind;
        assert(es[i + 1] == rest[i]);
    }
    if order::path_lt(p, es[0].path) {
        sync::lemma_first_is_least(es, p);
    }
    if p == es[0].path && es[0].kind == kind {
        assert(has_kind(es, p, kind));
    }
}

/// What is called for by the rest of two states is called for by the whole.
proof fn lemma_called_for_by_the_rest(
    c: ChangeModel,
    old: Seq<EntryModel>,
    new: Seq<EntryModel>,
    olds: Seq<EntryModel>,
    news: Seq<EntryModel>,
)
    requires
        diff::sorted_by_path(old),
        diff::sorted_by_path(new),
        olds == old || (old.len() > 0 && olds == old.drop_first() && old[0].path != c.path),
        news == new || (new.len() > 0 && news == new.drop_first() && new[0].path != c.path),
        is_called_for(c, olds, news),
    ensures
        is_called_for(c, old, new),
{
    assert forall|kind: EntryKind| has_kind(old, c.path, kind) == has_kind(olds, c.path, kind) by {
        if old.len() > 0 {
            lemma_kind_at(old, c.path, kind);
        }
    }
    assert forall|kind: EntryKind| has_kind(new, c.path, kind) == has_kind(news, c.path, kind) by {
        if new.len() > 0 {
            lemma_kind_at(new, c.path, kind);
        }
    }
    match c.kind {
        KindModel::Added { entry, .. } => {
            let j = choose|j: int| 0 <= j < news.len() && news[j] == entry;
            if news == new {
                assert(new.contains(entry));
            } else {
                assert(new[j + 1] == entry);
            }
        },
        KindModel::Removed(_) => {},
        KindModel::Modified { .. } => {
            let (i, j) = choose|i: int, j: int|
                {
                    &&& 0 <= i < olds.len()
                    &&& 0 <= j < news.len()
                    &&& (#[trigger] olds[i]).path == c.path
                    &&& olds[i].kind == (#[trigger] news[j]).kind
                    &&& is_other_entry(olds[i], news[j])
                    &&& says_what_changed(c, olds[i], news[j])
                };
            let a = if olds == old {
                i
            } else {
                i + 1
            };
            let b = if news == new {
                j
            } else {
                j + 1
            };
            assert(old[a] == olds[i] && new[b] == news[j]);
        },
    }
}

/// The changes for the first path are called for.
proof fn lemma_first_is_called_for(
    item: ItemModel,
    old: Seq<EntryModel>,
    new: Seq<EntryModel>,
    k: int,
)
    requires
        diff::sorted_by_path(old),
        diff::sorted_by_path(new),
        match item {
            ItemModel::Removed(e) => old.len() > 0 && e == old[0] && (new.len() == 0
                || order::path_lt(e.path, new[0].path)),
            ItemModel::Added(e) => new.len() > 0 && e == new[0] && (old.len() == 0
                || order::path_lt(e.path, old[0].path)),
            ItemModel::Both { new: n, old: o } => old.len() > 0 && new.len() > 0 && o == old[0] && n
                == new[0] && o.path == n.path,
        },
        0 <= k < diff::item_changes(item).len(),
    ensures
        is_called_for(diff::item_changes(item)[k], old, new),
{
    let c = diff::item_changes(item)[k];
    match item {
        ItemModel::Removed(e) => {
            lemma_kind_at(old, e.path, e.kind);
            if new.len() > 0 {
                lemma_kind_at(new, e.path, e.kind);
            }
        },
        ItemModel::Added(e) => {
            if old.len() > 0 {
                lemma_kind_at(old, e.path, e.kind);
            }
            assert(new[0] == e);
            assert(new.contains(e));
        },
        ItemModel::Both { new: n, old: o } => {
            lemma_kind_at(old, n.path, n.kind);
            lemma_kind_at(new, o.path, o.kind);
            lemma_kind_at(old, o.path, o.kind);
            assert(new.contains(new[0]));
            if n.kind == o.kind {
                law_a_modification_says_what_changed(o, n);
                assert(says_what_changed(c, old[0], new[0]));
            }
        },
    }
}

/// The first step of the join of two states, and what is left behind it.
spec fn first_step(old: Seq<EntryModel>, new: Seq<EntryModel>) -> (
    ItemModel,
    Seq<EntryModel>,
    Seq<EntryModel>,
) {
    if new.len() == 0 || (old.len() > 0 && order::path_lt(old[0].path, new[0].path)) {
        (ItemModel::Removed(old[0]), old.drop_first(), new)
    } else if old.len() == 0 || order::path_lt(new[0].path, old[0].path) {
        (ItemModel::Added(new[0]), old, new.drop_first())
    } else {
        (ItemModel::Both { new: new[0], old: old[0] }, old.drop_first(), new.drop_first())
    }
}

/// The path of the first step.
spec fn first_path(old: Seq<EntryModel>, new: Seq<EntryModel>) -> Seq<Seq<u8>> {
    match first_step(old, new).0 {
        ItemModel::Removed(e) => e.path,
        ItemModel::Added(e) => e.path,
        ItemModel::Both { new: n, .. } => n.path,
    }
}

proof fn lemma_first_step(old: Seq<EntryModel>, new: Seq<EntryModel>)
    requires
        diff::sorted_by_path(old),
        diff::sorted_by_path(new),
        old.len() + new.len() > 0,
    ensures
        ({
            let (item, olds, news) = first_step(old, new);
            let p = first_path(old, new);
            let first = diff::item_changes(item);
            &&& diff::diff_of(old, new) == first + diff::diff_of(olds, news)
            &&& olds.len() + news.len() < old.len() + new.len()
            &&& diff::sorted_by_path(olds)
            &&& diff::sorted_by_path(news)
            &&& !sync::has_path(olds, p)
            &&& !sync::has_path(news, p)
            &&& forall|k: int| 0 <= k < first.len() ==> (#[trigger] first[k]).path == p
            &&& forall|k: int|
                0 <= k < diff::diff_of(olds, news).len() ==> (#[trigger] diff::diff_of(
                    olds,
                    news,
                )[k]).path != p
            &&& olds == old || (old.len() > 0 && olds == old.drop_first() && old[0].path == p)
            &&& news == new || (new.len() > 0 && news == new.drop_first() && new[0].path == p)
            &&& item is Both ==> old[0].path == new[0].path
        }),
{
    let (item, olds, news) = first_step(old, new);
    let p = first_path(old, new);
    if old.len() > 0 && new.len() > 0 {
        order::lemma_path_lt_total(old[0].path, new[0].path);
    }
    if old.len() > 0 {
        sync::lemma_rest_is_sorted(old);
    }
    if new.len() > 0 {
        sync::lemma_rest_is_sorted(new);
    }
    if item is Removed && new.len() > 0 {
        sync::lemma_first_is_least(new, p);
    }
    if item is Added && old.len() > 0 {
        sync::lemma_first_is_least(old, p);
    }
    sync::lemma_changes_of_front(item, diff::joined_items(olds, news));
    sync::law_a_diff_is_minimal(olds, news);
}

/// Every change of a diff is called for by the two states.
pub proof fn law_every_change_is_called_for(old: Seq<EntryModel>, new: Seq<EntryModel>)
    requires
        diff::sorted_by_path(old),
        diff::sorted_by_path(new),
    ensures
        forall|k: int|
            0 <= k < diff::diff_of(old, new).len() ==> is_called_for(
                #[trigger] diff::diff_of(old, new)[k],
                old,
                new,
            ),
    decreases old.len() + new.len(),
{
    let all = diff::diff_of(old, new);
    if old.len() + new.len() == 0 {
        assert(all =~= Seq::<ChangeModel>::empty());
    } else {
        let (item, olds, news) = first_step(old, new);
        lemma_first_step(old, new);
        law_every_change_is_called_for(olds, news);
        let first = diff::item_changes(item);
        let rest = diff::diff_of(olds, news);
        assert forall|k: int| 0 <= k < all.len() implies is_called_for(
            #[trigger] all[k],
            old,
            new,
        ) by {
            if k < first.len() {
                assert(all[k] == first[k]);
                lemma_first_is_called_for(item, old, new, k);
            } else {
                assert(all[k] == rest[k - first.len()]);
                lemma_called_for_by_the_rest(all[k], old, new, olds, news);
            }
        }
    }
}

/// Whether a diff has a change of a path that brings content, and the metadata
/// that says how much.
pub open spec fn brings_content(cs: Seq<ChangeModel>, e: EntryModel) -> bool {
    exists|k: int|
        0 <= k < cs.len() && (#[trigger] cs[k]).path == e.path && match cs[k].kind {
            KindModel::Added { entry, has_content } => has_content && entry == e,
            KindModel::Modified { new_metadata, has_content, new_hash, .. } => has_content
                && new_metadata == Some(e.metadata) && new_hash == e.hash,
            KindModel::Removed(_) => false,
        }
}

/// Whether a diff has a change that removes what is of a kind at a path.
pub open spec fn removes_kind(cs: Seq<ChangeModel>, p: Seq<Seq<u8>>, kind: EntryKind) -> bool {
    cs.contains(ChangeModel { path: p, kind: KindModel::Removed(kind) })
}

/// Whether a diff has a change that adds an entry.
pub open spec fn adds_entry(cs: Seq<ChangeModel>, e: EntryModel) -> bool {
    cs.contains(
        ChangeModel {
            path: e.path,
            kind: KindModel::Added { entry: e, has_content: e.kind == EntryKind::File },
        },
    )
}

/// Whether a diff has a modification that says what became of an entry.
pub open spec fn modifies(cs: Seq<ChangeModel>, old: EntryModel, new: EntryModel) -> bool {
    exists|k: int| 0 <= k < cs.len() && says_what_changed(#[trigger] cs[k], old, new)
}

/// Whether what two entries call for is in a diff: an entry that appears in its
/// kind is added, one that disappears in its kind is removed, and one that differs
/// is modified.
pub open spec fn is_answered(
    cs: Seq<ChangeModel>,
    old: Seq<EntryModel>,
    new: Seq<EntryModel>,
) -> bool {
    &&& forall|j: int|
        0 <= j < new.len() && !has_kind(old, (#[trigger] new[j]).path, new[j].kind) ==> adds_entry(
            cs,
            new[j],
        )
    &&& forall|i: int|
        0 <= i < old.len() && !has_kind(new, (#[trigger] old[i]).path, old[i].kind)
            ==> removes_kind(cs, old[i].path, old[i].kind)
    &&& forall|i: int, j: int|
        0 <= i < old.len() && 0 <= j < new.len() && (#[trigger] old[i]).path == (
        #[trigger] new[j]).path && old[i].kind == new[j].kind && is_other_entry(old[i], new[j])
            ==> modifies(cs, old[i], new[j])
}

proof fn lemma_in_the_rest(first: Seq<ChangeModel>, rest: Seq<ChangeModel>)
    ensures
        forall|e: EntryModel| adds_entry(rest, e) ==> #[trigger] adds_entry(first + rest, e),
        forall|e: EntryModel| adds_entry(first, e) ==> #[trigger] adds_entry(first + rest, e),
        forall|p: Seq<Seq<u8>>, kind: EntryKind|
            removes_kind(rest, p, kind) ==> #[trigger] removes_kind(first + rest, p, kind),
        forall|p: Seq<Seq<u8>>, kind: EntryKind|
            removes_kind(first, p, kind) ==> #[trigger] removes_kind(first + rest, p, kind),
        forall|o: EntryModel, n: EntryModel|
            modifies(rest, o, n) ==> #[trigger] modifies(first + rest, o, n),
        forall|o: EntryModel, n: EntryModel|
            modifies(first, o, n) ==> #[trigger] modifies(first + rest, o, n),
{
    let all = first + rest;
    assert forall|c: ChangeModel|
        rest.contains(c) || first.contains(c) implies #[trigger] all.contains(c) by {
        if rest.contains(c) {
            let k = choose|k: int| 0 <= k < rest.len() && rest[k] == c;
            assert(all[first.len() + k] == c);
        } else {
            let k = choose|k: int| 0 <= k < first.len() && first[k] == c;
            assert(all[k] == c);
        }
    }
    assert forall|o: EntryModel, n: EntryModel| modifies(rest, o, n) implies #[trigger] modifies(
        all,
        o,
        n,
    ) by {
        let k = choose|k: int| 0 <= k < rest.len() && says_what_changed(#[trigger] rest[k], o, n);
        assert(all[first.len() + k] == rest[k]);
    }
    assert forall|o: EntryModel, n: EntryModel| modifies(first, o, n) implies #[trigger] modifies(
        all,
        o,
        n,
    ) by {
        let k = choose|k: int|
            0 <= k < first.len() && says_what_changed(#[trigger] first[k], o, n);
        assert(all[k] == first[k]);
    }
}

/// A diff answers everything that two states call for.
pub proof fn law_everything_called_for_is_in_the_diff(old: Seq<EntryModel>, new: Seq<EntryModel>)
    requires
        diff::sorted_by_path(old),
        diff::sorted_by_path(new),
    ensures
        is_answered(diff::diff_of(old, new), old, new),
    decreases old.len() + new.len(),
{
    let all = diff::diff_of(old, new);
    if old.len() + new.len() > 0 {
        let (item, olds, news) = first_step(old, new);
        let p = first_path(old, new);
        lemma_first_step(old, new);
        law_everything_called_for_is_in_the_diff(olds, news);
        let first = diff::item_changes(item);
        let rest = diff::diff_of(olds, news);
        lemma_in_the_rest(first, rest);
        assert forall|j: int|
            0 <= j < new.len() && !has_kind(old, (#[trigger] new[j]).path, new[j].kind) implies
            adds_entry(all, new[j]) by {
            let n = new[j];
            if old.len() > 0 {
                lemma_kind_at(old, n.path, n.kind);
            }
            if n.path == p {
                assert(sync::has_path(new, p));
                if j > 0 && news != new {
                    assert(news[j - 1] == n);
                    assert(sync::has_path(news, p));
                }
                assert(news != new && j == 0);
                assert(first.contains(first[first.len() - 1]));
                assert(adds_entry(first, n));
            } else {
                if news == new {
                    assert(news[j] == n);
                } else {
                    assert(news[j - 1] == n);
                }
                assert(!has_kind(olds, n.path, n.kind));
                assert(adds_entry(rest, n));
            }
        }
        assert forall|i: int|
            0 <= i < old.len() && !has_kind(new, (#[trigger] old[i]).path, old[i].kind) implies
            removes_kind(all, old[i].path, old[i].kind) by {
            let o = old[i];
            if new.len() > 0 {
                lemma_kind_at(new, o.path, o.kind);
            }
            if o.path == p {
                assert(sync::has_path(old, p));
                if i > 0 && olds != old {
                    assert(olds[i - 1] == o);
                    assert(sync::has_path(olds, p));
                }
                assert(olds != old && i == 0);
                assert(first.contains(first[0]));
                assert(removes_kind(first, o.path, o.kind));
            } else {
                if olds == old {
                    assert(olds[i] == o);
                } else {
                    assert(olds[i - 1] == o);
                }
                assert(!has_kind(news, o.path, o.kind));
                assert(removes_kind(rest, o.path, o.kind));
            }
        }
        assert forall|i: int, j: int|
            0 <= i < old.len() && 0 <= j < new.len() && (#[trigger] old[i]).path == (
            #[trigger] new[j]).path && old[i].kind == new[j].kind && is_other_entry(
                old[i],
                new[j],
            ) implies modifies(all, old[i], new[j]) by {
            let o = old[i];
            let n = new[j];
            assert(sync::has_path(old, o.path) && sync::has_path(new, n.path));
            if o.path == p {
                if i > 0 && olds != old {
                    assert(olds[i - 1] == o);
                    assert(sync::has_path(olds, p));
                }
                if j > 0 && news != new {
                    assert(news[j - 1] == n);
                    assert(sync::has_path(news, p));
                }
                assert(olds != old && news != new && i == 0 && j == 0);
                law_a_modification_says_what_changed(o, n);
                assert(says_what_changed(first[0], o, n));
                assert(modifies(first, o, n));
            } else {
                let a = if olds == old {
                    i
                } else {
                    i - 1
                };
                let b = if news == new {
                    j
                } else {
                    j - 1
                };
                assert(olds[a] == o && news[b] == n);
                assert(modifies(rest, o, n));
            }
        }
    }
}

/// The content of every file travels that is new, or had another kind or hash: the
/// diff has a change of its path that brings it, with the metadata that says how
/// much it is.
pub proof fn law_changed_files_travel_with_their_content(
    old: Seq<EntryModel>,
    new: Seq<EntryModel>,
)
    requires
        diff::sorted_by_path(old),
        diff::sorted_by_path(new),
    ensures
        forall|j: int|
            0 <= j < new.len() && (#[trigger] new[j]).kind == EntryKind::File && (forall|i: int|
                0 <= i < old.len() && (#[trigger] old[i]).path == new[j].path ==> old[i].kind
                    != EntryKind::File || old[i].hash != new[j].hash) ==> brings_content(
                diff::diff_of(old, new),
                new[j],
            ),
{
    let all = diff::diff_of(old, new);
    law_everything_called_for_is_in_the_diff(old, new);
    assert forall|j: int|
        0 <= j < new.len() && (#[trigger] new[j]).kind == EntryKind::File && (forall|i: int|
            0 <= i < old.len() && (#[trigger] old[i]).path == new[j].path ==> old[i].kind
                != EntryKind::File || old[i].hash != new[j].hash) implies brings_content(
        all,
        new[j],
    ) by {
        let n = new[j];
        if has_kind(old, n.path, n.kind) {
            let i = choose|i: int|
                0 <= i < old.len() && (#[trigger] old[i]).path == n.path && old[i].kind == n.kind;
            assert(modifies(all, old[i], new[j]));
            let k = choose|k: int|
                0 <= k < all.len() && says_what_changed(#[trigger] all[k], old[i], n);
            assert(all[k].path == n.path);
        } else {
            assert(adds_entry(all, n));
            let c = ChangeModel {
                path: n.path,
                kind: KindModel::Added { entry: n, has_content: true },
            };
            let k = choose|k: int| 0 <= k < all.len() && all[k] == c;
            assert(all[k].path == n.path);
        }
    }
}

/// What there is of content at each path after some changes, where content that
/// comes is that of the new state.
pub open spec fn replayed(
    contents: Map<Seq<Seq<u8>>, Seq<u8>>,
    cs: Seq<ChangeModel>,
    coming: Map<Seq<Seq<u8>>, Seq<u8>>,
) -> Map<Seq<Seq<u8>>, Seq<u8>>
    decreases cs.len(),
{
    if cs.len() == 0 {
        contents
    } else {
        let before = replayed(contents, cs.drop_last(), coming);
        let p = cs.last().path;
        match cs.last().kind {
            KindModel::Removed(_) => before.remove(p),
            KindModel::Added { has_content, .. } => if has_content {
                before.insert(p, coming[p])
            } else {
                before
            },
            KindModel::Modified { has_content, .. } => if has_content {
                before.insert(p, coming[p])
            } else {
                before
            },
        }
    }
}

spec fn content_at(m: Map<Seq<Seq<u8>>, Seq<u8>>, p: Seq<Seq<u8>>) -> Option<Seq<u8>> {
    if m.dom().contains(p) {
        Some(m[p])
    } else {
        None
    }
}

proof fn lemma_replayed_in_parts(
    contents: Map<Seq<Seq<u8>>, Seq<u8>>,
    a: Seq<ChangeModel>,
    b: Seq<ChangeModel>,
    coming: Map<Seq<Seq<u8>>, Seq<u8>>,
)
    ensures
        replayed(contents, a + b, coming) == replayed(replayed(contents, a, coming), b, coming),
    decreases b.len(),
{
    if b.len() == 0 {
        assert(a + b =~= a);
    } else {
        assert((a + b).drop_last() =~= a + b.drop_last());
        assert((a + b).last() == b.last());
        lemma_replayed_in_parts(contents, a, b.drop_last(), coming);
    }
}

proof fn lemma_replayed_elsewhere(
    contents: Map<Seq<Seq<u8>>, Seq<u8>>,
    cs: Seq<ChangeModel>,
    coming: Map<Seq<Seq<u8>>, Seq<u8>>,
    p: Seq<Seq<u8>>,
)
    requires
        forall|k: int| 0 <= k < cs.len() ==> (#[trigger] cs[k]).path != p,
    ensures
        content_at(replayed(contents, cs, coming), p) == content_at(contents, p),
    decreases cs.len(),
{
    if cs.len() > 0 {
        let front = cs.drop_last();
        assert forall|k: int| 0 <= k < front.len() implies (#[trigger] front[k]).path != p by {
            assert(front[k] == cs[k]);
        }
        lemma_replayed_elsewhere(contents, front, coming, p);
        assert(cs[cs.len() - 1].path != p);
    }
}

/// Whether `contents` are those of a state: of its files, and of nothing else.
pub open spec fn are_contents_of(
    contents: Map<Seq<Seq<u8>>, Seq<u8>>,
    es: Seq<EntryModel>,
) -> bool {
    forall|p: Seq<Seq<u8>>| #[trigger]
        contents.dom().contains(p) <==> has_kind(es, p, EntryKind::File)
}

/// Whether files with the same path and the same hash have the same content.
pub open spec fn hashes_tell_contents(
    before: Map<Seq<Seq<u8>>, Seq<u8>>,
    old: Seq<EntryModel>,
    after: Map<Seq<Seq<u8>>, Seq<u8>>,
    new: Seq<EntryModel>,
) -> bool {
    forall|i: int, j: int|
        0 <= i < old.len() && 0 <= j < new.len() && (#[trigger] old[i]).path == (
        #[trigger] new[j]).path && old[i].kind == EntryKind::File && new[j].kind == EntryKind::File
            && old[i].hash == new[j].hash ==> before[old[i].path] == after[old[i].path]
}

proof fn lemma_replayed_at(
    contents: Map<Seq<Seq<u8>>, Seq<u8>>,
    coming: Map<Seq<Seq<u8>>, Seq<u8>>,
    old: Seq<EntryModel>,
    new: Seq<EntryModel>,
    p: Seq<Seq<u8>>,
)
    requires
        diff::sorted_by_path(old),
        diff::sorted_by_path(new),
        sync::has_path(old, p) || sync::has_path(new, p),
        contents.dom().contains(p) <==> has_kind(old, p, EntryKind::File),
        hashes_tell_contents(contents, old, coming, new),
    ensures
        content_at(replayed(contents, diff::diff_of(old, new), coming), p) == if has_kind(
            new,
            p,
            EntryKind::File,
        ) {
            Some(coming[p])
        } else {
            None
        },
    decreases old.len() + new.len(),
{
    let all = diff::diff_of(old, new);
    let (item, olds, news) = first_step(old, new);
    let q = first_path(old, new);
    let first = diff::item_changes(item);
    let rest = diff::diff_of(olds, news);
    lemma_first_step(old, new);
    lemma_replayed_in_parts(contents, first, rest, coming);
    let middle = replayed(contents, first, coming);
    if old.len() > 0 {
        lemma_kind_at(old, p, EntryKind::File);
        sync::lemma_rest_is_sorted(old);
    }
    if new.len() > 0 {
        lemma_kind_at(new, p, EntryKind::File);
        sync::lemma_rest_is_sorted(new);
    }
    if p == q {
        lemma_replayed_elsewhere(middle, rest, coming, p);
        let none = Seq::<ChangeModel>::empty();
        assert(replayed(contents, none, coming) == contents);
        if first.len() == 1 {
            assert(first.drop_last() =~= none);
        } else if first.len() == 2 {
            let one = first.drop_last();
            assert(one.drop_last() =~= none);
            assert(one.last() == first[0]);
        } else {
            assert(first =~= none);
        }
        assert(content_at(middle, p) == content_at(replayed(contents, all, coming), p));
        match item {
            ItemModel::Removed(e) => {
                assert(!has_kind(new, p, EntryKind::File));
                assert(first =~= seq![diff::removal(e)]);
                assert(content_at(middle, p) is None);
            },
            ItemModel::Added(e) => {
                assert(!has_kind(old, p, EntryKind::File));
                assert(first =~= seq![diff::addition(e)]);
                assert(has_kind(new, p, EntryKind::File) <==> e.kind == EntryKind::File);
                assert(content_at(contents, p) is None);
            },
            ItemModel::Both { new: n, old: o } => {
                assert(old[0].path == new[0].path);
                assert(has_kind(new, p, EntryKind::File) <==> n.kind == EntryKind::File);
                assert(has_kind(old, p, EntryKind::File) <==> o.kind == EntryKind::File);
                if n.kind == o.kind {
                    law_a_modification_says_what_changed(o, n);
                    if n.kind == EntryKind::File && o.hash == n.hash {
                        assert(contents[p] == coming[p]);
                    }
                    if let Some(c) = diff::entry_change(o, n) {
                        assert(first =~= seq![c]);
                        assert(first.last() == c);
                        assert(says_what_changed(c, o, n));
                    } else {
                        assert(first =~= none);
                        assert(middle == contents);
                    }
                } else {
                    assert(first =~= seq![diff::removal(o), diff::addition(n)]);
                    assert(first.last() == diff::addition(n));
                    let one = first.drop_last();
                    assert(one =~= seq![diff::removal(o)]);
                    assert(content_at(replayed(contents, one, coming), p) is None);
                }
            },
        }
    } else {
        lemma_replayed_elsewhere(contents, first, coming, p);
        assert(content_at(middle, p) == content_at(contents, p));
        assert(sync::has_path(olds, p) || sync::has_path(news, p));
        // Paths of the rest have kept what they had.
        assert forall|i: int, j: int|
            0 <= i < olds.len() && 0 <= j < news.len() && (#[trigger] olds[i]).path == (
            #[trigger] news[j]).path && olds[i].kind == EntryKind::File && news[j].kind
                == EntryKind::File && olds[i].hash == news[j].hash implies middle[olds[i].path]
            == coming[olds[i].path] by {
            let a = if olds == old {
                i
            } else {
                i + 1
            };
            let b = if news == new {
                j
            } else {
                j + 1
            };
            assert(olds[i] == old[a] && news[j] == new[b]);
            let r = olds[i].path;
            assert(sync::has_path(olds, r));
            assert(r != q);
            lemma_replayed_map_elsewhere(contents, first, coming, r);
        }
        lemma_replayed_at(middle, coming, olds, news, p);
    }
}

proof fn lemma_replayed_map_elsewhere(
    contents: Map<Seq<Seq<u8>>, Seq<u8>>,
    cs: Seq<ChangeModel>,
    coming: Map<Seq<Seq<u8>>, Seq<u8>>,
    p: Seq<Seq<u8>>,
)
    requires
        forall|k: int| 0 <= k < cs.len() ==> (#[trigger] cs[k]).path != p,
    ensures
        replayed(contents, cs, coming)[p] == contents[p],
    decreases cs.len(),
{
    if cs.len() > 0 {
        let front = cs.drop_last();
        assert forall|k: int| 0 <= k < front.len() implies (#[trigger] front[k]).path != p by {
            assert(front[k] == cs[k]);
        }
        lemma_replayed_map_elsewhere(contents, front, coming, p);
        assert(cs[cs.len() - 1].path != p);
    }
}

/// Replaying the content that comes with a diff on the old contents gives the new
/// contents, of every file and of nothing else, as long as a hash tells a content.
pub proof fn law_replaying_content_gives_the_new_contents(
    before: Map<Seq<Seq<u8>>, Seq<u8>>,
    old: Seq<EntryModel>,
    after: Map<Seq<Seq<u8>>, Seq<u8>>,
    new: Seq<EntryModel>,
)
    requires
        diff::sorted_by_path(old),
        diff::sorted_by_path(new),
        are_contents_of(before, old),
        are_contents_of(after, new),
        hashes_tell_contents(before, old, after, new),
    ensures
        replayed(before, diff::diff_of(old, new), after) == after,
{
    let all = diff::diff_of(old, new);
    let got = replayed(before, all, after);
    assert forall|p: Seq<Seq<u8>>| content_at(got, p) == content_at(after, p) by {
        assert(before.dom().contains(p) <==> has_kind(old, p, EntryKind::File));
        assert(after.dom().contains(p) <==> has_kind(new, p, EntryKind::File));
        if sync::has_path(old, p) || sync::has_path(new, p) {
            lemma_replayed_at(before, after, old, new, p);
        } else {
            sync::law_a_diff_is_minimal(old, new);
            lemma_replayed_elsewhere(before, all, after, p);
            lemma_no_path_no_kind(old, p, EntryKind::File);
            lemma_no_path_no_kind(new, p, EntryKind::File);
        }
    }
    assert forall|p: Seq<Seq<u8>>| got.dom().contains(p) == after.dom().contains(p) by {
        assert(content_at(got, p) == content_at(after, p));
    }
    assert forall|p: Seq<Seq<u8>>| got.dom().contains(p) implies got[p] == after[p] by {
        assert(content_at(got, p) == content_at(after, p));
    }
    assert(got =~= after);
}

proof fn lemma_no_path_no_kind(es: Seq<EntryModel>, p: Seq<Seq<u8>>, kind: EntryKind)
    requires
        !sync::has_path(es, p),
    ensures
        !has_kind(es, p, kind),
{
    if has_kind(es, p, kind) {
        let i = choose|i: int|
            0 <= i < es.len() && (#[trigger] es[i]).path == p && es[i].kind == kind;
        assert(es[i].path == p);
    }
}

/// Applying a diff to the old state gives every field of the new one: the same
/// paths, and at each the kind, size, permissions, owner and group, hash and link
/// target, and the modification time within a second.
pub proof fn law_a_diff_reproduces_every_field(old: Seq<EntryModel>, new: Seq<EntryModel>)
    requires
        diff::sorted_by_path(old),
        diff::sorted_by_path(new),
        sync::are_expressible(old, new),
    ensures
        ({
            let after = simulate::after_changes(
                path_map::entries_by_path(old),
                diff::diff_of(old, new),
            );
            let target = path_map::entries_by_path(new);
            &&& after.dom() == target.dom()
            &&& forall|p: Seq<Seq<u8>>| #[trigger]
                target.dom().contains(p) ==> after[p].kind == target[p].kind && !is_other_entry(
                    after[p],
                    target[p],
                )
        }),
{
    sync::law_a_diff_leads_to_the_new_state(old, new, Set::empty());
}

/// An item of a join is seen with both its entries.
pub proof fn law_an_item_is_seen_whole(item: WalkItem)
    ensures
        item matches WalkItem::Added(e) ==> item@ == ItemModel::Added(e@),
        item matches WalkItem::Removed(e) ==> item@ == ItemModel::Removed(e@),
        item matches WalkItem::Both { new, old } ==> {
            &&& item@ matches ItemModel::Both { new: n, old: o }
            &&& n == new@
            &&& o == old@
        },
{
}

/// A new state has as many entries as the join of it with an old one counts.
pub proof fn law_new_entries_are_counted(old: Seq<EntryModel>, new: Seq<EntryModel>)
    ensures
        diff::count_new(diff::joined_items(old, new)) == new.len(),
    decreases old.len() + new.len(),
{
    reveal(Seq::filter);
    let items = diff::joined_items(old, new);
    if old.len() + new.len() == 0 {
        assert(diff::count_new(items) == 0);
    } else {
        let (item, olds, news) = first_step(old, new);
        law_new_entries_are_counted(olds, news);
        let rest = diff::joined_items(olds, news);
        assert(items == seq![item] + rest);
        lemma_count_new_front(item, rest);
    }
}

proof fn lemma_count_new_front(item: ItemModel, rest: Seq<ItemModel>)
    ensures
        diff::count_new(seq![item] + rest) == diff::count_new(rest) + if item is Removed {
            0nat
        } else {
            1nat
        },
    decreases rest.len(),
{
    reveal(Seq::filter);
    let all = seq![item] + rest;
    if rest.len() == 0 {
        let none = Seq::<ItemModel>::empty();
        assert(all.drop_last() =~= none);
        assert(rest =~= none);
        assert(diff::count_new(none) == 0);
        assert(all.last() == item);
    } else {
        assert(all.drop_last() =~= seq![item] + rest.drop_last());
        assert(all.last() == rest.last());
        lemma_count_new_front(item, rest.drop_last());
    }
}

/// Every change is counted once, as an addition, a modification or a removal.
pub proof fn law_changes_are_counted_by_kind(cs: Seq<ChangeModel>, c: ChangeModel)
    ensures
        diff::count_added(cs.push(c)) == diff::count_added(cs) + if c.kind is Added {
            1nat
        } else {
            0nat
        },
        diff::count_modified(cs.push(c)) == diff::count_modified(cs) + if c.kind is Modified {
            1nat
        } else {
            0nat
        },
        diff::count_removed(cs.push(c)) == diff::count_removed(cs) + if c.kind is Removed {
            1nat
        } else {
            0nat
        },
        diff::count_added(Seq::empty()) == 0,
        diff::count_modified(Seq::empty()) == 0,
        diff::count_removed(Seq::empty()) == 0,
{
    reveal(Seq::filter);
    assert(cs.push(c).drop_last() =~= cs);
}

/// The content that comes with changes is read from the files that they are of,
/// below the root, in the order of the changes, and from no other.
pub proof fn law_content_is_read_from_the_changed_files(cs: Seq<ChangeModel>, root: Seq<u8>)
    ensures
        diff::content_paths_of(cs, root) == cs.filter(
            |c: ChangeModel|
                match c.kind {
                    KindModel::Added { has_content, .. } => has_content,
                    KindModel::Modified { has_content, .. } => has_content,
                    KindModel::Removed(_) => false,
                },
        ).map_values(|c: ChangeModel| path::as_prefix(root) + path::joined(c.path)),
    decreases cs.len(),
{
    reveal(Seq::filter);
    let comes = |c: ChangeModel|
        match c.kind {
            KindModel::Added { has_content, .. } => has_content,
            KindModel::Modified { has_content, .. } => has_content,
            KindModel::Removed(_) => false,
        };
    let full = |c: ChangeModel| path::as_prefix(root) + path::joined(c.path);
    if cs.len() > 0 {
        law_content_is_read_from_the_changed_files(cs.drop_last(), root);
        assert(cs.last().has_content() == comes(cs.last()));
    }
    assert(diff::content_paths_of(cs, root) =~= cs.filter(comes).map_values(full));
}

} // verus!
