//! What computing a diff and applying it promise together.

use crate::commands::diff;
use crate::commands::diff::ItemModel;
use crate::commands::simulate;
use crate::commands::verify;
use crate::model::diff::{ChangeModel, KindModel};
use crate::model::entry::EntryModel;
use crate::model::path_map;
use crate::order;
use vstd::prelude::*;

verus! {

/// Whether a modification can express the way from `old` to `new`: it cannot
/// take a hash or a link target away.
pub open spec fn is_expressible(old: EntryModel, new: EntryModel) -> bool {
    old.kind == new.kind ==> {
        &&& new.hash is None ==> old.hash is None
        &&& new.symlink_target is None ==> old.symlink_target is None
    }
}

/// Whether the way from each old entry to the new entry with the same path can
/// be expressed.
pub open spec fn are_expressible(old: Seq<EntryModel>, new: Seq<EntryModel>) -> bool {
    forall|i: int, j: int|
        0 <= i < old.len() && 0 <= j < new.len() && (#[trigger] old[i]).path == (
        #[trigger] new[j]).path ==> is_expressible(old[i], new[j])
}

/// Two entries of the same kind give a change exactly if their states differ.
pub proof fn law_a_change_is_a_difference(old: EntryModel, new: EntryModel)
    requires
        old.kind == new.kind,
    ensures
        diff::entry_change(old, new) is None <==> diff::same_state(old, new),
{
}

/// A modification turns the old entry into one with the state of the new.
proof fn lemma_modification(old: EntryModel, new: EntryModel)
    requires
        old.kind == new.kind,
        is_expressible(old, new),
    ensures
        match diff::entry_change(old, new) {
            Some(c) => match c.kind {
                KindModel::Modified { new_metadata, new_hash, new_symlink_target, .. } => {
                    diff::same_state(
                        simulate::modified(old, new_metadata, new_hash, new_symlink_target),
                        new,
                    )
                },
                _ => false,
            },
            None => diff::same_state(old, new),
        },
{
}

pub proof fn lemma_changes_of_front(item: ItemModel, rest: Seq<ItemModel>)
    ensures
        diff::changes_of(seq![item] + rest) == diff::item_changes(item) + diff::changes_of(rest),
    decreases rest.len(),
{
    let all = seq![item] + rest;
    if rest.len() == 0 {
        let none = Seq::<ItemModel>::empty();
        assert(diff::changes_of(none) =~= Seq::<ChangeModel>::empty());
        assert(all.drop_last() =~= none);
        assert(rest =~= none);
        assert(all.last() == item);
    } else {
        assert(all.drop_last() =~= seq![item] + rest.drop_last());
        assert(all.last() == rest.last());
        lemma_changes_of_front(item, rest.drop_last());
    }
    assert(diff::changes_of(all) =~= diff::item_changes(item) + diff::changes_of(rest));
}

/// Applying changes in two parts is applying them all.
pub proof fn law_changes_apply_in_parts(
    state: Map<Seq<Seq<u8>>, EntryModel>,
    a: Seq<ChangeModel>,
    b: Seq<ChangeModel>,
)
    ensures
        simulate::after_changes(state, a + b) == simulate::after_changes(
            simulate::after_changes(state, a),
            b,
        ),
    decreases b.len(),
{
    if b.len() == 0 {
        assert(a + b =~= a);
    } else {
        assert((a + b).drop_last() =~= a + b.drop_last());
        assert((a + b).last() == b.last());
        law_changes_apply_in_parts(state, a, b.drop_last());
    }
}

/// A state compared to itself gives no changes.
pub proof fn law_identical_states_give_no_changes(es: Seq<EntryModel>)
    ensures
        diff::diff_of(es, es) == Seq::<ChangeModel>::empty(),
    decreases es.len(),
{
    if es.len() > 0 {
        let e = es[0];
        let rest = es.drop_first();
        order::lemma_path_lt_irreflexive(e.path);
        law_identical_states_give_no_changes(rest);
        lemma_changes_of_front(
            ItemModel::Both { new: e, old: e },
            diff::joined_items(rest, rest),
        );
        assert(diff::diff_of(es, es) =~= Seq::<ChangeModel>::empty());
    }
}

/// Every change that a diff holds is well-formed: content never comes without
/// the metadata that says how long it is.
pub proof fn law_computed_changes_are_well_formed(items: Seq<ItemModel>)
    ensures
        forall|i: int|
            0 <= i < diff::changes_of(items).len() ==> (#[trigger] diff::changes_of(items)[i]).wf(),
    decreases items.len(),
{
    if items.len() > 0 {
        law_computed_changes_are_well_formed(items.drop_last());
        let front = diff::changes_of(items.drop_last());
        let back = diff::item_changes(items.last());
        assert forall|i: int| 0 <= i < diff::changes_of(items).len() implies (
        #[trigger] diff::changes_of(items)[i]).wf() by {
            if i < front.len() {
                assert(diff::changes_of(items)[i] == front[i]);
            } else {
                assert(diff::changes_of(items)[i] == back[i - front.len()]);
            }
        }
    }
}

/// Whether a path occurs in a list of entries.
pub open spec fn has_path(es: Seq<EntryModel>, p: Seq<Seq<u8>>) -> bool {
    exists|i: int| 0 <= i < es.len() && (#[trigger] es[i]).path == p
}

pub proof fn lemma_first_is_least(es: Seq<EntryModel>, p: Seq<Seq<u8>>)
    requires
        diff::sorted_by_path(es),
        es.len() > 0,
        order::path_lt(p, es[0].path),
    ensures
        !has_path(es, p),
{
    if has_path(es, p) {
        let i = choose|i: int| 0 <= i < es.len() && (#[trigger] es[i]).path == p;
        if i > 0 {
            order::lemma_path_lt_transitive(p, es[0].path, es[i].path);
        }
        order::lemma_path_lt_irreflexive(p);
    }
}

pub proof fn lemma_rest_is_sorted(es: Seq<EntryModel>)
    requires
        diff::sorted_by_path(es),
        es.len() > 0,
    ensures
        diff::sorted_by_path(es.drop_first()),
        !has_path(es.drop_first(), es[0].path),
        forall|p: Seq<Seq<u8>>|
            has_path(es, p) <==> p == es[0].path || #[trigger] has_path(es.drop_first(), p),
{
    let rest = es.drop_first();
    assert forall|i: int, j: int| 0 <= i < j < rest.len() implies order::path_lt(
        (#[trigger] rest[i]).path,
        (#[trigger] rest[j]).path,
    ) by {
        assert(rest[i] == es[i + 1] && rest[j] == es[j + 1]);
    }
    if has_path(rest, es[0].path) {
        let i = choose|i: int| 0 <= i < rest.len() && (#[trigger] rest[i]).path == es[0].path;
        assert(rest[i] == es[i + 1]);
        order::lemma_path_lt_irreflexive(es[0].path);
    }
    assert forall|p: Seq<Seq<u8>>|
        has_path(es, p) <==> p == es[0].path || #[trigger] has_path(rest, p) by {
        if has_path(es, p) {
            let i = choose|i: int| 0 <= i < es.len() && (#[trigger] es[i]).path == p;
            if i > 0 {
                assert(rest[i - 1].path == p);
            }
        }
        if has_path(rest, p) {
            let i = choose|i: int| 0 <= i < rest.len() && (#[trigger] rest[i]).path == p;
            assert(es[i + 1].path == p);
        }
        if p == es[0].path {
            assert(es[0].path == p);
        }
    }
}

/// What a state holds of a list of entries.
pub open spec fn holds(
    state: Map<Seq<Seq<u8>>, EntryModel>,
    es: Seq<EntryModel>,
) -> bool {
    forall|i: int|
        0 <= i < es.len() ==> state.dom().contains((#[trigger] es[i]).path) && state[es[i].path]
            == es[i]
}

proof fn lemma_holds_rest(
    state: Map<Seq<Seq<u8>>, EntryModel>,
    next: Map<Seq<Seq<u8>>, EntryModel>,
    es: Seq<EntryModel>,
)
    requires
        diff::sorted_by_path(es),
        es.len() > 0,
        holds(state, es),
        forall|p: Seq<Seq<u8>>| #![trigger next.dom().contains(p)]
            p != es[0].path ==> keeps(state, next, p),
    ensures
        holds(next, es.drop_first()),
{
    lemma_rest_is_sorted(es);
    let rest = es.drop_first();
    assert forall|i: int| 0 <= i < rest.len() implies next.dom().contains(
        (#[trigger] rest[i]).path,
    ) && next[rest[i].path] == rest[i] by {
        let p = rest[i].path;
        assert(rest[i] == es[i + 1]);
        assert(has_path(rest, p));
        assert(p != es[0].path);
        assert(next.dom().contains(p) <==> state.dom().contains(p));
    }
}

/// What a diff from `old` to `new` makes of a state: other paths keep what they
/// have, new paths get the new state, and paths that are only old are gone.
pub open spec fn leads_to(
    state: Map<Seq<Seq<u8>>, EntryModel>,
    old: Seq<EntryModel>,
    new: Seq<EntryModel>,
    after: Map<Seq<Seq<u8>>, EntryModel>,
) -> bool {
    &&& forall|p: Seq<Seq<u8>>| #![trigger after.dom().contains(p)]
        !has_path(old, p) && !has_path(new, p) ==> keeps(state, after, p)
    &&& forall|j: int|
        0 <= j < new.len() ==> has_state(after, #[trigger] new[j])
    &&& forall|p: Seq<Seq<u8>>| #![trigger after.dom().contains(p)]
        has_path(old, p) && !has_path(new, p) ==> !after.dom().contains(p)
}

/// Whether a path has the same in two states.
pub open spec fn keeps(
    state: Map<Seq<Seq<u8>>, EntryModel>,
    after: Map<Seq<Seq<u8>>, EntryModel>,
    p: Seq<Seq<u8>>,
) -> bool {
    &&& after.dom().contains(p) <==> state.dom().contains(p)
    &&& state.dom().contains(p) ==> after[p] == state[p]
}

/// Whether the path of an entry has the state of the entry.
pub open spec fn has_state(after: Map<Seq<Seq<u8>>, EntryModel>, e: EntryModel) -> bool {
    after.dom().contains(e.path) && diff::same_state(after[e.path], e)
}

/// Whether a diff from `old` to `new` can be applied to a state: it holds the
/// old entries, and of the new paths only the old ones.
pub open spec fn is_ready(
    state: Map<Seq<Seq<u8>>, EntryModel>,
    old: Seq<EntryModel>,
    new: Seq<EntryModel>,
) -> bool {
    &&& diff::sorted_by_path(old)
    &&& diff::sorted_by_path(new)
    &&& are_expressible(old, new)
    &&& holds(state, old)
    &&& forall|p: Seq<Seq<u8>>| #[trigger]
        state.dom().contains(p) && has_path(new, p) ==> has_path(old, p)
}

proof fn lemma_expressible_rest(
    old: Seq<EntryModel>,
    new: Seq<EntryModel>,
    olds: Seq<EntryModel>,
    news: Seq<EntryModel>,
)
    requires
        are_expressible(old, new),
        olds == old || (old.len() > 0 && olds == old.drop_first()),
        news == new || (new.len() > 0 && news == new.drop_first()),
    ensures
        are_expressible(olds, news),
{
    assert forall|i: int, j: int|
        0 <= i < olds.len() && 0 <= j < news.len() && (#[trigger] olds[i]).path == (
        #[trigger] news[j]).path implies is_expressible(olds[i], news[j]) by {
        let a = if olds == old {
            i
        } else {
            i + 1
        };
        let b = if news == new {
            j
        } else {
            j + 1
        };
        assert(olds[i] == old[a] && news[j] == new[b]);
    }
}

/// An entry that is gone: the rest of the diff can be applied once it has been
/// removed, and leads where the whole diff does.
proof fn lemma_case_removed(
    state: Map<Seq<Seq<u8>>, EntryModel>,
    old: Seq<EntryModel>,
    new: Seq<EntryModel>,
    after: Map<Seq<Seq<u8>>, EntryModel>,
)
    requires
        is_ready(state, old, new),
        old.len() > 0,
        new.len() == 0 || order::path_lt(old[0].path, new[0].path),
    ensures
        is_ready(state.remove(old[0].path), old.drop_first(), new),
        leads_to(state.remove(old[0].path), old.drop_first(), new, after) ==> leads_to(
            state,
            old,
            new,
            after,
        ),
{
    let o = old[0];
    let rest = old.drop_first();
    let next = state.remove(o.path);
    lemma_rest_is_sorted(old);
    lemma_holds_rest(state, next, old);
    lemma_expressible_rest(old, new, rest, new);
    if new.len() > 0 {
        lemma_first_is_least(new, o.path);
    }
    assert(!has_path(new, o.path));
    assert forall|p: Seq<Seq<u8>>| #[trigger]
        next.dom().contains(p) && has_path(new, p) implies has_path(rest, p) by {
        assert(state.dom().contains(p));
    }
    if leads_to(next, rest, new, after) {
        assert forall|p: Seq<Seq<u8>>| #![trigger after.dom().contains(p)]
            !has_path(old, p) && !has_path(new, p) implies keeps(state, after, p) by {
            assert(!has_path(rest, p) && p != o.path);
            assert(keeps(next, after, p));
        }
        assert forall|p: Seq<Seq<u8>>| #![trigger after.dom().contains(p)]
            has_path(old, p) && !has_path(new, p) implies !after.dom().contains(p) by {
            if p == o.path {
                assert(!has_path(rest, p));
                assert(keeps(next, after, p));
            } else {
                assert(has_path(rest, p));
            }
        }
    }
}

/// An entry that is new: the rest of the diff can be applied once it has been
/// added, and leads where the whole diff does.
proof fn lemma_case_added(
    state: Map<Seq<Seq<u8>>, EntryModel>,
    old: Seq<EntryModel>,
    new: Seq<EntryModel>,
    after: Map<Seq<Seq<u8>>, EntryModel>,
)
    requires
        is_ready(state, old, new),
        new.len() > 0,
        old.len() == 0 || order::path_lt(new[0].path, old[0].path),
    ensures
        is_ready(state.insert(new[0].path, new[0]), old, new.drop_first()),
        leads_to(state.insert(new[0].path, new[0]), old, new.drop_first(), after) ==> leads_to(
            state,
            old,
            new,
            after,
        ),
{
    let n = new[0];
    let rest = new.drop_first();
    let next = state.insert(n.path, n);
    lemma_rest_is_sorted(new);
    lemma_expressible_rest(old, new, old, rest);
    if old.len() > 0 {
        lemma_first_is_least(old, n.path);
    }
    assert(!has_path(old, n.path));
    assert forall|i: int| 0 <= i < old.len() implies next.dom().contains((#[trigger] old[i]).path)
        && next[old[i].path] == old[i] by {
        assert(has_path(old, old[i].path));
        assert(old[i].path != n.path);
    }
    assert forall|p: Seq<Seq<u8>>| #[trigger]
        next.dom().contains(p) && has_path(rest, p) implies has_path(old, p) by {
        assert(p != n.path);
        assert(has_path(new, p));
        assert(state.dom().contains(p));
    }
    if leads_to(next, old, rest, after) {
        assert(!has_path(rest, n.path));
        assert(after.dom().contains(n.path) || !after.dom().contains(n.path));
        assert(keeps(next, after, n.path));
        assert forall|j: int| 0 <= j < new.len() implies has_state(after, #[trigger] new[j]) by {
            if j > 0 {
                assert(has_state(after, rest[j - 1]));
            }
        }
        assert forall|p: Seq<Seq<u8>>| #![trigger after.dom().contains(p)]
            !has_path(old, p) && !has_path(new, p) implies keeps(state, after, p) by {
            assert(!has_path(rest, p) && p != n.path);
            assert(keeps(next, after, p));
        }
        assert forall|p: Seq<Seq<u8>>| #![trigger after.dom().contains(p)]
            has_path(old, p) && !has_path(new, p) implies !after.dom().contains(p) by {
            assert(!has_path(rest, p));
        }
    }
}

/// An entry that was there before: the rest of the diff can be applied once its
/// path has the new state, and leads where the whole diff does.
proof fn lemma_case_both(
    state: Map<Seq<Seq<u8>>, EntryModel>,
    next: Map<Seq<Seq<u8>>, EntryModel>,
    old: Seq<EntryModel>,
    new: Seq<EntryModel>,
    after: Map<Seq<Seq<u8>>, EntryModel>,
)
    requires
        is_ready(state, old, new),
        old.len() > 0,
        new.len() > 0,
        old[0].path == new[0].path,
        has_state(next, new[0]),
        forall|p: Seq<Seq<u8>>| #![trigger next.dom().contains(p)]
            p != new[0].path ==> keeps(state, next, p),
    ensures
        is_ready(next, old.drop_first(), new.drop_first()),
        leads_to(next, old.drop_first(), new.drop_first(), after) ==> leads_to(
            state,
            old,
            new,
            after,
        ),
{
    let n = new[0];
    let olds = old.drop_first();
    let news = new.drop_first();
    lemma_rest_is_sorted(old);
    lemma_rest_is_sorted(new);
    lemma_holds_rest(state, next, old);
    lemma_expressible_rest(old, new, olds, news);
    assert forall|p: Seq<Seq<u8>>| #[trigger]
        next.dom().contains(p) && has_path(news, p) implies has_path(olds, p) by {
        assert(p != n.path);
        assert(keeps(state, next, p));
        assert(has_path(new, p));
        assert(has_path(old, p));
    }
    if leads_to(next, olds, news, after) {
        assert(!has_path(olds, n.path) && !has_path(news, n.path));
        assert(after.dom().contains(n.path) || !after.dom().contains(n.path));
        assert(keeps(next, after, n.path));
        assert forall|j: int| 0 <= j < new.len() implies has_state(after, #[trigger] new[j]) by {
            if j > 0 {
                assert(has_state(after, news[j - 1]));
            }
        }
        assert forall|p: Seq<Seq<u8>>| #![trigger after.dom().contains(p)]
            !has_path(old, p) && !has_path(new, p) implies keeps(state, after, p) by {
            assert(!has_path(olds, p) && !has_path(news, p) && p != n.path);
            assert(keeps(next, after, p));
            assert(next.dom().contains(p) || !next.dom().contains(p));
            assert(keeps(state, next, p));
        }
        assert forall|p: Seq<Seq<u8>>| #![trigger after.dom().contains(p)]
            has_path(old, p) && !has_path(new, p) implies !after.dom().contains(p) by {
            assert(p != n.path);
            assert(has_path(olds, p) && !has_path(news, p));
        }
    }
}

/// What applying a diff does to a state that it can be applied to.
proof fn lemma_diff_applies(
    state: Map<Seq<Seq<u8>>, EntryModel>,
    old: Seq<EntryModel>,
    new: Seq<EntryModel>,
)
    requires
        is_ready(state, old, new),
    ensures
        leads_to(state, old, new, simulate::after_changes(state, diff::diff_of(old, new))),
    decreases old.len() + new.len(),
{
    let after = simulate::after_changes(state, diff::diff_of(old, new));
    if old.len() == 0 && new.len() == 0 {
        assert(diff::diff_of(old, new) =~= Seq::<ChangeModel>::empty());
        assert(after == state);
    } else if new.len() == 0 || (old.len() > 0 && order::path_lt(old[0].path, new[0].path)) {
        let o = old[0];
        let rest = old.drop_first();
        lemma_changes_of_front(ItemModel::Removed(o), diff::joined_items(rest, new));
        law_changes_apply_in_parts(state, seq![diff::removal(o)], diff::diff_of(rest, new));
        lemma_single_change(state, diff::removal(o));
        lemma_case_removed(state, old, new, after);
        lemma_diff_applies(state.remove(o.path), rest, new);
    } else if old.len() == 0 || order::path_lt(new[0].path, old[0].path) {
        let n = new[0];
        let rest = new.drop_first();
        lemma_changes_of_front(ItemModel::Added(n), diff::joined_items(old, rest));
        law_changes_apply_in_parts(state, seq![diff::addition(n)], diff::diff_of(old, rest));
        lemma_single_change(state, diff::addition(n));
        lemma_case_added(state, old, new, after);
        lemma_diff_applies(state.insert(n.path, n), old, rest);
    } else {
        let o = old[0];
        let n = new[0];
        order::lemma_path_lt_total(o.path, n.path);
        let olds = old.drop_first();
        let news = new.drop_first();
        let item = ItemModel::Both { new: n, old: o };
        lemma_changes_of_front(item, diff::joined_items(olds, news));
        law_changes_apply_in_parts(state, diff::item_changes(item), diff::diff_of(olds, news));
        let next = simulate::after_changes(state, diff::item_changes(item));
        assert(is_expressible(old[0], new[0]));
        lemma_both(state, o, n);
        lemma_case_both(state, next, old, new, after);
        lemma_diff_applies(next, olds, news);
    }
}

proof fn lemma_single_change(state: Map<Seq<Seq<u8>>, EntryModel>, c: ChangeModel)
    ensures
        simulate::after_changes(state, seq![c]) == simulate::after_change(state, c),
{
    let one = seq![c];
    let none = Seq::<ChangeModel>::empty();
    assert(one.drop_last() =~= none);
    assert(simulate::after_changes(state, none) == state);
    assert(one.last() == c);
}

/// What the changes for an entry that was there before do.
proof fn lemma_both(state: Map<Seq<Seq<u8>>, EntryModel>, o: EntryModel, n: EntryModel)
    requires
        o.path == n.path,
        is_expressible(o, n),
        state.dom().contains(o.path),
        state[o.path] == o,
    ensures
        ({
            let next = simulate::after_changes(
                state,
                diff::item_changes(ItemModel::Both { new: n, old: o }),
            );
            &&& has_state(next, n)
            &&& forall|p: Seq<Seq<u8>>| #![trigger next.dom().contains(p)]
                p != n.path ==> keeps(state, next, p)
        }),
{
    let cs = diff::item_changes(ItemModel::Both { new: n, old: o });
    if n.kind != o.kind {
        let a = seq![diff::removal(o)];
        let b = seq![diff::addition(n)];
        assert(cs =~= a + b);
        law_changes_apply_in_parts(state, a, b);
        lemma_single_change(state, diff::removal(o));
        lemma_single_change(state.remove(o.path), diff::addition(n));
    } else {
        lemma_modification(o, n);
        match diff::entry_change(o, n) {
            Some(c) => {
                lemma_single_change(state, c);
            },
            None => {
                assert(cs =~= Seq::<ChangeModel>::empty());
            },
        }
    }
}

proof fn lemma_entries_by_path(es: Seq<EntryModel>)
    requires
        diff::sorted_by_path(es),
    ensures
        holds(path_map::entries_by_path(es), es),
        forall|p: Seq<Seq<u8>>| #[trigger]
            path_map::entries_by_path(es).dom().contains(p) <==> has_path(es, p),
    decreases es.len(),
{
    let m = path_map::entries_by_path(es);
    if es.len() > 0 {
        let front = es.drop_last();
        let last = es.last();
        assert forall|i: int, j: int| 0 <= i < j < front.len() implies order::path_lt(
            (#[trigger] front[i]).path,
            (#[trigger] front[j]).path,
        ) by {
            assert(front[i] == es[i] && front[j] == es[j]);
        }
        lemma_entries_by_path(front);
        assert forall|i: int| 0 <= i < es.len() implies m.dom().contains((#[trigger] es[i]).path)
            && m[es[i].path] == es[i] by {
            if i < front.len() {
                assert(front[i] == es[i]);
                order::lemma_path_lt_irreflexive(last.path);
                assert(es[es.len() - 1] == last);
            }
        }
        assert forall|p: Seq<Seq<u8>>| #[trigger] m.dom().contains(p) <==> has_path(es, p) by {
            if has_path(front, p) {
                let i = choose|i: int| 0 <= i < front.len() && (#[trigger] front[i]).path == p;
                assert(es[i].path == p);
            }
            if has_path(es, p) {
                let i = choose|i: int| 0 <= i < es.len() && (#[trigger] es[i]).path == p;
                if i < front.len() {
                    assert(front[i].path == p);
                }
            }
            if p == last.path {
                assert(es[es.len() - 1].path == p);
            }
        }
    }
}

/// Applying the diff between two states to the old one leads to the new one: it
/// has the same paths, and the same state at each. So verifying such a diff
/// against the new state finds nothing.
pub proof fn law_a_diff_leads_to_the_new_state(
    old: Seq<EntryModel>,
    new: Seq<EntryModel>,
    left_alone: Set<Seq<Seq<u8>>>,
)
    requires
        diff::sorted_by_path(old),
        diff::sorted_by_path(new),
        are_expressible(old, new),
    ensures
        ({
            let after = simulate::after_changes(
                path_map::entries_by_path(old),
                diff::diff_of(old, new),
            );
            let target = path_map::entries_by_path(new);
            &&& after.dom() == target.dom()
            &&& forall|p: Seq<Seq<u8>>| #[trigger]
                target.dom().contains(p) ==> diff::same_state(after[p], target[p])
            &&& verify::conforms(after, target, left_alone)
        }),
{
    let state = path_map::entries_by_path(old);
    let after = simulate::after_changes(state, diff::diff_of(old, new));
    let target = path_map::entries_by_path(new);
    lemma_entries_by_path(old);
    lemma_entries_by_path(new);
    assert(is_ready(state, old, new));
    lemma_diff_applies(state, old, new);
    assert forall|p: Seq<Seq<u8>>| after.dom().contains(p) == target.dom().contains(p) by {
        if has_path(new, p) {
            let j = choose|j: int| 0 <= j < new.len() && (#[trigger] new[j]).path == p;
            assert(has_state(after, new[j]));
        } else if !has_path(old, p) {
            assert(after.dom().contains(p) || !after.dom().contains(p));
            assert(keeps(state, after, p));
        }
    }
    assert(after.dom() =~= target.dom());
    assert forall|p: Seq<Seq<u8>>| #[trigger] target.dom().contains(p) implies diff::same_state(
        after[p],
        target[p],
    ) by {
        let j = choose|j: int| 0 <= j < new.len() && (#[trigger] new[j]).path == p;
        assert(target[new[j].path] == new[j]);
        assert(has_state(after, new[j]));
    }
}

/// The changes of a diff one item at a time: what holds of the changes of the
/// first item and of those of the rest holds of all.
proof fn lemma_changes_split(item: ItemModel, rest: Seq<ItemModel>, k: int)
    requires
        0 <= k < diff::changes_of(seq![item] + rest).len(),
    ensures
        ({
            let all = diff::changes_of(seq![item] + rest);
            let first = diff::item_changes(item);
            if k < first.len() {
                all[k] == first[k]
            } else {
                0 <= k - first.len() < diff::changes_of(rest).len() && all[k] == diff::changes_of(
                    rest,
                )[k - first.len()]
            }
        }),
{
    lemma_changes_of_front(item, rest);
}

/// A diff is minimal: every change in it is of a path that occurs in the old or
/// the new state, and none is of a path that has the same state in both.
pub proof fn law_a_diff_is_minimal(old: Seq<EntryModel>, new: Seq<EntryModel>)
    requires
        diff::sorted_by_path(old),
        diff::sorted_by_path(new),
    ensures
        forall|k: int|
            0 <= k < diff::diff_of(old, new).len() ==> {
                let p = (#[trigger] diff::diff_of(old, new)[k]).path;
                &&& has_path(old, p) || has_path(new, p)
                &&& forall|i: int, j: int|
                    0 <= i < old.len() && 0 <= j < new.len() && (#[trigger] old[i]).path == p && (
                    #[trigger] new[j]).path == p ==> !diff::same_state(old[i], new[j])
            },
    decreases old.len() + new.len(),
{
    let all = diff::diff_of(old, new);
    if old.len() == 0 && new.len() == 0 {
        assert(all =~= Seq::<ChangeModel>::empty());
    } else {
        let (item, olds, news) = if new.len() == 0 || (old.len() > 0 && order::path_lt(
            old[0].path,
            new[0].path,
        )) {
            (ItemModel::Removed(old[0]), old.drop_first(), new)
        } else if old.len() == 0 || order::path_lt(new[0].path, old[0].path) {
            (ItemModel::Added(new[0]), old, new.drop_first())
        } else {
            order::lemma_path_lt_total(old[0].path, new[0].path);
            (
                ItemModel::Both { new: new[0], old: old[0] },
                old.drop_first(),
                new.drop_first(),
            )
        };
        if old.len() > 0 {
            lemma_rest_is_sorted(old);
        }
        if new.len() > 0 {
            lemma_rest_is_sorted(new);
        }
        if item is Removed && new.len() > 0 {
            lemma_first_is_least(new, old[0].path);
        }
        if item is Added && old.len() > 0 {
            lemma_first_is_least(old, new[0].path);
        }
        law_a_diff_is_minimal(olds, news);
        let first = diff::item_changes(item);
        let rest = diff::diff_of(olds, news);
        assert forall|k: int| 0 <= k < all.len() implies {
            let p = (#[trigger] all[k]).path;
            &&& has_path(old, p) || has_path(new, p)
            &&& forall|i: int, j: int|
                0 <= i < old.len() && 0 <= j < new.len() && (#[trigger] old[i]).path == p && (
                #[trigger] new[j]).path == p ==> !diff::same_state(old[i], new[j])
        } by {
            lemma_changes_split(item, diff::joined_items(olds, news), k);
            let p = all[k].path;
            if k < first.len() {
                if old.len() > 0 && p == old[0].path {
                    assert(has_path(old, p));
                }
                if new.len() > 0 && p == new[0].path {
                    assert(has_path(new, p));
                }
                assert forall|i: int, j: int|
                    0 <= i < old.len() && 0 <= j < new.len() && (#[trigger] old[i]).path == p && (
                    #[trigger] new[j]).path == p implies !diff::same_state(old[i], new[j]) by {
                    assert(has_path(old, p) && has_path(new, p));
                    if i > 0 {
                        assert(old.drop_first()[i - 1].path == p);
                    }
                    if j > 0 {
                        assert(new.drop_first()[j - 1].path == p);
                    }
                }
            } else {
                assert(rest[k - first.len()].path == p);
                assert forall|i: int, j: int|
                    0 <= i < old.len() && 0 <= j < new.len() && (#[trigger] old[i]).path == p && (
                    #[trigger] new[j]).path == p implies !diff::same_state(old[i], new[j]) by {
                    assert(has_path(old, p) && has_path(new, p));
                    if olds.len() < old.len() {
                        if i == 0 {
                            assert(!has_path(olds, p));
                            assert(has_path(news, p));
                        } else {
                            assert(olds[i - 1] == old[i]);
                        }
                    }
                    if news.len() < new.len() {
                        if j == 0 {
                            assert(!has_path(news, p));
                            assert(has_path(olds, p));
                        } else {
                            assert(news[j - 1] == new[j]);
                        }
                    }
                    let a = if olds.len() < old.len() {
                        i - 1
                    } else {
                        i
                    };
                    let b = if news.len() < new.len() {
                        j - 1
                    } else {
                        j
                    };
                    assert(olds[a] == old[i] && news[b] == new[j]);
                }
            }
        }
    }
}

} // verus!
