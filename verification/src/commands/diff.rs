//! Computing the changes between two states of a tree.

use crate::model::diff;
use crate::model::diff::{AddedEntry, Change, ChangeKind, ChangeModel, KindModel, ModifiedEntry};
use crate::model::entry;
use crate::model::entry::{Entry, EntryKind, EntryModel, Metadata};
use crate::order;
use crate::order::Rank;
use vstd::prelude::*;

verus! {

/// Whether the paths of a list of entries stand in their order, each one once.
pub open spec fn sorted_by_path(es: Seq<EntryModel>) -> bool {
    forall|i: int, j: int|
        0 <= i < j < es.len() ==> order::path_lt((#[trigger] es[i]).path, (#[trigger] es[j]).path)
}

/// Whether two entries describe the same state, as far as `diff` and `verify`
/// look.
pub open spec fn same_state(a: EntryModel, b: EntryModel) -> bool {
    &&& a.kind == b.kind
    &&& a.metadata.agrees(b.metadata)
    &&& a.hash == b.hash
    &&& a.symlink_target == b.symlink_target
}

/// The change that makes an entry of the same kind out of another, if they
/// differ.
pub open spec fn entry_change(old: EntryModel, new: EntryModel) -> Option<ChangeModel> {
    let metadata_changed = !old.metadata.agrees(new.metadata);
    let hash_changed = old.hash != new.hash;
    let target_changed = old.symlink_target != new.symlink_target;
    if !metadata_changed && !hash_changed && !target_changed {
        None
    } else {
        let has_content = hash_changed && new.kind == EntryKind::File;
        Some(
            ChangeModel {
                path: new.path,
                kind: KindModel::Modified {
                    new_metadata: if metadata_changed || has_content {
                        Some(new.metadata)
                    } else {
                        None
                    },
                    new_hash: if hash_changed {
                        new.hash
                    } else {
                        None
                    },
                    has_content,
                    new_symlink_target: if target_changed {
                        new.symlink_target
                    } else {
                        None
                    },
                },
            },
        )
    }
}

/// The change that removes an entry.
pub open spec fn removal(e: EntryModel) -> ChangeModel {
    ChangeModel { path: e.path, kind: KindModel::Removed(e.kind) }
}

/// The change that adds an entry. Files come with their content.
pub open spec fn addition(e: EntryModel) -> ChangeModel {
    ChangeModel {
        path: e.path,
        kind: KindModel::Added { entry: e, has_content: e.kind == EntryKind::File },
    }
}

/// What comes out of joining the old and the new state of a tree by path.
#[derive(Debug)]
pub enum WalkItem {
    /// An entry that is new.
    Added(Entry),
    /// An entry that was there before.
    Both { new: Entry, old: Entry },
    /// An entry that is gone.
    Removed(Entry),
}

/// What a [`WalkItem`] says.
#[verifier::ext_equal]
pub enum ItemModel {
    Added(EntryModel),
    Both { new: EntryModel, old: EntryModel },
    Removed(EntryModel),
}

impl View for WalkItem {
    type V = ItemModel;

    open spec fn view(&self) -> ItemModel {
        match self {
            WalkItem::Added(e) => ItemModel::Added(e@),
            WalkItem::Both { new, old } => ItemModel::Both { new: new@, old: old@ },
            WalkItem::Removed(e) => ItemModel::Removed(e@),
        }
    }
}

/// What the items of a list say.
pub open spec fn item_views(v: Seq<WalkItem>) -> Seq<ItemModel> {
    v.map_values(|i: WalkItem| i@)
}

/// The changes that one item stands for.
pub open spec fn item_changes(item: ItemModel) -> Seq<ChangeModel> {
    match item {
        ItemModel::Added(new) => seq![addition(new)],
        ItemModel::Both { new, old } => if new.kind != old.kind {
            seq![removal(old), addition(new)]
        } else {
            match entry_change(old, new) {
                Some(c) => seq![c],
                None => Seq::empty(),
            }
        },
        ItemModel::Removed(old) => seq![removal(old)],
    }
}

/// The changes that some items stand for, in order.
pub open spec fn changes_of(items: Seq<ItemModel>) -> Seq<ChangeModel>
    decreases items.len(),
{
    if items.len() == 0 {
        Seq::empty()
    } else {
        changes_of(items.drop_last()) + item_changes(items.last())
    }
}

/// Old and new entries joined by path, in the order of paths.
pub open spec fn joined_items(old: Seq<EntryModel>, new: Seq<EntryModel>) -> Seq<ItemModel>
    decreases old.len() + new.len(),
{
    if old.len() == 0 && new.len() == 0 {
        Seq::empty()
    } else if new.len() == 0 || (old.len() > 0 && order::path_lt(old[0].path, new[0].path)) {
        seq![ItemModel::Removed(old[0])] + joined_items(old.drop_first(), new)
    } else if old.len() == 0 || order::path_lt(new[0].path, old[0].path) {
        seq![ItemModel::Added(new[0])] + joined_items(old, new.drop_first())
    } else {
        seq![ItemModel::Both { new: new[0], old: old[0] }] + joined_items(
            old.drop_first(),
            new.drop_first(),
        )
    }
}

/// The changes from the old entries to the new ones.
pub open spec fn diff_of(old: Seq<EntryModel>, new: Seq<EntryModel>) -> Seq<ChangeModel> {
    changes_of(joined_items(old, new))
}

/// How many of some changes add an entry.
pub open spec fn count_added(cs: Seq<ChangeModel>) -> nat {
    cs.filter(|c: ChangeModel| c.kind is Added).len()
}

/// How many of some changes modify an entry.
pub open spec fn count_modified(cs: Seq<ChangeModel>) -> nat {
    cs.filter(|c: ChangeModel| c.kind is Modified).len()
}

/// How many of some changes remove an entry.
pub open spec fn count_removed(cs: Seq<ChangeModel>) -> nat {
    cs.filter(|c: ChangeModel| c.kind is Removed).len()
}

/// How many of some items have a new entry.
pub open spec fn count_new(items: Seq<ItemModel>) -> nat {
    items.filter(|i: ItemModel| !(i is Removed)).len()
}

/// Compares two entries of the same kind and gives a change if they differ.
pub fn compute_entry_diff(old: &Entry, new: &Entry) -> (r: Option<Change>)
    requires
        old.kind == new.kind,
    ensures
        match r {
            Some(c) => entry_change(old@, new@) == Some(c@),
            None => entry_change(old@, new@) is None,
        },
{
    let metadata_changed = !old.metadata.matches(&new.metadata);
    let hash_changed = !entry::same_hash(&old.hash, &new.hash);
    let symlink_target_changed = !entry::same_target(&old.symlink_target, &new.symlink_target);
    if !metadata_changed && !hash_changed && !symlink_target_changed {
        return None;
    }
    let has_content = hash_changed && new.kind == EntryKind::File;
    let modified = ModifiedEntry {
        // Metadata always comes with content: its size says which content bytes
        // belong to the change.
        new_metadata: if metadata_changed || has_content {
            Some(new.metadata)
        } else {
            None
        },
        new_hash: if hash_changed {
            new.hash
        } else {
            None
        },
        has_content,
        new_symlink_target: if symlink_target_changed {
            entry::copy_target(&new.symlink_target)
        } else {
            None
        },
    };
    Some(Change { path: new.path.clone(), kind: ChangeKind::Modified(modified) })
}

/// The change that removes an entry.
pub fn build_removed_change(entry: &Entry) -> (r: Change)
    ensures
        r@ == removal(entry@),
{
    Change { path: entry.path.clone(), kind: ChangeKind::Removed(entry.kind) }
}

/// The change that adds an entry.
pub fn build_added_change(entry: &Entry) -> (r: Change)
    ensures
        r@ == addition(entry@),
{
    Change {
        path: entry.path.clone(),
        kind: ChangeKind::Added(
            AddedEntry { entry: entry.clone(), has_content: entry.kind == EntryKind::File },
        ),
    }
}

/// The changes found so far, and what they count up to.
#[derive(Debug)]
pub struct DiffResult {
    pub changes: Vec<Change>,
    pub added: usize,
    pub modified: usize,
    pub removed: usize,
    /// How many entries the new snapshot has.
    pub snapshot_entries: u64,
}

impl DiffResult {
    /// The counts are those of the changes.
    pub open spec fn wf(&self) -> bool {
        let cs = diff::change_views(self.changes@);
        &&& self.added == count_added(cs)
        &&& self.modified == count_modified(cs)
        &&& self.removed == count_removed(cs)
        &&& self.added + self.modified + self.removed == cs.len()
    }

    /// No changes.
    pub fn new() -> (r: Self)
        ensures
            r.wf(),
            r.changes@.len() == 0,
            r.snapshot_entries == 0,
    {
        let r = DiffResult {
            changes: Vec::new(),
            added: 0,
            modified: 0,
            removed: 0,
            snapshot_entries: 0,
        };
        proof {
            let cs = diff::change_views(r.changes@);
            assert(cs =~= Seq::empty());
            reveal_with_fuel(Seq::filter, 1);
        }
        r
    }

    fn push(&mut self, change: Change)
        requires
            old(self).wf(),
        ensures
            final(self).wf(),
            diff::change_views(final(self).changes@) == diff::change_views(
                old(self).changes@,
            ).push(change@),
            final(self).snapshot_entries == old(self).snapshot_entries,
    {
        let ghost cs = diff::change_views(self.changes@);
        let ghost c = change@;
        let which: u8 = match &change.kind {
            ChangeKind::Added(_) => 0,
            ChangeKind::Modified(_) => 1,
            ChangeKind::Removed(_) => 2,
        };
        self.changes.push(change);
        proof {
            let after = diff::change_views(self.changes@);
            assert(after =~= cs.push(c));
            lemma_filter_push(cs, c, |c: ChangeModel| c.kind is Added);
            lemma_filter_push(cs, c, |c: ChangeModel| c.kind is Modified);
            lemma_filter_push(cs, c, |c: ChangeModel| c.kind is Removed);
            assert(self.changes.len() == after.len());
        }
        if which == 0 {
            self.added = self.added + 1;
        } else if which == 1 {
            self.modified = self.modified + 1;
        } else {
            self.removed = self.removed + 1;
        }
    }

    /// Adds the changes that one item stands for.
    pub fn absorb(&mut self, item: &WalkItem)
        requires
            old(self).wf(),
            old(self).snapshot_entries < u64::MAX,
        ensures
            final(self).wf(),
            diff::change_views(final(self).changes@) == diff::change_views(old(self).changes@)
                + item_changes(item@),
            final(self).snapshot_entries == old(self).snapshot_entries + if item@ is Removed {
                0int
            } else {
                1int
            },
    {
        let ghost cs = diff::change_views(self.changes@);
        match item {
            WalkItem::Added(new) => {
                self.snapshot_entries = self.snapshot_entries + 1;
                self.push(build_added_change(new));
                assert(cs.push(addition(new@)) =~= cs + item_changes(item@));
            },
            WalkItem::Both { new, old } => {
                self.snapshot_entries = self.snapshot_entries + 1;
                if new.kind != old.kind {
                    self.push(build_removed_change(old));
                    self.push(build_added_change(new));
                    assert(cs.push(removal(old@)).push(addition(new@)) =~= cs + item_changes(
                        item@,
                    ));
                } else {
                    match compute_entry_diff(old, new) {
                        Some(change) => {
                            let ghost c = change@;
                            self.push(change);
                            assert(cs.push(c) =~= cs + item_changes(item@));
                        },
                        None => {
                            assert(cs =~= cs + item_changes(item@));
                        },
                    }
                }
            },
            WalkItem::Removed(old) => {
                self.push(build_removed_change(old));
                assert(cs.push(removal(old@)) =~= cs + item_changes(item@));
            },
        }
    }
}

/// Filtering with one more element behind.
proof fn lemma_filter_push<T>(s: Seq<T>, x: T, f: spec_fn(T) -> bool)
    ensures
        s.push(x).filter(f) == if f(x) {
            s.filter(f).push(x)
        } else {
            s.filter(f)
        },
{
    reveal(Seq::filter);
    assert(s.push(x).drop_last() =~= s);
}

/// Classifies each item as a change, and counts.
pub fn compute_changes(items: &Vec<WalkItem>) -> (r: DiffResult)
    ensures
        r.wf(),
        diff::change_views(r.changes@) == changes_of(item_views(items@)),
        r.snapshot_entries == count_new(item_views(items@)),
{
    let mut result = DiffResult::new();
    let ghost all = item_views(items@);
    let mut i: usize = 0;
    proof {
        assert(all.take(0) =~= Seq::empty());
        assert(diff::change_views(result.changes@) =~= Seq::empty());
        reveal(Seq::filter);
        assert(count_new(all.take(0)) == 0);
    }
    while i < items.len()
        invariant
            i <= items@.len(),
            all == item_views(items@),
            result.wf(),
            diff::change_views(result.changes@) == changes_of(all.take(i as int)),
            result.snapshot_entries == count_new(all.take(i as int)),
            count_new(all.take(i as int)) <= i,
        decreases items@.len() - i,
    {
        proof {
            let upto = all.take(i + 1);
            assert(upto =~= all.take(i as int).push(all[i as int]));
            assert(upto.drop_last() =~= all.take(i as int));
            lemma_filter_push(all.take(i as int), all[i as int], |i: ItemModel| !(i is Removed));
        }
        result.absorb(&items[i]);
        i = i + 1;
    }
    assert(all.take(i as int) =~= all);
    result
}

/// Which side of a join comes next.
#[derive(Clone, Copy, Debug, PartialEq, Eq, Structural)]
pub enum JoinStep {
    /// The old entry has no counterpart.
    TakeOld,
    /// The new entry has no counterpart.
    TakeNew,
    /// The two entries have the same path.
    TakeBoth,
    /// There are no more entries.
    Done,
}

/// Which side of a join comes next, given the next entry on each side.
pub fn join_step(old: Option<&Entry>, new: Option<&Entry>) -> (r: JoinStep)
    ensures
        r == match (old, new) {
            (None, None) => JoinStep::Done,
            (Some(_), None) => JoinStep::TakeOld,
            (None, Some(_)) => JoinStep::TakeNew,
            (Some(o), Some(n)) => if order::path_lt(o.path@, n.path@) {
                JoinStep::TakeOld
            } else if order::path_lt(n.path@, o.path@) {
                JoinStep::TakeNew
            } else {
                JoinStep::TakeBoth
            },
        },
{
    match (old, new) {
        (None, None) => JoinStep::Done,
        (Some(_), None) => JoinStep::TakeOld,
        (None, Some(_)) => JoinStep::TakeNew,
        (Some(o), Some(n)) => {
            proof {
                order::lemma_path_lt_exclusive(o.path@, n.path@);
                order::lemma_path_lt_irreflexive(o.path@);
            }
            match o.path.rank(&n.path) {
                Rank::Less => JoinStep::TakeOld,
                Rank::Greater => JoinStep::TakeNew,
                Rank::Equal => JoinStep::TakeBoth,
            }
        },
    }
}

/// Joins the old and the new entries of a tree by path.
pub fn join_entries(old_entries: &Vec<Entry>, new_entries: &Vec<Entry>) -> (r: Vec<WalkItem>)
    ensures
        item_views(r@) == joined_items(
            entry::entry_views(old_entries@),
            entry::entry_views(new_entries@),
        ),
{
    let ghost olds = entry::entry_views(old_entries@);
    let ghost news = entry::entry_views(new_entries@);
    let mut r: Vec<WalkItem> = Vec::new();
    let mut i: usize = 0;
    let mut j: usize = 0;
    proof {
        assert(olds.skip(0) =~= olds);
        assert(news.skip(0) =~= news);
        assert(item_views(r@) =~= Seq::empty());
        assert(item_views(r@) + joined_items(olds, news) =~= joined_items(olds, news));
    }
    loop
        invariant
            i <= old_entries@.len(),
            j <= new_entries@.len(),
            olds == entry::entry_views(old_entries@),
            news == entry::entry_views(new_entries@),
            item_views(r@) + joined_items(olds.skip(i as int), news.skip(j as int))
                == joined_items(olds, news),
        decreases old_entries@.len() - i + new_entries@.len() - j,
    {
        let ghost a = olds.skip(i as int);
        let ghost b = news.skip(j as int);
        let ghost before = r@;
        let old: Option<&Entry> = if i < old_entries.len() {
            Some(&old_entries[i])
        } else {
            None
        };
        let new: Option<&Entry> = if j < new_entries.len() {
            Some(&new_entries[j])
        } else {
            None
        };
        proof {
            if i < old_entries@.len() {
                assert(a[0] == old_entries@[i as int]@);
                assert(a.drop_first() =~= olds.skip(i + 1));
            }
            if j < new_entries@.len() {
                assert(b[0] == new_entries@[j as int]@);
                assert(b.drop_first() =~= news.skip(j + 1));
            }
        }
        match join_step(old, new) {
            JoinStep::Done => {
                assert(item_views(r@) + Seq::<ItemModel>::empty() =~= item_views(r@));
                return r;
            },
            JoinStep::TakeOld => {
                r.push(WalkItem::Removed(old_entries[i].clone()));
                i = i + 1;
            },
            JoinStep::TakeNew => {
                r.push(WalkItem::Added(new_entries[j].clone()));
                j = j + 1;
            },
            JoinStep::TakeBoth => {
                r.push(
                    WalkItem::Both { new: new_entries[j].clone(), old: old_entries[i].clone() },
                );
                i = i + 1;
                j = j + 1;
            },
        }
        proof {
            let item = r@.last()@;
            assert(item_views(r@) =~= item_views(before).push(item));
            assert(item_views(before) + joined_items(a, b) =~= item_views(r@) + joined_items(
                olds.skip(i as int),
                news.skip(j as int),
            ));
        }
    }
}

/// The changes from the old entries of a tree to its new ones, by a merge-join
/// of two lists in the order of paths.
pub fn compute_diff(old_entries: &Vec<Entry>, new_entries: &Vec<Entry>) -> (r: Vec<Change>)
    ensures
        diff::change_views(r@) == diff_of(
            entry::entry_views(old_entries@),
            entry::entry_views(new_entries@),
        ),
{
    let items = join_entries(old_entries, new_entries);
    let result = compute_changes(&items);
    result.changes
}

/// The full paths of the files whose content comes with some changes, in the
/// order of the changes.
pub open spec fn content_paths_of(cs: Seq<ChangeModel>, root: Seq<u8>) -> Seq<Seq<u8>>
    decreases cs.len(),
{
    if cs.len() == 0 {
        Seq::empty()
    } else {
        let front = content_paths_of(cs.drop_last(), root);
        if cs.last().has_content() {
            front.push(
                crate::model::path::as_prefix(root) + crate::model::path::joined(cs.last().path),
            )
        } else {
            front
        }
    }
}

/// The full paths of the files whose content comes with some changes.
pub fn content_paths(changes: &Vec<Change>, root_dir: &[u8]) -> (r: Vec<Vec<u8>>)
    ensures
        order::views(r@) == content_paths_of(diff::change_views(changes@), root_dir@),
{
    let ghost cs = diff::change_views(changes@);
    let mut r: Vec<Vec<u8>> = Vec::new();
    let mut i: usize = 0;
    proof {
        assert(cs.take(0) =~= Seq::empty());
        assert(order::views(r@) =~= Seq::empty());
    }
    while i < changes.len()
        invariant
            i <= changes@.len(),
            cs == diff::change_views(changes@),
            order::views(r@) == content_paths_of(cs.take(i as int), root_dir@),
        decreases changes@.len() - i,
    {
        proof {
            let upto = cs.take(i + 1);
            assert(upto.drop_last() =~= cs.take(i as int));
            assert(upto.last() == cs[i as int]);
        }
        if changes[i].has_content() {
            let p = changes[i].path.to_full_path(root_dir);
            assert(order::views(r@.push(p)) =~= order::views(r@).push(p@));
            r.push(p);
        }
        i = i + 1;
    }
    assert(cs.take(i as int) =~= cs);
    r
}

} // verus!
