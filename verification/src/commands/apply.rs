//! Applying a diff: what is done to which path, in which order, and how it is
//! counted.

use crate::commands::simulate;
use crate::error::{FormatProblem, GappedError};
use crate::format::filter;
use crate::format::filter::{FilterModel, Pick, RecordFilter, Selection};
use crate::format::header::RecordType;
use crate::format::reader;
use crate::format::reader::{FormatReader, ReaderModel, Step};
use crate::fs::metadata::NodeType;
use crate::model::diff;
use crate::model::diff::{Change, ChangeKind, ChangeModel, KindModel};
use crate::model::entry;
use crate::model::entry::{EntryKind, EntryModel, Metadata};
use crate::model::path;
use crate::model::path::RelativePath;
use crate::model::path_map::PathSet;
use crate::order;
use crate::sort;
use crate::sort::{DeepestFirst, ShallowestFirst, SortKey};
use vstd::prelude::*;

verus! {

/// Changes are picked up to the first file content.
pub open spec fn change_selection() -> Selection {
    Selection { wanted: RecordType::DiffChange, stop_at: Some(RecordType::FileContent) }
}

/// Reads the changes at the front of a file of a diff.
pub struct MetadataReader {
    records: RecordFilter,
}

impl View for MetadataReader {
    type V = FilterModel;

    closed spec fn view(&self) -> FilterModel {
        self.records@
    }
}

impl MetadataReader {
    /// Whether the decoder of a compressed file has failed.
    pub closed spec fn gave_up(&self) -> bool {
        self.records.gave_up()
    }

    /// What holds between any two steps. A stream is broken only where its
    /// decoder has failed.
    pub open spec fn wf(&self) -> bool {
        self.inv() && self@.reader.broken == self.gave_up()
    }

    pub closed spec fn inv(&self) -> bool {
        self.records.wf() && self.records.selection() == change_selection()
    }

    /// Reads the changes of a file whose header has been read.
    pub fn open(format_reader: FormatReader) -> (r: Self)
        requires
            format_reader.wf(),
            !format_reader@.finished,
        ensures
            r.wf(),
            r@ == (FilterModel { reader: format_reader@, awaiting: None, done: false }),
    {
        let selection = Selection {
            wanted: RecordType::DiffChange,
            stop_at: Some(RecordType::FileContent),
        };
        MetadataReader { records: RecordFilter::new(format_reader, selection) }
    }

    /// Feeds the next bytes of the file.
    pub fn feed(&mut self, data: &[u8])
        requires
            old(self).wf(),
        ensures
            final(self).wf(),
            final(self)@.awaiting == old(self)@.awaiting,
            final(self)@.done == old(self)@.done,
            reader::is_fed(old(self)@.reader, data@, final(self)@.reader),
    {
        self.records.feed(data);
    }

    /// Takes note that no more bytes will be fed.
    pub fn end_input(&mut self)
        requires
            old(self).wf(),
        ensures
            final(self).wf(),
            final(self)@ == (FilterModel {
                reader: (ReaderModel { ended: true, ..old(self)@.reader }),
                ..old(self)@
            }),
    {
        self.records.end_input();
    }
}

/// Reads the changes, as they are serialized, that are there in a file of a
/// diff. Ready once the first file content or the end of the file has been
/// reached.
pub fn parse_diff_metadata(metadata: &mut MetadataReader, changes: &mut Vec<Vec<u8>>) -> (r:
    Result<Step<()>, GappedError>)
    requires
        old(metadata).wf(),
    ensures
        final(metadata).wf(),
        ({
            let (after, picks, why) = filter::pick_run(old(metadata)@, change_selection());
            &&& final(metadata)@ == after
            &&& order::views(final(changes)@) == order::views(old(changes)@) + picks
            &&& match why {
                Pick::Done => r == Ok::<Step<()>, GappedError>(Step::Ready(())),
                Pick::BadChecksum { stored, actual } => r matches Err(e)
                    && e matches GappedError::ChecksumMismatch { expected, got } && expected@
                    == stored && got@ == actual,
                Pick::BadType(b) => r == Err::<Step<()>, GappedError>(
                    GappedError::InvalidFormat(FormatProblem::UnknownRecordType(b)),
                ),
                _ => after.reader.is_short(r),
            }
        }),
{
    metadata.records.drain(changes)
}

/// Whether a change removes something.
pub open spec fn removes() -> spec_fn(ChangeModel) -> bool {
    |c: ChangeModel| c.kind is Removed
}

/// Whether a change adds or modifies something.
pub open spec fn puts() -> spec_fn(ChangeModel) -> bool {
    |c: ChangeModel| !(c.kind is Removed)
}

/// Whether `r` holds the positions of the changes that are wanted, each once,
/// by depth, and in the order of the changes where the depths tie.
pub open spec fn is_by_depth(
    cs: Seq<ChangeModel>,
    wanted: spec_fn(ChangeModel) -> bool,
    deepest_first: bool,
    r: Seq<usize>,
) -> bool {
    &&& forall|k: int|
        0 <= k < r.len() ==> (#[trigger] r[k]) < cs.len() && wanted(cs[r[k] as int])
    &&& forall|x: usize| x < cs.len() && wanted(cs[x as int]) ==> #[trigger] r.contains(x)
    &&& forall|a: int, b: int|
        0 <= a < b < r.len() ==> comes_first(
            cs,
            deepest_first,
            #[trigger] r[a] as int,
            #[trigger] r[b] as int,
        )
}

/// Whether change `i` comes in front of change `j`.
pub open spec fn comes_first(cs: Seq<ChangeModel>, deepest_first: bool, i: int, j: int) -> bool {
    if cs[i].path.len() == cs[j].path.len() {
        i < j
    } else if deepest_first {
        cs[i].path.len() > cs[j].path.len()
    } else {
        cs[i].path.len() < cs[j].path.len()
    }
}

fn select(at: &Vec<usize>, positions: &Vec<usize>) -> (r: Vec<usize>)
    requires
        forall|k: int| 0 <= k < at@.len() ==> (#[trigger] at@[k]) < positions@.len(),
    ensures
        r@ == at@.map_values(|k: usize| positions@[k as int]),
{
    let mut r: Vec<usize> = Vec::new();
    let mut i: usize = 0;
    while i < at.len()
        invariant
            i <= at@.len(),
            forall|k: int| 0 <= k < at@.len() ==> (#[trigger] at@[k]) < positions@.len(),
            r@.len() == i,
            forall|k: int| 0 <= k < i ==> r@[k] == positions@[at@[k] as int],
        decreases at@.len() - i,
    {
        r.push(positions[at[i]]);
        i = i + 1;
    }
    assert(r@ =~= at@.map_values(|k: usize| positions@[k as int]));
    r
}

/// What sorting the selected positions by their depths gives.
proof fn lemma_by_depth<K: SortKey>(
    cs: Seq<ChangeModel>,
    wanted: spec_fn(ChangeModel) -> bool,
    deepest_first: bool,
    positions: Seq<usize>,
    keys: Seq<K>,
    at: Seq<usize>,
    r: Seq<usize>,
)
    requires
        forall|k: int|
            0 <= k < positions.len() ==> (#[trigger] positions[k]) < cs.len() && wanted(
                cs[positions[k] as int],
            ),
        forall|x: usize| x < cs.len() && wanted(cs[x as int]) ==> #[trigger] positions.contains(x),
        forall|a: int, b: int|
            0 <= a < b < positions.len() ==> (#[trigger] positions[a]) < (#[trigger] positions[b]),
        keys.len() == positions.len(),
        positions.len() <= usize::MAX,
        sort::is_stable_order(keys, at),
        r == at.map_values(|k: usize| positions[k as int]),
        forall|i: int, j: int|
            #![trigger keys[i].at_most(&keys[j])]
            0 <= i < keys.len() && 0 <= j < keys.len() ==> (keys[i].at_most(&keys[j]) <==> if deepest_first {
                cs[positions[i] as int].path.len() >= cs[positions[j] as int].path.len()
            } else {
                cs[positions[i] as int].path.len() <= cs[positions[j] as int].path.len()
            }),
    ensures
        is_by_depth(cs, wanted, deepest_first, r),
{
    assert forall|k: int| 0 <= k < r.len() implies (#[trigger] r[k]) < cs.len() && wanted(
        cs[r[k] as int],
    ) by {
        assert(r[k] == positions[at[k] as int]);
    }
    assert forall|x: usize| x < cs.len() && wanted(cs[x as int]) implies #[trigger] r.contains(
        x,
    ) by {
        assert(positions.contains(x));
        let p = choose|p: int| 0 <= p < positions.len() && positions[p] == x;
        assert(at.contains(p as usize));
        let k = choose|k: int| 0 <= k < at.len() && at[k] == p as usize;
        assert(r[k] == x);
    }
    assert forall|a: int, b: int| 0 <= a < b < r.len() implies comes_first(
        cs,
        deepest_first,
        #[trigger] r[a] as int,
        #[trigger] r[b] as int,
    ) by {
        let i = at[a] as int;
        let j = at[b] as int;
        assert(r[a] == positions[i] && r[b] == positions[j]);
        assert(sort::comes_before(keys, i, j));
        assert(keys[i].at_most(&keys[j]) || keys[j].at_most(&keys[i]));
    }
}

/// The removals, deepest first, so that a directory is empty when it is removed.
pub fn deletion_order(changes: &Vec<Change>) -> (r: Vec<usize>)
    ensures
        is_by_depth(diff::change_views(changes@), removes(), true, r@),
{
    let ghost cs = diff::change_views(changes@);
    let mut positions: Vec<usize> = Vec::new();
    let mut keys: Vec<DeepestFirst> = Vec::new();
    let mut i: usize = 0;
    while i < changes.len()
        invariant
            i <= changes@.len(),
            cs == diff::change_views(changes@),
            keys@.len() == positions@.len(),
            forall|k: int|
                0 <= k < positions@.len() ==> (#[trigger] positions@[k]) < i
                    && cs[positions@[k] as int].kind is Removed && keys@[k].0
                    == cs[positions@[k] as int].path.len(),
            forall|x: usize| x < i && cs[x as int].kind is Removed ==> #[trigger] positions@.contains(x),
            forall|a: int, b: int|
                0 <= a < b < positions@.len() ==> (#[trigger] positions@[a]) < (
                #[trigger] positions@[b]),
        decreases changes@.len() - i,
    {
        let change = &changes[i];
        assert(cs[i as int] == change@);
        let ghost before = positions@;
        if matches!(&change.kind, ChangeKind::Removed(_)) {
            positions.push(i);
            keys.push(DeepestFirst(change.path.depth()));
            proof {
                lemma_push_contains(before, i);
            }
        }
        i = i + 1;
    }
    let at = sort::stable_order(&keys);
    let r = select(&at, &positions);
    proof {
        assert(positions.len() == positions@.len());
        lemma_by_depth(
            cs,
            removes(),
            true,
            positions@,
            keys@,
            at@,
            r@,
        );
    }
    r
}

proof fn lemma_push_contains(s: Seq<usize>, x: usize)
    ensures
        s.push(x).contains(x),
        forall|y: usize| s.contains(y) ==> #[trigger] s.push(x).contains(y),
{
    assert(s.push(x)[s.len() as int] == x);
    assert forall|y: usize| s.contains(y) implies #[trigger] s.push(x).contains(y) by {
        let k = choose|k: int| 0 <= k < s.len() && s[k] == y;
        assert(s.push(x)[k] == y);
    }
}

/// The additions and modifications, shallowest first, so that a directory is
/// there when something is put into it.
pub fn addition_order(changes: &Vec<Change>) -> (r: Vec<usize>)
    ensures
        is_by_depth(diff::change_views(changes@), puts(), false, r@),
{
    let ghost cs = diff::change_views(changes@);
    let mut positions: Vec<usize> = Vec::new();
    let mut keys: Vec<ShallowestFirst> = Vec::new();
    let mut i: usize = 0;
    while i < changes.len()
        invariant
            i <= changes@.len(),
            cs == diff::change_views(changes@),
            keys@.len() == positions@.len(),
            forall|k: int|
                0 <= k < positions@.len() ==> (#[trigger] positions@[k]) < i
                    && !(cs[positions@[k] as int].kind is Removed) && keys@[k].0
                    == cs[positions@[k] as int].path.len(),
            forall|x: usize|
                x < i && !(cs[x as int].kind is Removed) ==> #[trigger] positions@.contains(x),
            forall|a: int, b: int|
                0 <= a < b < positions@.len() ==> (#[trigger] positions@[a]) < (
                #[trigger] positions@[b]),
        decreases changes@.len() - i,
    {
        let change = &changes[i];
        assert(cs[i as int] == change@);
        let ghost before = positions@;
        if !matches!(&change.kind, ChangeKind::Removed(_)) {
            positions.push(i);
            keys.push(ShallowestFirst(change.path.depth()));
            proof {
                lemma_push_contains(before, i);
            }
        }
        i = i + 1;
    }
    let at = sort::stable_order(&keys);
    let r = select(&at, &positions);
    proof {
        assert(positions.len() == positions@.len());
        lemma_by_depth(
            cs,
            puts(),
            false,
            positions@,
            keys@,
            at@,
            r@,
        );
    }
    r
}

/// The positions of directories, deepest first, in which their modification
/// times are set: setting one does not touch those set before.
pub fn restore_order(paths: &Vec<RelativePath>) -> (r: Vec<usize>)
    ensures
        r@.len() == paths@.len(),
        forall|k: int| 0 <= k < r@.len() ==> (#[trigger] r@[k]) < paths@.len(),
        forall|x: usize| x < paths@.len() ==> #[trigger] r@.contains(x),
        forall|a: int, b: int|
            0 <= a < b < r@.len() ==> {
                let i = #[trigger] r@[a] as int;
                let j = #[trigger] r@[b] as int;
                paths@[i]@.len() > paths@[j]@.len() || (paths@[i]@.len() == paths@[j]@.len() && i
                    < j)
            },
{
    let mut keys: Vec<DeepestFirst> = Vec::new();
    let mut i: usize = 0;
    while i < paths.len()
        invariant
            i <= paths@.len(),
            keys@.len() == i,
            forall|k: int| 0 <= k < i ==> (#[trigger] keys@[k]).0 == paths@[k]@.len(),
        decreases paths@.len() - i,
    {
        keys.push(DeepestFirst(paths[i].depth()));
        i = i + 1;
    }
    let r = sort::stable_order(&keys);
    proof {
        assert forall|a: int, b: int| 0 <= a < b < r@.len() implies {
            let i = #[trigger] r@[a] as int;
            let j = #[trigger] r@[b] as int;
            paths@[i]@.len() > paths@[j]@.len() || (paths@[i]@.len() == paths@[j]@.len() && i < j)
        } by {
            assert(sort::comes_before(keys@, r@[a] as int, r@[b] as int));
            assert(keys@[r@[a] as int].0 == paths@[r@[a] as int]@.len());
            assert(keys@[r@[b] as int].0 == paths@[r@[b] as int]@.len());
        }
    }
    r
}

/// How an entry is removed.
#[derive(Clone, Copy, Debug, PartialEq, Eq, Structural)]
pub enum Removal {
    /// As a directory, which has to be empty.
    Directory,
    /// As a file or a symbolic link.
    File,
}

/// How an entry of a kind is removed.
pub fn removal_of(kind: EntryKind) -> (r: Removal)
    ensures
        r == if kind == EntryKind::Directory {
            Removal::Directory
        } else {
            Removal::File
        },
{
    match kind {
        EntryKind::Directory => Removal::Directory,
        EntryKind::File | EntryKind::Symlink => Removal::File,
    }
}

/// What an addition or a modification asks for before any file content is
/// written.
#[derive(Clone, Copy, Debug, PartialEq, Eq, Structural)]
pub enum Action {
    /// Nothing: its content comes later.
    Wait,
    /// Nothing more: it counts as done.
    Count,
    /// Create a directory, with the directories above it, and set its metadata.
    CreateDirectory,
    /// Create a symbolic link and set its owner and modification time.
    CreateSymlink,
    /// Replace the symbolic link, set metadata, or both.
    Modify { replace_link: bool, set_metadata: bool },
}

/// What a change asks for before any file content is written.
pub open spec fn action_of(c: ChangeModel) -> Action {
    match c.kind {
        KindModel::Added { entry, has_content } => match entry.kind {
            EntryKind::Directory => Action::CreateDirectory,
            EntryKind::File => if has_content {
                Action::Wait
            } else {
                Action::Count
            },
            EntryKind::Symlink => if entry.symlink_target is Some {
                Action::CreateSymlink
            } else {
                Action::Count
            },
        },
        KindModel::Modified { has_content, new_metadata, new_symlink_target, .. } => if has_content {
            Action::Wait
        } else {
            Action::Modify {
                replace_link: new_symlink_target is Some,
                set_metadata: new_metadata is Some,
            }
        },
        KindModel::Removed(_) => Action::Wait,
    }
}

/// What a change asks for before any file content is written. Removals ask for
/// nothing: they come first.
pub fn plan_action(change: &Change) -> (r: Action)
    ensures
        r == action_of(change@),
{
    match &change.kind {
        ChangeKind::Added(added) => match added.entry.kind {
            EntryKind::Directory => Action::CreateDirectory,
            EntryKind::File => if added.has_content {
                Action::Wait
            } else {
                Action::Count
            },
            EntryKind::Symlink => if added.entry.symlink_target.is_some() {
                Action::CreateSymlink
            } else {
                Action::Count
            },
        },
        ChangeKind::Modified(modified) => if modified.has_content {
            Action::Wait
        } else {
            Action::Modify {
                replace_link: modified.new_symlink_target.is_some(),
                set_metadata: modified.new_metadata.is_some(),
            }
        },
        ChangeKind::Removed(_) => Action::Wait,
    }
}

/// Whether metadata is set on the link itself, and without permissions: links
/// have none. That is so for what is a symbolic link on the filesystem.
pub fn sets_link_metadata(live: Option<NodeType>) -> (r: bool)
    ensures
        r == (live == Some(NodeType::Symlink)),
{
    match live {
        Some(NodeType::Symlink) => true,
        _ => false,
    }
}

/// How a change went that needs no content.
#[derive(Clone, Copy, Debug, PartialEq, Eq, Structural)]
pub struct Outcome {
    pub succeeded: bool,
    /// What the path of the change is on the filesystem then.
    pub live: Option<NodeType>,
}

/// The counts of applying changes that need no content, and the directories
/// whose metadata was set.
#[derive(Debug)]
pub struct ApplyResult {
    pub add_count: usize,
    pub mod_count: usize,
    pub err_count: usize,
    pub dir_metadata_changes: Vec<(RelativePath, Metadata)>,
}

/// What an [`ApplyResult`] says.
#[verifier::ext_equal]
pub struct Tally {
    pub added: nat,
    pub modified: nat,
    pub errors: nat,
    pub dirs: Seq<(Seq<Seq<u8>>, Metadata)>,
}

impl View for ApplyResult {
    type V = Tally;

    open spec fn view(&self) -> Tally {
        Tally {
            added: self.add_count as nat,
            modified: self.mod_count as nat,
            errors: self.err_count as nat,
            dirs: self.dir_metadata_changes@.map_values(
                |d: (RelativePath, Metadata)| (d.0@, d.1),
            ),
        }
    }
}

/// The directory whose metadata a successful change sets, given what its path
/// is on the filesystem.
pub open spec fn set_dir(c: ChangeModel, live: Option<NodeType>) -> Option<
    (Seq<Seq<u8>>, Metadata),
> {
    match c.kind {
        KindModel::Added { entry, .. } => if entry.kind == EntryKind::Directory {
            Some((c.path, entry.metadata))
        } else {
            None
        },
        KindModel::Modified { new_metadata: Some(m), .. } => if live == Some(NodeType::Directory) {
            Some((c.path, m))
        } else {
            None
        },
        _ => None,
    }
}

impl Tally {
    /// The tally with one more change. Changes that wait for their content do
    /// not count yet.
    pub open spec fn with(self, c: ChangeModel, outcome: Outcome) -> Tally {
        if action_of(c) is Wait {
            self
        } else if !outcome.succeeded {
            Tally { errors: self.errors + 1, ..self }
        } else {
            let dirs = match set_dir(c, outcome.live) {
                Some(d) => self.dirs.push(d),
                None => self.dirs,
            };
            if c.kind is Added {
                Tally { added: self.added + 1, dirs, ..self }
            } else {
                Tally { modified: self.modified + 1, dirs, ..self }
            }
        }
    }
}

/// The tally of the changes at some positions, given how each went.
pub open spec fn tally_of(
    cs: Seq<ChangeModel>,
    order: Seq<usize>,
    outcomes: Seq<Outcome>,
) -> Tally
    decreases order.len(),
{
    if order.len() == 0 {
        Tally { added: 0, modified: 0, errors: 0, dirs: Seq::empty() }
    } else {
        tally_of(cs, order.drop_last(), outcomes.drop_last()).with(
            cs[order.last() as int],
            outcomes.last(),
        )
    }
}

impl ApplyResult {
    fn record(&mut self, change: &Change, outcome: Outcome)
        requires
            old(self).add_count < usize::MAX,
            old(self).mod_count < usize::MAX,
            old(self).err_count < usize::MAX,
        ensures
            final(self)@ == old(self)@.with(change@, outcome),
    {
        if matches!(plan_action(change), Action::Wait) {
            return;
        }
        if !outcome.succeeded {
            self.err_count = self.err_count + 1;
            return;
        }
        match &change.kind {
            ChangeKind::Added(added) => {
                if added.entry.kind == EntryKind::Directory {
                    self.push_dir(&change.path, added.entry.metadata);
                }
                self.add_count = self.add_count + 1;
            },
            ChangeKind::Modified(modified) => {
                match (modified.new_metadata, outcome.live) {
                    (Some(m), Some(NodeType::Directory)) => {
                        self.push_dir(&change.path, m);
                    },
                    _ => {},
                }
                self.mod_count = self.mod_count + 1;
            },
            ChangeKind::Removed(_) => {},
        }
    }

    fn push_dir(&mut self, path: &RelativePath, metadata: Metadata)
        ensures
            final(self)@ == (Tally { dirs: old(self)@.dirs.push((path@, metadata)), ..old(self)@ }),
            final(self).add_count == old(self).add_count,
            final(self).mod_count == old(self).mod_count,
    {
        self.dir_metadata_changes.push((path.clone(), metadata));
        assert(self@.dirs =~= old(self)@.dirs.push((path@, metadata)));
    }
}

/// The tally of the additions and modifications that need no content, given the
/// order in which they were applied and how each went.
pub fn apply_non_content_changes(
    changes: &Vec<Change>,
    order: &Vec<usize>,
    outcomes: &Vec<Outcome>,
) -> (r: ApplyResult)
    requires
        order@.len() == outcomes@.len(),
        forall|k: int| 0 <= k < order@.len() ==> (#[trigger] order@[k]) < changes@.len(),
    ensures
        r@ == tally_of(diff::change_views(changes@), order@, outcomes@),
{
    let ghost cs = diff::change_views(changes@);
    let mut r = ApplyResult {
        add_count: 0,
        mod_count: 0,
        err_count: 0,
        dir_metadata_changes: Vec::new(),
    };
    let mut i: usize = 0;
    proof {
        assert(order@.take(0) =~= Seq::empty());
        assert(r@.dirs =~= Seq::empty());
    }
    while i < order.len()
        invariant
            i <= order@.len() == outcomes@.len(),
            cs == diff::change_views(changes@),
            forall|k: int| 0 <= k < order@.len() ==> (#[trigger] order@[k]) < changes@.len(),
            r@ == tally_of(cs, order@.take(i as int), outcomes@.take(i as int)),
            r.add_count <= i,
            r.mod_count <= i,
            r.err_count <= i,
        decreases order@.len() - i,
    {
        proof {
            assert(order@.take(i + 1).drop_last() =~= order@.take(i as int));
            assert(outcomes@.take(i + 1).drop_last() =~= outcomes@.take(i as int));
        }
        let at: usize = order[i];
        r.record(&changes[at], outcomes[i]);
        i = i + 1;
    }
    proof {
        assert(order@.take(i as int) =~= order@);
        assert(outcomes@.take(i as int) =~= outcomes@);
    }
    r
}

/// How many of some removals succeeded, and how many failed.
pub fn apply_deletions(succeeded: &Vec<bool>) -> (r: (usize, usize))
    ensures
        r.0 == succeeded@.filter(|ok: bool| ok).len(),
        r.0 + r.1 == succeeded@.len(),
{
    let mut done: usize = 0;
    let mut i: usize = 0;
    proof {
        assert(succeeded@.take(0) =~= Seq::empty());
        reveal(Seq::filter);
        assert(succeeded@.take(0).filter(|ok: bool| ok).len() == 0);
    }
    while i < succeeded.len()
        invariant
            i <= succeeded@.len(),
            done <= i,
            done == succeeded@.take(i as int).filter(|ok: bool| ok).len(),
        decreases succeeded@.len() - i,
    {
        proof {
            reveal(Seq::filter);
            assert(succeeded@.take(i + 1).drop_last() =~= succeeded@.take(i as int));
        }
        if succeeded[i] {
            done = done + 1;
        }
        i = i + 1;
    }
    assert(succeeded@.take(i as int) =~= succeeded@);
    (done, succeeded.len() - done)
}

/// The counts of writing file content.
#[derive(Clone, Copy, Debug, PartialEq, Eq, Structural)]
pub struct StreamResult {
    pub add_count: usize,
    pub mod_count: usize,
    pub err_count: usize,
}

impl StreamResult {
    /// Nothing written.
    pub fn new() -> (r: Self)
        ensures
            r == (StreamResult { add_count: 0, mod_count: 0, err_count: 0 }),
    {
        StreamResult { add_count: 0, mod_count: 0, err_count: 0 }
    }

    /// Adds the counts of another worker.
    pub fn merge(&mut self, other: StreamResult)
        requires
            old(self).add_count + other.add_count <= usize::MAX,
            old(self).mod_count + other.mod_count <= usize::MAX,
            old(self).err_count + other.err_count <= usize::MAX,
        ensures
            final(self).add_count == old(self).add_count + other.add_count,
            final(self).mod_count == old(self).mod_count + other.mod_count,
            final(self).err_count == old(self).err_count + other.err_count,
    {
        self.add_count = self.add_count + other.add_count;
        self.mod_count = self.mod_count + other.mod_count;
        self.err_count = self.err_count + other.err_count;
    }

    /// Takes note of how the writing of one file went.
    pub fn record(&mut self, change: &Change, succeeded: bool)
        requires
            old(self).add_count < usize::MAX,
            old(self).mod_count < usize::MAX,
            old(self).err_count < usize::MAX,
        ensures
            *final(self) == if !succeeded {
                StreamResult { err_count: (old(self).err_count + 1) as usize, ..*old(self) }
            } else if change@.kind is Added {
                StreamResult { add_count: (old(self).add_count + 1) as usize, ..*old(self) }
            } else {
                StreamResult { mod_count: (old(self).mod_count + 1) as usize, ..*old(self) }
            },
    {
        if !succeeded {
            self.err_count = self.err_count + 1;
        } else if matches!(&change.kind, ChangeKind::Added(_)) {
            self.add_count = self.add_count + 1;
        } else {
            self.mod_count = self.mod_count + 1;
        }
    }
}

/// The metadata that a file gets once its content has been written.
pub fn written_metadata(change: &Change) -> (r: Option<Metadata>)
    ensures
        r == change@.metadata_after(),
{
    match &change.kind {
        ChangeKind::Added(added) => Some(added.entry.metadata),
        ChangeKind::Modified(modified) => modified.new_metadata,
        ChangeKind::Removed(_) => None,
    }
}

/// Whether a change says what becomes of the directory at its path, given
/// whether that is a directory on the filesystem.
pub open spec fn says_directory(c: ChangeModel, live_dir: bool) -> bool {
    match c.kind {
        KindModel::Added { entry, .. } => entry.kind == EntryKind::Directory,
        KindModel::Modified { new_metadata, .. } => new_metadata is Some && live_dir,
        KindModel::Removed(_) => false,
    }
}

/// Whether the modification time of directory `p` is saved before changes are
/// applied: some change touches it from below, and none says what becomes of it
/// as a directory.
pub open spec fn is_saved(cs: Seq<ChangeModel>, live_dirs: Seq<bool>, p: Seq<Seq<u8>>) -> bool {
    &&& exists|i: int| 0 <= i < cs.len() && #[trigger] simulate::touches_from_below(cs[i], p)
    &&& forall|i: int|
        0 <= i < cs.len() && (#[trigger] cs[i]).path == p ==> !says_directory(cs[i], live_dirs[i])
}

/// Whether directory `p` has the modification time after changes are applied
/// that it had before: it is saved, and it is set again, as no change is of `p`
/// itself.
pub open spec fn is_kept(cs: Seq<ChangeModel>, live_dirs: Seq<bool>, p: Seq<Seq<u8>>) -> bool {
    is_saved(cs, live_dirs, p) && !simulate::has_change(cs, p)
}

/// The directories whose modification times are saved before changes are
/// applied, given which changes have a directory at their path on the
/// filesystem. None lies outside the root.
pub fn save_parent_dir_mtimes(changes: &Vec<Change>, live_dirs: &Vec<bool>) -> (r: PathSet)
    requires
        live_dirs@.len() == changes@.len(),
    ensures
        r.wf(),
        forall|p: Seq<Seq<u8>>| #[trigger]
            r@.dom().contains(p) <==> is_saved(diff::change_views(changes@), live_dirs@, p),
{
    let ghost cs = diff::change_views(changes@);
    let mut affected = PathSet::new();
    let mut explicit = PathSet::new();
    let mut i: usize = 0;
    while i < changes.len()
        invariant
            i <= changes@.len() == live_dirs@.len(),
            cs == diff::change_views(changes@),
            affected.wf(),
            explicit.wf(),
            forall|p: Seq<Seq<u8>>| #[trigger]
                affected@.dom().contains(p) <==> exists|k: int|
                    0 <= k < i && #[trigger] simulate::touches_from_below(cs[k], p),
            forall|p: Seq<Seq<u8>>| #[trigger]
                explicit@.dom().contains(p) <==> exists|k: int|
                    0 <= k < i && (#[trigger] cs[k]).path == p && says_directory(
                        cs[k],
                        live_dirs@[k],
                    ),
        decreases changes@.len() - i,
    {
        let change = &changes[i];
        let ghost c = cs[i as int];
        assert(c == change@);
        let ghost affected0 = affected@;
        let ghost explicit0 = explicit@;
        match change.path.parent() {
            Some(parent) => {
                affected.insert(parent, ());
            },
            None => {},
        }
        let says: bool = match &change.kind {
            ChangeKind::Added(added) => added.entry.kind == EntryKind::Directory,
            ChangeKind::Modified(m) => m.new_metadata.is_some() && live_dirs[i],
            ChangeKind::Removed(_) => false,
        };
        assert(says == says_directory(c, live_dirs@[i as int]));
        if says {
            explicit.insert(change.path.clone(), ());
        }
        proof {
            assert forall|p: Seq<Seq<u8>>| #[trigger]
                affected@.dom().contains(p) <==> exists|k: int|
                    0 <= k < i + 1 && #[trigger] simulate::touches_from_below(cs[k], p) by {
                assert(affected@.dom().contains(p) <==> affected0.dom().contains(p)
                    || simulate::touches_from_below(cs[i as int], p));
            }
            assert forall|p: Seq<Seq<u8>>| #[trigger]
                explicit@.dom().contains(p) <==> exists|k: int|
                    0 <= k < i + 1 && (#[trigger] cs[k]).path == p && says_directory(
                        cs[k],
                        live_dirs@[k],
                    ) by {
                assert(explicit@.dom().contains(p) <==> explicit0.dom().contains(p) || (
                cs[i as int].path == p && says));
            }
        }
        i = i + 1;
    }
    simulate::difference(&affected, &explicit)
}

/// The directories whose saved modification times are set again once changes
/// have been applied: those that no change is of. What a change has removed or
/// replaced is not what the time was saved of.
pub fn dirs_to_restore(changes: &Vec<Change>, saved: &PathSet) -> (r: PathSet)
    requires
        saved.wf(),
    ensures
        r.wf(),
        forall|p: Seq<Seq<u8>>| #[trigger]
            r@.dom().contains(p) <==> saved@.dom().contains(p) && !simulate::has_change(
                diff::change_views(changes@),
                p,
            ),
{
    simulate::difference(saved, &simulate::changed_paths(changes))
}

/// What lies in a directory is removed in front of the directory.
pub proof fn law_contents_are_removed_first(
    cs: Seq<ChangeModel>,
    wanted: spec_fn(ChangeModel) -> bool,
    r: Seq<usize>,
    a: int,
    b: int,
)
    requires
        is_by_depth(cs, wanted, true, r),
        0 <= a < r.len(),
        0 <= b < r.len(),
        path::is_under(cs[r[b] as int].path, cs[r[a] as int].path),
    ensures
        a < b,
{
    if b < a {
        assert(comes_first(cs, true, r[b] as int, r[a] as int));
    }
}

/// A directory is added in front of what lies in it.
pub proof fn law_directories_are_added_first(
    cs: Seq<ChangeModel>,
    wanted: spec_fn(ChangeModel) -> bool,
    r: Seq<usize>,
    a: int,
    b: int,
)
    requires
        is_by_depth(cs, wanted, false, r),
        0 <= a < r.len(),
        0 <= b < r.len(),
        path::is_under(cs[r[a] as int].path, cs[r[b] as int].path),
    ensures
        a < b,
{
    if b < a {
        assert(comes_first(cs, false, r[b] as int, r[a] as int));
    }
}

/// Simulating and applying a diff leave the same directories alone: those whose
/// modification time is saved and set again are those that the simulation leaves
/// as they are.
pub proof fn law_simulating_keeps_what_applying_keeps(
    cs: Seq<ChangeModel>,
    live_dirs: Seq<bool>,
    p: Seq<Seq<u8>>,
)
    requires
        live_dirs.len() == cs.len(),
    ensures
        is_kept(cs, live_dirs, p) <==> simulate::is_left_alone(cs, p),
{
    if simulate::is_left_alone(cs, p) {
        assert(forall|i: int| 0 <= i < cs.len() ==> (#[trigger] cs[i]).path != p);
    }
}

} // verus!
