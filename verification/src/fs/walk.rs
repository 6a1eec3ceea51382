//! Turning what a walk over a tree finds into a sorted list of entries.

use crate::commands::diff;
use crate::fs::metadata;
use crate::fs::metadata::{NodeType, RawStat};
use crate::model::entry;
use crate::model::entry::{Entry, EntryKind, EntryModel, Metadata};
use crate::model::path;
use crate::model::path::RelativePath;
use crate::order;
use crate::order::Rank;
use crate::sort;
use crate::sort::SortKey;
use vstd::prelude::*;

verus! {

/// Statistics of a walk.
#[derive(Clone, Copy, Debug, PartialEq, Eq, Structural)]
pub struct WalkStats {
    pub total_entries: usize,
    pub files: usize,
    pub directories: usize,
    pub symlinks: usize,
    pub files_hashed: usize,
    pub files_hash_reused: usize,
    pub errors: usize,
}

impl WalkStats {
    /// The kinds add up to the total.
    pub open spec fn wf(self) -> bool {
        self.files + self.directories + self.symlinks == self.total_entries
    }

    /// The statistics with one more entry.
    pub open spec fn counted(self, kind: EntryKind) -> WalkStats {
        WalkStats {
            total_entries: (self.total_entries + 1) as usize,
            files: if kind == EntryKind::File {
                (self.files + 1) as usize
            } else {
                self.files
            },
            directories: if kind == EntryKind::Directory {
                (self.directories + 1) as usize
            } else {
                self.directories
            },
            symlinks: if kind == EntryKind::Symlink {
                (self.symlinks + 1) as usize
            } else {
                self.symlinks
            },
            ..self
        }
    }

    /// Nothing counted.
    pub fn new() -> (r: Self)
        ensures
            r.wf(),
            r == (WalkStats {
                total_entries: 0,
                files: 0,
                directories: 0,
                symlinks: 0,
                files_hashed: 0,
                files_hash_reused: 0,
                errors: 0,
            }),
    {
        WalkStats {
            total_entries: 0,
            files: 0,
            directories: 0,
            symlinks: 0,
            files_hashed: 0,
            files_hash_reused: 0,
            errors: 0,
        }
    }

    /// Counts an entry.
    pub fn count(&mut self, kind: EntryKind)
        requires
            old(self).wf(),
            old(self).total_entries < usize::MAX,
        ensures
            final(self).wf(),
            *final(self) == old(self).counted(kind),
    {
        match kind {
            EntryKind::File => {
                self.files = self.files + 1;
            },
            EntryKind::Directory => {
                self.directories = self.directories + 1;
            },
            EntryKind::Symlink => {
                self.symlinks = self.symlinks + 1;
            },
        }
        self.total_entries = self.total_entries + 1;
    }
}

/// Why a node gives no entry.
#[derive(Clone, Copy, Debug, PartialEq, Eq, Structural)]
pub enum ClassifyError {
    /// It could not be read.
    Failed,
    /// It is of an unsupported type.
    Skip,
}

/// A node that a walk has found, before its content is hashed.
#[derive(Debug)]
pub struct RawEntry {
    pub path: RelativePath,
    pub kind: EntryKind,
    pub metadata: Metadata,
    pub symlink_target: Option<Vec<u8>>,
}

/// What a [`RawEntry`] says, as an entry without hashes.
impl View for RawEntry {
    type V = EntryModel;

    open spec fn view(&self) -> EntryModel {
        EntryModel {
            path: self.path@,
            kind: self.kind,
            metadata: self.metadata,
            hash: None,
            symlink_target: entry::target_view(self.symlink_target),
            dir_hash: None,
        }
    }
}

/// Whether a full path lies below a root.
pub open spec fn is_below(full_path: Seq<u8>, root: Seq<u8>) -> bool {
    &&& path::components_of(root).is_prefix_of(path::components_of(full_path))
    &&& path::is_relative(path::behind(full_path, path::components_of(root).len() as int))
}

/// What a node that a walk has found is, given what could be read of it.
pub open spec fn classified(
    full_path: Seq<u8>,
    root: Seq<u8>,
    stat: Option<RawStat>,
    target: Option<Seq<u8>>,
) -> Result<EntryModel, ClassifyError> {
    match stat {
        Some(s) if is_below(full_path, root) => {
            let e = EntryModel {
                path: path::normal_components(
                    path::behind(full_path, path::components_of(root).len() as int),
                ),
                kind: EntryKind::File,
                metadata: s.kept(),
                hash: None,
                symlink_target: None,
                dir_hash: None,
            };
            match s.node {
                NodeType::File => Ok(e),
                NodeType::Directory => Ok(EntryModel { kind: EntryKind::Directory, ..e }),
                NodeType::Symlink => if target is Some {
                    Ok(EntryModel { kind: EntryKind::Symlink, symlink_target: target, ..e })
                } else {
                    Err(ClassifyError::Failed)
                },
                NodeType::Other => Err(ClassifyError::Skip),
            }
        },
        _ => Err(ClassifyError::Failed),
    }
}

/// Turns a node that a walk has found into its path, kind, metadata and link
/// target, given what could be read of it.
pub fn classify_dir_entry(
    full_path: &[u8],
    root: &[u8],
    stat: Option<RawStat>,
    target: Option<Vec<u8>>,
) -> (r: Result<RawEntry, ClassifyError>)
    ensures
        r == Err::<RawEntry, ClassifyError>(ClassifyError::Failed) <==> {
            ||| !is_below(full_path@, root@)
            ||| stat is None
            ||| stat matches Some(s) && s.node == NodeType::Symlink && target is None
        },
        r == Err::<RawEntry, ClassifyError>(ClassifyError::Skip) <==> {
            &&& is_below(full_path@, root@)
            &&& stat matches Some(s) && s.node == NodeType::Other
        },
        r matches Ok(e) ==> stat is Some && e@ == (EntryModel {
            path: path::normal_components(
                path::behind(full_path@, path::components_of(root@).len() as int),
            ),
            kind: match stat->0.node {
                NodeType::File => EntryKind::File,
                NodeType::Directory => EntryKind::Directory,
                _ => EntryKind::Symlink,
            },
            metadata: stat->0.kept(),
            hash: None,
            symlink_target: if stat->0.node == NodeType::Symlink {
                entry::target_view(target)
            } else {
                None
            },
            dir_hash: None,
        }) && e.path.wf(),
        match r {
            Ok(e) => classified(full_path@, root@, stat, entry::target_view(target)) == Ok::<
                EntryModel,
                ClassifyError,
            >(e@),
            Err(why) => classified(full_path@, root@, stat, entry::target_view(target)) == Err::<
                EntryModel,
                ClassifyError,
            >(why),
        },
{
    let rel_path = match RelativePath::from_full_path(full_path, root) {
        Ok(p) => p,
        Err(_) => {
            return Err(ClassifyError::Failed);
        },
    };
    let stat = match stat {
        Some(s) => s,
        None => {
            return Err(ClassifyError::Failed);
        },
    };
    let metadata = metadata::collect_metadata(&stat);
    match stat.node {
        NodeType::File => Ok(
            RawEntry { path: rel_path, kind: EntryKind::File, metadata, symlink_target: None },
        ),
        NodeType::Directory => Ok(
            RawEntry { path: rel_path, kind: EntryKind::Directory, metadata, symlink_target: None },
        ),
        NodeType::Symlink => {
            if target.is_none() {
                return Err(ClassifyError::Failed);
            }
            Ok(
                RawEntry {
                    path: rel_path,
                    kind: EntryKind::Symlink,
                    metadata,
                    symlink_target: target,
                },
            )
        },
        NodeType::Other => Err(ClassifyError::Skip),
    }
}

/// The nodes that a walk has found so far.
#[derive(Debug)]
pub struct Walk {
    pub found: Vec<RawEntry>,
    pub stats: WalkStats,
}

/// What the nodes of a list say.
pub open spec fn raw_views(v: Seq<RawEntry>) -> Seq<EntryModel> {
    v.map_values(|e: RawEntry| e@)
}

/// How many nodes of a list are of a kind.
pub open spec fn count_kind(raws: Seq<EntryModel>, kind: EntryKind) -> nat
    decreases raws.len(),
{
    if raws.len() == 0 {
        0
    } else {
        count_kind(raws.drop_last(), kind) + if raws.last().kind == kind {
            1nat
        } else {
            0nat
        }
    }
}

impl Walk {
    /// What has been found is what has been counted, kind by kind.
    pub open spec fn wf(&self) -> bool {
        let raws = raw_views(self.found@);
        &&& self.stats.wf()
        &&& self.stats.total_entries == self.found@.len()
        &&& self.stats.files == count_kind(raws, EntryKind::File)
        &&& self.stats.directories == count_kind(raws, EntryKind::Directory)
        &&& self.stats.symlinks == count_kind(raws, EntryKind::Symlink)
    }

    /// Nothing found.
    pub fn new() -> (r: Self)
        ensures
            r.wf(),
            r.found@.len() == 0,
            r.stats.errors == 0,
            r.stats.files_hashed == 0,
            r.stats.files_hash_reused == 0,
    {
        Walk { found: Vec::new(), stats: WalkStats::new() }
    }

    /// Takes note of what was found: an entry, an error, or something that is
    /// passed over.
    pub fn note(&mut self, result: Result<RawEntry, ClassifyError>)
        requires
            old(self).wf(),
            old(self).stats.errors < usize::MAX,
        ensures
            final(self).wf(),
            match result {
                Ok(e) => {
                    &&& final(self).found@ == old(self).found@.push(e)
                    &&& final(self).stats == old(self).stats.counted(e.kind)
                },
                Err(ClassifyError::Failed) => {
                    &&& final(self).found@ == old(self).found@
                    &&& final(self).stats == (WalkStats {
                        errors: (old(self).stats.errors + 1) as usize,
                        ..old(self).stats
                    })
                },
                Err(ClassifyError::Skip) => *final(self) == *old(self),
            },
    {
        match result {
            Ok(e) => {
                let kind = e.kind;
                let ghost raws = raw_views(self.found@);
                self.found.push(e);
                assert(self.found.len() == self.found@.len());
                proof {
                    let more = raw_views(self.found@);
                    assert(more.drop_last() =~= raws);
                    assert(more.last() == e@);
                }
                self.stats.count(kind);
            },
            Err(ClassifyError::Failed) => {
                self.stats.errors = self.stats.errors + 1;
            },
            Err(ClassifyError::Skip) => {},
        }
    }
}

/// The hash that a file keeps from an earlier entry: that of a file of the same
/// size and second of modification.
pub open spec fn kept_hash(metadata: Metadata, old: Option<EntryModel>) -> Option<Seq<u8>> {
    match old {
        Some(e) => if e.kind == EntryKind::File && e.metadata.size == metadata.size
            && e.metadata.mtime_sec == metadata.mtime_sec {
            e.hash
        } else {
            None
        },
        None => None,
    }
}

/// The hash that a file keeps from an earlier entry, if it does not have to be
/// hashed.
pub fn reuse_hash(metadata: &Metadata, old_entry: Option<&Entry>) -> (r: Option<[u8; 16]>)
    ensures
        entry::hash_view(r) == kept_hash(
            *metadata,
            match old_entry {
                Some(e) => Some(e@),
                None => None,
            },
        ),
        r matches Some(h) ==> old_entry matches Some(e) && e.kind == EntryKind::File && e.hash
            == Some(h) && e.metadata.size == metadata.size && e.metadata.mtime_sec
            == metadata.mtime_sec,
{
    match old_entry {
        Some(old) => if old.kind == EntryKind::File && old.metadata.size_and_mtime_match(metadata) {
            old.hash
        } else {
            None
        },
        None => None,
    }
}

/// Finds the entry with a path in a list in the order of paths.
pub fn find_entry(entries: &Vec<Entry>, path: &RelativePath) -> (r: Option<usize>)
    requires
        diff::sorted_by_path(entry::entry_views(entries@)),
    ensures
        match r {
            Some(i) => i < entries@.len() && entries@[i as int]@.path == path@,
            None => forall|i: int|
                0 <= i < entries@.len() ==> (#[trigger] entries@[i])@.path != path@,
        },
{
    let ghost es = entry::entry_views(entries@);
    let mut lo: usize = 0;
    let mut hi: usize = entries.len();
    while lo < hi
        invariant
            es == entry::entry_views(entries@),
            diff::sorted_by_path(es),
            lo <= hi <= entries@.len(),
            forall|i: int| 0 <= i < lo ==> (#[trigger] es[i]).path != path@,
            forall|i: int| hi <= i < es.len() ==> (#[trigger] es[i]).path != path@,
        decreases hi - lo,
    {
        let mid: usize = lo + (hi - lo) / 2;
        let ghost at = es[mid as int].path;
        match entries[mid].path.rank(path) {
            Rank::Equal => {
                return Some(mid);
            },
            Rank::Less => {
                assert forall|i: int| 0 <= i < mid + 1 implies (#[trigger] es[i]).path != path@ by {
                    if i < mid {
                        order::lemma_path_lt_transitive(es[i].path, at, path@);
                    }
                    order::lemma_path_lt_irreflexive(path@);
                }
                lo = mid + 1;
            },
            Rank::Greater => {
                assert forall|i: int| mid <= i < es.len() implies (#[trigger] es[i]).path
                    != path@ by {
                    if i > mid {
                        order::lemma_path_lt_transitive(path@, at, es[i].path);
                    }
                    order::lemma_path_lt_irreflexive(path@);
                }
                hi = mid;
            },
        }
    }
    assert forall|i: int| 0 <= i < entries@.len() implies (#[trigger] entries@[i])@.path
        != path@ by {
        assert(es[i].path != path@);
    }
    None
}

/// Where the content hash of a node comes from.
#[derive(Clone, Copy, Debug, PartialEq, Eq)]
pub enum HashOutcome {
    /// It has none: it is not a file.
    NotAFile,
    /// From an earlier entry.
    Reused([u8; 16]),
    /// From the content of the file.
    Hashed([u8; 16]),
    /// The content of the file could not be read.
    Failed,
}

/// The hash that a node keeps from the entry with its path in an earlier list,
/// if it is a file and does not have to be hashed.
pub fn known_hash(raw: &RawEntry, previous: Option<&Vec<Entry>>) -> (r: Option<[u8; 16]>)
    requires
        previous matches Some(p) ==> diff::sorted_by_path(entry::entry_views(p@)),
    ensures
        raw.kind != EntryKind::File || previous is None ==> r is None,
        raw.kind == EntryKind::File ==> (previous matches Some(p) ==> {
            let es = entry::entry_views(p@);
            &&& (forall|i: int| 0 <= i < es.len() ==> (#[trigger] es[i]).path != raw.path@) ==> r
                is None
            &&& forall|i: int|
                0 <= i < es.len() && (#[trigger] es[i]).path == raw.path@ ==> entry::hash_view(r)
                    == kept_hash(raw.metadata, Some(es[i]))
        }),
        r matches Some(h) ==> {
            &&& raw.kind == EntryKind::File
            &&& previous matches Some(p)
            &&& exists|i: int|
                0 <= i < p@.len() && (#[trigger] p@[i]).path@ == raw.path@ && p@[i].kind
                    == EntryKind::File && p@[i].hash == Some(h) && p@[i].metadata.size
                    == raw.metadata.size && p@[i].metadata.mtime_sec == raw.metadata.mtime_sec
        },
{
    if raw.kind != EntryKind::File {
        return None;
    }
    match previous {
        Some(p) => {
            let ghost es = entry::entry_views(p@);
            match find_entry(p, &raw.path) {
                Some(i) => {
                    let r = reuse_hash(&raw.metadata, Some(&p[i]));
                    proof {
                        assert(es[i as int].path == raw.path@);
                        assert forall|k: int|
                            0 <= k < es.len() && (#[trigger] es[k]).path == raw.path@ implies k
                            == i by {
                            order::lemma_path_lt_irreflexive(raw.path@);
                        }
                    }
                    r
                },
                None => {
                    assert forall|k: int| 0 <= k < es.len() implies (#[trigger] es[k]).path
                        != raw.path@ by {
                        assert(p@[k]@.path != raw.path@);
                    }
                    None
                },
            }
        },
        None => None,
    }
}

/// Where the content hash of a node of some kind comes from, given the hash that it
/// keeps and the hash of its content.
pub open spec fn outcome_of(
    kind: EntryKind,
    known: Option<[u8; 16]>,
    hashed: Option<[u8; 16]>,
) -> HashOutcome {
    if kind != EntryKind::File {
        HashOutcome::NotAFile
    } else {
        match (known, hashed) {
            (Some(h), _) => HashOutcome::Reused(h),
            (None, Some(h)) => HashOutcome::Hashed(h),
            (None, None) => HashOutcome::Failed,
        }
    }
}

/// Whether the content of a node has to be hashed, given the hash that it keeps.
pub fn needs_hashing(raw: &RawEntry, known: Option<[u8; 16]>) -> (r: bool)
    ensures
        r == (raw.kind == EntryKind::File && known is None),
{
    raw.kind == EntryKind::File && known.is_none()
}

/// Where the content hash of a node comes from, given the hash that it keeps, as
/// [`known_hash`] says, and the hash of its content, if that was needed and could
/// be read.
pub fn hash_outcome(
    raw: &RawEntry,
    known: Option<[u8; 16]>,
    hashed: Option<[u8; 16]>,
) -> (r: HashOutcome)
    ensures
        r == outcome_of(raw.kind, known, hashed),
{
    if raw.kind != EntryKind::File {
        return HashOutcome::NotAFile;
    }
    match known {
        Some(h) => HashOutcome::Reused(h),
        None => match hashed {
            Some(h) => HashOutcome::Hashed(h),
            None => HashOutcome::Failed,
        },
    }
}

/// The entry for a node, if its content could be hashed.
pub open spec fn built(raw: EntryModel, outcome: HashOutcome) -> Option<EntryModel> {
    if raw.kind != EntryKind::File {
        Some(raw)
    } else {
        match outcome {
            HashOutcome::Reused(h) => Some(EntryModel { hash: Some(h@), ..raw }),
            HashOutcome::Hashed(h) => Some(EntryModel { hash: Some(h@), ..raw }),
            _ => None,
        }
    }
}

/// The entries for some nodes, in order.
pub open spec fn all_built(raws: Seq<EntryModel>, outcomes: Seq<HashOutcome>) -> Seq<EntryModel>
    decreases raws.len(),
{
    if raws.len() == 0 {
        Seq::empty()
    } else {
        let front = all_built(raws.drop_last(), outcomes.drop_last());
        match built(raws.last(), outcomes.last()) {
            Some(e) => front.push(e),
            None => front,
        }
    }
}

/// How many files have a hash from their content.
pub open spec fn count_hashed(raws: Seq<EntryModel>, outcomes: Seq<HashOutcome>) -> nat
    decreases raws.len(),
{
    if raws.len() == 0 {
        0
    } else {
        count_hashed(raws.drop_last(), outcomes.drop_last()) + if raws.last().kind
            == EntryKind::File && outcomes.last() is Hashed {
            1nat
        } else {
            0nat
        }
    }
}

/// How many files have a hash from an earlier entry.
pub open spec fn count_reused(raws: Seq<EntryModel>, outcomes: Seq<HashOutcome>) -> nat
    decreases raws.len(),
{
    if raws.len() == 0 {
        0
    } else {
        count_reused(raws.drop_last(), outcomes.drop_last()) + if raws.last().kind
            == EntryKind::File && outcomes.last() is Reused {
            1nat
        } else {
            0nat
        }
    }
}

/// Every file of a walk is hashed, keeps a hash, or fails and gives no entry.
pub proof fn law_every_file_is_accounted_for(
    raws: Seq<EntryModel>,
    outcomes: Seq<HashOutcome>,
)
    requires
        raws.len() == outcomes.len(),
    ensures
        all_built(raws, outcomes).len() <= raws.len(),
        count_hashed(raws, outcomes) + count_reused(raws, outcomes) + (raws.len() - all_built(
            raws,
            outcomes,
        ).len()) == count_kind(raws, EntryKind::File),
    decreases raws.len(),
{
    if raws.len() > 0 {
        law_every_file_is_accounted_for(raws.drop_last(), outcomes.drop_last());
    }
}

/// Only outcomes that say so count as reused.
pub proof fn law_only_reused_hashes_count_as_reused(
    raws: Seq<EntryModel>,
    outcomes: Seq<HashOutcome>,
)
    requires
        raws.len() == outcomes.len(),
        forall|i: int| 0 <= i < outcomes.len() ==> !((#[trigger] outcomes[i]) is Reused),
    ensures
        count_reused(raws, outcomes) == 0,
    decreases raws.len(),
{
    if raws.len() > 0 {
        let fewer = outcomes.drop_last();
        assert forall|i: int| 0 <= i < fewer.len() implies !((#[trigger] fewer[i]) is Reused) by {
            assert(fewer[i] == outcomes[i]);
        }
        assert(outcomes.last() == outcomes[outcomes.len() - 1]);
        law_only_reused_hashes_count_as_reused(raws.drop_last(), fewer);
    }
}

/// Without an earlier list no node keeps a hash, and then no hash is reused: every
/// file is hashed or fails.
pub proof fn law_without_known_hashes_none_is_reused(
    raws: Seq<EntryModel>,
    hashed: Seq<Option<[u8; 16]>>,
    outcomes: Seq<HashOutcome>,
)
    requires
        raws.len() == outcomes.len(),
        forall|i: int|
            0 <= i < outcomes.len() ==> (#[trigger] outcomes[i]) == outcome_of(
                raws[i].kind,
                None,
                hashed[i],
            ),
    ensures
        count_reused(raws, outcomes) == 0,
        count_hashed(raws, outcomes) + (raws.len() - all_built(raws, outcomes).len())
            == count_kind(raws, EntryKind::File),
{
    law_only_reused_hashes_count_as_reused(raws, outcomes);
    law_every_file_is_accounted_for(raws, outcomes);
}

/// Whether `r` holds the entries `es` in the order of their paths, entries with
/// the same path in the order in which they stood.
pub open spec fn is_sorted_copy(es: Seq<EntryModel>, r: Seq<EntryModel>) -> bool {
    exists|at: Seq<usize>| #[trigger] is_path_order(es, at) && r == picked(es, at)
}

/// The entries at some positions.
pub open spec fn picked(es: Seq<EntryModel>, at: Seq<usize>) -> Seq<EntryModel> {
    at.map_values(|i: usize| es[i as int])
}

/// Whether `at` holds each position of `es` once, in the order of paths.
pub open spec fn is_path_order(es: Seq<EntryModel>, at: Seq<usize>) -> bool {
    &&& at.len() == es.len()
    &&& forall|k: int| 0 <= k < at.len() ==> (#[trigger] at[k]) < es.len()
    &&& forall|x: usize| x < es.len() ==> #[trigger] at.contains(x)
    &&& forall|a: int, b: int|
        0 <= a < b < at.len() ==> {
            ||| order::path_lt(
                es[(#[trigger] at[a]) as int].path,
                es[(#[trigger] at[b]) as int].path,
            )
            ||| es[at[a] as int].path == es[at[b] as int].path && at[a] < at[b]
        }
}

impl SortKey for Entry {
    open spec fn at_most(&self, other: &Self) -> bool {
        order::path_le(self@.path, other@.path)
    }

    proof fn lemma_total(a: &Self, b: &Self) {
        order::lemma_path_lt_total(a@.path, b@.path);
    }

    proof fn lemma_transitive(a: &Self, b: &Self, c: &Self) {
        if order::path_lt(a@.path, b@.path) && order::path_lt(b@.path, c@.path) {
            order::lemma_path_lt_transitive(a@.path, b@.path, c@.path);
        }
    }

    fn is_at_most(&self, other: &Self) -> (r: bool) {
        match self.path.rank(&other.path) {
            Rank::Greater => {
                proof {
                    order::lemma_path_lt_exclusive(other@.path, self@.path);
                }
                false
            },
            _ => true,
        }
    }
}

/// Sorts entries by path.
pub fn sort_entries(entries: &Vec<Entry>) -> (r: Vec<Entry>)
    ensures
        is_sorted_copy(entry::entry_views(entries@), entry::entry_views(r@)),
{
    let ghost es = entry::entry_views(entries@);
    let at = sort::stable_order(entries);
    let mut r: Vec<Entry> = Vec::new();
    let mut k: usize = 0;
    while k < at.len()
        invariant
            k <= at@.len(),
            es == entry::entry_views(entries@),
            sort::is_stable_order(entries@, at@),
            r@.len() == k,
            forall|x: int| 0 <= x < k ==> (#[trigger] r@[x])@ == es[at@[x] as int],
        decreases at@.len() - k,
    {
        let i: usize = at[k];
        r.push(entries[i].clone());
        k = k + 1;
    }
    proof {
        assert forall|a: int, b: int| 0 <= a < b < at@.len() implies {
            ||| order::path_lt(
                es[(#[trigger] at@[a]) as int].path,
                es[(#[trigger] at@[b]) as int].path,
            )
            ||| es[at@[a] as int].path == es[at@[b] as int].path && at@[a] < at@[b]
        } by {
            assert(sort::comes_before(entries@, at@[a] as int, at@[b] as int));
            order::lemma_path_lt_exclusive(es[at@[a] as int].path, es[at@[b] as int].path);
            order::lemma_path_lt_exclusive(es[at@[b] as int].path, es[at@[a] as int].path);
        }
        assert(is_path_order(es, at@));
        assert(entry::entry_views(r@) =~= picked(es, at@));
    }
    r
}

/// The entries for the nodes of a walk, sorted by path, and the statistics of
/// the whole walk. A file whose content could not be read gives no entry and
/// counts as an error.
pub fn walk_filesystem(walk: Walk, outcomes: &Vec<HashOutcome>) -> (r: (Vec<Entry>, WalkStats))
    requires
        walk.wf(),
        outcomes@.len() == walk.found@.len(),
        walk.stats.files_hashed == 0,
        walk.stats.files_hash_reused == 0,
        walk.stats.errors + walk.found@.len() <= usize::MAX,
    ensures
        ({
            let raws = raw_views(walk.found@);
            let all = all_built(raws, outcomes@);
            &&& is_sorted_copy(all, entry::entry_views(r.0@))
            &&& r.1 == (WalkStats {
                files_hashed: count_hashed(raws, outcomes@) as usize,
                files_hash_reused: count_reused(raws, outcomes@) as usize,
                errors: (walk.stats.errors + (raws.len() - all.len())) as usize,
                ..walk.stats
            })
        }),
        r.1.files_hashed + r.1.files_hash_reused + (r.1.errors - walk.stats.errors) == r.1.files,
{
    let mut stats = walk.stats;
    let mut entries: Vec<Entry> = Vec::new();
    let ghost raws = raw_views(walk.found@);
    let mut i: usize = 0;
    proof {
        assert(raws.take(0) =~= Seq::empty());
        assert(entry::entry_views(entries@) =~= Seq::empty());
    }
    while i < walk.found.len()
        invariant
            i <= walk.found@.len(),
            outcomes@.len() == walk.found@.len(),
            raws == raw_views(walk.found@),
            walk.stats.errors + walk.found@.len() <= usize::MAX,
            entry::entry_views(entries@) == all_built(
                raws.take(i as int),
                outcomes@.take(i as int),
            ),
            entries@.len() <= i,
            count_hashed(raws.take(i as int), outcomes@.take(i as int)) <= i,
            count_reused(raws.take(i as int), outcomes@.take(i as int)) <= i,
            stats == (WalkStats {
                files_hashed: count_hashed(
                    raws.take(i as int),
                    outcomes@.take(i as int),
                ) as usize,
                files_hash_reused: count_reused(
                    raws.take(i as int),
                    outcomes@.take(i as int),
                ) as usize,
                errors: (walk.stats.errors + (i - entries@.len())) as usize,
                ..walk.stats
            }),
        decreases walk.found@.len() - i,
    {
        let raw = &walk.found[i];
        proof {
            assert(raws.take(i + 1).drop_last() =~= raws.take(i as int));
            assert(outcomes@.take(i + 1).drop_last() =~= outcomes@.take(i as int));
            assert(raws.take(i + 1).last() == raw@);
            assert(outcomes@.take(i + 1).last() == outcomes@[i as int]);
        }
        let mut hash: Option<[u8; 16]> = None;
        let mut ok: bool = true;
        if raw.kind == EntryKind::File {
            match outcomes[i] {
                HashOutcome::Reused(h) => {
                    hash = Some(h);
                    stats.files_hash_reused = stats.files_hash_reused + 1;
                },
                HashOutcome::Hashed(h) => {
                    hash = Some(h);
                    stats.files_hashed = stats.files_hashed + 1;
                },
                _ => {
                    ok = false;
                    stats.errors = stats.errors + 1;
                },
            }
        }
        if ok {
            let e = Entry {
                path: raw.path.clone(),
                kind: raw.kind,
                metadata: raw.metadata,
                hash,
                symlink_target: entry::copy_target(&raw.symlink_target),
                dir_hash: None,
            };
            assert(entry::entry_views(entries@.push(e)) =~= entry::entry_views(entries@).push(e@));
            entries.push(e);
        }
        i = i + 1;
    }
    proof {
        assert(raws.take(i as int) =~= raws);
        assert(outcomes@.take(i as int) =~= outcomes@);
        law_every_file_is_accounted_for(raws, outcomes@);
    }
    let sorted = sort_entries(&entries);
    (sorted, stats)
}

/// A walk that finds each path once gives a list that is sorted by path, each
/// path once: what snapshots and diffs rely on.
pub proof fn law_a_walk_is_sorted(es: Seq<EntryModel>, r: Seq<EntryModel>)
    requires
        is_sorted_copy(es, r),
        es.len() <= usize::MAX,
        forall|i: int, j: int|
            0 <= i < j < es.len() ==> (#[trigger] es[i]).path != (#[trigger] es[j]).path,
    ensures
        diff::sorted_by_path(r),
        r.len() == es.len(),
        forall|i: int| 0 <= i < es.len() ==> r.contains(#[trigger] es[i]),
{
    let at = choose|at: Seq<usize>| #[trigger] is_path_order(es, at) && r == picked(es, at);
    assert forall|a: int, b: int| 0 <= a < b < r.len() implies order::path_lt(
        (#[trigger] r[a]).path,
        (#[trigger] r[b]).path,
    ) by {
        assert(r[a] == es[at[a] as int] && r[b] == es[at[b] as int]);
    }
    assert forall|i: int| 0 <= i < es.len() implies r.contains(#[trigger] es[i]) by {
        assert(at.contains(i as usize));
        let k = choose|k: int| 0 <= k < at.len() && at[k] == i as usize;
        assert(r[k] == es[i]);
    }
}

} // verus!
