//! Changes between two states of a tree.

use crate::model::entry;
use crate::model::entry::{Entry, EntryKind, EntryModel, Metadata};
use crate::model::path::RelativePath;
use vstd::prelude::*;

verus! {

/// Added entry with its metadata and optional content.
#[derive(Debug, PartialEq, Eq)]
pub struct AddedEntry {
    pub entry: Entry,
    /// Whether file content is part of the diff.
    pub has_content: bool,
}

/// Modified entry with only the changed fields.
///
/// Where `has_content` is set, `new_metadata` is there too: its size says how
/// many content bytes belong to the change.
#[derive(Debug, PartialEq, Eq)]
pub struct ModifiedEntry {
    pub new_metadata: Option<Metadata>,
    pub new_hash: Option<[u8; 16]>,
    pub has_content: bool,
    pub new_symlink_target: Option<Vec<u8>>,
}

/// Kind of change in a single entry.
#[derive(Debug, PartialEq, Eq)]
pub enum ChangeKind {
    Added(AddedEntry),
    Modified(ModifiedEntry),
    Removed(EntryKind),
}

/// Single change in the diff.
#[derive(Debug, PartialEq, Eq)]
pub struct Change {
    pub path: RelativePath,
    pub kind: ChangeKind,
}

/// What a [`ChangeKind`] says.
#[verifier::ext_equal]
pub enum KindModel {
    Added { entry: EntryModel, has_content: bool },
    Modified {
        new_metadata: Option<Metadata>,
        new_hash: Option<Seq<u8>>,
        has_content: bool,
        new_symlink_target: Option<Seq<u8>>,
    },
    Removed(EntryKind),
}

/// What a [`Change`] says.
#[verifier::ext_equal]
pub struct ChangeModel {
    pub path: Seq<Seq<u8>>,
    pub kind: KindModel,
}

impl ChangeModel {
    /// Whether file content comes with the change.
    pub open spec fn has_content(self) -> bool {
        match self.kind {
            KindModel::Added { has_content, .. } => has_content,
            KindModel::Modified { has_content, .. } => has_content,
            KindModel::Removed(_) => false,
        }
    }

    /// The metadata that the entry has after the change, if the change says.
    pub open spec fn metadata_after(self) -> Option<Metadata> {
        match self.kind {
            KindModel::Added { entry, .. } => Some(entry.metadata),
            KindModel::Modified { new_metadata, .. } => new_metadata,
            KindModel::Removed(_) => None,
        }
    }

    /// Content never comes without the metadata that says how long it is.
    pub open spec fn wf(self) -> bool {
        self.has_content() ==> self.metadata_after() is Some
    }

    /// How many content bytes belong to the change.
    pub open spec fn content_size(self) -> nat {
        match self.metadata_after() {
            Some(m) if self.has_content() => m.size as nat,
            _ => 0,
        }
    }
}

impl View for Change {
    type V = ChangeModel;

    open spec fn view(&self) -> ChangeModel {
        ChangeModel {
            path: self.path@,
            kind: match self.kind {
                ChangeKind::Added(a) => KindModel::Added {
                    entry: a.entry@,
                    has_content: a.has_content,
                },
                ChangeKind::Modified(m) => KindModel::Modified {
                    new_metadata: m.new_metadata,
                    new_hash: entry::hash_view(m.new_hash),
                    has_content: m.has_content,
                    new_symlink_target: entry::target_view(m.new_symlink_target),
                },
                ChangeKind::Removed(k) => KindModel::Removed(k),
            },
        }
    }
}

/// What the changes of a list say.
pub open spec fn change_views(v: Seq<Change>) -> Seq<ChangeModel> {
    v.map_values(|c: Change| c@)
}

impl Change {
    /// Whether file content comes with the change.
    pub fn has_content(&self) -> (r: bool)
        ensures
            r == self@.has_content(),
    {
        match &self.kind {
            ChangeKind::Added(added) => added.has_content,
            ChangeKind::Modified(modified) => modified.has_content,
            ChangeKind::Removed(_) => false,
        }
    }
}

impl Clone for AddedEntry {
    fn clone(&self) -> (r: Self)
        ensures
            r.entry@ == self.entry@,
            r.has_content == self.has_content,
    {
        AddedEntry { entry: self.entry.clone(), has_content: self.has_content }
    }
}

impl Clone for ModifiedEntry {
    fn clone(&self) -> (r: Self)
        ensures
            r.new_metadata == self.new_metadata,
            r.new_hash == self.new_hash,
            r.has_content == self.has_content,
            entry::target_view(r.new_symlink_target) == entry::target_view(
                self.new_symlink_target,
            ),
    {
        ModifiedEntry {
            new_metadata: self.new_metadata,
            new_hash: self.new_hash,
            has_content: self.has_content,
            new_symlink_target: entry::copy_target(&self.new_symlink_target),
        }
    }
}

impl Clone for Change {
    fn clone(&self) -> (r: Self)
        ensures
            r@ == self@,
    {
        let path = self.path.clone();
        match &self.kind {
            ChangeKind::Added(a) => Change { path, kind: ChangeKind::Added(a.clone()) },
            ChangeKind::Modified(m) => Change { path, kind: ChangeKind::Modified(m.clone()) },
            ChangeKind::Removed(k) => Change { path, kind: ChangeKind::Removed(*k) },
        }
    }
}

/// The diff format as a whole.
pub struct Diff;

impl Diff {
    /// Version of the diff format.
    pub const CURRENT_VERSION: u32 = 1;
}

} // verus!
