//! Laying a diff out over one or several files.
//!
//! A diff holds all changes first and then all file content, in the order of
//! the changes. With a size limit it is split: a file takes changes while they
//! fit, with what ends the file, and the last one goes on with content while
//! there is room; a content that does not fit is cut, and the next file starts
//! with the rest of it. Whatever the limit, every file takes something.

use crate::format::header::{RECORD_HEADER_SIZE, TRAILER_SIZE};
use crate::model::diff;
use crate::model::diff::{Change, ChangeModel};
use vstd::prelude::*;

verus! {

/// Where in a file the layout stands.
#[derive(Clone, Copy, Debug, PartialEq, Eq, Structural)]
pub enum Phase {
    /// At the start of a file.
    Start,
    /// Among the changes.
    Changes,
    /// Among the file contents.
    Contents,
    /// In front of a content that has just been opened.
    Opened,
    /// At the end of a file.
    Full,
}

/// How far a diff has been laid out.
#[verifier::ext_equal]
pub struct SplitModel {
    /// Which changes have content.
    pub has_content: Seq<bool>,
    /// The next change to write.
    pub next_change: nat,
    /// The next change whose content is to be written.
    pub next_content: nat,
    /// How many bytes of that content are left, if it has been opened.
    pub open: Option<nat>,
    /// How many bytes a file should have at most.
    pub limit: Option<nat>,
    /// The number of the file, from 1.
    pub chunk: nat,
    pub phase: Phase,
}

/// What to do next.
pub enum StepModel {
    /// Write this change.
    WriteChange(nat),
    /// Open the content of this change, and say how long it is.
    OpenContent(nat),
    /// Write a record with this many bytes of the content of this change.
    WriteContent { index: nat, fragment: nat },
    /// End the file and start the next one.
    NextChunk,
    /// End the file; the diff is complete.
    Done,
}

/// The first change from `from` on, in front of `to`, that has content; `to` if
/// there is none.
pub open spec fn first_with_content(has_content: Seq<bool>, from: nat, to: nat) -> nat
    decreases to - from,
{
    if from >= to {
        to
    } else if has_content[from as int] {
        from
    } else {
        first_with_content(has_content, from + 1, to)
    }
}

/// What a record takes beside its payload, with what ends the file.
pub open spec fn overhead() -> nat {
    (RECORD_HEADER_SIZE + TRAILER_SIZE) as nat
}

impl SplitModel {
    /// Whether a file with `written` bytes takes one more change, which is
    /// serialized in `len` bytes, and keeps to the limit.
    pub open spec fn takes_change(self, written: nat, len: nat) -> bool {
        self.limit matches Some(max) ==> written + overhead() + len <= max
    }

    /// Whether a file with `written` bytes has room for some content.
    pub open spec fn has_room(self, written: nat) -> bool {
        self.limit matches Some(max) ==> written + overhead() < max
    }

    /// How much of `left` bytes of content goes into a file with `written`
    /// bytes: what keeps to the limit, or everything if nothing does.
    pub open spec fn fragment(self, left: nat, written: nat) -> nat {
        match self.limit {
            Some(max) => if max > written + overhead() && max - (written + overhead()) < left {
                (max - (written + overhead())) as nat
            } else {
                left
            },
            None => left,
        }
    }

    pub open spec fn close(self) -> (SplitModel, StepModel) {
        if self.next_change >= self.has_content.len() && self.next_content
            >= self.has_content.len() && self.open is None {
            (SplitModel { phase: Phase::Full, ..self }, StepModel::Done)
        } else {
            (
                SplitModel { phase: Phase::Start, chunk: self.chunk + 1, ..self },
                StepModel::NextChunk,
            )
        }
    }

    pub open spec fn write_content(self, left: nat, written: nat, then_phase: Phase) -> (
        SplitModel,
        StepModel,
    ) {
        let fragment = self.fragment(left, written);
        (
            if fragment == left {
                SplitModel {
                    next_content: self.next_content + 1,
                    open: None,
                    phase: then_phase,
                    ..self
                }
            } else {
                SplitModel { open: Some((left - fragment) as nat), phase: Phase::Full, ..self }
            },
            StepModel::WriteContent { index: self.next_content, fragment },
        )
    }

    /// Content is next, in a file with `written` bytes; if it is `fresh`, it
    /// holds no record and takes what comes.
    pub open spec fn in_contents(self, fresh: bool, written: nat) -> (SplitModel, StepModel) {
        let at = SplitModel {
            next_content: first_with_content(
                self.has_content,
                self.next_content,
                self.next_change,
            ),
            ..self
        };
        if at.next_content >= at.next_change || !(fresh || at.has_room(written)) {
            at.close()
        } else {
            (
                SplitModel { phase: Phase::Opened, ..at },
                StepModel::OpenContent(at.next_content),
            )
        }
    }

    /// A change is next, which is serialized in `len` bytes, or content if there
    /// are no more changes.
    pub open spec fn in_changes(self, fresh: bool, written: nat, len: nat) -> (
        SplitModel,
        StepModel,
    ) {
        if self.next_change >= self.has_content.len() {
            self.in_contents(fresh, written)
        } else if fresh || self.takes_change(written, len) {
            (
                SplitModel {
                    next_change: self.next_change + 1,
                    phase: Phase::Changes,
                    ..self
                },
                StepModel::WriteChange(self.next_change),
            )
        } else {
            self.close()
        }
    }

    /// What to do next, where the current file has `written` bytes and the next
    /// change, if there is one, is serialized in `len` bytes.
    pub open spec fn next(self, written: nat, len: nat) -> (SplitModel, StepModel) {
        match (self.phase, self.open) {
            (Phase::Start, Some(left)) => self.write_content(left, written, Phase::Changes),
            (Phase::Start, None) => self.in_changes(true, written, len),
            (Phase::Changes, _) => self.in_changes(false, written, len),
            (Phase::Contents, _) => self.in_contents(false, written),
            (Phase::Opened, Some(left)) => self.write_content(left, written, Phase::Contents),
            (Phase::Opened, None) => self.close(),
            (Phase::Full, _) => self.close(),
        }
    }

    /// At most what has been announced has been opened.
    pub open spec fn wf(self) -> bool {
        &&& self.next_content <= self.next_change <= self.has_content.len()
        &&& self.open is Some ==> self.next_content < self.next_change
        &&& self.phase is Opened ==> self.next_content < self.next_change
        &&& self.phase is Changes || self.phase is Contents ==> self.open is None
    }
}

/// What to do next.
#[derive(Clone, Copy, Debug, PartialEq, Eq, Structural)]
pub enum SplitStep {
    /// Write this change.
    WriteChange(usize),
    /// Open the content of this change, and say how long it is with
    /// [`SplitPlanner::content_opened`].
    OpenContent(usize),
    /// Write a record with this many bytes of the content of this change.
    WriteContent { index: usize, fragment: u64 },
    /// End the file and start the next one.
    NextChunk,
    /// End the file; the diff is complete.
    Done,
}

impl View for SplitStep {
    type V = StepModel;

    open spec fn view(&self) -> StepModel {
        match self {
            SplitStep::WriteChange(i) => StepModel::WriteChange(*i as nat),
            SplitStep::OpenContent(i) => StepModel::OpenContent(*i as nat),
            SplitStep::WriteContent { index, fragment } => StepModel::WriteContent {
                index: *index as nat,
                fragment: *fragment as nat,
            },
            SplitStep::NextChunk => StepModel::NextChunk,
            SplitStep::Done => StepModel::Done,
        }
    }
}

/// Lays a diff out over one or several files, step by step.
pub struct SplitPlanner {
    has_content: Vec<bool>,
    next_change: usize,
    next_content: usize,
    open: Option<u64>,
    limit: Option<u64>,
    chunk: u32,
    phase: Phase,
}

impl View for SplitPlanner {
    type V = SplitModel;

    closed spec fn view(&self) -> SplitModel {
        SplitModel {
            has_content: self.has_content@,
            next_change: self.next_change as nat,
            next_content: self.next_content as nat,
            open: match self.open {
                Some(left) => Some(left as nat),
                None => None,
            },
            limit: match self.limit {
                Some(max) => Some(max as nat),
                None => None,
            },
            chunk: self.chunk as nat,
            phase: self.phase,
        }
    }
}

/// Which changes have content.
pub open spec fn content_flags(cs: Seq<ChangeModel>) -> Seq<bool> {
    cs.map_values(|c: ChangeModel| c.has_content())
}

/// The layout of a diff before anything has been written.
pub open spec fn layout_start(cs: Seq<ChangeModel>, limit: Option<nat>) -> SplitModel {
    SplitModel {
        has_content: content_flags(cs),
        next_change: 0,
        next_content: 0,
        open: None,
        limit,
        chunk: 1,
        phase: Phase::Start,
    }
}

impl SplitPlanner {
    pub open spec fn wf(&self) -> bool {
        self@.wf()
    }

    /// The layout of a diff with the given changes, in files of at most
    /// `limit` bytes if there is a limit.
    pub fn new(changes: &Vec<Change>, limit: Option<u64>) -> (r: Self)
        ensures
            r.wf(),
            r@ == layout_start(
                diff::change_views(changes@),
                match limit {
                    Some(max) => Some(max as nat),
                    None => None,
                },
            ),
    {
        let mut has_content: Vec<bool> = Vec::new();
        let mut i: usize = 0;
        while i < changes.len()
            invariant
                i <= changes@.len(),
                has_content@.len() == i,
                forall|k: int| 0 <= k < i ==> has_content@[k] == changes@[k]@.has_content(),
            decreases changes@.len() - i,
        {
            has_content.push(changes[i].has_content());
            i = i + 1;
        }
        let r = SplitPlanner {
            has_content,
            next_change: 0,
            next_content: 0,
            open: None,
            limit,
            chunk: 1,
            phase: Phase::Start,
        };
        assert(r@.has_content =~= content_flags(diff::change_views(changes@)));
        r
    }

    /// Whether the diff takes any file. A diff without changes that is to be
    /// split takes none.
    pub fn needs_file(&self) -> (r: bool)
        ensures
            r == (self@.limit is None || self@.has_content.len() > 0),
    {
        self.limit.is_none() || self.has_content.len() > 0
    }

    /// The next change to write, if there is one.
    pub fn upcoming(&self) -> (r: Option<usize>)
        ensures
            match r {
                Some(i) => i == self@.next_change && i < self@.has_content.len(),
                None => self@.next_change >= self@.has_content.len(),
            },
    {
        if self.next_change < self.has_content.len() {
            Some(self.next_change)
        } else {
            None
        }
    }

    /// The number of the current file, from 1.
    pub fn chunk_number(&self) -> (r: u32)
        ensures
            r == self@.chunk,
    {
        self.chunk
    }

    /// Takes note of the length of a content that was to be opened.
    pub fn content_opened(&mut self, size: u64)
        requires
            old(self).wf(),
            old(self)@.phase is Opened,
        ensures
            final(self).wf(),
            final(self)@ == (SplitModel { open: Some(size as nat), ..old(self)@ }),
    {
        self.open = Some(size);
    }

    fn close(&mut self) -> (r: SplitStep)
        requires
            old(self).wf(),
            old(self)@.chunk < u32::MAX,
        ensures
            final(self).wf(),
            (final(self)@, r@) == old(self)@.close(),
    {
        if self.next_change >= self.has_content.len() && self.next_content
            >= self.has_content.len() && self.open.is_none() {
            self.phase = Phase::Full;
            SplitStep::Done
        } else {
            self.phase = Phase::Start;
            self.chunk = self.chunk + 1;
            SplitStep::NextChunk
        }
    }

    /// How many bytes a file with `written` bytes has left for a payload, if it
    /// is to keep to the limit `max`.
    fn budget(max: u64, written: u64) -> (r: Option<u64>)
        ensures
            match r {
                Some(n) => written + overhead() + n == max,
                None => written + overhead() > max,
            },
    {
        let overhead: u64 = RECORD_HEADER_SIZE + TRAILER_SIZE;
        if max >= overhead && written <= max - overhead {
            Some(max - overhead - written)
        } else {
            None
        }
    }

    /// Writes as much of an open content as one file takes: what keeps to the
    /// limit. If nothing does, everything is written, so that there is always
    /// progress.
    fn write_content_fragment(&mut self, left: u64, written: u64, then_phase: Phase) -> (r:
        SplitStep)
        requires
            old(self).wf(),
            old(self)@.open == Some(left as nat),
            then_phase is Changes || then_phase is Contents,
        ensures
            final(self).wf(),
            (final(self)@, r@) == old(self)@.write_content(
                left as nat,
                written as nat,
                then_phase,
            ),
    {
        let index: usize = self.next_content;
        let fragment: u64 = match self.limit {
            Some(max) => match Self::budget(max, written) {
                Some(n) => if n > 0 && n < left {
                    n
                } else {
                    left
                },
                None => left,
            },
            None => left,
        };
        if fragment == left {
            self.next_content = self.next_content + 1;
            self.open = None;
            self.phase = then_phase;
        } else {
            self.open = Some(left - fragment);
            self.phase = Phase::Full;
        }
        SplitStep::WriteContent { index, fragment }
    }

    fn in_contents(&mut self, fresh: bool, written: u64) -> (r: SplitStep)
        requires
            old(self).wf(),
            old(self)@.open is None,
            !(old(self)@.phase is Opened),
            old(self)@.chunk < u32::MAX,
        ensures
            final(self).wf(),
            (final(self)@, r@) == old(self)@.in_contents(fresh, written as nat),
    {
        while self.next_content < self.next_change && !self.has_content[self.next_content]
            invariant
                self.wf(),
                self@.open is None,
                self@ == (SplitModel { next_content: self@.next_content, ..old(self)@ }),
                first_with_content(
                    self@.has_content,
                    self@.next_content,
                    self@.next_change,
                ) == first_with_content(
                    old(self)@.has_content,
                    old(self)@.next_content,
                    old(self)@.next_change,
                ),
                self.next_content <= self.next_change <= self.has_content@.len(),
                self@.phase == old(self)@.phase,
                old(self)@.chunk < u32::MAX,
                !(old(self)@.phase is Opened),
            decreases self.next_change - self.next_content,
        {
            self.next_content = self.next_content + 1;
        }
        let room: bool = match self.limit {
            Some(max) => match Self::budget(max, written) {
                Some(n) => n > 0,
                None => false,
            },
            None => true,
        };
        if self.next_content >= self.next_change || !(fresh || room) {
            return self.close();
        }
        self.phase = Phase::Opened;
        SplitStep::OpenContent(self.next_content)
    }

    fn in_changes(&mut self, fresh: bool, written: u64, next_len: u64) -> (r: SplitStep)
        requires
            old(self).wf(),
            old(self)@.open is None,
            !(old(self)@.phase is Opened),
            old(self)@.chunk < u32::MAX,
        ensures
            final(self).wf(),
            (final(self)@, r@) == old(self)@.in_changes(fresh, written as nat, next_len as nat),
    {
        if self.next_change >= self.has_content.len() {
            return self.in_contents(fresh, written);
        }
        let fits: bool = match self.limit {
            Some(max) => match Self::budget(max, written) {
                Some(n) => next_len <= n,
                None => false,
            },
            None => true,
        };
        if !(fresh || fits) {
            return self.close();
        }
        let index: usize = self.next_change;
        self.next_change = self.next_change + 1;
        self.phase = Phase::Changes;
        SplitStep::WriteChange(index)
    }

    /// What to do next, where the current file has `written` bytes and the next
    /// change, if there is one, is serialized in `next_len` bytes.
    pub fn next(&mut self, written: u64, next_len: u64) -> (r: SplitStep)
        requires
            old(self).wf(),
            old(self)@.chunk < u32::MAX,
        ensures
            final(self).wf(),
            (final(self)@, r@) == old(self)@.next(written as nat, next_len as nat),
    {
        match (self.phase, self.open) {
            (Phase::Start, Some(left)) => self.write_content_fragment(
                left,
                written,
                Phase::Changes,
            ),
            (Phase::Opened, Some(left)) => self.write_content_fragment(
                left,
                written,
                Phase::Contents,
            ),
            (Phase::Start, None) => self.in_changes(true, written, next_len),
            (Phase::Changes, _) => self.in_changes(false, written, next_len),
            (Phase::Contents, _) => self.in_contents(false, written),
            (Phase::Opened, None) => self.close(),
            (Phase::Full, _) => self.close(),
        }
    }
}

} // verus!
