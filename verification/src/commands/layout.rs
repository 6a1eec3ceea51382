//! What laying a diff out over files and reading it back promise together.

use crate::commands::apply;
use crate::commands::content::PendingModel;
use crate::commands::split;
use crate::commands::split::{Phase, SplitModel, StepModel};
use crate::format::filter;
use crate::format::header::{RecordModel, RecordType, TRAILER_SIZE};
use crate::model::diff::ChangeModel;
use vstd::prelude::*;

verus! {

/// A record of a diff.
#[verifier::ext_equal]
pub enum DiffRecord {
    Change(ChangeModel),
    Content(Seq<u8>),
}

/// What is to be laid out.
pub struct Material {
    pub changes: Seq<ChangeModel>,
    /// The file content of each change that has any.
    pub contents: Seq<Seq<u8>>,
    /// How many bytes each change is serialized in.
    pub change_lens: Seq<nat>,
    /// How many bytes stand in front of the first record of each file, by its
    /// number.
    pub header: spec_fn(nat) -> nat,
    /// How many bytes a file should have at most.
    pub limit: Option<nat>,
}

impl Material {
    /// Contents are as long as the metadata of their changes says, and no change
    /// is serialized in nothing.
    pub open spec fn wf(self) -> bool {
        &&& self.contents.len() == self.changes.len()
        &&& self.change_lens.len() == self.changes.len()
        &&& forall|i: int|
            0 <= i < self.changes.len() && (#[trigger] self.changes[i]).has_content()
                ==> self.contents[i].len() == self.changes[i].content_size()
        &&& forall|i: int| 0 <= i < self.changes.len() ==> (#[trigger] self.change_lens[i]) > 0
    }

    /// Whether the limit leaves room for every header, with any one change, and
    /// with what ends a file.
    pub open spec fn is_roomy(self) -> bool {
        self.limit matches Some(max) ==> forall|k: nat|
            {
                &&& #[trigger] (self.header)(k) + TRAILER_SIZE <= max
                &&& forall|i: int|
                    0 <= i < self.changes.len() ==> (self.header)(k) + split::overhead()
                        + #[trigger] self.change_lens[i] <= max
            }
    }

    /// Whether a file that has this many bytes in front of what ends it keeps to
    /// the limit.
    pub open spec fn fits(self, size: nat) -> bool {
        self.limit matches Some(max) ==> size + TRAILER_SIZE <= max
    }

    /// The length of the next change.
    pub open spec fn next_len(self, plan: SplitModel) -> nat {
        if plan.next_change < self.changes.len() {
            self.change_lens[plan.next_change as int]
        } else {
            0
        }
    }
}

/// What has been laid out.
#[verifier::ext_equal]
pub struct Layout {
    pub plan: SplitModel,
    /// How many bytes the last file has, without what ends it.
    pub written: nat,
    /// The records of each file.
    pub files: Seq<Seq<DiffRecord>>,
    /// How many bytes each file but the last has, without what ends it.
    pub sizes: Seq<nat>,
    /// Whether everything has been laid out.
    pub done: bool,
}

pub open spec fn start(m: Material) -> Layout {
    Layout {
        plan: split::layout_start(m.changes, m.limit),
        written: (m.header)(1),
        files: seq![Seq::empty()],
        sizes: Seq::empty(),
        done: false,
    }
}

/// The files with one more record in the last one.
pub open spec fn with_record(files: Seq<Seq<DiffRecord>>, r: DiffRecord) -> Seq<Seq<DiffRecord>> {
    files.drop_last().push(files.last().push(r))
}

/// What the plan says to do next.
pub open spec fn next_step(m: Material, l: Layout) -> StepModel {
    l.plan.next(l.written, m.next_len(l.plan)).1
}

/// The layout after following the plan for one step.
pub open spec fn step(m: Material, l: Layout) -> Layout {
    if l.done {
        l
    } else {
        let (plan, todo) = l.plan.next(l.written, m.next_len(l.plan));
        match todo {
            StepModel::WriteChange(i) => Layout {
                plan,
                written: l.written + 9 + m.change_lens[i as int],
                files: with_record(l.files, DiffRecord::Change(m.changes[i as int])),
                ..l
            },
            StepModel::OpenContent(i) => Layout {
                plan: SplitModel { open: Some(m.contents[i as int].len()), ..plan },
                ..l
            },
            StepModel::WriteContent { index, fragment } => {
                let content = m.contents[index as int];
                let left = match l.plan.open {
                    Some(left) => left,
                    None => 0,
                };
                let from = content.len() - left;
                Layout {
                    plan,
                    written: l.written + 9 + fragment,
                    files: with_record(
                        l.files,
                        DiffRecord::Content(content.subrange(from, from + fragment)),
                    ),
                    ..l
                }
            },
            StepModel::NextChunk => Layout {
                plan,
                written: (m.header)(plan.chunk),
                files: l.files.push(Seq::empty()),
                sizes: l.sizes.push(l.written),
                ..l
            },
            StepModel::Done => Layout { plan, done: true, ..l },
        }
    }
}

/// The layout after `k` steps from `l`.
pub open spec fn after(m: Material, l: Layout, k: nat) -> Layout
    decreases k,
{
    if k == 0 {
        l
    } else {
        after(m, step(m, l), (k - 1) as nat)
    }
}

/// The records of all files, one after the other.
pub open spec fn all_records(files: Seq<Seq<DiffRecord>>) -> Seq<DiffRecord>
    decreases files.len(),
{
    if files.len() == 0 {
        Seq::empty()
    } else {
        all_records(files.drop_last()) + files.last()
    }
}

/// The changes among some records.
pub open spec fn changes_in(rs: Seq<DiffRecord>) -> Seq<ChangeModel>
    decreases rs.len(),
{
    if rs.len() == 0 {
        Seq::empty()
    } else {
        match rs.last() {
            DiffRecord::Change(c) => changes_in(rs.drop_last()).push(c),
            DiffRecord::Content(_) => changes_in(rs.drop_last()),
        }
    }
}

/// The changes at the front of some records, up to the first content.
pub open spec fn leading_changes(rs: Seq<DiffRecord>) -> Seq<ChangeModel>
    decreases rs.len(),
{
    if rs.len() == 0 {
        Seq::empty()
    } else {
        match rs[0] {
            DiffRecord::Change(c) => seq![c] + leading_changes(rs.drop_first()),
            DiffRecord::Content(_) => Seq::empty(),
        }
    }
}

/// The changes at the front of each file.
pub open spec fn leading_changes_of(files: Seq<Seq<DiffRecord>>) -> Seq<ChangeModel>
    decreases files.len(),
{
    if files.len() == 0 {
        Seq::empty()
    } else {
        leading_changes_of(files.drop_last()) + leading_changes(files.last())
    }
}

/// What has been put together from some records: what still waits for content,
/// and the contents that are complete, each with its change.
pub open spec fn assembled(rs: Seq<DiffRecord>) -> (PendingModel, Seq<(ChangeModel, Seq<u8>)>)
    decreases rs.len(),
{
    if rs.len() == 0 {
        (PendingModel { queue: Seq::empty(), current: None }, Seq::empty())
    } else {
        let (pending, jobs) = assembled(rs.drop_last());
        match rs.last() {
            DiffRecord::Change(c) => (pending.with_change(c), jobs),
            DiffRecord::Content(data) => {
                let (next, job) = pending.with_content(data);
                match job {
                    Some(j) => (next, jobs.push(j)),
                    None => (next, jobs),
                }
            },
        }
    }
}

/// The changes with content among those from `from` on, in front of `to`.
pub open spec fn waiting(cs: Seq<ChangeModel>, from: nat, to: nat) -> Seq<ChangeModel>
    decreases to - from,
{
    if from >= to {
        Seq::empty()
    } else if cs[to - 1].has_content() {
        waiting(cs, from, (to - 1) as nat).push(cs[to - 1])
    } else {
        waiting(cs, from, (to - 1) as nat)
    }
}

/// The changes with content in front of `to`, each with its content.
pub open spec fn complete(m: Material, to: nat) -> Seq<(ChangeModel, Seq<u8>)>
    decreases to,
{
    if to == 0 {
        Seq::empty()
    } else if m.changes[to - 1].has_content() {
        complete(m, (to - 1) as nat).push((m.changes[to - 1], m.contents[to - 1]))
    } else {
        complete(m, (to - 1) as nat)
    }
}

/// Whether no change stands behind a content.
pub open spec fn changes_first(rs: Seq<DiffRecord>) -> bool {
    forall|i: int, j: int|
        0 <= i < j < rs.len() && (#[trigger] rs[i]) is Content ==> (#[trigger] rs[j]) is Content
}

/// Whether part of the open content has been written.
pub open spec fn is_cut(plan: SplitModel) -> bool {
    plan.open is Some && !(plan.phase is Opened)
}

/// What holds at every step of a layout.
pub open spec fn inv(m: Material, l: Layout) -> bool {
    let plan = l.plan;
    let n = m.changes.len();
    let rs = all_records(l.files);
    let at = plan.next_content;
    &&& plan.has_content == split::content_flags(m.changes)
    &&& plan.limit == m.limit
    &&& plan.wf()
    &&& l.files.len() > 0
    &&& l.files.len() == plan.chunk
    // Content starts only behind the last change.
    &&& plan.next_change < n ==> {
        &&& plan.open is None
        &&& plan.phase is Start || plan.phase is Changes
        &&& complete(m, at).len() == 0
        &&& forall|i: int| 0 <= i < rs.len() ==> (#[trigger] rs[i]) is Change
    }
    &&& plan.open matches Some(left) ==> {
        &&& m.changes[at as int].has_content()
        &&& left <= m.contents[at as int].len()
        &&& plan.phase is Opened ==> left == m.contents[at as int].len()
        &&& !(plan.phase is Opened) ==> left > 0
    }
    &&& plan.phase is Opened ==> plan.open is Some
    &&& changes_first(rs)
    &&& forall|k: int| 0 <= k < l.files.len() ==> changes_first(#[trigger] l.files[k])
    &&& changes_in(rs) == m.changes.take(plan.next_change as int)
    &&& assembled(rs).1 == complete(m, at)
    &&& assembled(rs).0 == if is_cut(plan) {
        PendingModel {
            queue: waiting(m.changes, at + 1, plan.next_change),
            current: Some(
                (
                    m.changes[at as int],
                    m.contents[at as int].take(m.contents[at as int].len() - plan.open->0),
                ),
            ),
        }
    } else {
        PendingModel { queue: waiting(m.changes, at, plan.next_change), current: None }
    }
    &&& l.done ==> plan.next_change == n && at == n && plan.open is None
    &&& plan.phase is Start ==> l.written == (m.header)(plan.chunk)
    &&& plan.phase is Opened ==> plan.has_room(l.written) || l.written == (m.header)(plan.chunk)
    // Every file takes something.
    &&& forall|k: int| 0 <= k < l.files.len() - 1 ==> (#[trigger] l.files[k]).len() > 0
    &&& l.files.last().len() == 0 ==> plan.phase is Start || plan.phase is Opened || n == 0
    &&& plan.phase is Start && plan.open is None && plan.next_change == n && n > 0 ==> at < n
        && m.changes[at as int].has_content()
    &&& plan.phase is Full ==> l.done || plan.open is Some
    &&& m.limit is None ==> {
        &&& l.files.len() == 1
        &&& plan.phase is Full ==> l.done
        &&& plan.phase is Start ==> plan.open is None
    }
    &&& m.is_roomy() ==> m.fits(l.written) && forall|k: int|
        0 <= k < l.sizes.len() ==> m.fits(#[trigger] l.sizes[k])
    &&& l.sizes.len() + 1 == l.files.len()
}

pub proof fn lemma_with_record(files: Seq<Seq<DiffRecord>>, r: DiffRecord)
    requires
        files.len() > 0,
    ensures
        with_record(files, r).len() == files.len(),
        all_records(with_record(files, r)) == all_records(files).push(r),
        with_record(files, r).last() == files.last().push(r),
        forall|k: int| 0 <= k < files.len() - 1 ==> #[trigger] with_record(files, r)[k] == files[k],
{
    let next = with_record(files, r);
    assert(next.drop_last() =~= files.drop_last());
    assert(next.last() == files.last().push(r));
    assert(all_records(next) =~= all_records(files).push(r));
}

proof fn lemma_first_with_content(cs: Seq<ChangeModel>, from: nat, to: nat)
    requires
        from <= to <= cs.len(),
    ensures
        ({
            let flags = split::content_flags(cs);
            let at = split::first_with_content(flags, from, to);
            &&& from <= at <= to
            &&& at < to ==> cs[at as int].has_content()
            &&& forall|i: int| from <= i < at ==> !(#[trigger] cs[i]).has_content()
        }),
    decreases to - from,
{
    if from < to {
        let flags = split::content_flags(cs);
        assert(flags[from as int] == cs[from as int].has_content());
        if !flags[from as int] {
            lemma_first_with_content(cs, from + 1, to);
        }
    }
}

/// Changes without content do not wait.
proof fn lemma_waiting_skip(cs: Seq<ChangeModel>, from: nat, at: nat, to: nat)
    requires
        from <= at <= to <= cs.len(),
        forall|i: int| from <= i < at ==> !(#[trigger] cs[i]).has_content(),
    ensures
        waiting(cs, from, to) == waiting(cs, at, to),
    decreases to - from,
{
    if from < to {
        if to == at {
            assert(!cs[to - 1].has_content());
            lemma_waiting_skip(cs, from, (to - 1) as nat, (to - 1) as nat);
        } else {
            lemma_waiting_skip(cs, from, at, (to - 1) as nat);
        }
    }
}

/// The first change that waits, taken off.
proof fn lemma_waiting_first(cs: Seq<ChangeModel>, from: nat, to: nat)
    requires
        from < to <= cs.len(),
        cs[from as int].has_content(),
    ensures
        waiting(cs, from, to) == seq![cs[from as int]] + waiting(cs, from + 1, to),
    decreases to - from,
{
    if to - 1 == from {
        assert(waiting(cs, from, from) =~= Seq::<ChangeModel>::empty());
        assert(waiting(cs, from + 1, to) =~= Seq::<ChangeModel>::empty());
        assert(waiting(cs, from, to) =~= seq![cs[from as int]] + waiting(cs, from + 1, to));
    } else {
        lemma_waiting_first(cs, from, (to - 1) as nat);
        assert(waiting(cs, from, to) =~= seq![cs[from as int]] + waiting(cs, from + 1, to));
    }
}

proof fn lemma_complete_skip(m: Material, from: nat, at: nat)
    requires
        from <= at <= m.changes.len(),
        forall|i: int| from <= i < at ==> !(#[trigger] m.changes[i]).has_content(),
    ensures
        complete(m, from) == complete(m, at),
    decreases at - from,
{
    if from < at {
        assert(!m.changes[at - 1].has_content());
        lemma_complete_skip(m, from, (at - 1) as nat);
    }
}

proof fn lemma_push_change(rs: Seq<DiffRecord>, c: ChangeModel)
    ensures
        changes_in(rs.push(DiffRecord::Change(c))) == changes_in(rs).push(c),
        assembled(rs.push(DiffRecord::Change(c))) == (
            assembled(rs).0.with_change(c),
            assembled(rs).1,
        ),
{
    assert(rs.push(DiffRecord::Change(c)).drop_last() =~= rs);
}

proof fn lemma_push_content(rs: Seq<DiffRecord>, data: Seq<u8>)
    ensures
        changes_in(rs.push(DiffRecord::Content(data))) == changes_in(rs),
        ({
            let (next, job) = assembled(rs).0.with_content(data);
            assembled(rs.push(DiffRecord::Content(data))) == match job {
                Some(j) => (next, assembled(rs).1.push(j)),
                None => (next, assembled(rs).1),
            }
        }),
{
    assert(rs.push(DiffRecord::Content(data)).drop_last() =~= rs);
}

/// What holds at the start of a layout.
pub proof fn lemma_start(m: Material)
    requires
        m.wf(),
    ensures
        inv(m, start(m)),
{
    let l = start(m);
    let rs = all_records(l.files);
    assert(l.files.drop_last() =~= Seq::<Seq<DiffRecord>>::empty());
    assert(all_records(l.files.drop_last()) =~= Seq::<DiffRecord>::empty());
    assert(rs =~= Seq::<DiffRecord>::empty());
    assert(changes_in(rs) =~= m.changes.take(0));
    assert(waiting(m.changes, 0, 0) =~= Seq::<ChangeModel>::empty());
    assert(complete(m, 0) =~= Seq::<(ChangeModel, Seq<u8>)>::empty());
    assert(assembled(rs).0 =~= (PendingModel { queue: Seq::empty(), current: None }));
}

proof fn lemma_step_change(m: Material, l: Layout)
    requires
        m.wf(),
        inv(m, l),
        !l.done,
        next_step(m, l) is WriteChange,
    ensures
        inv(m, step(m, l)),
{
    let plan = l.plan;
    let i = plan.next_change;
    let c = m.changes[i as int];
    let next = step(m, l);
    let rs = all_records(l.files);
    if plan.phase is Contents {
        lemma_first_with_content(m.changes, plan.next_content, plan.next_change);
    }
    assert(i < m.changes.len());
    assert(next.plan == (SplitModel { next_change: i + 1, phase: Phase::Changes, ..plan }));
    lemma_with_record(l.files, DiffRecord::Change(c));
    lemma_push_change(rs, c);
    let rs2 = all_records(next.files);
    if m.is_roomy() && m.limit is Some {
        assert((m.header)(plan.chunk) + split::overhead() + m.change_lens[i as int]
            <= m.limit->0);
        assert(m.fits(next.written));
    }
    assert(m.changes.take((i + 1) as int) =~= m.changes.take(i as int).push(c));
    assert(changes_first(rs2));
    assert forall|k: int| 0 <= k < next.files.len() implies changes_first(
        #[trigger] next.files[k],
    ) by {
        if k < l.files.len() - 1 {
            assert(next.files[k] == l.files[k]);
        } else {
            assert(next.files[k] == l.files.last().push(DiffRecord::Change(c)));
            lemma_last_file_records(l.files);
            assert forall|a: int, b: int|
                0 <= a < b < next.files[k].len() && (#[trigger] next.files[k][a])
                    is Content implies (#[trigger] next.files[k][b]) is Content by {
                assert(l.files.last()[a] is Change);
            }
        }
    }
    assert(assembled(rs2).0 =~= (PendingModel {
        queue: waiting(m.changes, plan.next_content, i + 1),
        current: None,
    }));
}

/// The records of the last file are the last of all records.
proof fn lemma_last_file_records(files: Seq<Seq<DiffRecord>>)
    requires
        files.len() > 0,
    ensures
        ({
            let rs = all_records(files);
            let before = rs.len() - files.last().len();
            &&& before >= 0
            &&& forall|i: int|
                0 <= i < files.last().len() ==> #[trigger] files.last()[i] == rs[before + i]
        }),
{
}

proof fn lemma_step_content(m: Material, l: Layout)
    requires
        m.wf(),
        inv(m, l),
        !l.done,
        next_step(m, l) is WriteContent,
    ensures
        inv(m, step(m, l)),
{
    let plan = l.plan;
    if plan.phase is Contents || plan.phase is Changes || plan.open is None {
        lemma_first_with_content(m.changes, plan.next_content, plan.next_change);
    }
    let left = plan.open->0;
    let at = plan.next_content;
    let c = m.changes[at as int];
    let content = m.contents[at as int];
    let fragment = plan.fragment(left, l.written);
    let from = content.len() - left;
    let data = content.subrange(from, from + fragment);
    let next = step(m, l);
    let rs = all_records(l.files);
    assert(plan.next_change == m.changes.len());
    if m.is_roomy() && m.limit is Some {
        assert((m.header)(plan.chunk) + split::overhead() + m.change_lens[at as int]
            <= m.limit->0);
        assert(m.change_lens[at as int] > 0);
        assert(plan.has_room(l.written));
        assert(l.written + 9 + fragment + TRAILER_SIZE <= m.limit->0);
        assert(m.fits(next.written));
    }
    assert(next.files == with_record(l.files, DiffRecord::Content(data)));
    lemma_with_record(l.files, DiffRecord::Content(data));
    lemma_push_content(rs, data);
    let rs2 = all_records(next.files);
    let pending = assembled(rs).0;
    if is_cut(plan) {
        assert(content.take(from) + data =~= content.take(from + fragment));
    } else {
        lemma_waiting_first(m.changes, at, plan.next_change);
        assert(pending.queue[0] == c);
        assert(pending.queue.drop_first() =~= waiting(m.changes, at + 1, plan.next_change));
        assert(Seq::<u8>::empty() + data =~= content.take(from + fragment));
    }
    let filled = pending.taken_up().extended(data);
    assert(filled =~= (PendingModel {
        queue: waiting(m.changes, at + 1, plan.next_change),
        current: Some((c, content.take(from + fragment))),
    }));
    if fragment == left {
        assert(content.take(from + fragment) =~= content);
        assert(filled.is_complete());
    } else {
        assert(!filled.is_complete());
    }
    assert(changes_first(rs2));
    assert forall|k: int| 0 <= k < next.files.len() implies changes_first(
        #[trigger] next.files[k],
    ) by {
        if k < l.files.len() - 1 {
            assert(next.files[k] == l.files[k]);
        } else {
            assert(changes_first(l.files[k]));
        }
    }
}

proof fn lemma_step_open(m: Material, l: Layout)
    requires
        m.wf(),
        inv(m, l),
        !l.done,
        next_step(m, l) is OpenContent,
    ensures
        inv(m, step(m, l)),
{
    let plan = l.plan;
    let next = step(m, l);
    lemma_first_with_content(m.changes, plan.next_content, plan.next_change);
    let at = split::first_with_content(plan.has_content, plan.next_content, plan.next_change);
    lemma_waiting_skip(m.changes, plan.next_content, at, plan.next_change);
    lemma_complete_skip(m, plan.next_content, at);
    assert(plan.next_change == m.changes.len());
    assert(next.plan == (SplitModel {
        next_content: at,
        phase: Phase::Opened,
        open: Some(m.contents[at as int].len()),
        ..plan
    }));
}

proof fn lemma_step_close(m: Material, l: Layout)
    requires
        m.wf(),
        inv(m, l),
        !l.done,
        next_step(m, l) is NextChunk || next_step(m, l) is Done,
    ensures
        inv(m, step(m, l)),
{
    let plan = l.plan;
    let next = step(m, l);
    if plan.open is None {
        lemma_first_with_content(m.changes, plan.next_content, plan.next_change);
        let at = split::first_with_content(plan.has_content, plan.next_content, plan.next_change);
        lemma_waiting_skip(m.changes, plan.next_content, at, plan.next_change);
        lemma_complete_skip(m, plan.next_content, at);
    }
    if next_step(m, l) is NextChunk {
        assert(next.files.drop_last() =~= l.files);
        assert(all_records(next.files) =~= all_records(l.files));
        assert forall|k: int| 0 <= k < next.files.len() implies changes_first(
            #[trigger] next.files[k],
        ) by {
            if k < l.files.len() {
                assert(next.files[k] == l.files[k]);
            }
        }
    }
}

/// Every step keeps what holds.
pub proof fn lemma_step(m: Material, l: Layout)
    requires
        m.wf(),
        inv(m, l),
    ensures
        inv(m, step(m, l)),
{
    if !l.done {
        match next_step(m, l) {
            StepModel::WriteChange(_) => {
                lemma_step_change(m, l);
            },
            StepModel::OpenContent(_) => {
                lemma_step_open(m, l);
            },
            StepModel::WriteContent { .. } => {
                lemma_step_content(m, l);
            },
            StepModel::NextChunk => {
                lemma_step_close(m, l);
            },
            StepModel::Done => {
                lemma_step_close(m, l);
            },
        }
    }
}

/// What holds is kept for any number of steps.
pub proof fn lemma_after(m: Material, l: Layout, k: nat)
    requires
        m.wf(),
        inv(m, l),
    ensures
        inv(m, after(m, l, k)),
    decreases k,
{
    if k > 0 {
        lemma_step(m, l);
        lemma_after(m, step(m, l), (k - 1) as nat);
    }
}

/// How many steps it takes from `l` until everything is laid out. Each step
/// writes a change, finishes or starts or shortens a content, or goes on to the
/// next file, where one of these follows.
proof fn lemma_ends(m: Material, l: Layout) -> (k: nat)
    requires
        m.wf(),
        inv(m, l),
    ensures
        after(m, l, k).done,
    decreases
            (if l.done {
                0nat
            } else {
                1nat
            }),
            m.changes.len() - l.plan.next_change,
            m.changes.len() - l.plan.next_content,
            (if l.plan.open is None {
                1nat
            } else {
                0nat
            }),
            (if l.plan.open is None {
                0nat
            } else {
                l.plan.open->0
            }),
            (if l.plan.phase is Start {
                0nat
            } else {
                1nat
            }),
{
    if l.done {
        0
    } else {
        lemma_step(m, l);
        lemma_first_with_content(m.changes, l.plan.next_content, l.plan.next_change);
        let k = lemma_ends(m, step(m, l));
        k + 1
    }
}

proof fn lemma_changes_in_append(a: Seq<DiffRecord>, b: Seq<DiffRecord>)
    ensures
        changes_in(a + b) == changes_in(a) + changes_in(b),
    decreases b.len(),
{
    if b.len() == 0 {
        assert(a + b =~= a);
        assert(changes_in(a) + changes_in(b) =~= changes_in(a));
    } else {
        assert((a + b).drop_last() =~= a + b.drop_last());
        assert((a + b).last() == b.last());
        lemma_changes_in_append(a, b.drop_last());
        assert(changes_in(a + b) =~= changes_in(a) + changes_in(b));
    }
}

proof fn lemma_no_changes(rs: Seq<DiffRecord>)
    requires
        forall|i: int| 0 <= i < rs.len() ==> (#[trigger] rs[i]) is Content,
    ensures
        changes_in(rs) == Seq::<ChangeModel>::empty(),
    decreases rs.len(),
{
    if rs.len() > 0 {
        assert(rs[rs.len() - 1] is Content);
        lemma_no_changes(rs.drop_last());
    }
}

/// Where no change stands behind a content, the changes at the front are all
/// the changes.
proof fn lemma_leading_changes(rs: Seq<DiffRecord>)
    requires
        changes_first(rs),
    ensures
        leading_changes(rs) == changes_in(rs),
    decreases rs.len(),
{
    if rs.len() > 0 {
        let front = seq![rs[0]];
        let rest = rs.drop_first();
        assert(front + rest =~= rs);
        match rs[0] {
            DiffRecord::Change(c) => {
                assert(changes_first(rest)) by {
                    assert forall|i: int, j: int|
                        0 <= i < j < rest.len() && (#[trigger] rest[i]) is Content implies (
                    #[trigger] rest[j]) is Content by {
                        assert(rest[i] == rs[i + 1] && rest[j] == rs[j + 1]);
                    }
                }
                lemma_leading_changes(rest);
                lemma_changes_in_append(front, rest);
                assert(front.drop_last() =~= Seq::<DiffRecord>::empty());
                assert(changes_in(front.drop_last()) =~= Seq::<ChangeModel>::empty());
                assert(changes_in(front) =~= seq![c]);
            },
            DiffRecord::Content(_) => {
                assert forall|i: int| 0 <= i < rs.len() implies (#[trigger] rs[i]) is Content by {
                    assert(rs[0] is Content);
                }
                lemma_no_changes(rs);
            },
        }
    }
}

proof fn lemma_leading_changes_of(files: Seq<Seq<DiffRecord>>)
    requires
        forall|k: int| 0 <= k < files.len() ==> changes_first(#[trigger] files[k]),
    ensures
        leading_changes_of(files) == changes_in(all_records(files)),
    decreases files.len(),
{
    if files.len() > 0 {
        let front = files.drop_last();
        assert forall|k: int| 0 <= k < front.len() implies changes_first(#[trigger] front[k]) by {
            assert(front[k] == files[k]);
        }
        lemma_leading_changes_of(front);
        assert(changes_first(files[files.len() - 1]));
        lemma_leading_changes(files.last());
        lemma_changes_in_append(all_records(front), files.last());
    }
}

/// What holds of a layout that is done.
pub proof fn lemma_complete_layout(m: Material, k: nat)
    requires
        m.wf(),
        after(m, start(m), k).done,
    ensures
        ({
            let l = after(m, start(m), k);
            &&& leading_changes_of(l.files) == m.changes
            &&& changes_in(all_records(l.files)) == m.changes
            &&& assembled(all_records(l.files)).0.is_idle()
            &&& assembled(all_records(l.files)).1 == complete(m, m.changes.len())
        }),
{
    lemma_start(m);
    lemma_after(m, start(m), k);
    lemma_leading_changes_of(after(m, start(m), k).files);
    assert(m.changes.take(m.changes.len() as int) =~= m.changes);
}

/// A diff is laid out in finitely many steps, and nothing is lost: reading the
/// changes at the front of each file gives all changes, in order; putting the
/// content together from all records gives the content of each change that has
/// any, in order, and leaves nothing waiting; in every file all changes stand in
/// front of all content; every file holds something, however small the limit; and
/// every file keeps to the limit, with what ends it, where the limit leaves room
/// for a header, any one change, and what ends a file.
pub proof fn law_a_diff_is_laid_out_completely(m: Material) -> (k: nat)
    requires
        m.wf(),
    ensures
        ({
            let l = after(m, start(m), k);
            &&& l.done
            &&& leading_changes_of(l.files) == m.changes
            &&& changes_in(all_records(l.files)) == m.changes
            &&& assembled(all_records(l.files)).0.is_idle()
            &&& assembled(all_records(l.files)).1 == complete(m, m.changes.len())
            &&& forall|i: int| 0 <= i < l.files.len() ==> changes_first(#[trigger] l.files[i])
            &&& m.changes.len() > 0 ==> forall|i: int|
                0 <= i < l.files.len() ==> (#[trigger] l.files[i]).len() > 0
            &&& m.is_roomy() ==> m.fits(l.written) && forall|i: int|
                0 <= i < l.sizes.len() ==> m.fits(#[trigger] l.sizes[i])
            &&& m.limit is None ==> l.files.len() == 1
        }),
{
    lemma_start(m);
    let k = lemma_ends(m, start(m));
    lemma_after(m, start(m), k);
    lemma_complete_layout(m, k);
    k
}

/// Content starts only when every change has been written, at every step of a
/// layout and not only at its end.
pub proof fn law_content_follows_all_changes(m: Material, k: nat)
    requires
        m.wf(),
    ensures
        ({
            let l = after(m, start(m), k);
            let rs = all_records(l.files);
            (exists|i: int| 0 <= i < rs.len() && (#[trigger] rs[i]) is Content)
                ==> l.plan.next_change == m.changes.len()
        }),
{
    lemma_start(m);
    lemma_after(m, start(m), k);
}

/// The records of a file as they are stored, for a way to serialize changes.
pub open spec fn stored_records(
    rs: Seq<DiffRecord>,
    serialized: spec_fn(ChangeModel) -> Seq<u8>,
) -> Seq<RecordModel> {
    rs.map_values(
        |r: DiffRecord|
            match r {
                DiffRecord::Change(c) => RecordModel {
                    record_type: RecordType::DiffChange,
                    payload: serialized(c),
                },
                DiffRecord::Content(data) => RecordModel {
                    record_type: RecordType::FileContent,
                    payload: data,
                },
            },
    )
}

/// Reading the metadata of a file gives the changes at its front, however they
/// are serialized.
pub proof fn law_metadata_is_the_leading_changes(
    rs: Seq<DiffRecord>,
    serialized: spec_fn(ChangeModel) -> Seq<u8>,
)
    ensures
        filter::picked(stored_records(rs, serialized), apply::change_selection())
            == leading_changes(rs).map_values(serialized),
    decreases rs.len(),
{
    let stored = stored_records(rs, serialized);
    if rs.len() > 0 {
        let rest = rs.drop_first();
        assert(stored.drop_first() =~= stored_records(rest, serialized));
        match rs[0] {
            DiffRecord::Change(c) => {
                law_metadata_is_the_leading_changes(rest, serialized);
                assert(leading_changes(rs).map_values(serialized) =~= seq![serialized(c)]
                    + leading_changes(rest).map_values(serialized));
            },
            DiffRecord::Content(_) => {
                assert(leading_changes(rs).map_values(serialized) =~= Seq::<Seq<u8>>::empty());
            },
        }
    } else {
        assert(leading_changes(rs).map_values(serialized) =~= Seq::<Seq<u8>>::empty());
    }
}

} // verus!
