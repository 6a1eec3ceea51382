//! Where a diff is split, and how its files are named and found.

use crate::commands::chunks;
use crate::commands::split;
use crate::commands::split::{SplitModel, SplitStep, StepModel};
use crate::model::diff::ChangeModel;
use vstd::prelude::*;

verus! {

/// A step is seen with everything it says.
pub proof fn law_a_step_is_seen_whole(step: SplitStep)
    ensures
        step matches SplitStep::WriteChange(i) ==> step@ == StepModel::WriteChange(i as nat),
        step matches SplitStep::OpenContent(i) ==> step@ == StepModel::OpenContent(i as nat),
        step matches SplitStep::WriteContent { index, fragment } ==> {
            &&& step@ matches StepModel::WriteContent { index: i, fragment: n }
            &&& i == index
            &&& n == fragment
        },
        step is NextChunk <==> step@ is NextChunk,
        step is Done <==> step@ is Done,
{
}

/// Whether a layout is at a point where it is asked what to do next: the length of
/// a content that has been opened has been said, and content comes only once all
/// changes have been written.
pub open spec fn is_asking(m: SplitModel) -> bool {
    &&& m.wf()
    &&& m.phase is Opened ==> m.open is Some
    &&& m.phase is Contents || m.phase is Opened || m.open is Some ==> m.next_change
        == m.has_content.len()
}

/// A step leads to a point where the layout is asked again, once the length of a
/// content that it opens has been said; behind the end there is nothing to ask.
pub proof fn law_a_step_leads_to_the_next(m: SplitModel, written: nat, len: nat, opened: nat)
    requires
        is_asking(m),
    ensures
        ({
            let (n, step) = m.next(written, len);
            &&& step is OpenContent ==> is_asking(SplitModel { open: Some(opened), ..n })
            &&& !(step is OpenContent) && !(step is Done) ==> is_asking(n)
        }),
{
    lemma_first_with_content(m.has_content, m.next_content, m.next_change);
}

/// What a step writes comes next: the next change, or content of the first change
/// that has content which has not been written, once all changes have been
/// written.
pub proof fn law_a_step_takes_what_comes_next(m: SplitModel, written: nat, len: nat)
    requires
        is_asking(m),
    ensures
        ({
            let (n, step) = m.next(written, len);
            &&& n.has_content == m.has_content
            &&& n.limit == m.limit
            &&& step matches StepModel::WriteChange(i) ==> {
                &&& i == m.next_change < m.has_content.len()
                &&& n.next_change == i + 1
                &&& n.next_content == m.next_content
                &&& n.open is None
                &&& n.chunk == m.chunk
            }
            &&& step matches StepModel::OpenContent(i) ==> {
                &&& m.next_content <= i < m.next_change
                &&& m.has_content[i as int]
                &&& forall|k: int| m.next_content <= k < i ==> !#[trigger] m.has_content[k]
                &&& n.next_content == i
                &&& n.next_change == m.next_change
                &&& n.phase is Opened
                &&& n.chunk == m.chunk
            }
            &&& step matches StepModel::WriteContent { index, fragment } ==> {
                &&& index == m.next_content
                &&& m.open matches Some(left)
                &&& fragment <= left
                &&& fragment == left ==> n.open is None && n.next_content == index + 1
                &&& fragment < left ==> n.open == Some((left - fragment) as nat) && n.next_content
                    == index
                &&& n.next_change == m.next_change
                &&& n.chunk == m.chunk
            }
            &&& step is NextChunk ==> {
                &&& n.chunk == m.chunk + 1
                &&& n.next_change == m.next_change
                &&& n.open == m.open
                &&& n.phase is Start
                &&& forall|k: int|
                    m.next_content <= k < n.next_content ==> !#[trigger] m.has_content[k]
            }
            &&& step is Done ==> {
                &&& m.next_change == m.has_content.len()
                &&& m.open is None
                &&& forall|k: int|
                    m.next_content <= k < m.has_content.len() ==> !#[trigger] m.has_content[k]
                &&& n.chunk == m.chunk
            }
        }),
{
    lemma_first_with_content(m.has_content, m.next_content, m.next_change);
}

proof fn lemma_first_with_content(flags: Seq<bool>, from: nat, to: nat)
    requires
        from <= to <= flags.len(),
    ensures
        ({
            let i = split::first_with_content(flags, from, to);
            &&& from <= i <= to
            &&& i < to ==> flags[i as int]
            &&& forall|k: int| from <= k < i ==> !#[trigger] flags[k]
        }),
    decreases to - from,
{
    if from < to && !flags[from as int] {
        lemma_first_with_content(flags, from + 1, to);
    }
}

/// A file is ended only with a reason: the next record, with what ends a file,
/// would not keep to the limit, or the file was filled with a part of a content.
/// Without a limit nothing is split. At its start a file takes something.
pub proof fn law_a_file_is_ended_only_when_it_is_full(m: SplitModel, written: nat, len: nat)
    requires
        is_asking(m),
    ensures
        ({
            let (n, step) = m.next(written, len);
            &&& step is NextChunk && !(m.phase is Full) ==> {
                &&& m.limit matches Some(max)
                &&& if m.next_change < m.has_content.len() {
                    written + 9 + len + 25 > max
                } else {
                    written + 9 + 25 >= max
                }
            }
            &&& m.limit is None && !(m.phase is Full) ==> !(step is NextChunk)
            &&& m.limit is None ==> (n.phase is Full ==> step is Done || m.phase is Full)
            &&& m.phase is Start ==> !(step is NextChunk)
            &&& step is WriteChange && !(m.phase is Start) ==> (m.limit matches Some(max)
                ==> written + 9 + len + 25 <= max)
            &&& step is OpenContent && !(m.phase is Start) ==> (m.limit matches Some(max)
                ==> written + 9 + 25 < max)
        }),
{
    lemma_first_with_content(m.has_content, m.next_content, m.next_change);
}

/// A content is cut only where it has to be, and then so that the file is as long
/// as the limit says; some of it is written if there is some.
pub proof fn law_a_content_is_cut_to_fill_its_file(m: SplitModel, left: nat, written: nat)
    ensures
        ({
            let fragment = m.fragment(left, written);
            &&& fragment <= left
            &&& left > 0 ==> fragment > 0
            &&& fragment < left ==> (m.limit matches Some(max) && written + 9 + fragment + 25
                == max)
            &&& m.limit matches Some(max) ==> written + 9 + left + 25 <= max ==> fragment == left
            &&& m.limit matches Some(max) ==> written + 9 + 25 < max ==> written + 9 + fragment
                + 25 <= max
            &&& m.limit is None ==> fragment == left
        }),
{
}

/// A layout starts in front of everything, in the first file.
pub proof fn law_a_layout_starts_in_front(cs: Seq<ChangeModel>, limit: Option<nat>)
    ensures
        ({
            let m = split::layout_start(cs, limit);
            &&& is_asking(m)
            &&& m.next_change == 0
            &&& m.next_content == 0
            &&& m.open is None
            &&& m.chunk == 1
            &&& m.limit == limit
            &&& m.has_content.len() == cs.len()
            &&& forall|i: int|
                0 <= i < cs.len() ==> #[trigger] m.has_content[i] == cs[i].has_content()
        }),
{
}

/// The number that some decimal digits spell.
pub open spec fn spelled(digits: Seq<u8>) -> nat
    decreases digits.len(),
{
    if digits.len() == 0 {
        0
    } else {
        10 * spelled(digits.drop_last()) + (digits.last() - 0x30) as nat
    }
}

/// Whether bytes are decimal digits.
pub open spec fn are_digits(digits: Seq<u8>) -> bool {
    forall|i: int| 0 <= i < digits.len() ==> 0x30 <= #[trigger] digits[i] <= 0x39
}

proof fn lemma_decimal(n: nat)
    ensures
        spelled(chunks::decimal(n)) == n,
        are_digits(chunks::decimal(n)),
        chunks::decimal(n).len() >= 1,
        chunks::decimal(n).len() == 1 <==> n < 10,
        chunks::decimal(n).len() == 2 <==> 10 <= n < 100,
        chunks::decimal(n).len() == 3 <==> 100 <= n < 1000,
        n > 0 ==> chunks::decimal(n)[0] != 0x30,
    decreases n,
{
    let d = chunks::decimal(n);
    if n < 10 {
        assert(d.drop_last() =~= Seq::empty());
        assert(spelled(d.drop_last()) == 0);
    } else {
        lemma_decimal(n / 10);
        let front = chunks::decimal(n / 10);
        assert(d.drop_last() =~= front);
        assert(d.last() == 0x30 + n % 10);
        assert forall|i: int| 0 <= i < d.len() implies 0x30 <= #[trigger] d[i] <= 0x39 by {
            if i < front.len() {
                assert(d[i] == front[i]);
            }
        }
        assert(d[0] == front[0]);
    }
}

proof fn lemma_zero_in_front(d: Seq<u8>)
    requires
        are_digits(d),
    ensures
        spelled(seq![0x30u8] + d) == spelled(d),
        are_digits(seq![0x30u8] + d),
    decreases d.len(),
{
    let longer = seq![0x30u8] + d;
    if d.len() == 0 {
        assert(longer.drop_last() =~= Seq::empty());
        assert(spelled(longer.drop_last()) == 0);
    } else {
        assert forall|i: int| 0 <= i < d.drop_last().len() implies 0x30
            <= #[trigger] d.drop_last()[i] <= 0x39 by {
            assert(d.drop_last()[i] == d[i]);
        }
        lemma_zero_in_front(d.drop_last());
        assert(longer.drop_last() =~= seq![0x30u8] + d.drop_last());
        assert(longer.last() == d.last());
    }
    assert forall|i: int| 0 <= i < longer.len() implies 0x30 <= #[trigger] longer[i] <= 0x39 by {
        if i > 0 {
            assert(longer[i] == d[i - 1]);
        }
    }
}

/// The name of a file of a split diff is the name of the diff, a dot, and the
/// number of the file in decimal, in three digits or as many as it takes.
pub proof fn law_a_file_name_ends_in_its_number(base: Seq<u8>, n: nat)
    ensures
        ({
            let name = chunks::chunk_name(base, n);
            let digits = name.skip(base.len() as int + 1);
            &&& name.len() >= base.len() + 4
            &&& name.take(base.len() as int) == base
            &&& name[base.len() as int] == 0x2e
            &&& are_digits(digits)
            &&& spelled(digits) == n
            &&& n < 1000 <==> digits.len() == 3
            &&& n >= 1000 ==> digits[0] != 0x30
        }),
{
    let name = chunks::chunk_name(base, n);
    let d = chunks::decimal(n);
    let digits = name.skip(base.len() as int + 1);
    assert(name.take(base.len() as int) =~= base);
    assert(digits =~= chunks::padded(n));
    lemma_decimal(n);
    lemma_zero_in_front(d);
    lemma_zero_in_front(seq![0x30u8] + d);
    assert(seq![0x30u8] + (seq![0x30u8] + d) =~= seq![0x30u8, 0x30u8] + d);
}

proof fn lemma_first_missing(base: Seq<u8>, existing: Seq<Seq<u8>>, from: nat)
    requires
        from <= chunks::MAX_CHUNK,
    ensures
        ({
            let end = chunks::first_missing(base, existing, from);
            &&& from <= end <= chunks::MAX_CHUNK
            &&& forall|k: nat|
                from <= k < end ==> existing.contains(#[trigger] chunks::chunk_name(base, k))
            &&& end < chunks::MAX_CHUNK ==> !existing.contains(chunks::chunk_name(base, end))
        }),
    decreases chunks::MAX_CHUNK - from,
{
    if from < chunks::MAX_CHUNK && existing.contains(chunks::chunk_name(base, from)) {
        lemma_first_missing(base, existing, from + 1);
        let end = chunks::first_missing(base, existing, from);
        assert forall|k: nat| from <= k < end implies existing.contains(
            #[trigger] chunks::chunk_name(base, k),
        ) by {
            if k > from {
                assert(from + 1 <= k);
            }
        }
    }
}

/// Whether there are the files with numbers from 1 up to `count`, and not the next
/// one.
pub open spec fn are_there_up_to(base: Seq<u8>, existing: Seq<Seq<u8>>, count: nat) -> bool {
    &&& forall|k: nat|
        1 <= k <= count ==> existing.contains(#[trigger] chunks::chunk_name(base, k))
    &&& !existing.contains(chunks::chunk_name(base, count + 1))
}

proof fn lemma_end(base: Seq<u8>, existing: Seq<Seq<u8>>, count: nat)
    requires
        count < chunks::MAX_CHUNK - 1,
        are_there_up_to(base, existing, count),
    ensures
        chunks::first_missing(base, existing, 1) == count + 1,
{
    lemma_first_missing(base, existing, 1);
    let end = chunks::first_missing(base, existing, 1);
    if end > count + 1 {
        assert(existing.contains(chunks::chunk_name(base, (count + 1) as nat)));
    }
    if end < count + 1 {
        assert(existing.contains(chunks::chunk_name(base, end)));
    }
}

/// The number of a file is looked for as it stands in its header.
pub proof fn law_a_number_is_taken_as_it_is(number: Option<u32>)
    ensures
        number matches Some(k) ==> chunks::number_view(number) == Some(k as nat),
        number is None ==> chunks::number_view(number) is None,
{
}

/// A diff is looked for by its name. If there is no such file, its files are those
/// that are numbered from 1 on without a gap; a number that is missing in front of
/// one that is there is an error that names it.
pub proof fn law_numbered_files_are_found_up_to_a_gap(
    base: Seq<u8>,
    existing: Seq<Seq<u8>>,
    count: nat,
    number: Option<nat>,
)
    requires
        count < chunks::MAX_CHUNK - 1,
        !existing.contains(base),
        are_there_up_to(base, existing, count),
    ensures
        existing.contains(chunks::chunk_name(base, count + 2)) ==> chunks::diff_files(
            base,
            number,
            existing,
        ) == Err::<Seq<Seq<u8>>, (Seq<u8>, nat)>((base, (count + 1) as nat)),
        !existing.contains(chunks::chunk_name(base, count + 2)) ==> {
            &&& chunks::diff_files(base, number, existing) matches Ok(files)
            &&& files.len() == count
            &&& forall|i: int|
                0 <= i < count ==> #[trigger] files[i] == chunks::chunk_name(base, (i + 1) as nat)
        },
{
    lemma_end(base, existing, count);
    assert((count + 1) as nat + 1 == count + 2);
}

/// A file that is there by its name is a diff on its own, unless the name ends in
/// the number that its header says: then it is one of the files that are numbered
/// from 1 on, where it is among them, and the gap is an error as before.
pub proof fn law_a_numbered_file_leads_to_the_others(
    base: Seq<u8>,
    existing: Seq<Seq<u8>>,
    count: nat,
    number: nat,
)
    requires
        count < chunks::MAX_CHUNK - 1,
        number > 0,
        existing.contains(chunks::chunk_name(base, number)),
        are_there_up_to(base, existing, count),
    ensures
        ({
            let name = chunks::chunk_name(base, number);
            let gap = existing.contains(chunks::chunk_name(base, count + 2));
            let found = chunks::diff_files(name, Some(number), existing);
            &&& gap ==> found == Err::<Seq<Seq<u8>>, (Seq<u8>, nat)>((base, (count + 1) as nat))
            &&& !gap && number <= count ==> {
                &&& found matches Ok(files)
                &&& files.len() == count
                &&& forall|i: int|
                    0 <= i < count ==> #[trigger] files[i] == chunks::chunk_name(
                        base,
                        (i + 1) as nat,
                    )
            }
            &&& !gap && number > count ==> found == Ok::<Seq<Seq<u8>>, (Seq<u8>, nat)>(seq![name])
        }),
{
    let name = chunks::chunk_name(base, number);
    lemma_end(base, existing, count);
    assert((count + 1) as nat + 1 == count + 2);
    assert(name.take(base.len() as int) =~= base);
    let files = chunks::chunk_names(base, (count + 1) as nat);
    if number <= count {
        assert(files[number - 1] == name);
    } else if files.contains(name) {
        let i = choose|i: int| 0 <= i < files.len() && files[i] == name;
        chunks::law_chunk_names_differ(base, (i + 1) as nat, number);
    }
}

/// A file that is there by its name, and whose name does not end in the number
/// that its header says, is a diff on its own, whatever else is there.
pub proof fn law_another_file_is_found_alone(
    name: Seq<u8>,
    existing: Seq<Seq<u8>>,
    number: Option<nat>,
)
    requires
        existing.contains(name),
        number matches Some(k) ==> forall|base: Seq<u8>| name != #[trigger] chunks::chunk_name(
            base,
            k,
        ),
    ensures
        chunks::diff_files(name, number, existing) == Ok::<Seq<Seq<u8>>, (Seq<u8>, nat)>(
            seq![name],
        ),
{
    if let Some(k) = number {
        let n = name.len() - 1 - chunks::padded(k).len();
        if n >= 0 {
            assert(name != chunks::chunk_name(name.take(n), k));
        }
    }
}

} // verus!
