//! The files of a split diff: how they are named, and how they are found.

use crate::bytes;
use crate::error::{FormatProblem, GappedError};
use crate::model::path::DOT;
use crate::order;
use vstd::prelude::*;

verus! {

/// `0`
pub const ZERO: u8 = 0x30;

/// A number in decimal.
pub open spec fn decimal(n: nat) -> Seq<u8>
    decreases n,
{
    if n < 10 {
        seq![(ZERO + n) as u8]
    } else {
        decimal(n / 10).push((ZERO + n % 10) as u8)
    }
}

/// A number in decimal with at least three digits.
pub open spec fn padded(n: nat) -> Seq<u8> {
    let d = decimal(n);
    if d.len() == 1 {
        seq![ZERO, ZERO] + d
    } else if d.len() == 2 {
        seq![ZERO] + d
    } else {
        d
    }
}

/// The name of a file of a split diff.
pub open spec fn chunk_name(base: Seq<u8>, number: nat) -> Seq<u8> {
    base.push(DOT) + padded(number)
}

/// The largest number that is looked for.
pub const MAX_CHUNK: u32 = 0xffff_fffe;

/// The first number from `from` on of which there is no file.
pub open spec fn first_missing(base: Seq<u8>, existing: Seq<Seq<u8>>, from: nat) -> nat
    decreases MAX_CHUNK - from,
{
    if from >= MAX_CHUNK || !existing.contains(chunk_name(base, from)) {
        from
    } else {
        first_missing(base, existing, from + 1)
    }
}

/// The names of the files with numbers from 1 up to, and without, `end`.
pub open spec fn chunk_names(base: Seq<u8>, end: nat) -> Seq<Seq<u8>> {
    Seq::new((end - 1) as nat, |i: int| chunk_name(base, (i + 1) as nat))
}

/// The name that a diff was written under, given the name of one of its files and
/// the number that its header says, if it is one of several. There is none if the
/// name does not end in that number.
pub open spec fn base_of(name: Seq<u8>, number: Option<nat>) -> Option<Seq<u8>> {
    match number {
        Some(k) => {
            let n = name.len() - 1 - padded(k).len();
            if n >= 0 && name == chunk_name(name.take(n), k) {
                Some(name.take(n))
            } else {
                None
            }
        },
        None => None,
    }
}

/// The outcome of looking for the files of a split diff: their names, or the
/// number that is missing.
pub open spec fn numbered_files(base: Seq<u8>, existing: Seq<Seq<u8>>) -> Result<
    Seq<Seq<u8>>,
    nat,
> {
    let end = first_missing(base, existing, 1);
    if existing.contains(chunk_name(base, end + 1)) {
        Err(end)
    } else {
        Ok(chunk_names(base, end))
    }
}

/// The outcome of looking for a diff, given its name and the number in the header
/// of the file with that name: the names of its files, or the name without the
/// number and the number that is missing.
pub open spec fn diff_files(
    name: Seq<u8>,
    number: Option<nat>,
    existing: Seq<Seq<u8>>,
) -> Result<Seq<Seq<u8>>, (Seq<u8>, nat)> {
    if existing.contains(name) {
        match base_of(name, number) {
            Some(base) => match numbered_files(base, existing) {
                Ok(files) if files.contains(name) => Ok(files),
                Ok(_) => Ok(seq![name]),
                Err(missing) => Err((base, missing)),
            },
            None => Ok(seq![name]),
        }
    } else {
        match numbered_files(name, existing) {
            Ok(files) => Ok(files),
            Err(missing) => Err((name, missing)),
        }
    }
}

/// A number that may be there, as a mathematical one.
pub open spec fn number_view(number: Option<u32>) -> Option<nat> {
    match number {
        Some(k) => Some(k as nat),
        None => None,
    }
}

fn push_decimal(out: &mut Vec<u8>, n: u32)
    ensures
        final(out)@ == old(out)@ + decimal(n as nat),
    decreases n,
{
    if n >= 10 {
        push_decimal(out, n / 10);
    }
    let ghost before = out@;
    out.push(ZERO + (n % 10) as u8);
    proof {
        if n >= 10 {
            assert(out@ =~= old(out)@ + decimal((n / 10) as nat).push((ZERO + n % 10) as u8));
        } else {
            assert(out@ =~= old(out)@ + seq![(ZERO + n) as u8]);
        }
    }
}

proof fn lemma_decimal_len(n: nat)
    ensures
        decimal(n).len() == 1 <==> n < 10,
        decimal(n).len() == 2 <==> 10 <= n < 100,
        decimal(n).len() >= 1,
    decreases n,
{
    if n >= 10 {
        lemma_decimal_len(n / 10);
    }
}

/// The name of a file of a split diff.
pub fn chunk_path(base: &[u8], number: u32) -> (r: Vec<u8>)
    ensures
        r@ == chunk_name(base@, number as nat),
{
    let mut r = bytes::copy_range(base, 0, base.len());
    assert(r@ =~= base@);
    r.push(DOT);
    proof {
        lemma_decimal_len(number as nat);
    }
    if number < 100 {
        r.push(ZERO);
    }
    if number < 10 {
        r.push(ZERO);
    }
    push_decimal(&mut r, number);
    assert(r@ =~= chunk_name(base@, number as nat));
    r
}

fn is_there(existing: &Vec<Vec<u8>>, name: &[u8]) -> (r: bool)
    ensures
        r == order::views(existing@).contains(name@),
{
    let ghost all = order::views(existing@);
    let mut i: usize = 0;
    while i < existing.len()
        invariant
            i <= existing@.len(),
            all == order::views(existing@),
            forall|k: int| 0 <= k < i ==> all[k] != name@,
        decreases existing@.len() - i,
    {
        if bytes::bytes_equal(existing[i].as_slice(), name) {
            assert(all[i as int] == name@);
            return true;
        }
        i = i + 1;
    }
    false
}

fn find_numbered(base: &[u8], existing: &Vec<Vec<u8>>) -> (r: Result<Vec<Vec<u8>>, u32>)
    ensures
        match (r, numbered_files(base@, order::views(existing@))) {
            (Ok(v), Ok(files)) => order::views(v@) == files,
            (Err(n), Err(missing)) => n == missing,
            _ => false,
        },
{
    let ghost all = order::views(existing@);
    let mut found: Vec<Vec<u8>> = Vec::new();
    let mut i: u32 = 1;
    while i < MAX_CHUNK
        invariant_except_break
            first_missing(base@, all, 1) == first_missing(base@, all, i as nat),
        invariant
            1 <= i <= MAX_CHUNK,
            all == order::views(existing@),
            order::views(found@) =~= chunk_names(base@, i as nat),
        ensures
            first_missing(base@, all, 1) == i,
        decreases MAX_CHUNK - i,
    {
        let name = chunk_path(base, i);
        if !is_there(existing, name.as_slice()) {
            break;
        }
        proof {
            let names = chunk_names(base@, i as nat);
            assert(order::views(found@) =~= names);
            assert(chunk_names(base@, (i + 1) as nat) =~= names.push(name@));
            assert(order::views(found@.push(name)) =~= order::views(found@).push(name@));
        }
        found.push(name);
        i = i + 1;
    }
    if is_there(existing, chunk_path(base, i + 1).as_slice()) {
        Err(i)
    } else {
        Ok(found)
    }
}

/// The name that a diff was written under, given the name of one of its files and
/// the number that its header says.
fn find_base(name: &[u8], number: Option<u32>) -> (r: Option<Vec<u8>>)
    ensures
        match (r, base_of(name@, number_view(number))) {
            (Some(v), Some(base)) => v@ == base,
            (None, None) => true,
            _ => false,
        },
{
    let k: u32 = match number {
        Some(k) => k,
        None => {
            return None;
        },
    };
    let suffix = chunk_path(&[], k);
    assert(suffix@.len() == 1 + padded(k as nat).len());
    if name.len() < suffix.len() {
        return None;
    }
    let n: usize = name.len() - suffix.len();
    let base = bytes::copy_range(name, 0, n);
    assert(base@ =~= name@.take(n as int));
    if bytes::bytes_equal(chunk_path(base.as_slice(), k).as_slice(), name) {
        Some(base)
    } else {
        None
    }
}

/// Finds the files of a diff among the names that exist, given its name and the
/// number in the header of the file with that name. A name that exists is the
/// diff; if it ends in the number that its header says, it is one file of a split
/// diff, and all files of that diff are found. Of a name that does not exist the
/// files with numbers behind it are found. It is an error if a number is missing
/// and the next one is there.
pub fn detect_diff_files(
    diff_path: &[u8],
    chunk_index: Option<u32>,
    existing: &Vec<Vec<u8>>,
) -> (r: Result<Vec<Vec<u8>>, GappedError>)
    ensures
        match diff_files(diff_path@, number_view(chunk_index), order::views(existing@)) {
            Ok(files) => r matches Ok(v) && order::views(v@) == files,
            Err((name, number)) => r matches Err(e) && e matches GappedError::InvalidFormat(
                FormatProblem::ChunkGap { base, missing },
            ) && base@ == name && missing == number,
        },
{
    let own = bytes::copy_range(diff_path, 0, diff_path.len());
    assert(own@ =~= diff_path@);
    if is_there(existing, diff_path) {
        match find_base(diff_path, chunk_index) {
            Some(base) => {
                match find_numbered(base.as_slice(), existing) {
                    Ok(files) => {
                        if is_there(&files, diff_path) {
                            return Ok(files);
                        }
                    },
                    Err(missing) => {
                        return Err(
                            GappedError::InvalidFormat(FormatProblem::ChunkGap { base, missing }),
                        );
                    },
                }
            },
            None => {},
        }
        let mut one: Vec<Vec<u8>> = Vec::new();
        one.push(own);
        assert(order::views(one@) =~= seq![diff_path@]);
        return Ok(one);
    }
    match find_numbered(diff_path, existing) {
        Ok(files) => Ok(files),
        Err(missing) => Err(
            GappedError::InvalidFormat(FormatProblem::ChunkGap { base: own, missing }),
        ),
    }
}

proof fn lemma_decimal_injective(a: nat, b: nat)
    requires
        decimal(a) == decimal(b),
    ensures
        a == b,
    decreases a,
{
    lemma_decimal_len(a);
    lemma_decimal_len(b);
    let da = decimal(a);
    let db = decimal(b);
    if a < 10 {
        assert(da[0] == (ZERO + a) as u8);
        assert(db[0] == (ZERO + b) as u8);
    } else {
        assert(da.last() == (ZERO + a % 10) as u8);
        assert(db.last() == (ZERO + b % 10) as u8);
        assert(a % 10 == b % 10);
        assert(decimal(a / 10) =~= da.drop_last());
        assert(decimal(b / 10) =~= db.drop_last());
        lemma_decimal_injective(a / 10, b / 10);
    }
}

proof fn lemma_decimal_no_leading_zero(n: nat)
    requires
        n > 0,
    ensures
        decimal(n)[0] != ZERO,
    decreases n,
{
    lemma_decimal_len(n);
    if n >= 10 {
        lemma_decimal_len(n / 10);
        lemma_decimal_no_leading_zero(n / 10);
        assert(decimal(n)[0] == decimal(n / 10)[0]);
    }
}

/// Files with different numbers have different names.
pub proof fn law_chunk_names_differ(base: Seq<u8>, a: nat, b: nat)
    requires
        chunk_name(base, a) == chunk_name(base, b),
        a > 0,
        b > 0,
    ensures
        a == b,
{
    lemma_decimal_len(a);
    lemma_decimal_len(b);
    lemma_decimal_no_leading_zero(a);
    lemma_decimal_no_leading_zero(b);
    let pa = padded(a);
    let pb = padded(b);
    let n = base.len() as int + 1;
    assert(chunk_name(base, a).skip(n) =~= pa);
    assert(chunk_name(base, b).skip(n) =~= pb);
    let da = decimal(a);
    let db = decimal(b);
    if da.len() >= 3 {
        assert(pa =~= da);
        assert(pb[0] == da[0]);
        assert(db.len() >= 3);
    } else if da.len() == 2 {
        assert(pa[1] == da[0] && pa[0] == ZERO);
        assert(db.len() < 3);
        if db.len() == 1 {
            assert(pb[1] == ZERO);
        }
        assert(da =~= pa.skip(1));
        assert(db =~= pb.skip(1));
    } else {
        assert(pa[1] == ZERO && pa[0] == ZERO);
        assert(db.len() < 3);
        if db.len() == 2 {
            assert(pb[1] == db[0]);
        }
        assert(da =~= pa.skip(2));
        assert(db =~= pb.skip(2));
    }
    lemma_decimal_injective(a, b);
}

proof fn lemma_first_missing(base: Seq<u8>, existing: Seq<Seq<u8>>, from: nat, end: nat)
    requires
        from <= end <= MAX_CHUNK,
        forall|k: nat| from <= k < end ==> existing.contains(#[trigger] chunk_name(base, k)),
        !existing.contains(chunk_name(base, end)),
    ensures
        first_missing(base, existing, from) == end,
    decreases end - from,
{
    if from < end {
        assert(existing.contains(chunk_name(base, from)));
        lemma_first_missing(base, existing, from + 1, end);
    }
}

/// A diff that was split into `count` files is found whole from the name that
/// it was written under, and from the name of any of its files.
pub proof fn law_a_split_diff_is_found(
    base: Seq<u8>,
    existing: Seq<Seq<u8>>,
    count: nat,
    number: nat,
)
    requires
        0 < count < MAX_CHUNK,
        1 <= number <= count,
        !existing.contains(base),
        forall|k: nat| 1 <= k <= count ==> existing.contains(#[trigger] chunk_name(base, k)),
        !existing.contains(chunk_name(base, count + 1)),
        !existing.contains(chunk_name(base, count + 2)),
    ensures
        diff_files(base, None, existing) == Ok::<Seq<Seq<u8>>, (Seq<u8>, nat)>(
            chunk_names(base, count + 1),
        ),
        diff_files(chunk_name(base, number), Some(number), existing) == Ok::<
            Seq<Seq<u8>>,
            (Seq<u8>, nat),
        >(chunk_names(base, count + 1)),
{
    lemma_first_missing(base, existing, 1, count + 1);
    let name = chunk_name(base, number);
    assert(name.take(base.len() as int) =~= base);
    let files = chunk_names(base, count + 1);
    assert(files[number - 1] == name);
}

/// A diff that was not split is found alone, whatever its name ends in and
/// whatever else is there.
pub proof fn law_a_diff_that_was_not_split_is_found_alone(
    name: Seq<u8>,
    existing: Seq<Seq<u8>>,
)
    requires
        existing.contains(name),
    ensures
        diff_files(name, None, existing) == Ok::<Seq<Seq<u8>>, (Seq<u8>, nat)>(seq![name]),
{
}

} // verus!
