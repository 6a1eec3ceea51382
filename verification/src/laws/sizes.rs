//! What the text of a size stands for.

use crate::cli;
use crate::cli::{SizeError, SizeFault};
use vstd::prelude::*;

verus! {

/// Digits, letters and white space, by their code points.
pub proof fn law_characters_are_told_apart_by_their_codes(c: char)
    ensures
        cli::is_digit(c) <==> 48 <= c as u32 <= 57,
        cli::is_letter(c) <==> 65 <= c as u32 <= 90 || 97 <= c as u32 <= 122,
        cli::is_space(c) <==> {
            ||| seq![9u32, 10, 11, 12, 13, 32, 133, 160, 5760].contains(c as u32)
            ||| 8192 <= c as u32 <= 8202
            ||| seq![8232u32, 8233, 8239, 8287, 12288].contains(c as u32)
        },
        97 <= c as u32 <= 122 ==> cli::upper(c) as u32 + 32 == c as u32,
        !(97 <= c as u32 <= 122) ==> cli::upper(c) == c,
{
    let a = seq![9u32, 10, 11, 12, 13, 32, 133, 160, 5760];
    let b = seq![8232u32, 8233, 8239, 8287, 12288];
    assert(a[0] == 9 && a[1] == 10 && a[2] == 11 && a[3] == 12 && a[4] == 13);
    assert(a[5] == 32 && a[6] == 133 && a[7] == 160 && a[8] == 5760);
    assert(b[0] == 8232 && b[1] == 8233 && b[2] == 8239 && b[3] == 8287 && b[4] == 12288);
}

/// An error is seen with everything it says.
pub proof fn law_a_size_error_is_seen_whole(e: SizeError)
    ensures
        e is Empty <==> e@ is Empty,
        e is InvalidDigit <==> e@ is InvalidDigit,
        e is NumberTooLarge <==> e@ is NumberTooLarge,
        e matches SizeError::UnknownSuffix(s) ==> e@ == SizeFault::UnknownSuffix(s@),
        e matches SizeError::Overflow { base, suffix } ==> {
            &&& e@ matches SizeFault::Overflow { base: b, suffix: s }
            &&& b == base
            &&& s == suffix@
        },
{
}

/// Whether a text is white space.
pub open spec fn is_blank(s: Seq<char>) -> bool {
    forall|i: int| 0 <= i < s.len() ==> cli::is_space(#[trigger] s[i])
}

/// Whether a text is decimal digits.
pub open spec fn are_digits(s: Seq<char>) -> bool {
    forall|i: int| 0 <= i < s.len() ==> cli::is_digit(#[trigger] s[i])
}

/// The number that decimal digits spell.
pub open spec fn spelled(digits: Seq<char>) -> nat
    decreases digits.len(),
{
    if digits.len() == 0 {
        0
    } else {
        10 * spelled(digits.drop_last()) + (digits.last() as u32 - 48) as nat
    }
}

/// Whether a character is a letter, in lower or upper case.
pub open spec fn is_either_case(c: char, upper: char) -> bool {
    c == upper || c as u32 == upper as u32 + 32
}

/// Whether a text is the letter of a unit, or that and a `B`, in either case.
pub open spec fn names_unit(s: Seq<char>, letter: char) -> bool {
    ||| s.len() == 1 && is_either_case(s[0], letter)
    ||| s.len() == 2 && is_either_case(s[0], letter) && is_either_case(s[1], 'B')
}

/// How many bytes a unit stands for: one, or a power of 1024.
pub open spec fn factor(s: Seq<char>) -> Option<nat> {
    if s.len() == 1 && is_either_case(s[0], 'B') {
        Some(1)
    } else if names_unit(s, 'K') {
        Some(1024)
    } else if names_unit(s, 'M') {
        Some(1_048_576)
    } else if names_unit(s, 'G') {
        Some(1_073_741_824)
    } else {
        None
    }
}

/// Whether one text is another in upper case.
pub open spec fn is_in_upper_case(s: Seq<char>, of: Seq<char>) -> bool {
    &&& s.len() == of.len()
    &&& forall|i: int|
        0 <= i < s.len() ==> if 97 <= of[i] as u32 <= 122 {
            (#[trigger] s[i]) as u32 + 32 == of[i] as u32
        } else {
            s[i] == of[i]
        }
}

proof fn lemma_blank_front(a: Seq<char>, t: Seq<char>)
    requires
        is_blank(a),
        t.len() == 0 || !cli::is_space(t[0]),
    ensures
        cli::trimmed_front(a + t) == t,
{
    let s = a + t;
    let n = a.len() as int;
    assert forall|i: int| 0 <= i < n implies (|c: char| cli::is_space(c))(#[trigger] s[i]) by {
        assert(s[i] == a[i]);
    }
    if n < s.len() {
        assert(s[n] == t[0]);
    }
    cli::lemma_leading(s, |c: char| cli::is_space(c), n);
    assert(s.skip(n) =~= t);
}

proof fn lemma_blank_back(t: Seq<char>, b: Seq<char>)
    requires
        is_blank(b),
        t.len() == 0 || !cli::is_space(t.last()),
    ensures
        cli::trimmed_back(t + b) == t,
    decreases b.len(),
{
    if b.len() == 0 {
        assert(t + b =~= t);
    } else {
        let c = b.drop_last();
        assert forall|i: int| 0 <= i < c.len() implies cli::is_space(#[trigger] c[i]) by {
            assert(c[i] == b[i]);
        }
        lemma_blank_back(t, c);
        assert((t + b).drop_last() =~= t + c);
        assert((t + b).last() == b[b.len() - 1]);
    }
}

/// White space at either end does not count.
proof fn lemma_trimmed(a: Seq<char>, t: Seq<char>, b: Seq<char>)
    requires
        is_blank(a),
        is_blank(b),
        t.len() > 0,
        !cli::is_space(t[0]),
        !cli::is_space(t.last()),
    ensures
        cli::trimmed(a + t + b) == t,
{
    assert(a + t + b =~= a + (t + b));
    lemma_blank_front(a, t + b);
    lemma_blank_back(t, b);
}

proof fn lemma_spelled(digits: Seq<char>)
    requires
        are_digits(digits),
    ensures
        cli::number(digits) == spelled(digits),
    decreases digits.len(),
{
    if digits.len() > 0 {
        let front = digits.drop_last();
        assert forall|i: int| 0 <= i < front.len() implies cli::is_digit(#[trigger] front[i]) by {
            assert(front[i] == digits[i]);
        }
        lemma_spelled(front);
    }
}

/// How digits are read, with or without a plus sign in front.
proof fn lemma_parsed(digits: Seq<char>)
    requires
        digits.len() > 0,
        are_digits(digits),
    ensures
        ({
            let r = if spelled(digits) > u64::MAX {
                Err::<nat, SizeFault>(SizeFault::NumberTooLarge)
            } else {
                Ok::<nat, SizeFault>(spelled(digits))
            };
            cli::parsed(digits) == r && cli::parsed(seq!['+'] + digits) == r
        }),
{
    let n = digits.len() as int;
    assert(cli::is_digit(digits[0]));
    cli::lemma_leading(digits, |c: char| cli::is_digit(c), n);
    assert(digits.take(n) =~= digits);
    lemma_spelled(digits);
    assert((seq!['+'] + digits).drop_first() =~= digits);
}

/// A number alone is a number of bytes. White space around it does not count, and
/// neither does a plus sign. A number that does not fit in 64 bits is refused.
pub proof fn law_a_number_is_a_number_of_bytes(
    before: Seq<char>,
    digits: Seq<char>,
    after: Seq<char>,
)
    requires
        is_blank(before),
        digits.len() > 0,
        are_digits(digits),
        is_blank(after),
    ensures
        spelled(digits) <= u64::MAX ==> {
            &&& cli::size_of_text(before + digits + after) == Ok::<nat, SizeFault>(spelled(digits))
            &&& cli::size_of_text(before + (seq!['+'] + digits) + after) == Ok::<nat, SizeFault>(
                spelled(digits),
            )
        },
        spelled(digits) > u64::MAX ==> cli::size_of_text(before + digits + after) == Err::<
            nat,
            SizeFault,
        >(SizeFault::NumberTooLarge),
{
    let signed = seq!['+'] + digits;
    let n = digits.len() as int;
    assert(cli::is_digit(digits[0]) && cli::is_digit(digits[n - 1]));
    assert(signed[0] == '+' && signed.last() == digits[n - 1]);
    lemma_trimmed(before, digits, after);
    lemma_trimmed(before, signed, after);
    lemma_parsed(digits);
    assert forall|i: int| 0 <= i < n implies (|c: char| !cli::is_letter(c))(
        #[trigger] digits[i],
    ) by {
        assert(cli::is_digit(digits[i]));
    }
    assert forall|i: int| 0 <= i < n + 1 implies (|c: char| !cli::is_letter(c))(
        #[trigger] signed[i],
    ) by {
        if i > 0 {
            assert(signed[i] == digits[i - 1]);
            assert(cli::is_digit(digits[i - 1]));
        }
    }
    cli::lemma_leading(digits, |c: char| !cli::is_letter(c), n);
    cli::lemma_leading(signed, |c: char| !cli::is_letter(c), n + 1);
}

proof fn lemma_unit(suffix: Seq<char>)
    ensures
        ({
            let up = suffix.map_values(|c: char| cli::upper(c));
            is_in_upper_case(up, suffix) && cli::unit(up) == factor(suffix)
        }),
{
    let up = suffix.map_values(|c: char| cli::upper(c));
    if suffix.len() == 1 {
        assert(up =~= seq![up[0]]);
        assert(up == seq!['B'] <==> up[0] == 'B');
        assert(seq!['B'][0] == 'B' && seq!['K'][0] == 'K' && seq!['M'][0] == 'M' && seq!['G'][0]
            == 'G');
    } else if suffix.len() == 2 {
        assert(up =~= seq![up[0], up[1]]);
        assert(seq!['K', 'B'][0] == 'K' && seq!['K', 'B'][1] == 'B');
        assert(seq!['M', 'B'][0] == 'M' && seq!['M', 'B'][1] == 'B');
        assert(seq!['G', 'B'][0] == 'G' && seq!['G', 'B'][1] == 'B');
        assert(seq!['B'].len() == 1 && seq!['K'].len() == 1 && seq!['M'].len() == 1
            && seq!['G'].len() == 1);
    } else {
        assert(seq!['B'].len() == 1 && seq!['K'].len() == 1 && seq!['M'].len() == 1
            && seq!['G'].len() == 1);
        assert(seq!['K', 'B'].len() == 2 && seq!['M', 'B'].len() == 2 && seq!['G', 'B'].len() == 2);
    }
}

/// A number and a unit stand for the number times the unit. White space around and
/// between them does not count, nor does the case of the unit. What is no unit is
/// refused, in upper case, and so is what does not fit in 64 bits.
pub proof fn law_a_number_and_a_unit_are_multiplied(
    before: Seq<char>,
    digits: Seq<char>,
    between: Seq<char>,
    suffix: Seq<char>,
    after: Seq<char>,
)
    requires
        is_blank(before),
        digits.len() > 0,
        are_digits(digits),
        is_blank(between),
        suffix.len() > 0,
        cli::is_letter(suffix[0]),
        !cli::is_space(suffix.last()),
        is_blank(after),
    ensures
        ({
            let r = cli::size_of_text(before + (digits + between + suffix) + after);
            let n = spelled(digits);
            &&& n > u64::MAX ==> r == Err::<nat, SizeFault>(SizeFault::NumberTooLarge)
            &&& n <= u64::MAX ==> match factor(suffix) {
                None => r matches Err(SizeFault::UnknownSuffix(s)) && is_in_upper_case(s, suffix),
                Some(u) => if n * u <= u64::MAX {
                    r == Ok::<nat, SizeFault>((n * u) as nat)
                } else {
                    r matches Err(SizeFault::Overflow { base, suffix: s }) && base == n
                        && is_in_upper_case(s, suffix)
                },
            }
        }),
{
    let t = digits + between + suffix;
    let front = digits + between;
    let n = front.len() as int;
    let last = digits.len() - 1;
    assert(cli::is_digit(digits[0]) && cli::is_digit(digits[last]));
    assert(t[0] == digits[0] && t.last() == suffix.last());
    lemma_trimmed(before, t, after);
    assert forall|i: int| 0 <= i < n implies (|c: char| !cli::is_letter(c))(
        #[trigger] t[i],
    ) by {
        if i < digits.len() {
            assert(t[i] == digits[i]);
            assert(cli::is_digit(digits[i]));
        } else {
            assert(t[i] == between[i - digits.len()]);
            assert(cli::is_space(between[i - digits.len()]));
        }
    }
    assert(t[n] == suffix[0]);
    cli::lemma_leading(t, |c: char| !cli::is_letter(c), n);
    let none = Seq::<char>::empty();
    assert(t.take(n) =~= none + digits + between);
    lemma_trimmed(none, digits, between);
    lemma_parsed(digits);
    assert(t.skip(n) =~= suffix);
    lemma_unit(suffix);
}

/// Without a number there is no size: not in white space, and not in a unit alone.
pub proof fn law_there_is_no_size_without_a_number(
    before: Seq<char>,
    suffix: Seq<char>,
    after: Seq<char>,
)
    requires
        is_blank(before),
        suffix.len() > 0,
        cli::is_letter(suffix[0]),
        !cli::is_space(suffix.last()),
        is_blank(after),
    ensures
        cli::size_of_text(before) == Err::<nat, SizeFault>(SizeFault::Empty),
        cli::size_of_text(before + suffix + after) == Err::<nat, SizeFault>(SizeFault::Empty),
{
    let none = Seq::<char>::empty();
    assert(before + none =~= before);
    lemma_blank_front(before, none);
    lemma_blank_back(none, none);
    assert(none + none =~= none);
    cli::lemma_leading(none, |c: char| !cli::is_letter(c), 0);
    lemma_trimmed(before, suffix, after);
    cli::lemma_leading(suffix, |c: char| !cli::is_letter(c), 0);
    assert(suffix.take(0) =~= none);
    lemma_blank_front(none, none);
}

/// What is no digit is refused in a number, also where it stands behind digits.
pub proof fn law_only_digits_make_a_number(digits: Seq<char>, c: char, rest: Seq<char>)
    requires
        are_digits(digits),
        spelled(digits) <= u64::MAX,
        !cli::is_digit(c),
        digits.len() > 0 || c != '+',
    ensures
        cli::parsed(digits.push(c) + rest) == Err::<nat, SizeFault>(SizeFault::InvalidDigit),
        cli::parsed(seq!['+']) == Err::<nat, SizeFault>(SizeFault::InvalidDigit),
{
    let t = digits.push(c) + rest;
    let n = digits.len() as int;
    assert(t[n] == c);
    if n > 0 {
        assert(t[0] == digits[0]);
        assert(cli::is_digit(digits[0]));
    }
    assert forall|i: int| 0 <= i < n implies (|c: char| cli::is_digit(c))(#[trigger] t[i]) by {
        assert(t[i] == digits[i]);
    }
    cli::lemma_leading(t, |c: char| cli::is_digit(c), n);
    assert(t.take(n) =~= digits);
    lemma_spelled(digits);
    let none = Seq::<char>::empty();
    assert(seq!['+'].drop_first() =~= none);
    cli::lemma_leading(none, |c: char| cli::is_digit(c), 0);
    assert(none.take(0) =~= none);
}

} // verus!
