//! Sizes given on the command line.

use vstd::prelude::*;
use vstd::string::StrSliceExecFns;

verus! {

/// Why a size cannot be read.
#[derive(Debug, PartialEq, Eq)]
pub enum SizeError {
    /// There is no number.
    Empty,
    /// The number holds something that is no digit.
    InvalidDigit,
    /// The number does not fit in 64 bits.
    NumberTooLarge,
    /// What stands behind the number, in upper case, is no unit.
    UnknownSuffix(Vec<char>),
    /// The number times the unit does not fit in 64 bits.
    Overflow { base: u64, suffix: Vec<char> },
}

/// What a [`SizeError`] says.
pub enum SizeFault {
    Empty,
    InvalidDigit,
    NumberTooLarge,
    UnknownSuffix(Seq<char>),
    Overflow { base: nat, suffix: Seq<char> },
}

impl View for SizeError {
    type V = SizeFault;

    open spec fn view(&self) -> SizeFault {
        match self {
            SizeError::Empty => SizeFault::Empty,
            SizeError::InvalidDigit => SizeFault::InvalidDigit,
            SizeError::NumberTooLarge => SizeFault::NumberTooLarge,
            SizeError::UnknownSuffix(s) => SizeFault::UnknownSuffix(s@),
            SizeError::Overflow { base, suffix } => SizeFault::Overflow {
                base: *base as nat,
                suffix: suffix@,
            },
        }
    }
}

/// Whether a character is white space, as Unicode has it.
pub open spec fn is_space(c: char) -> bool {
    let x = c as u32;
    ||| 0x09 <= x <= 0x0d
    ||| x == 0x20
    ||| x == 0x85
    ||| x == 0xa0
    ||| x == 0x1680
    ||| 0x2000 <= x <= 0x200a
    ||| x == 0x2028
    ||| x == 0x2029
    ||| x == 0x202f
    ||| x == 0x205f
    ||| x == 0x3000
}

/// Whether a character is a letter from `a` to `z` or from `A` to `Z`.
pub open spec fn is_letter(c: char) -> bool {
    'a' <= c <= 'z' || 'A' <= c <= 'Z'
}

/// Whether a character is a decimal digit.
pub open spec fn is_digit(c: char) -> bool {
    '0' <= c <= '9'
}

/// A letter from `a` to `z` in upper case; any other character as it is.
pub open spec fn upper(c: char) -> char {
    if 'a' <= c <= 'z' {
        (c as u32 - 32) as char
    } else {
        c
    }
}

/// How many characters at the front of `s` have a property.
pub open spec fn leading(s: Seq<char>, p: spec_fn(char) -> bool) -> nat
    decreases s.len(),
{
    if s.len() == 0 || !p(s[0]) {
        0
    } else {
        1 + leading(s.drop_first(), p)
    }
}

/// `s` without white space at its front.
pub open spec fn trimmed_front(s: Seq<char>) -> Seq<char> {
    s.skip(leading(s, |c: char| is_space(c)) as int)
}

/// `s` without white space at its end.
pub open spec fn trimmed_back(s: Seq<char>) -> Seq<char>
    decreases s.len(),
{
    if s.len() == 0 || !is_space(s.last()) {
        s
    } else {
        trimmed_back(s.drop_last())
    }
}

/// `s` without white space at either end.
pub open spec fn trimmed(s: Seq<char>) -> Seq<char> {
    trimmed_back(trimmed_front(s))
}

/// The number that some digits spell.
pub open spec fn number(digits: Seq<char>) -> nat
    decreases digits.len(),
{
    if digits.len() == 0 {
        0
    } else {
        10 * number(digits.drop_last()) + (digits.last() as u32 - '0' as u32) as nat
    }
}

/// The 64-bit number that `s` spells, with an optional plus sign. Of a number
/// that is too large and a character that is no digit, the first counts.
pub open spec fn parsed(s: Seq<char>) -> Result<nat, SizeFault> {
    if s.len() == 0 {
        Err(SizeFault::Empty)
    } else {
        let digits = if s[0] == '+' {
            s.drop_first()
        } else {
            s
        };
        let n = leading(digits, |c: char| is_digit(c)) as int;
        if number(digits.take(n)) > u64::MAX {
            Err(SizeFault::NumberTooLarge)
        } else if n < digits.len() || digits.len() == 0 {
            Err(SizeFault::InvalidDigit)
        } else {
            Ok(number(digits))
        }
    }
}

/// How many bytes a unit stands for.
pub open spec fn unit(suffix: Seq<char>) -> Option<nat> {
    if suffix == seq!['B'] {
        Some(1)
    } else if suffix == seq!['K'] || suffix == seq!['K', 'B'] {
        Some(1024)
    } else if suffix == seq!['M'] || suffix == seq!['M', 'B'] {
        Some(1024 * 1024)
    } else if suffix == seq!['G'] || suffix == seq!['G', 'B'] {
        Some(1024 * 1024 * 1024)
    } else {
        None
    }
}

/// The size that `s` stands for: a number of bytes, or a number and a unit.
pub open spec fn size_of_text(s: Seq<char>) -> Result<nat, SizeFault> {
    let t = trimmed(s);
    let n = leading(t, |c: char| !is_letter(c)) as int;
    if n == t.len() {
        parsed(t)
    } else {
        match parsed(trimmed(t.take(n))) {
            Err(e) => Err(e),
            Ok(base) => {
                let suffix = t.skip(n).map_values(|c: char| upper(c));
                match unit(suffix) {
                    None => Err(SizeFault::UnknownSuffix(suffix)),
                    Some(u) => if base * u > u64::MAX {
                        Err(SizeFault::Overflow { base, suffix })
                    } else {
                        Ok(base * u)
                    },
                }
            },
        }
    }
}

fn space(c: char) -> (r: bool)
    ensures
        r == is_space(c),
{
    let x: u32 = c as u32;
    (0x09 <= x && x <= 0x0d) || x == 0x20 || x == 0x85 || x == 0xa0 || x == 0x1680 || (0x2000 <= x
        && x <= 0x200a) || x == 0x2028 || x == 0x2029 || x == 0x202f || x == 0x205f || x == 0x3000
}

fn letter(c: char) -> (r: bool)
    ensures
        r == is_letter(c),
{
    let x: u32 = c as u32;
    (0x61 <= x && x <= 0x7a) || (0x41 <= x && x <= 0x5a)
}

fn digit(c: char) -> (r: bool)
    ensures
        r == is_digit(c),
{
    let x: u32 = c as u32;
    0x30 <= x && x <= 0x39
}

fn to_upper(c: char) -> (r: char)
    ensures
        r == upper(c),
{
    match c {
        'a' => 'A',
        'b' => 'B',
        'c' => 'C',
        'd' => 'D',
        'e' => 'E',
        'f' => 'F',
        'g' => 'G',
        'h' => 'H',
        'i' => 'I',
        'j' => 'J',
        'k' => 'K',
        'l' => 'L',
        'm' => 'M',
        'n' => 'N',
        'o' => 'O',
        'p' => 'P',
        'q' => 'Q',
        'r' => 'R',
        's' => 'S',
        't' => 'T',
        'u' => 'U',
        'v' => 'V',
        'w' => 'W',
        'x' => 'X',
        'y' => 'Y',
        'z' => 'Z',
        other => other,
    }
}

fn text_of(s: &str) -> (r: Vec<char>)
    ensures
        r@ == s@,
{
    let mut r: Vec<char> = Vec::new();
    let n: usize = s.unicode_len();
    let mut i: usize = 0;
    while i < n
        invariant
            i <= n == s@.len(),
            r@ == s@.take(i as int),
        decreases n - i,
    {
        assert(s@.take(i + 1) =~= s@.take(i as int).push(s@[i as int]));
        r.push(s.get_char(i));
        i = i + 1;
    }
    assert(s@.take(i as int) =~= s@);
    r
}

fn part(s: &Vec<char>, from: usize, to: usize) -> (r: Vec<char>)
    requires
        from <= to <= s@.len(),
    ensures
        r@ == s@.subrange(from as int, to as int),
{
    let mut r: Vec<char> = Vec::new();
    let mut i: usize = from;
    while i < to
        invariant
            from <= i <= to <= s@.len(),
            r@ == s@.subrange(from as int, i as int),
        decreases to - i,
    {
        assert(s@.subrange(from as int, i + 1) =~= s@.subrange(from as int, i as int).push(
            s@[i as int],
        ));
        r.push(s[i]);
        i = i + 1;
    }
    r
}

/// Counting the characters at the front one by one.
pub(crate) proof fn lemma_leading(s: Seq<char>, p: spec_fn(char) -> bool, n: int)
    requires
        0 <= n <= s.len(),
        forall|i: int| 0 <= i < n ==> p(#[trigger] s[i]),
        n == s.len() || !p(s[n]),
    ensures
        leading(s, p) == n,
    decreases n,
{
    if n > 0 {
        assert(p(s[0]));
        let rest = s.drop_first();
        assert forall|i: int| 0 <= i < n - 1 implies p(#[trigger] rest[i]) by {
            assert(rest[i] == s[i + 1]);
        }
        lemma_leading(rest, p, n - 1);
    }
}

fn trim(s: &Vec<char>) -> (r: Vec<char>)
    ensures
        r@ == trimmed(s@),
{
    let mut from: usize = 0;
    while from < s.len() && space(s[from])
        invariant
            from <= s@.len(),
            forall|i: int| 0 <= i < from ==> is_space(#[trigger] s@[i]),
        decreases s@.len() - from,
    {
        from = from + 1;
    }
    proof {
        lemma_leading(s@, |c: char| is_space(c), from as int);
    }
    let ghost front = s@.skip(from as int);
    let mut to: usize = s.len();
    assert(front.take(to - from) =~= front);
    while to > from && space(s[to - 1])
        invariant
            from <= to <= s@.len(),
            front == s@.skip(from as int),
            trimmed_back(front) == trimmed_back(front.take(to - from)),
        decreases to,
    {
        let ghost part = front.take(to - from);
        assert(part.last() == s@[to - 1]);
        assert(part.drop_last() =~= front.take(to - 1 - from));
        to = to - 1;
    }
    let r = part(s, from, to);
    assert(r@ =~= front.take(to - from));
    r
}

fn parse_number(s: &Vec<char>) -> (r: Result<u64, SizeError>)
    ensures
        match (r, parsed(s@)) {
            (Ok(n), Ok(m)) => n == m,
            (Err(e), Err(f)) => e@ == f,
            _ => false,
        },
{
    if s.len() == 0 {
        return Err(SizeError::Empty);
    }
    let start: usize = if s[0] == '+' {
        1
    } else {
        0
    };
    let ghost digits = s@.skip(start as int);
    proof {
        if start == 1 {
            assert(digits =~= s@.drop_first());
        } else {
            assert(digits =~= s@);
        }
    }
    let mut value: u64 = 0;
    let mut i: usize = start;
    assert(digits.take(0) =~= Seq::empty());
    while i < s.len() && digit(s[i])
        invariant
            start <= i <= s@.len(),
            digits == s@.skip(start as int),
            digits == if s@[0] == '+' {
                s@.drop_first()
            } else {
                s@
            },
            s@.len() > 0,
            forall|k: int| 0 <= k < i - start ==> is_digit(#[trigger] digits[k]),
            value == number(digits.take(i - start)),
        decreases s@.len() - i,
    {
        let d: u64 = (s[i] as u32 - '0' as u32) as u64;
        let ghost upto = digits.take(i + 1 - start);
        proof {
            assert(upto.drop_last() =~= digits.take(i - start));
            assert(upto.last() == s@[i as int]);
            assert(digits[i - start] == s@[i as int]);
        }
        let next: Option<u64> = match value.checked_mul(10) {
            Some(x) => x.checked_add(d),
            None => None,
        };
        match next {
            Some(x) => {
                value = x;
            },
            None => {
                proof {
                    lemma_number_grows(digits, i + 1 - start);
                }
                return Err(SizeError::NumberTooLarge);
            },
        }
        i = i + 1;
    }
    proof {
        let n = i - start;
        assert(i < s@.len() ==> digits[n] == s@[i as int]);
        lemma_leading(digits, |c: char| is_digit(c), n);
        assert(i == s@.len() ==> digits.take(n) =~= digits);
    }
    if i < s.len() || start == s.len() {
        return Err(SizeError::InvalidDigit);
    }
    Ok(value)
}

/// More digits do not make a number smaller.
proof fn lemma_number_grows(digits: Seq<char>, n: int)
    requires
        0 <= n <= digits.len(),
        forall|k: int| 0 <= k < n ==> is_digit(#[trigger] digits[k]),
    ensures
        number(digits.take(n)) <= number(
            digits.take(leading(digits, |c: char| is_digit(c)) as int),
        ),
{
    lemma_leading_at_least(digits, n);
    lemma_number_mono(digits, n, leading(digits, |c: char| is_digit(c)) as int);
}

proof fn lemma_leading_at_least(digits: Seq<char>, n: int)
    requires
        0 <= n <= digits.len(),
        forall|k: int| 0 <= k < n ==> is_digit(#[trigger] digits[k]),
    ensures
        n <= leading(digits, |c: char| is_digit(c)) <= digits.len(),
    decreases digits.len(),
{
    if digits.len() > 0 {
        let rest = digits.drop_first();
        if n > 0 {
            assert(is_digit(digits[0]));
            assert forall|k: int| 0 <= k < n - 1 implies is_digit(#[trigger] rest[k]) by {
                assert(rest[k] == digits[k + 1]);
            }
            lemma_leading_at_least(rest, n - 1);
        } else {
            lemma_leading_at_least(rest, 0);
        }
    }
}

proof fn lemma_number_mono(digits: Seq<char>, a: int, b: int)
    requires
        0 <= a <= b <= digits.len(),
    ensures
        number(digits.take(a)) <= number(digits.take(b)),
    decreases b - a,
{
    if a < b {
        lemma_number_mono(digits, a, b - 1);
        assert(digits.take(b).drop_last() =~= digits.take(b - 1));
    }
}

fn unit_of(suffix: &Vec<char>) -> (r: Option<u64>)
    ensures
        match (r, unit(suffix@)) {
            (Some(n), Some(m)) => n == m,
            (None, None) => true,
            _ => false,
        },
{
    let ghost s = suffix@;
    if suffix.len() == 1 {
        proof {
            assert(s =~= seq![s[0]]);
        }
        match suffix[0] {
            'B' => Some(1),
            'K' => Some(1024),
            'M' => Some(1024 * 1024),
            'G' => Some(1024 * 1024 * 1024),
            _ => None,
        }
    } else if suffix.len() == 2 && suffix[1] == 'B' {
        proof {
            assert(s =~= seq![s[0], 'B']);
        }
        match suffix[0] {
            'K' => Some(1024),
            'M' => Some(1024 * 1024),
            'G' => Some(1024 * 1024 * 1024),
            _ => None,
        }
    } else {
        None
    }
}

/// Reads a size such as `100MB`, `500KB`, `2GB` or a plain number of bytes.
pub fn parse_byte_size(s: &str) -> (r: Result<u64, SizeError>)
    ensures
        match (r, size_of_text(s@)) {
            (Ok(n), Ok(m)) => n == m,
            (Err(e), Err(f)) => e@ == f,
            _ => false,
        },
{
    let text = text_of(s);
    let t = trim(&text);
    let mut n: usize = 0;
    while n < t.len() && !letter(t[n])
        invariant
            n <= t@.len(),
            forall|i: int| 0 <= i < n ==> !is_letter(#[trigger] t@[i]),
        decreases t@.len() - n,
    {
        n = n + 1;
    }
    proof {
        lemma_leading(t@, |c: char| !is_letter(c), n as int);
    }
    if n == t.len() {
        return parse_number(&t);
    }
    let digits = part(&t, 0, n);
    assert(digits@ =~= t@.take(n as int));
    let base: u64 = match parse_number(&trim(&digits)) {
        Ok(base) => base,
        Err(e) => {
            return Err(e);
        },
    };
    let mut suffix: Vec<char> = Vec::new();
    let ghost tail = t@.skip(n as int);
    let mut i: usize = n;
    while i < t.len()
        invariant
            n <= i <= t@.len(),
            tail == t@.skip(n as int),
            suffix@.len() == i - n,
            forall|k: int| 0 <= k < i - n ==> suffix@[k] == upper(tail[k]),
        decreases t@.len() - i,
    {
        assert(t@[i as int] == tail[i - n]);
        suffix.push(to_upper(t[i]));
        i = i + 1;
    }
    assert(suffix@ =~= tail.map_values(|c: char| upper(c)));
    match unit_of(&suffix) {
        Some(u) => match base.checked_mul(u) {
            Some(size) => Ok(size),
            None => Err(SizeError::Overflow { base, suffix }),
        },
        None => Err(SizeError::UnknownSuffix(suffix)),
    }
}

} // verus!
