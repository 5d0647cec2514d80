//! Numbers in text.
use vstd::prelude::*;
use vstd::string::*;

verus! {

pub const ZERO: u8 = 0x30;

/// A number in decimal digits.
pub open spec fn decimal(n: nat) -> Seq<u8>
    decreases n,
{
    if n < 10 {
        seq![(ZERO + n) as u8]
    } else {
        decimal(n / 10).push((ZERO + n % 10) as u8)
    }
}

pub fn decimal_bytes(n: u32) -> (r: Vec<u8>)
    ensures
        r@ == decimal(n as nat),
    decreases n,
{
    if n < 10 {
        let mut digits: Vec<u8> = Vec::new();
        digits.push(ZERO + n as u8);
        assert(digits@ =~= decimal(n as nat));
        digits
    } else {
        let mut digits = decimal_bytes(n / 10);
        digits.push(ZERO + (n % 10) as u8);
        digits
    }
}

/// The characters that count as white space.
pub open spec fn is_blank(c: char) -> bool {
    ||| '\u{9}' <= c <= '\u{d}'
    ||| c == '\u{20}'
    ||| c == '\u{85}'
    ||| c == '\u{a0}'
    ||| c == '\u{1680}'
    ||| '\u{2000}' <= c <= '\u{200a}'
    ||| c == '\u{2028}'
    ||| c == '\u{2029}'
    ||| c == '\u{202f}'
    ||| c == '\u{205f}'
    ||| c == '\u{3000}'
}

/// A text without white space at its end.
pub open spec fn trim_end(s: Seq<char>) -> Seq<char>
    decreases s.len(),
{
    if s.len() > 0 && is_blank(s.last()) {
        trim_end(s.drop_last())
    } else {
        s
    }
}

/// A text without white space at its start.
pub open spec fn trim_start(s: Seq<char>) -> Seq<char>
    decreases s.len(),
{
    if s.len() > 0 && is_blank(s[0]) {
        trim_start(s.drop_first())
    } else {
        s
    }
}

/// A text without white space at either end.
pub open spec fn trim(s: Seq<char>) -> Seq<char> {
    trim_end(trim_start(s))
}

/// Why a text is no number.
#[derive(Clone, Copy, Debug, PartialEq, Eq)]
pub enum NumberFault {
    Empty,
    InvalidDigit,
    TooLarge,
}

pub open spec fn is_digit(c: char) -> bool {
    '0' <= c <= '9'
}

pub open spec fn digit_value(c: char) -> nat {
    (c as nat - '0' as nat) as nat
}

/// The value of a row of digits, read from the left; the first character that
/// is no digit, or that takes the value out of range, ends the reading.
pub open spec fn digits_value(s: Seq<char>) -> Result<u64, NumberFault>
    decreases s.len(),
{
    if s.len() == 0 {
        Ok(0)
    } else {
        match digits_value(s.drop_last()) {
            Err(fault) => Err(fault),
            Ok(value) => if !is_digit(s.last()) {
                Err(NumberFault::InvalidDigit)
            } else if value * 10 + digit_value(s.last()) > u64::MAX {
                Err(NumberFault::TooLarge)
            } else {
                Ok((value * 10 + digit_value(s.last())) as u64)
            },
        }
    }
}

/// The number that a text spells: digits, with a plus sign before them or not.
pub open spec fn number(s: Seq<char>) -> Result<u64, NumberFault> {
    if s.len() == 0 {
        Err(NumberFault::Empty)
    } else if s[0] == '+' {
        if s.len() == 1 {
            Err(NumberFault::InvalidDigit)
        } else {
            digits_value(s.drop_first())
        }
    } else {
        digits_value(s)
    }
}

fn is_blank_char(c: char) -> (r: bool)
    ensures
        r == is_blank(c),
{
    ('\u{9}' <= c && c <= '\u{d}') || c == '\u{20}' || c == '\u{85}' || c == '\u{a0}' || c
        == '\u{1680}' || ('\u{2000}' <= c && c <= '\u{200a}') || c == '\u{2028}' || c == '\u{2029}'
        || c == '\u{202f}' || c == '\u{205f}' || c == '\u{3000}'
}

/// The text without white space at either end.
pub fn trimmed<'a>(s: &'a str) -> (r: &'a str)
    ensures
        r@ == trim(s@),
{
    let length = s.unicode_len();
    let mut start: usize = 0;
    assert(s@.skip(0) =~= s@);
    while start < length && is_blank_char(s.get_char(start))
        invariant
            length == s@.len(),
            start <= length,
            trim_start(s@) == trim_start(s@.skip(start as int)),
        decreases length - start,
    {
        assert(s@.skip(start as int)[0] == s@[start as int]);
        assert(s@.skip(start as int).drop_first() =~= s@.skip(start + 1));
        start += 1;
    }
    let ghost front = s@.skip(start as int);
    assert(start < length ==> front[0] == s@[start as int]);
    let mut end: usize = length;
    assert(s@.subrange(start as int, end as int) =~= front);
    while end > start && is_blank_char(s.get_char(end - 1))
        invariant
            length == s@.len(),
            start <= end <= length,
            front == s@.skip(start as int),
            trim_end(front) == trim_end(s@.subrange(start as int, end as int)),
        decreases end,
    {
        assert(s@.subrange(start as int, end as int).last() == s@[end - 1]);
        assert(s@.subrange(start as int, end as int).drop_last() =~= s@.subrange(
            start as int,
            end - 1,
        ));
        end -= 1;
    }
    assert(end > start ==> s@.subrange(start as int, end as int).last() == s@[end - 1]);
    s.substring_char(start, end)
}

/// A bad character spoils the number.
proof fn lemma_digits_stop(s: Seq<char>, n: int)
    requires
        0 <= n <= s.len(),
        digits_value(s.take(n)) is Err,
    ensures
        digits_value(s) == digits_value(s.take(n)),
    decreases s.len(),
{
    if n < s.len() {
        assert(s.drop_last().take(n) =~= s.take(n));
        lemma_digits_stop(s.drop_last(), n);
    } else {
        assert(s.take(n) =~= s);
    }
}

/// Reads a number.
pub fn parse_number(s: &str) -> (r: Result<u64, NumberFault>)
    ensures
        r == number(s@),
{
    let length = s.unicode_len();
    if length == 0 {
        return Err(NumberFault::Empty);
    }
    let mut i: usize = 0;
    if s.get_char(0) == '+' {
        if length == 1 {
            return Err(NumberFault::InvalidDigit);
        }
        i = 1;
    }
    let ghost digits = s@.skip(i as int);
    let ghost start = i as int;
    assert(i == 1 ==> digits =~= s@.drop_first());
    assert(i == 0 ==> digits =~= s@);
    assert(number(s@) == digits_value(digits));
    let mut value: u64 = 0;
    assert(digits.take(0) =~= Seq::empty());
    while i < length
        invariant
            length == s@.len(),
            0 <= start <= i <= length,
            digits == s@.skip(start),
            number(s@) == digits_value(digits),
            digits_value(digits.take(i - start)) == Ok::<u64, NumberFault>(value),
        decreases length - i,
    {
        let c = s.get_char(i);
        let ghost next = digits.take(i - start + 1);
        assert(next.drop_last() =~= digits.take(i - start));
        assert(next.last() == c);
        if !('0' <= c && c <= '9') {
            proof {
                lemma_digits_stop(digits, i - start + 1);
            }
            return Err(NumberFault::InvalidDigit);
        }
        let digit: u64 = c as u64 - '0' as u64;
        match value.checked_mul(10) {
            None => {
                proof {
                    lemma_digits_stop(digits, i - start + 1);
                }
                return Err(NumberFault::TooLarge);
            },
            Some(tens) => match tens.checked_add(digit) {
                None => {
                    proof {
                        lemma_digits_stop(digits, i - start + 1);
                    }
                    return Err(NumberFault::TooLarge);
                },
                Some(sum) => {
                    value = sum;
                },
            },
        }
        i += 1;
    }
    assert(digits.take(length - start) =~= digits);
    Ok(value)
}

/// Trimming takes white space from both ends and nothing else: what is left starts and
/// ends with something else, unless nothing is left.
pub proof fn law_trim(s: Seq<char>)
    ensures
        exists|a: int, b: int|
            0 <= a <= b <= s.len() && trim(s) == #[trigger] s.subrange(a, b) && (forall|i: int|
                0 <= i < a || b <= i < s.len() ==> is_blank(#[trigger] s[i])) && (a < b
                ==> !is_blank(s[a]) && !is_blank(s[b - 1])),
{
    let a = lemma_trim_start(s);
    let front = s.skip(a);
    let n = lemma_trim_end(front);
    assert(front.take(n) =~= s.subrange(a, a + n));
    assert forall|i: int| 0 <= i < a || a + n <= i < s.len() implies is_blank(#[trigger] s[i]) by {
        if i >= a {
            assert(front[i - a] == s[i]);
        }
    }
    if n > 0 {
        assert(front[0] == s[a]);
        assert(front[n - 1] == s[a + n - 1]);
    }
    assert(trim(s) == s.subrange(a, a + n));
}

proof fn lemma_trim_start(s: Seq<char>) -> (a: int)
    ensures
        0 <= a <= s.len(),
        trim_start(s) == s.skip(a),
        forall|i: int| 0 <= i < a ==> is_blank(#[trigger] s[i]),
        a < s.len() ==> !is_blank(s[a]),
    decreases s.len(),
{
    if s.len() > 0 && is_blank(s[0]) {
        let rest = s.drop_first();
        let a = lemma_trim_start(rest);
        assert(rest.skip(a) =~= s.skip(a + 1));
        assert forall|i: int| 0 <= i < a + 1 implies is_blank(#[trigger] s[i]) by {
            if i > 0 {
                assert(rest[i - 1] == s[i]);
            }
        }
        a + 1
    } else {
        assert(s.skip(0) =~= s);
        0
    }
}

proof fn lemma_trim_end(s: Seq<char>) -> (n: int)
    ensures
        0 <= n <= s.len(),
        trim_end(s) == s.take(n),
        forall|i: int| n <= i < s.len() ==> is_blank(#[trigger] s[i]),
        n > 0 ==> !is_blank(s[n - 1]),
    decreases s.len(),
{
    if s.len() > 0 && is_blank(s.last()) {
        let front = s.drop_last();
        let n = lemma_trim_end(front);
        assert(front.take(n) =~= s.take(n));
        assert forall|i: int| n <= i < s.len() implies is_blank(#[trigger] s[i]) by {
            if i < front.len() {
                assert(front[i] == s[i]);
            }
        }
        n
    } else {
        assert(s.take(s.len() as int) =~= s);
        s.len() as int
    }
}

/// A number in decimal digits, as text.
pub open spec fn spelled(n: nat) -> Seq<char> {
    decimal(n).map_values(|b: u8| b as char)
}

proof fn lemma_spelled(n: nat)
    ensures
        spelled(n).len() > 0,
        n < 10 ==> spelled(n) == seq![(0x30 + n) as u8 as char],
        n >= 10 ==> spelled(n) == spelled(n / 10).push((0x30 + n % 10) as u8 as char),
    decreases n,
{
    if n < 10 {
        assert(spelled(n) =~= seq![(0x30 + n) as u8 as char]);
    } else {
        lemma_spelled(n / 10);
        assert(spelled(n) =~= spelled(n / 10).push((0x30 + n % 10) as u8 as char));
    }
}

proof fn lemma_read_back(n: nat)
    requires
        n <= u64::MAX,
    ensures
        digits_value(spelled(n)) == Ok::<u64, NumberFault>(n as u64),
        is_digit(spelled(n)[0]),
    decreases n,
{
    lemma_spelled(n);
    let all = spelled(n);
    if n < 10 {
        assert(all.drop_last() =~= Seq::empty());
        reveal_with_fuel(digits_value, 2);
    } else {
        lemma_read_back(n / 10);
        lemma_spelled(n / 10);
        assert(all.drop_last() =~= spelled(n / 10));
        assert(all[0] == spelled(n / 10)[0]);
        assert(n == (n / 10) * 10 + n % 10);
    }
}

/// A number that is written in digits is read back as it was, with a plus sign before
/// it or not.
pub proof fn law_numbers_are_read_back(n: u64)
    ensures
        number(spelled(n as nat)) == Ok::<u64, NumberFault>(n),
        number(seq!['+'] + spelled(n as nat)) == Ok::<u64, NumberFault>(n),
{
    lemma_read_back(n as nat);
    lemma_spelled(n as nat);
    let signed = seq!['+'] + spelled(n as nat);
    assert(signed.drop_first() =~= spelled(n as nat));
    assert(signed[0] == '+');
}

/// What is no row of digits, but for one plus sign in front, is no number.
pub proof fn law_numbers_are_digits(s: Seq<char>, value: u64)
    requires
        number(s) == Ok::<u64, NumberFault>(value),
    ensures
        s.len() > 0,
        forall|i: int| 0 < i < s.len() ==> is_digit(#[trigger] s[i]),
        is_digit(s[0]) || s[0] == '+' && s.len() > 1,
{
    let digits = if s[0] == '+' {
        s.drop_first()
    } else {
        s
    };
    lemma_all_digits(digits);
    assert forall|i: int| 0 < i < s.len() implies is_digit(#[trigger] s[i]) by {
        if s[0] == '+' {
            assert(digits[i - 1] == s[i]);
        }
    }
    if s[0] != '+' {
        assert(is_digit(digits[0]));
    }
}

proof fn lemma_all_digits(s: Seq<char>)
    requires
        digits_value(s) is Ok,
    ensures
        forall|i: int| 0 <= i < s.len() ==> is_digit(#[trigger] s[i]),
    decreases s.len(),
{
    if s.len() > 0 {
        lemma_all_digits(s.drop_last());
        assert forall|i: int| 0 <= i < s.len() implies is_digit(#[trigger] s[i]) by {
            if i < s.len() - 1 {
                assert(s.drop_last()[i] == s[i]);
            }
        }
    }
}

/// The characters that count as white space, by their numbers.
pub proof fn law_white_space(c: char)
    ensures
        is_blank(c) <==> ({
            let n = c as u32;
            ||| 0x9 <= n <= 0xd
            ||| n == 0x20
            ||| n == 0x85
            ||| n == 0xa0
            ||| n == 0x1680
            ||| 0x2000 <= n <= 0x200a
            ||| n == 0x2028
            ||| n == 0x2029
            ||| n == 0x202f
            ||| n == 0x205f
            ||| n == 0x3000
        }),
{
}

/// Zeros in front of a number change nothing.
pub proof fn law_leading_zeros(s: Seq<char>)
    requires
        s.len() > 0,
        s[0] != '+',
    ensures
        number(seq!['0'] + s) == number(s),
{
    lemma_leading_zero(s);
    assert((seq!['0'] + s)[0] == '0');
}

proof fn lemma_leading_zero(s: Seq<char>)
    ensures
        digits_value(seq!['0'] + s) == digits_value(s),
    decreases s.len(),
{
    let all = seq!['0'] + s;
    if s.len() == 0 {
        assert(all.drop_last() =~= Seq::empty());
        reveal_with_fuel(digits_value, 2);
    } else {
        assert(all.drop_last() =~= seq!['0'] + s.drop_last());
        lemma_leading_zero(s.drop_last());
    }
}

/// A number that is too large to hold is refused as such.
pub proof fn law_large_numbers(n: nat)
    requires
        n > u64::MAX,
    ensures
        number(spelled(n)) == Err::<u64, NumberFault>(NumberFault::TooLarge),
{
    lemma_too_large(n);
    lemma_spelled(n);
}

proof fn lemma_too_large(n: nat)
    requires
        n > u64::MAX,
    ensures
        digits_value(spelled(n)) == Err::<u64, NumberFault>(NumberFault::TooLarge),
        is_digit(spelled(n)[0]),
    decreases n,
{
    lemma_spelled(n);
    let front = n / 10;
    lemma_spelled(front);
    assert(spelled(n).drop_last() =~= spelled(front));
    assert(spelled(n)[0] == spelled(front)[0]);
    assert(n == front * 10 + n % 10);
    if front > u64::MAX {
        lemma_too_large(front);
    } else {
        lemma_read_back(front);
    }
}

} // verus!
