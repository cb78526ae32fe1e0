//! Integers as decimal text, and back.
use crate::text;
use crate::text::only_digits;
use vstd::prelude::*;
use vstd::slice::slice_subrange;

verus! {

// ---------------------------------------------------------------------------
// Reading
// ---------------------------------------------------------------------------

/// The number that a decimal digit stands for.
pub open spec fn digit_value(c: char) -> int {
    (c as int) - ('0' as int)
}

/// The number that a row of decimal digits stands for.
pub open spec fn number(s: Seq<char>) -> int
    decreases s.len(),
{
    if s.len() == 0 {
        0
    } else {
        10 * number(s.drop_last()) + digit_value(s.last())
    }
}

/// More digits never stand for less.
pub proof fn lemma_number_take(s: Seq<char>, n: int)
    requires
        text::all_digits(s),
        0 <= n <= s.len(),
    ensures
        0 <= number(s.take(n)) <= number(s),
    decreases s.len(),
{
    if n < s.len() {
        lemma_number_take(s.drop_last(), n);
        assert(s.drop_last().take(n) == s.take(n));
        assert(text::is_digit(s[s.len() - 1]));
    } else {
        assert(s.take(n) == s);
        if s.len() > 0 {
            lemma_number_take(s.drop_last(), s.len() - 1);
            assert(s.drop_last().take(s.len() - 1) == s.drop_last());
            assert(text::is_digit(s[s.len() - 1]));
        }
    }
}

/// Digits set behind digits: the front ones count for a power of ten more.
pub proof fn lemma_number_push(s: Seq<char>, c: char)
    ensures
        number(s.push(c)) == 10 * number(s) + digit_value(c),
{
    assert(s.push(c).drop_last() == s);
}

/// The number that a row of digits stands for, if it is at most `max`.
pub fn read_digits(s: &[char], max: u64) -> (r: Option<u64>)
    requires
        text::all_digits(s@),
    ensures
        match r {
            Some(v) => v == number(s@) && v <= max,
            None => number(s@) > max,
        },
{
    let mut v: u64 = 0;
    let mut i: usize = 0;
    assert(s@.take(0) == Seq::<char>::empty());
    while i < s.len()
        invariant
            text::all_digits(s@),
            i <= s@.len(),
            v == number(s@.take(i as int)),
            v <= max,
        decreases s@.len() - i,
    {
        let c = s[i];
        assert(text::is_digit(s@[i as int]));
        let d: u64 = (c as u64) - 48;
        proof {
            assert(s@.take(i + 1) == s@.take(i as int).push(c));
            lemma_number_push(s@.take(i as int), c);
            lemma_number_take(s@, i + 1);
        }
        if d > max || v > (max - d) / 10 {
            return None;
        }
        v = v * 10 + d;
        i = i + 1;
    }
    assert(s@.take(i as int) == s@);
    Some(v)
}

/// How `str::parse` reads an unsigned integer of at most `max`: an optional
/// plus sign, then nothing but digits, at least one.
pub open spec fn unsigned_in(s: Seq<char>, max: int) -> Option<int> {
    let d = if s.len() > 0 && s[0] == '+' {
        s.skip(1)
    } else {
        s
    };
    if d.len() > 0 && text::all_digits(d) && number(d) <= max {
        Some(number(d))
    } else {
        None
    }
}

/// How `str::parse` reads an `i64`: an optional sign, then nothing but digits,
/// at least one.
pub open spec fn signed_in(s: Seq<char>) -> Option<int> {
    let d = if s.len() > 0 && (s[0] == '+' || s[0] == '-') {
        s.skip(1)
    } else {
        s
    };
    let v = if s.len() > 0 && s[0] == '-' {
        -number(d)
    } else {
        number(d)
    };
    if d.len() > 0 && text::all_digits(d) && i64::MIN <= v <= i64::MAX {
        Some(v)
    } else {
        None
    }
}

pub fn read_unsigned(s: &[char], max: u64) -> (r: Option<u64>)
    ensures
        match r {
            Some(v) => unsigned_in(s@, max as int) == Some(v as int),
            None => unsigned_in(s@, max as int) is None,
        },
{
    let d = if s.len() > 0 && s[0] == '+' {
        slice_subrange(s, 1, s.len())
    } else {
        s
    };
    if d.len() == 0 || !only_digits(d) {
        return None;
    }
    read_digits(d, max)
}

pub fn read_signed(s: &[char]) -> (r: Option<i64>)
    ensures
        match r {
            Some(v) => signed_in(s@) == Some(v as int),
            None => signed_in(s@) is None,
        },
{
    let negative = s.len() > 0 && s[0] == '-';
    let d = if s.len() > 0 && (s[0] == '+' || s[0] == '-') {
        slice_subrange(s, 1, s.len())
    } else {
        s
    };
    if d.len() == 0 || !only_digits(d) {
        return None;
    }
    proof {
        lemma_number_take(d@, 0);
    }
    if negative {
        match read_digits(d, 0x8000_0000_0000_0000) {
            Some(v) => {
                if v == 0x8000_0000_0000_0000 {
                    Some(i64::MIN)
                } else {
                    Some(-(v as i64))
                }
            },
            None => None,
        }
    } else {
        match read_digits(d, 0x7fff_ffff_ffff_ffff) {
            Some(v) => Some(v as i64),
            None => None,
        }
    }
}

// ---------------------------------------------------------------------------
// Writing
// ---------------------------------------------------------------------------

/// The digit for a number below ten.
pub open spec fn digit_for(n: int) -> char {
    (('0' as int) + n) as char
}

/// A natural number in decimal, without leading zeros.
pub open spec fn decimal(n: int) -> Seq<char>
    decreases n,
{
    if n < 10 {
        seq![digit_for(n)]
    } else {
        decimal(n / 10).push(digit_for(n % 10))
    }
}

/// An integer in decimal, with a minus sign where it is negative.
pub open spec fn signed(n: int) -> Seq<char> {
    if n < 0 {
        seq!['-'] + decimal(-n)
    } else {
        decimal(n)
    }
}

/// A number below a hundred in exactly two digits.
pub open spec fn two_digits(n: int) -> Seq<char> {
    seq![digit_for(n / 10), digit_for(n % 10)]
}

/// An amount in hundredths as a decimal with two places.
pub open spec fn hundredths(n: int) -> Seq<char> {
    let m = if n < 0 {
        -n
    } else {
        n
    };
    let front: Seq<char> = if n < 0 {
        seq!['-']
    } else {
        seq![]
    };
    front + decimal(m / 100) + seq!['.'] + two_digits(m % 100)
}

/// The digit for a number below ten.
pub fn digit_of(d: u64) -> (r: char)
    requires
        d < 10,
    ensures
        r == digit_for(d as int),
{
    let b: u8 = d as u8;
    (48 + b) as char
}

pub fn push_decimal(out: &mut String, n: u64)
    ensures
        final(out)@ == old(out)@ + decimal(n as int),
    decreases n,
{
    if n >= 10 {
        push_decimal(out, n / 10);
    }
    out.push(digit_of(n % 10));
}

pub fn push_two_digits(out: &mut String, n: u64)
    requires
        n < 100,
    ensures
        final(out)@ == old(out)@ + two_digits(n as int),
{
    out.push(digit_of(n / 10));
    out.push(digit_of(n % 10));
}

/// The size of an integer, whatever its sign.
pub open spec fn magnitude(n: int) -> int {
    if n < 0 {
        -n
    } else {
        n
    }
}

pub fn magnitude_of(n: i64) -> (r: u64)
    ensures
        r == magnitude(n as int),
{
    if n == i64::MIN {
        0x8000_0000_0000_0000
    } else if n < 0 {
        (-n) as u64
    } else {
        n as u64
    }
}

pub fn push_signed(out: &mut String, n: i64)
    ensures
        final(out)@ == old(out)@ + signed(n as int),
{
    if n < 0 {
        out.push('-');
    }
    push_decimal(out, magnitude_of(n));
}

pub fn decimal_text(n: u64) -> (r: String)
    ensures
        r@ == decimal(n as int),
{
    let mut r = String::new();
    push_decimal(&mut r, n);
    r
}

pub fn signed_text(n: i64) -> (r: String)
    ensures
        r@ == signed(n as int),
{
    let mut r = String::new();
    push_signed(&mut r, n);
    r
}

pub fn hundredths_text(n: i64) -> (r: String)
    ensures
        r@ == hundredths(n as int),
{
    let m: u64 = magnitude_of(n);
    let mut r = String::new();
    if n < 0 {
        r.push('-');
    }
    push_decimal(&mut r, m / 100);
    r.push('.');
    push_two_digits(&mut r, m % 100);
    r
}

// ---------------------------------------------------------------------------
// Writing and reading agree
// ---------------------------------------------------------------------------

/// What is written in decimal is made of digits, is never empty, and reads
/// back as the number that was written.
pub proof fn lemma_decimal(n: int)
    requires
        n >= 0,
    ensures
        decimal(n).len() > 0,
        text::all_digits(decimal(n)),
        number(decimal(n)) == n,
    decreases n,
{
    if n < 10 {
        reveal_with_fuel(number, 2);
        assert(decimal(n).drop_last() == Seq::<char>::empty());
    } else {
        lemma_decimal(n / 10);
        lemma_number_push(decimal(n / 10), digit_for(n % 10));
        let d = decimal(n);
        assert forall|i: int| 0 <= i < d.len() implies text::is_digit(#[trigger] d[i]) by {
            if i < d.len() - 1 {
                assert(d[i] == decimal(n / 10)[i]);
            }
        }
    }
}

/// An integer that was written reads back as itself.
pub proof fn law_signed_round_trip(n: i64)
    ensures
        signed_in(signed(n as int)) == Some(n as int),
{
    lemma_decimal(magnitude(n as int));
    if n < 0 {
        assert(signed(n as int).skip(1) == decimal(-n));
    } else {
        assert(text::is_digit(decimal(n as int)[0]));
    }
}

} // verus!
