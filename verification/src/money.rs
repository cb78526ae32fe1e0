//! Money: decimal text to minor units and back, without floats.
use crate::decimal;
use crate::decimal::{magnitude_of, read_digits};
use crate::text;
use crate::text::{
    chars_of, code, digit, find_first, find_last, is_text, only_digits, owned, remove_all,
    string_of, trim, unquote,
};
use vstd::prelude::*;
use vstd::slice::slice_subrange;

verus! {

/// Why an amount is not a number of minor units. Each holds the amount.
#[derive(Debug)]
pub enum MoneyError {
    /// Something other than a sign, digits and one point.
    Unparseable(String),
    /// More minor units than an `i64` holds.
    OutOfRange(String),
}

/// The kinds of `MoneyError`.
pub enum MoneyFault {
    Unparseable,
    OutOfRange,
}

impl MoneyError {
    pub open spec fn fault(self) -> MoneyFault {
        match self {
            MoneyError::Unparseable(_) => MoneyFault::Unparseable,
            MoneyError::OutOfRange(_) => MoneyFault::OutOfRange,
        }
    }

    /// The amount that was refused.
    pub open spec fn amount(self) -> Seq<char> {
        match self {
            MoneyError::Unparseable(s) => s@,
            MoneyError::OutOfRange(s) => s@,
        }
    }
}

// ---------------------------------------------------------------------------
// Decimal text to minor units
// ---------------------------------------------------------------------------

/// The part of a decimal before its point.
pub open spec fn whole_part(d: Seq<char>) -> Seq<char> {
    d.take(text::first_at(d, '.'))
}

/// The part of a decimal behind its point.
pub open spec fn fraction_part(d: Seq<char>) -> Seq<char> {
    let k = text::first_at(d, '.');
    if k < d.len() {
        d.skip(k + 1)
    } else {
        seq![]
    }
}

/// The first `n` digits of a fraction, zeros standing in for missing ones.
pub open spec fn first_places(fraction: Seq<char>, n: nat) -> Seq<char> {
    Seq::new(
        n,
        |i: int|
            if i < fraction.len() {
                fraction[i]
            } else {
                '0'
            },
    )
}

/// A decimal amount in minor units, of which `10^exponent` make one unit.
/// Further places are cut off.
pub open spec fn minor_of(amount: Seq<char>, exponent: nat) -> Result<int, MoneyFault> {
    let t = text::trimmed(amount);
    let negative = t.len() > 0 && t[0] == '-';
    let d = if t.len() > 0 && (t[0] == '-' || t[0] == '+') {
        t.skip(1)
    } else {
        t
    };
    let whole = whole_part(d);
    let fraction = fraction_part(d);
    let value = decimal::number(whole + first_places(fraction, exponent));
    if !text::all_digits(whole) || !text::all_digits(fraction) {
        Err(MoneyFault::Unparseable)
    } else if value > i64::MAX {
        Err(MoneyFault::OutOfRange)
    } else if negative {
        Ok(-value)
    } else {
        Ok(value)
    }
}

/// What a reading of an amount owes to `minor_of`.
pub open spec fn reads_as(
    r: Result<i64, MoneyError>,
    amount: Seq<char>,
    exponent: nat,
) -> bool {
    match r {
        Ok(v) => minor_of(amount, exponent) == Ok::<int, MoneyFault>(v as int),
        Err(e) => minor_of(amount, exponent) == Err::<int, MoneyFault>(e.fault()) && e.amount()
            == amount,
    }
}

/// Reads a decimal amount as minor units, `exponent` places behind the point.
pub fn scale(amount: &str, exponent: usize) -> (r: Result<i64, MoneyError>)
    requires
        exponent <= 3,
    ensures
        reads_as(r, amount@, exponent as nat),
{
    let all = chars_of(amount);
    let t = trim(all.as_slice());
    let negative = t.len() > 0 && t[0] == '-';
    let d = if t.len() > 0 && (t[0] == '-' || t[0] == '+') {
        slice_subrange(t, 1, t.len())
    } else {
        t
    };
    let k: usize = find_first(d, '.');
    let whole = slice_subrange(d, 0, k);
    let fraction = if k < d.len() {
        slice_subrange(d, k + 1, d.len())
    } else {
        slice_subrange(d, 0, 0)
    };
    assert(whole@ == whole_part(d@));
    assert(fraction@ == fraction_part(d@));
    if !only_digits(whole) || !only_digits(fraction) {
        return Err(MoneyError::Unparseable(owned(amount)));
    }
    let mut scaled: Vec<char> = Vec::new();
    scaled.extend_from_slice(whole);
    assert(scaled@ == whole@);
    let mut i: usize = 0;
    while i < exponent
        invariant
            i <= exponent <= 3,
            scaled@ == whole@ + first_places(fraction@, i as nat),
        decreases exponent - i,
    {
        let c = if i < fraction.len() {
            fraction[i]
        } else {
            '0'
        };
        scaled.push(c);
        assert(first_places(fraction@, (i + 1) as nat) == first_places(fraction@, i as nat).push(
            c,
        ));
        i = i + 1;
    }
    proof {
        let s = scaled@;
        assert forall|j: int| 0 <= j < s.len() implies text::is_digit(#[trigger] s[j]) by {
            if j < whole@.len() {
                assert(text::is_digit(whole@[j]));
            } else if j - whole@.len() < fraction@.len() {
                assert(text::is_digit(fraction@[j - whole@.len()]));
            }
        }
        decimal::lemma_number_take(s, 0);
    }
    match read_digits(scaled.as_slice(), 0x7fff_ffff_ffff_ffff) {
        None => Err(MoneyError::OutOfRange(owned(amount))),
        Some(v) => {
            let value: i64 = v as i64;
            if negative {
                Ok(-value)
            } else {
                Ok(value)
            }
        },
    }
}

// ---------------------------------------------------------------------------
// Money text to amount and currency
// ---------------------------------------------------------------------------

/// The currency that a symbol stands for. Three capitals stand for themselves.
pub open spec fn symbol_code(s: Seq<char>) -> Option<Seq<char>> {
    if s == "£"@ {
        Some("GBP"@)
    } else if s == "€"@ {
        Some("EUR"@)
    } else if s == "$"@ {
        Some("USD"@)
    } else if s == "¥"@ {
        Some("JPY"@)
    } else if s == "zł"@ {
        Some("PLN"@)
    } else if s == "₱"@ {
        Some("PHP"@)
    } else if text::is_code(s) {
        Some(s)
    } else {
        None
    }
}

pub fn symbol_to_code(s: &[char]) -> (r: Option<String>)
    ensures
        text::opt(r) == symbol_code(s@),
{
    if is_text(s, "£") {
        Some(owned("GBP"))
    } else if is_text(s, "€") {
        Some(owned("EUR"))
    } else if is_text(s, "$") {
        Some(owned("USD"))
    } else if is_text(s, "¥") {
        Some(owned("JPY"))
    } else if is_text(s, "zł") {
        Some(owned("PLN"))
    } else if is_text(s, "₱") {
        Some(owned("PHP"))
    } else if code(s) {
        Some(string_of(s))
    } else {
        None
    }
}

pub open spec fn is_digit_or_point(c: char) -> bool {
    text::is_digit(c) || c == '.'
}

/// The length of what stands before the first digit or point.
pub open spec fn symbol_len(s: Seq<char>) -> int
    decreases s.len(),
{
    if s.len() == 0 || is_digit_or_point(s[0]) {
        0
    } else {
        1 + symbol_len(s.drop_first())
    }
}

proof fn lemma_symbol_len(s: Seq<char>, k: int)
    requires
        0 <= k <= s.len(),
        forall|j: int| 0 <= j < k ==> !is_digit_or_point(s[j]),
        k < s.len() ==> is_digit_or_point(s[k]),
    ensures
        symbol_len(s) == k,
    decreases s.len(),
{
    if k > 0 {
        lemma_symbol_len(s.drop_first(), k - 1);
    }
}

/// A text made of digits and points, with at least one of them.
pub open spec fn is_plain_amount(s: Seq<char>) -> bool {
    s.len() > 0 && forall|i: int| 0 <= i < s.len() ==> is_digit_or_point(#[trigger] s[i])
}

/// The amount that a money text holds, and its currency where the text names
/// one.
///
/// The amount is a minus sign, where the text has one or (with `brackets`)
/// stands in brackets, and then the digits without thousands separators. The
/// currency is the three capitals behind the last space, or what the symbol in
/// front of the digits stands for.
pub open spec fn money_in(raw: Seq<char>, brackets: bool) -> Option<(Seq<char>, Option<Seq<char>>)> {
    let t = text::unquoted(raw);
    let bracketed = brackets && t.len() > 0 && t[0] == '(' && t.last() == ')';
    let u = if bracketed {
        t.subrange(1, t.len() - 1)
    } else {
        t
    };
    let minus = u.len() > 0 && u[0] == '-';
    let plus = u.len() > 0 && u[0] == '+';
    let rest = text::trimmed(
        if minus || plus {
            u.skip(1)
        } else {
            u
        },
    );
    let k = text::last_at(rest, ' ');
    let coded = k >= 0 && text::is_code(rest.skip(k + 1));
    let body = if coded {
        text::trimmed(rest.take(k))
    } else {
        rest
    };
    let n = symbol_len(body);
    let digits = text::without(body.skip(n), ',');
    if t.len() == 0 || !is_plain_amount(digits) {
        None
    } else {
        Some(
            (
                if bracketed || minus {
                    seq!['-'] + digits
                } else {
                    digits
                },
                if coded {
                    Some(rest.skip(k + 1))
                } else {
                    symbol_code(text::trimmed(body.take(n)))
                },
            ),
        )
    }
}

/// The views of an amount and its currency.
pub open spec fn amount_view(r: Option<(String, Option<String>)>) -> Option<
    (Seq<char>, Option<Seq<char>>),
> {
    match r {
        Some((a, c)) => Some((a@, text::opt(c))),
        None => None,
    }
}

/// Splits a money text into its signed amount and the currency it names.
pub fn split_money(raw: &str, brackets: bool) -> (r: Option<(String, Option<String>)>)
    ensures
        amount_view(r) == money_in(raw@, brackets),
{
    let all = chars_of(raw);
    let t = unquote(all.as_slice());
    if t.len() == 0 {
        return None;
    }
    let bracketed = brackets && t[0] == '(' && t[t.len() - 1] == ')';
    let u = if bracketed {
        slice_subrange(t, 1, t.len() - 1)
    } else {
        t
    };
    let minus = u.len() > 0 && u[0] == '-';
    let plus = u.len() > 0 && u[0] == '+';
    let rest = trim(
        if minus || plus {
            slice_subrange(u, 1, u.len())
        } else {
            u
        },
    );
    let mut body = rest;
    let mut named: Option<String> = None;
    let len: usize = rest.len();
    match find_last(rest, ' ') {
        Some(k) => {
            let tail = slice_subrange(rest, k + 1, len);
            if code(tail) {
                named = Some(string_of(tail));
                body = trim(slice_subrange(rest, 0, k));
            }
        },
        None => {},
    }
    let mut n: usize = 0;
    while n < body.len() && !digit(body[n]) && body[n] != '.'
        invariant
            n <= body@.len(),
            forall|j: int| 0 <= j < n ==> !is_digit_or_point(body@[j]),
        decreases body@.len() - n,
    {
        n = n + 1;
    }
    proof {
        lemma_symbol_len(body@, n as int);
    }
    let digits = remove_all(slice_subrange(body, n, body.len()), ',');
    if !plain_amount(digits.as_slice()) {
        return None;
    }
    let currency = match named {
        Some(c) => Some(c),
        None => symbol_to_code(trim(slice_subrange(body, 0, n))),
    };
    let mut amount = String::new();
    if bracketed || minus {
        amount.push('-');
    }
    let plain = string_of(digits.as_slice());
    amount.append(plain.as_str());
    Some((amount, currency))
}

fn plain_amount(s: &[char]) -> (r: bool)
    ensures
        r == is_plain_amount(s@),
{
    let mut i: usize = 0;
    while i < s.len()
        invariant
            i <= s@.len(),
            forall|j: int| 0 <= j < i ==> is_digit_or_point(#[trigger] s@[j]),
        decreases s@.len() - i,
    {
        if !digit(s[i]) && s[i] != '.' {
            return false;
        }
        i = i + 1;
    }
    s.len() > 0
}

// ---------------------------------------------------------------------------
// Laws
// ---------------------------------------------------------------------------

pub proof fn lemma_trimmed_same(s: Seq<char>)
    requires
        s.len() > 0,
        !text::is_space(s[0]),
        !text::is_space(s.last()),
    ensures
        text::trimmed(s) == s,
{
}

/// An amount in hundredths, written with two places, reads back as itself in
/// every currency of a hundred minor units.
pub proof fn law_two_places_round_trip(minor: i64)
    requires
        minor > i64::MIN,
    ensures
        minor_of(decimal::hundredths(minor as int), 2) == Ok::<int, MoneyFault>(minor as int),
{
    let m = decimal::magnitude(minor as int);
    let s = decimal::hundredths(minor as int);
    let w = decimal::decimal(m / 100);
    let f = decimal::two_digits(m % 100);
    decimal::lemma_decimal(m / 100);
    assert(text::is_digit(w[0]));
    assert(s.last() == f[1]);
    if minor >= 0 {
        assert(s[0] == w[0]);
    }
    lemma_trimmed_same(s);
    let d = w + seq!['.'] + f;
    if minor < 0 {
        assert(s.skip(1) == d);
    } else {
        assert(s == d);
    }
    assert forall|j: int| 0 <= j < w.len() implies d[j] != '.' by {
        assert(text::is_digit(w[j]));
    }
    text::lemma_first_at(d, '.', w.len() as int);
    assert(whole_part(d) == w);
    assert(fraction_part(d) == f);
    assert(first_places(f, 2) == f);
    assert(w + f == w.push(f[0]).push(f[1]));
    decimal::lemma_number_push(w, f[0]);
    decimal::lemma_number_push(w.push(f[0]), f[1]);
}

/// Minor units that were read are never the least `i64`, so their sign can
/// always be turned.
pub proof fn lemma_minor_bound(amount: Seq<char>, exponent: nat)
    ensures
        minor_of(amount, exponent) matches Ok(v) ==> -i64::MAX <= v <= i64::MAX,
{
    let t = text::trimmed(amount);
    let d = if t.len() > 0 && (t[0] == '-' || t[0] == '+') {
        t.skip(1)
    } else {
        t
    };
    let whole = whole_part(d);
    let fraction = fraction_part(d);
    let s = whole + first_places(fraction, exponent);
    if text::all_digits(whole) && text::all_digits(fraction) {
        assert forall|j: int| 0 <= j < s.len() implies text::is_digit(#[trigger] s[j]) by {
            if j < whole.len() {
                assert(text::is_digit(whole[j]));
            } else if j - whole.len() < fraction.len() {
                assert(text::is_digit(fraction[j - whole.len()]));
            }
        }
        decimal::lemma_number_take(s, 0);
    }
}

// ---------------------------------------------------------------------------
// Sums
// ---------------------------------------------------------------------------

/// A number brought into the range of `i64` by turns of 2^64.
pub open spec fn wrapped(n: int) -> int {
    (n + 0x8000_0000_0000_0000) % 0x1_0000_0000_0000_0000 - 0x8000_0000_0000_0000
}

/// A sum of minor units, which wraps around where it leaves the range.
pub fn plus(a: i64, b: i64) -> (r: i64)
    ensures
        r == wrapped(a + b),
{
    a.wrapping_add(b)
}

/// A difference of minor units, which wraps around where it leaves the range.
pub fn minus(a: i64, b: i64) -> (r: i64)
    ensures
        r == wrapped(a - b),
{
    a.wrapping_sub(b)
}

pub proof fn lemma_wrapped_in_range(n: int)
    requires
        i64::MIN <= n <= i64::MAX,
    ensures
        wrapped(n) == n,
{
}

/// Adding to a wrapped sum wraps to the same as adding to the sum itself.
pub proof fn lemma_wrapped_sum(a: int, b: int)
    ensures
        wrapped(wrapped(a) + b) == wrapped(a + b),
{
}

/// An amount that was read holds nothing but digits, points and a minus sign.
pub proof fn lemma_amount_characters(raw: Seq<char>, brackets: bool, i: int)
    ensures
        money_in(raw, brackets) matches Some((amount, _)) ==> 0 <= i < amount.len()
            ==> is_digit_or_point(amount[i]) || amount[i] == '-',
{
}

/// A quotient as Rust divides: towards zero.
pub open spec fn quotient(a: int, d: int) -> int {
    if a < 0 {
        -((-a) / d)
    } else {
        a / d
    }
}

/// Divides towards zero.
pub fn divide(a: i64, d: i64) -> (r: i64)
    requires
        d >= 1,
    ensures
        r == quotient(a as int, d as int),
{
    let q: u64 = magnitude_of(a) / (d as u64);
    proof {
        let m = decimal::magnitude(a as int);
        vstd::arithmetic::div_mod::lemma_div_is_ordered_by_denominator(m, 1, d as int);
        vstd::arithmetic::div_mod::lemma_div_basics(m);
        vstd::arithmetic::div_mod::lemma_div_pos_is_pos(m, d as int);
    }
    if a >= 0 {
        q as i64
    } else if q == 0x8000_0000_0000_0000 {
        i64::MIN
    } else {
        -(q as i64)
    }
}

/// The sum of some numbers.
pub open spec fn sum_of(numbers: Seq<i64>) -> int
    decreases numbers.len(),
{
    if numbers.len() == 0 {
        0
    } else {
        sum_of(numbers.drop_last()) + numbers.last()
    }
}

/// The sum of some numbers, which wraps around where it leaves the range.
pub fn sum(numbers: &[i64]) -> (r: i64)
    ensures
        r == wrapped(sum_of(numbers@)),
{
    let mut total: i64 = 0;
    let mut i: usize = 0;
    assert(numbers@.take(0) == Seq::<i64>::empty());
    while i < numbers.len()
        invariant
            i <= numbers@.len(),
            total == wrapped(sum_of(numbers@.take(i as int))),
        decreases numbers@.len() - i,
    {
        assert(numbers@.take(i + 1).drop_last() == numbers@.take(i as int));
        proof {
            lemma_wrapped_sum(sum_of(numbers@.take(i as int)), numbers@[i as int] as int);
        }
        total = plus(total, numbers[i]);
        i = i + 1;
    }
    assert(numbers@.take(i as int) == numbers@);
    total
}

// ---------------------------------------------------------------------------
// What money texts come to
// ---------------------------------------------------------------------------

/// Whether a text can stand before an amount as its symbol.
pub open spec fn is_symbol(s: Seq<char>) -> bool {
    forall|i: int|
        0 <= i < s.len() ==> {
            let c = #[trigger] s[i];
            !is_digit_or_point(c) && !text::is_space(c) && c != '-' && c != '+' && c != '(' && c
                != '"'
        }
}

/// Whether a text is an amount as it is printed: digits, points and separators,
/// with a digit or a point at either end.
pub open spec fn is_printed_amount(s: Seq<char>) -> bool {
    &&& s.len() > 0
    &&& is_digit_or_point(s[0])
    &&& is_digit_or_point(s.last())
    &&& forall|i: int| 0 <= i < s.len() ==> is_digit_or_point(#[trigger] s[i]) || s[i] == ','
}

/// An amount in hundredths as a statement prints it, with a symbol behind its sign.
pub open spec fn printed(minor: int, symbol: Seq<char>) -> Seq<char> {
    if minor < 0 {
        seq!['-'] + symbol + decimal::hundredths(-minor)
    } else {
        symbol + decimal::hundredths(minor)
    }
}

/// The negative of minor units that were read.
pub open spec fn turned(minor: Result<int, MoneyFault>) -> Result<int, MoneyFault> {
    match minor {
        Ok(m) => Ok(-m),
        Err(f) => Err(f),
    }
}

/// A character that a text lacks has no last place in it.
pub proof fn lemma_no_char(s: Seq<char>, c: char)
    requires
        forall|i: int| 0 <= i < s.len() ==> (#[trigger] s[i]) != c,
    ensures
        text::last_at(s, c) == -1,
    decreases s.len(),
{
    if s.len() > 0 {
        assert(s[s.len() - 1] != c);
        assert forall|i: int| 0 <= i < s.drop_last().len() implies (#[trigger] s.drop_last()[i])
            != c by {
            assert(s[i] != c);
        }
        lemma_no_char(s.drop_last(), c);
    }
}

/// The last place of a character is the one with none behind it.
pub proof fn lemma_last_char(s: Seq<char>, c: char, k: int)
    requires
        0 <= k < s.len(),
        s[k] == c,
        forall|i: int| k < i < s.len() ==> (#[trigger] s[i]) != c,
    ensures
        text::last_at(s, c) == k,
    decreases s.len(),
{
    if k < s.len() - 1 {
        assert(s[s.len() - 1] != c);
        assert forall|i: int| k < i < s.drop_last().len() implies (#[trigger] s.drop_last()[i])
            != c by {
            assert(s[i] != c);
        }
        lemma_last_char(s.drop_last(), c, k);
    }
}

proof fn lemma_without_chars(s: Seq<char>, c: char)
    ensures
        forall|i: int|
            0 <= i < text::without(s, c).len() ==> s.contains(#[trigger] text::without(s, c)[i])
                && text::without(s, c)[i] != c,
        (exists|i: int| 0 <= i < s.len() && s[i] != c) ==> text::without(s, c).len() > 0,
        (forall|i: int| 0 <= i < s.len() ==> s[i] != c) ==> text::without(s, c) == s,
    decreases s.len(),
{
    reveal(Seq::filter);
    if s.len() > 0 {
        let front = s.drop_last();
        let f = text::without(front, c);
        let w = text::without(s, c);
        lemma_without_chars(front, c);
        assert forall|i: int| 0 <= i < w.len() implies s.contains(#[trigger] w[i]) && w[i] != c by {
            if i < f.len() {
                assert(w[i] == f[i]);
                let j = choose|j: int| 0 <= j < front.len() && front[j] == f[i];
                assert(s[j] == w[i]);
            } else {
                assert(w[i] == s[s.len() - 1]);
            }
        }
        if exists|i: int| 0 <= i < s.len() && s[i] != c {
            let i = choose|i: int| 0 <= i < s.len() && s[i] != c;
            if i < front.len() {
                assert(front[i] != c);
            }
        }
        if forall|i: int| 0 <= i < s.len() ==> s[i] != c {
            assert forall|i: int| 0 <= i < front.len() implies front[i] != c by {
                assert(s[i] != c);
            }
            assert(s[s.len() - 1] != c);
            assert(front.push(s.last()) == s);
        }
    }
}

proof fn lemma_unquoted_same(s: Seq<char>)
    requires
        s.len() > 0,
        !text::is_space(s[0]),
        !text::is_space(s.last()),
        s[0] != '"',
        s.last() != '"',
    ensures
        text::unquoted(s) == s,
{
    lemma_trimmed_same(s);
}

proof fn lemma_symbol_trimmed(s: Seq<char>)
    requires
        is_symbol(s),
    ensures
        text::trimmed(s) == s,
{
    if s.len() > 0 {
        assert(!text::is_space(s[0]));
        assert(!text::is_space(s[s.len() - 1]));
    }
}

/// What a symbol and a printed amount come to, whatever stood around them.
proof fn lemma_symbol_and_amount(symbol: Seq<char>, amount: Seq<char>)
    requires
        is_symbol(symbol),
        is_printed_amount(amount),
    ensures
        ({
            let rest = symbol + amount;
            &&& text::trimmed(rest) == rest
            &&& rest.len() > 0
            &&& rest[0] != '"'
            &&& rest[0] != '-'
            &&& rest[0] != '+'
            &&& rest[0] != '('
            &&& !text::is_space(rest[0])
            &&& !text::is_space(rest.last())
            &&& rest.last() != '"'
            &&& rest.last() != ')'
            &&& text::last_at(rest, ' ') == -1
            &&& symbol_len(rest) == symbol.len()
            &&& rest.take(symbol.len() as int) == symbol
            &&& rest.skip(symbol.len() as int) == amount
            &&& is_plain_amount(text::without(amount, ','))
        }),
{
    let rest = symbol + amount;
    assert(rest.last() == amount.last());
    if symbol.len() > 0 {
        assert(rest[0] == symbol[0]);
    } else {
        assert(rest[0] == amount[0]);
    }
    lemma_trimmed_same(rest);
    assert forall|i: int| 0 <= i < rest.len() implies (#[trigger] rest[i]) != ' ' by {
        if i < symbol.len() {
            assert(!text::is_space(symbol[i]));
        } else {
            assert(rest[i] == amount[i - symbol.len()]);
        }
    }
    lemma_no_char(rest, ' ');
    assert forall|j: int| 0 <= j < symbol.len() implies !is_digit_or_point(rest[j]) by {
        assert(rest[j] == symbol[j]);
    }
    assert(rest[symbol.len() as int] == amount[0]);
    lemma_symbol_len(rest, symbol.len() as int);
    assert(rest.take(symbol.len() as int) == symbol);
    assert(rest.skip(symbol.len() as int) == amount);
    lemma_plain_without(amount);
}

proof fn lemma_plain_without(amount: Seq<char>)
    requires
        is_printed_amount(amount),
    ensures
        is_plain_amount(text::without(amount, ',')),
{
    lemma_without_chars(amount, ',');
    let plain = text::without(amount, ',');
    assert(amount[0] != ',');
    assert forall|i: int| 0 <= i < plain.len() implies is_digit_or_point(#[trigger] plain[i]) by {
        let j = choose|j: int| 0 <= j < amount.len() && amount[j] == plain[i];
        assert(is_digit_or_point(amount[j]) || amount[j] == ',');
    }
}

/// A symbol and an amount are told apart, and separators do not count. A minus sign
/// before them makes the amount negative, a plus sign does not, and brackets round
/// them do where they are read.
pub proof fn law_signs_of_money(symbol: Seq<char>, amount: Seq<char>, brackets: bool)
    requires
        is_symbol(symbol),
        is_printed_amount(amount),
    ensures
        ({
            let plain = text::without(amount, ',');
            let currency = symbol_code(symbol);
            &&& money_in(symbol + amount, brackets) == Some((plain, currency))
            &&& money_in(seq!['+'] + symbol + amount, brackets) == Some((plain, currency))
            &&& money_in(seq!['-'] + symbol + amount, brackets) == Some(
                (seq!['-'] + plain, currency),
            )
            &&& money_in(seq!['('] + symbol + amount + seq![')'], true) == Some(
                (seq!['-'] + plain, currency),
            )
        }),
{
    lemma_symbol_and_amount(symbol, amount);
    lemma_symbol_trimmed(symbol);
    let rest = symbol + amount;
    lemma_unquoted_same(rest);
    let plus = seq!['+'] + symbol + amount;
    let minus = seq!['-'] + symbol + amount;
    let around = seq!['('] + symbol + amount + seq![')'];
    assert(plus.last() == rest.last() && minus.last() == rest.last());
    assert(plus.skip(1) == rest);
    assert(minus.skip(1) == rest);
    lemma_unquoted_same(plus);
    lemma_unquoted_same(minus);
    lemma_unquoted_same(around);
    assert(around.subrange(1, around.len() - 1) == rest);
}

/// A code behind an amount, with a space between, names its currency.
pub proof fn law_code_behind_money(amount: Seq<char>, code: Seq<char>, brackets: bool)
    requires
        is_printed_amount(amount),
        text::is_code(code),
    ensures
        ({
            let plain = text::without(amount, ',');
            &&& money_in(amount + seq![' '] + code, brackets) == Some((plain, Some(code)))
            &&& money_in(seq!['-'] + amount + seq![' '] + code, brackets) == Some(
                (seq!['-'] + plain, Some(code)),
            )
        }),
{
    let rest = amount + seq![' '] + code;
    let minus = seq!['-'] + amount + seq![' '] + code;
    let k = amount.len() as int;
    assert(text::is_upper(code[2]));
    assert(rest[0] == amount[0] && rest.last() == code[2] && minus.last() == code[2]);
    lemma_unquoted_same(rest);
    lemma_unquoted_same(minus);
    lemma_trimmed_same(rest);
    assert(minus.skip(1) == rest);
    assert forall|i: int| k < i < rest.len() implies (#[trigger] rest[i]) != ' ' by {
        assert(text::is_upper(code[i - k - 1]));
    }
    lemma_last_char(rest, ' ', k);
    assert(rest.skip(k + 1) == code);
    assert(rest.take(k) == amount);
    lemma_trimmed_same(amount);
    lemma_symbol_len(amount, 0);
    assert(amount.skip(0) == amount);
    lemma_plain_without(amount);
}

/// Money that a statement prints is read back as it was: the amount, its sign and
/// its symbol's currency.
pub proof fn law_printed_money_is_read(minor: int, symbol: Seq<char>, brackets: bool)
    requires
        is_symbol(symbol),
    ensures
        money_in(printed(minor, symbol), brackets) == Some(
            (decimal::hundredths(minor), symbol_code(symbol)),
        ),
{
    lemma_hundredths_plain(decimal::magnitude(minor));
    lemma_hundredths_sign(minor);
    lemma_printed_pieces(
        symbol,
        decimal::hundredths(decimal::magnitude(minor)),
        brackets,
        minor,
    );
}

proof fn lemma_hundredths_plain(m: int)
    requires
        m >= 0,
    ensures
        is_printed_amount(decimal::hundredths(m)),
        text::without(decimal::hundredths(m), ',') == decimal::hundredths(m),
{
    lemma_hundredths_printed(m);
    lemma_without_chars(decimal::hundredths(m), ',');
}

proof fn lemma_hundredths_sign(minor: int)
    ensures
        minor < 0 ==> seq!['-'] + decimal::hundredths(decimal::magnitude(minor))
            == decimal::hundredths(minor),
{
}

/// The reading of a printed amount whose pieces are known.
proof fn lemma_printed_pieces(symbol: Seq<char>, amount: Seq<char>, brackets: bool, minor: int)
    requires
        is_symbol(symbol),
        is_printed_amount(amount),
        text::without(amount, ',') == amount,
        amount == decimal::hundredths(decimal::magnitude(minor)),
        minor < 0 ==> seq!['-'] + amount == decimal::hundredths(minor),
    ensures
        money_in(printed(minor, symbol), brackets) == Some(
            (decimal::hundredths(minor), symbol_code(symbol)),
        ),
{
    law_signs_of_money(symbol, amount, brackets);
    if minor < 0 {
        assert(printed(minor, symbol) == seq!['-'] + symbol + amount);
    } else {
        assert(printed(minor, symbol) == symbol + amount);
    }
}

proof fn lemma_hundredths_printed(m: int)
    requires
        m >= 0,
    ensures
        is_printed_amount(decimal::hundredths(m)),
        forall|i: int| 0 <= i < decimal::hundredths(m).len() ==> decimal::hundredths(m)[i] != ',',
        is_plain_amount(decimal::hundredths(m)),
{
    let w = decimal::decimal(m / 100);
    let s = decimal::hundredths(m);
    decimal::lemma_decimal(m / 100);
    assert forall|i: int| 0 <= i < s.len() implies is_digit_or_point(#[trigger] s[i]) by {
        if i < w.len() {
            assert(s[i] == w[i]);
            assert(text::is_digit(w[i]));
        }
    }
    assert(is_digit_or_point(s[0]));
    assert(is_digit_or_point(s[s.len() - 1]));
}

/// A minus sign turns the sign of an amount, and a plus sign changes nothing.
pub proof fn law_sign_before_an_amount(amount: Seq<char>, exponent: nat)
    requires
        amount.len() > 0,
        amount[0] != '-',
        amount[0] != '+',
        !text::is_space(amount[0]),
        !text::is_space(amount.last()),
    ensures
        minor_of(seq!['-'] + amount, exponent) == turned(minor_of(amount, exponent)),
        minor_of(seq!['+'] + amount, exponent) == minor_of(amount, exponent),
        minor_of(amount, exponent) matches Ok(m) ==> m >= 0,
{
    let (minus, plus) = (seq!['-'] + amount, seq!['+'] + amount);
    assert(minus.last() == amount.last() && plus.last() == amount.last());
    lemma_trimmed_same(amount);
    lemma_trimmed_same(minus);
    lemma_trimmed_same(plus);
    assert(minus.skip(1) == amount);
    assert(plus.skip(1) == amount);
    lemma_minor_bound(amount, exponent);
    if text::all_digits(whole_part(amount)) && text::all_digits(fraction_part(amount)) {
        lemma_value_not_negative(amount, exponent);
    }
}

/// The digits of an amount never stand for less than nothing.
proof fn lemma_value_not_negative(d: Seq<char>, exponent: nat)
    requires
        text::all_digits(whole_part(d)),
        text::all_digits(fraction_part(d)),
    ensures
        decimal::number(whole_part(d) + first_places(fraction_part(d), exponent)) >= 0,
{
    let (whole, fraction) = (whole_part(d), fraction_part(d));
    let s = whole + first_places(fraction, exponent);
    assert forall|j: int| 0 <= j < s.len() implies text::is_digit(#[trigger] s[j]) by {
        if j < whole.len() {
            assert(text::is_digit(whole[j]));
        } else if j - whole.len() < fraction.len() {
            assert(text::is_digit(fraction[j - whole.len()]));
        }
    }
    decimal::lemma_number_take(s, 0);
}

/// An amount with two places, in a currency that has none: what is behind the point
/// is cut off. In one that has three: a zero stands in for the third.
pub proof fn law_other_places(minor: i64)
    requires
        minor > i64::MIN,
        -i64::MAX <= 10 * minor <= i64::MAX,
    ensures
        minor_of(decimal::hundredths(minor as int), 0) == Ok::<int, MoneyFault>(
            quotient(minor as int, 100),
        ),
        minor_of(decimal::hundredths(minor as int), 3) == Ok::<int, MoneyFault>(10 * minor),
{
    let m = decimal::magnitude(minor as int);
    let s = decimal::hundredths(minor as int);
    let w = decimal::decimal(m / 100);
    let f = decimal::two_digits(m % 100);
    decimal::lemma_decimal(m / 100);
    assert(text::is_digit(w[0]));
    assert(s.last() == f[1]);
    if minor >= 0 {
        assert(s[0] == w[0]);
    }
    lemma_trimmed_same(s);
    let d = w + seq!['.'] + f;
    if minor < 0 {
        assert(s.skip(1) == d);
    } else {
        assert(s == d);
    }
    assert forall|j: int| 0 <= j < w.len() implies d[j] != '.' by {
        assert(text::is_digit(w[j]));
    }
    text::lemma_first_at(d, '.', w.len() as int);
    assert(whole_part(d) == w);
    assert(fraction_part(d) == f);
    assert(w + first_places(f, 0) == w);
    assert(w + first_places(f, 3) == w.push(f[0]).push(f[1]).push('0'));
    decimal::lemma_number_push(w, f[0]);
    decimal::lemma_number_push(w.push(f[0]), f[1]);
    decimal::lemma_number_push(w.push(f[0]).push(f[1]), '0');
}

/// Places beyond those that a currency has do not count, and missing ones are
/// zeros.
pub proof fn law_places_are_filled_and_cut(
    whole: Seq<char>,
    fraction: Seq<char>,
    more: Seq<char>,
    exponent: nat,
)
    requires
        whole.len() > 0,
        text::all_digits(whole),
        text::all_digits(fraction),
        text::all_digits(more),
        fraction.len() > 0,
    ensures
        fraction.len() >= exponent ==> minor_of(whole + seq!['.'] + fraction + more, exponent)
            == minor_of(whole + seq!['.'] + fraction, exponent),
        minor_of(whole + seq!['.'] + fraction.push('0'), exponent) == minor_of(
            whole + seq!['.'] + fraction,
            exponent,
        ),
        minor_of(whole, exponent) == minor_of(whole + seq!['.', '0'], exponent),
{
    assert(text::is_digit(fraction[fraction.len() - 1]));
    if more.len() > 0 {
        assert(text::is_digit(more[more.len() - 1]));
        assert((fraction + more).last() == more.last());
    } else {
        assert((fraction + more).last() == fraction.last());
    }
    lemma_point_splits(whole, fraction);
    lemma_point_splits(whole, fraction + more);
    lemma_point_splits(whole, fraction.push('0'));
    lemma_point_splits(whole, seq!['0']);
    assert(whole + seq!['.'] + (fraction + more) == whole + seq!['.'] + fraction + more);
    assert(whole + seq!['.'] + seq!['0'] == whole + seq!['.', '0']);
    assert(text::all_digits(fraction + more)) by {
        assert forall|i: int| 0 <= i < (fraction + more).len() implies text::is_digit(
            #[trigger] (fraction + more)[i],
        ) by {
            if i < fraction.len() {
                assert(text::is_digit(fraction[i]));
            } else {
                assert(text::is_digit(more[i - fraction.len()]));
            }
        }
    }
    assert(first_places(fraction.push('0'), exponent) == first_places(fraction, exponent));
    if fraction.len() >= exponent {
        assert(first_places(fraction + more, exponent) == first_places(fraction, exponent));
    }
    assert(text::is_digit(whole[0]) && text::is_digit(whole[whole.len() - 1]));
    lemma_trimmed_same(whole);
    assert forall|j: int| 0 <= j < whole.len() implies whole[j] != '.' by {
        assert(text::is_digit(whole[j]));
    }
    text::lemma_first_at(whole, '.', whole.len() as int);
    assert(whole_part(whole) == whole);
    assert(first_places(fraction_part(whole), exponent) == first_places(seq!['0'], exponent));
}

proof fn lemma_point_splits(whole: Seq<char>, fraction: Seq<char>)
    requires
        whole.len() > 0,
        text::all_digits(whole),
        fraction.len() > 0,
        !text::is_space(fraction.last()),
    ensures
        ({
            let s = whole + seq!['.'] + fraction;
            &&& text::trimmed(s) == s
            &&& text::is_digit(s[0])
            &&& whole_part(s) == whole
            &&& fraction_part(s) == fraction
        }),
{
    let s = whole + seq!['.'] + fraction;
    assert(text::is_digit(whole[0]) && s[0] == whole[0]);
    assert(s.last() == fraction.last());
    lemma_trimmed_same(s);
    assert forall|j: int| 0 <= j < whole.len() implies s[j] != '.' by {
        assert(text::is_digit(whole[j]));
    }
    text::lemma_first_at(s, '.', whole.len() as int);
    assert(whole_part(s) == whole);
    assert(fraction_part(s) == fraction);
}

/// The sign of an amount that was read is that of the text: brackets or a leading
/// minus sign, and nothing else.
pub proof fn lemma_sign_of_amount(raw: Seq<char>, exponent: nat)
    ensures
        money_in(raw, true) matches Some((amount, _)) ==> (minor_of(amount, exponent) matches Ok(m)
            ==> {
            let t = text::unquoted(raw);
            if t[0] == '-' || t[0] == '(' && t.last() == ')' {
                m <= 0
            } else {
                m >= 0
            }
        }),
{
    if let Some((amount, _)) = money_in(raw, true) {
        let digits = if amount[0] == '-' {
            amount.skip(1)
        } else {
            amount
        };
        assert(is_plain_amount(digits));
        assert(is_digit_or_point(digits[0]) && is_digit_or_point(digits[digits.len() - 1]));
        law_sign_before_an_amount(digits, exponent);
        if amount[0] == '-' {
            assert(seq!['-'] + digits == amount);
        }
    }
}

/// Where brackets are not read, the sign of an amount is that of a leading minus
/// sign.
pub proof fn lemma_sign_of_plain_amount(raw: Seq<char>, exponent: nat)
    ensures
        money_in(raw, false) matches Some((amount, _)) ==> (minor_of(amount, exponent) matches Ok(m)
            ==> {
            if text::unquoted(raw)[0] == '-' {
                m <= 0
            } else {
                m >= 0
            }
        }),
{
    if let Some((amount, _)) = money_in(raw, false) {
        let digits = if amount[0] == '-' {
            amount.skip(1)
        } else {
            amount
        };
        assert(is_plain_amount(digits));
        assert(is_digit_or_point(digits[0]) && is_digit_or_point(digits[digits.len() - 1]));
        law_sign_before_an_amount(digits, exponent);
        if amount[0] == '-' {
            assert(seq!['-'] + digits == amount);
        }
    }
}

/// The symbols that statements print, with the currencies that they stand for.
pub open spec fn symbols() -> Map<Seq<char>, Seq<char>> {
    map![
        "£"@ => "GBP"@,
        "€"@ => "EUR"@,
        "$"@ => "USD"@,
        "¥"@ => "JPY"@,
        "zł"@ => "PLN"@,
        "₱"@ => "PHP"@
    ]
}

/// Every symbol stands for its currency, and every code for itself; no other text
/// stands for any.
pub proof fn law_symbols_stand_for_their_currency(s: Seq<char>)
    ensures
        symbols().contains_key(s) ==> symbol_code(s) == Some(symbols()[s]),
        text::is_code(s) ==> symbol_code(s) == Some(s),
        !symbols().contains_key(s) && !text::is_code(s) ==> symbol_code(s) is None,
{
    reveal_strlit("£");
    reveal_strlit("€");
    reveal_strlit("$");
    reveal_strlit("¥");
    reveal_strlit("zł");
    reveal_strlit("₱");
    assert("£"@.len() == 1 && "€"@.len() == 1 && "$"@.len() == 1);
    assert("¥"@.len() == 1 && "zł"@.len() == 2 && "₱"@.len() == 1);
    assert("£"@[0] == '£' && "€"@[0] == '€' && "$"@[0] == '$' && "¥"@[0] == '¥');
    assert("₱"@[0] == '₱');
}

} // verus!
