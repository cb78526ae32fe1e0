//! Texts of instants.
use crate::calendar;
use crate::calendar::Date;
use crate::decimal;
use vstd::prelude::*;

verus! {

// ---------------------------------------------------------------------------
// Instants
// ---------------------------------------------------------------------------

/// The number of the day on which an instant lies, given in seconds since 1970;
/// that of 1 January 1970 is 719163.
pub open spec fn day_at(secs: i64) -> int {
    secs as int / 86400 + 719163
}

/// Whether chrono holds an instant: its day is one that can be held, and it has
/// less than a second of nanoseconds, or less than two within a leap second.
pub open spec fn is_instant(secs: i64, nanos: u32) -> bool {
    &&& calendar::first_date().day_number() <= day_at(secs) <= calendar::last_date().day_number()
    &&& nanos < 1000000000 || nanos < 2000000000 && secs as int % 60 == 59
}

/// The last digits of a number, so many of them.
pub open spec fn last_digits(n: int, count: nat) -> Seq<char>
    decreases count,
{
    if count == 0 {
        seq![]
    } else {
        last_digits(n / 10, (count - 1) as nat).push(decimal::digit_for(n % 10))
    }
}

/// Hour, minute and second of an instant, with colons between them. A leap second
/// is the sixtieth.
pub open spec fn time_of_day(secs: i64, nanos: u32) -> Seq<char> {
    let s = secs as int % 86400;
    decimal::two_digits(s / 3600) + seq![':'] + decimal::two_digits(s / 60 % 60) + seq![':']
        + decimal::two_digits(s % 60 + nanos as int / 1000000000)
}

/// The fraction of a second in as few groups of three digits as show it.
pub open spec fn fraction(nanos: u32) -> Seq<char> {
    let n = nanos as int % 1000000000;
    if n == 0 {
        seq![]
    } else if n % 1000000 == 0 {
        seq!['.'] + last_digits(n / 1000000, 3)
    } else if n % 1000 == 0 {
        seq!['.'] + last_digits(n / 1000, 6)
    } else {
        seq!['.'] + last_digits(n, 9)
    }
}

/// Whether a text is that of the day of an instant, with something behind it.
pub open spec fn shows_day(s: Seq<char>, secs: i64, behind: Seq<char>) -> bool {
    exists|d: Date| d.valid() && d.day_number() == day_at(secs) && s == #[trigger] d.iso() + behind
}

/// Whether a text is that of an instant as it is stored.
pub open spec fn shows_stored(s: Seq<char>, secs: i64, nanos: u32) -> bool {
    shows_day(
        s,
        secs,
        seq!['T'] + time_of_day(secs, nanos) + seq!['.'] + last_digits(nanos as int / 1000000, 3)
            + seq!['Z'],
    )
}

/// Whether a text is that of an instant by RFC 3339.
pub open spec fn shows_rfc3339(s: Seq<char>, secs: i64, nanos: u32) -> bool {
    shows_day(s, secs, seq!['T'] + time_of_day(secs, nanos) + fraction(nanos) + "+00:00"@)
}

// ---------------------------------------------------------------------------
// What chrono writes
// ---------------------------------------------------------------------------

/// The formats of a stored instant and of a day.
pub open spec fn is_known_format(format: Seq<char>) -> bool {
    format == "%Y-%m-%dT%H:%M:%S%.3fZ"@ || format == "%Y-%m-%d"@
}

/// `chrono::DateTime::from_timestamp` and, on what it returns,
/// `chrono::DateTime::format`. There is a text for every instant that chrono holds:
/// by `%Y-%m-%d` its day, and by the longer format also its time of day to the
/// millisecond.
#[verifier::external_body]
fn format_instant(secs: i64, nanos: u32, format: &str) -> (r: Option<String>)
    requires
        is_known_format(format@),
    ensures
        match r {
            Some(s) => {
                &&& is_instant(secs, nanos)
                &&& format@ == "%Y-%m-%d"@ ==> shows_day(s@, secs, seq![])
                &&& format@ == "%Y-%m-%dT%H:%M:%S%.3fZ"@ ==> shows_stored(s@, secs, nanos)
            },
            None => !is_instant(secs, nanos),
        },
{
    let instant = chrono::DateTime::from_timestamp(secs, nanos)?;
    Some(instant.format(format).to_string())
}

/// `chrono::DateTime::from_timestamp` and, on what it returns,
/// `chrono::DateTime::to_rfc3339`. There is a text for every instant that chrono
/// holds: its day, its time of day with the fraction in groups of three digits, and
/// no offset from UTC.
#[verifier::external_body]
fn format_rfc3339(secs: i64, nanos: u32) -> (r: Option<String>)
    ensures
        match r {
            Some(s) => is_instant(secs, nanos) && shows_rfc3339(s@, secs, nanos),
            None => !is_instant(secs, nanos),
        },
{
    let instant = chrono::DateTime::from_timestamp(secs, nanos)?;
    Some(instant.to_rfc3339())
}

/// An instant as it is stored: ISO-8601 UTC with milliseconds.
pub fn now_iso(secs: i64, nanos: u32) -> (r: Option<String>)
    ensures
        match r {
            Some(s) => is_instant(secs, nanos) && shows_stored(s@, secs, nanos),
            None => !is_instant(secs, nanos),
        },
{
    format_instant(secs, nanos, "%Y-%m-%dT%H:%M:%S%.3fZ")
}

/// The day of an instant.
pub fn day_text(secs: i64, nanos: u32) -> (r: Option<String>)
    ensures
        match r {
            Some(s) => is_instant(secs, nanos) && shows_day(s@, secs, seq![]),
            None => !is_instant(secs, nanos),
        },
{
    format_instant(secs, nanos, "%Y-%m-%d")
}

/// An instant as it is sent.
pub fn rfc3339_text(secs: i64, nanos: u32) -> (r: Option<String>)
    ensures
        match r {
            Some(s) => is_instant(secs, nanos) && shows_rfc3339(s@, secs, nanos),
            None => !is_instant(secs, nanos),
        },
{
    format_rfc3339(secs, nanos)
}

// ---------------------------------------------------------------------------
// Laws
// ---------------------------------------------------------------------------

/// An instant is shown in one way only.
pub proof fn law_one_text_shows_an_instant(a: Seq<char>, b: Seq<char>, secs: i64, behind: Seq<char>)
    requires
        shows_day(a, secs, behind),
        shows_day(b, secs, behind),
    ensures
        a == b,
{
    let d = choose|d: Date|
        d.valid() && d.day_number() == day_at(secs) && a == #[trigger] d.iso() + behind;
    let e = choose|e: Date|
        e.valid() && e.day_number() == day_at(secs) && b == #[trigger] e.iso() + behind;
    calendar::law_day_number_order(d, e);
}

proof fn lemma_two_digits(n: int)
    requires
        0 <= n < 100,
    ensures
        decimal::number(decimal::two_digits(n)) == n,
{
    let d = decimal::two_digits(n);
    let one = seq![d[0]];
    assert(d == one.push(d[1]));
    assert(one == Seq::<char>::empty().push(d[0]));
    decimal::lemma_number_push(one, d[1]);
    decimal::lemma_number_push(Seq::empty(), d[0]);
    assert(decimal::number(Seq::<char>::empty()) == 0);
}

/// The time of day says the second of the day on which an instant lies: its hours,
/// minutes and seconds come to it, and a leap second to one more.
pub proof fn law_time_of_day_says_the_second(secs: i64, nanos: u32)
    requires
        is_instant(secs, nanos),
    ensures
        ({
            let t = time_of_day(secs, nanos);
            &&& t.len() == 8
            &&& t[2] == ':' && t[5] == ':'
            &&& 3600 * decimal::number(t.subrange(0, 2)) + 60 * decimal::number(t.subrange(3, 5))
                + decimal::number(t.subrange(6, 8)) == secs as int % 86400 + nanos as int
                / 1000000000
            &&& decimal::number(t.subrange(3, 5)) < 60
        }),
{
    let s = secs as int % 86400;
    let t = time_of_day(secs, nanos);
    let (h, m, e) = (s / 3600, s / 60 % 60, s % 60 + nanos as int / 1000000000);
    assert(s % 60 == secs as int % 60) by {
        assert(86400 == 60 * 1440);
    }
    assert(0 <= e <= 60);
    lemma_two_digits(h);
    lemma_two_digits(m);
    lemma_two_digits(e);
    assert(t.subrange(0, 2) == decimal::two_digits(h));
    assert(t.subrange(3, 5) == decimal::two_digits(m));
    assert(t.subrange(6, 8) == decimal::two_digits(e));
    assert(s == 3600 * (s / 3600) + s % 3600);
    assert(s / 60 == 60 * (s / 3600) + (s / 60) % 60);
    assert(s == 60 * (s / 60) + s % 60);
}

/// The last digits of a number say what is left of it.
pub proof fn law_last_digits_say_what_is_left(n: int)
    requires
        0 <= n,
    ensures
        last_digits(n, 3).len() == 3,
        decimal::number(last_digits(n, 3)) == n % 1000,
{
    reveal_with_fuel(last_digits, 4);
    let (a, b, c) = (n / 10 / 10 % 10, n / 10 % 10, n % 10);
    let d = last_digits(n, 3);
    let one = Seq::<char>::empty().push(decimal::digit_for(a));
    assert(last_digits(n / 10 / 10, 1) == one);
    assert(d == one.push(decimal::digit_for(b)).push(decimal::digit_for(c)));
    decimal::lemma_number_push(Seq::empty(), decimal::digit_for(a));
    decimal::lemma_number_push(one, decimal::digit_for(b));
    decimal::lemma_number_push(one.push(decimal::digit_for(b)), decimal::digit_for(c));
    assert(decimal::number(Seq::<char>::empty()) == 0);
    assert(n % 1000 == 100 * (n / 100 % 10) + 10 * (n / 10 % 10) + n % 10);
    assert(n / 10 / 10 == n / 100);
}

} // verus!
