//! Calendar dates.
use crate::decimal;
use crate::decimal::{push_decimal, push_two_digits};
use crate::text;
use chrono::Datelike;
use vstd::prelude::*;

verus! {

/// The first and the last year of the dates that can be held.
pub const FIRST_YEAR: i32 = -262143;

pub const LAST_YEAR: i32 = 262142;

/// A day of the proleptic Gregorian calendar.
#[derive(Debug, Clone, Copy, PartialEq, Eq, Structural)]
pub struct Date {
    pub year: i32,
    pub month: u32,
    pub day: u32,
}

pub open spec fn is_leap(year: int) -> bool {
    year % 4 == 0 && (year % 100 != 0 || year % 400 == 0)
}

pub open spec fn days_in_month(year: int, month: int) -> int {
    if month == 2 {
        if is_leap(year) {
            29
        } else {
            28
        }
    } else if month == 4 || month == 6 || month == 9 || month == 11 {
        30
    } else {
        31
    }
}

/// The days of a year that lie before the given month.
pub open spec fn days_before_month(year: int, month: int) -> int
    decreases month,
{
    if month <= 1 {
        0
    } else {
        days_before_month(year, month - 1) + days_in_month(year, month - 1)
    }
}

/// The days that lie before the given year, counted from the year 1.
pub open spec fn days_before_year(year: int) -> int {
    365 * (year - 1) + (year - 1) / 4 - (year - 1) / 100 + (year - 1) / 400
}

impl Date {
    /// Whether this is a day of the calendar.
    pub open spec fn valid(self) -> bool {
        &&& FIRST_YEAR <= self.year <= LAST_YEAR
        &&& 1 <= self.month <= 12
        &&& 1 <= self.day <= days_in_month(self.year as int, self.month as int)
    }

    /// The number of the day; that of 1 January of the year 1 is 1.
    pub open spec fn day_number(self) -> int {
        days_before_year(self.year as int) + days_before_month(self.year as int, self.month as int)
            + self.day
    }

    /// Whether this day lies before another.
    pub open spec fn precedes(self, other: Date) -> bool {
        ||| self.year < other.year
        ||| self.year == other.year && self.month < other.month
        ||| self.year == other.year && self.month == other.month && self.day < other.day
    }

    /// The day as year, month and day with hyphens between them. A year of
    /// other than four digits carries its sign.
    pub open spec fn iso(self) -> Seq<char> {
        year_text(self.year as int) + seq!['-'] + decimal::two_digits(self.month as int) + seq![
            '-',
        ] + decimal::two_digits(self.day as int)
    }

    pub fn is_before(&self, other: &Date) -> (r: bool)
        ensures
            r == self.precedes(*other),
    {
        self.year < other.year || (self.year == other.year && (self.month < other.month || (
        self.month == other.month && self.day < other.day)))
    }

    pub fn push_iso(&self, out: &mut String)
        requires
            self.valid(),
        ensures
            final(out)@ == old(out)@ + self.iso(),
    {
        let plain = 0 <= self.year && self.year <= 9999;
        let size: u64 = if self.year < 0 {
            (-self.year) as u64
        } else {
            self.year as u64
        };
        if !plain {
            if self.year < 0 {
                out.push('-');
            } else {
                out.push('+');
            }
        }
        if size <= 9999 {
            push_two_digits(out, size / 100);
            push_two_digits(out, size % 100);
        } else {
            push_decimal(out, size);
        }
        out.push('-');
        push_two_digits(out, self.month as u64);
        out.push('-');
        push_two_digits(out, self.day as u64);
        assert(out@ == old(out)@ + self.iso());
    }

    pub fn to_iso(&self) -> (r: String)
        requires
            self.valid(),
        ensures
            r@ == self.iso(),
    {
        let mut r = String::new();
        self.push_iso(&mut r);
        r
    }
}

pub open spec fn year_text(year: int) -> Seq<char> {
    let size = decimal::magnitude(year);
    let digits = if size <= 9999 {
        decimal::two_digits(size / 100) + decimal::two_digits(size % 100)
    } else {
        decimal::decimal(size)
    };
    if 0 <= year <= 9999 {
        digits
    } else if year < 0 {
        seq!['-'] + digits
    } else {
        seq!['+'] + digits
    }
}

// ---------------------------------------------------------------------------
// What chrono computes
// ---------------------------------------------------------------------------

/// What `chrono::NaiveDate::parse_from_str` makes of a text by a format: year,
/// month and day, or nothing where it reports an error.
pub uninterp spec fn parsed_ymd(text: Seq<char>, format: Seq<char>) -> Option<(i32, u32, u32)>;

/// The date that a format finds in a text.
pub open spec fn date_by(text: Seq<char>, format: Seq<char>) -> Option<Date> {
    match parsed_ymd(text, format) {
        Some((year, month, day)) => Some(Date { year, month, day }),
        None => None,
    }
}

/// Year, month and day of a date.
pub open spec fn ymd(date: Option<Date>) -> Option<(i32, u32, u32)> {
    match date {
        Some(d) => Some((d.year, d.month, d.day)),
        None => None,
    }
}

/// `chrono::NaiveDate::parse_from_str`. Which texts it takes is left to the
/// name `parsed_ymd`; what it returns is a day of the calendar within chrono's
/// range of years, and the text that `iso` writes reads back under `%Y-%m-%d`.
#[verifier::external_body]
pub(crate) fn parse_by(text: &str, format: &str) -> (r: Option<Date>)
    ensures
        ymd(r) == parsed_ymd(text@, format@),
        r matches Some(d) ==> d.valid(),
        forall|d: Date|
            d.valid() && text@ == #[trigger] d.iso() && format@ == "%Y-%m-%d"@ ==> r == Some(d),
{
    match chrono::NaiveDate::parse_from_str(text, format) {
        Ok(d) => Some(Date { year: d.year(), month: d.month(), day: d.day() }),
        Err(_) => None,
    }
}

/// `chrono::NaiveDate::checked_sub_signed` with a whole number of days: the
/// day whose number is that many less, unless it lies before chrono's first.
#[verifier::external_body]
pub(crate) fn days_before(date: Date, days: u32) -> (r: Option<Date>)
    requires
        date.valid(),
    ensures
        match r {
            Some(e) => e.valid() && e.day_number() == date.day_number() - days,
            None => date.day_number() - days < first_date().day_number(),
        },
{
    let from = chrono::NaiveDate::from_ymd_opt(date.year, date.month, date.day)?;
    let d = from.checked_sub_signed(chrono::Duration::days(days as i64))?;
    Some(Date { year: d.year(), month: d.month(), day: d.day() })
}

/// `chrono::NaiveDate::signed_duration_since`, in whole days: by how much the
/// number of the first day exceeds that of the second.
#[verifier::external_body]
pub(crate) fn days_since(date: Date, other: Date) -> (r: i64)
    requires
        date.valid(),
        other.valid(),
    ensures
        r == date.day_number() - other.day_number(),
{
    let a = chrono::NaiveDate::from_ymd_opt(date.year, date.month, date.day);
    let b = chrono::NaiveDate::from_ymd_opt(other.year, other.month, other.day);
    match (a, b) {
        (Some(a), Some(b)) => a.signed_duration_since(b).num_days(),
        _ => 0,
    }
}

/// The first day that can be held.
pub open spec fn first_date() -> Date {
    Date { year: FIRST_YEAR, month: 1, day: 1 }
}

/// The last day that can be held.
pub open spec fn last_date() -> Date {
    Date { year: LAST_YEAR, month: 12, day: 31 }
}

// ---------------------------------------------------------------------------
// Laws
// ---------------------------------------------------------------------------

proof fn lemma_months(year: int, a: int, b: int)
    requires
        1 <= a < b <= 13,
    ensures
        days_before_month(year, a) + days_in_month(year, a) <= days_before_month(year, b),
    decreases b - a,
{
    if a + 1 < b {
        lemma_months(year, a, b - 1);
    }
}

proof fn lemma_months_of_year(year: int)
    ensures
        days_before_month(year, 13) == 337 + days_in_month(year, 2),
{
    assert(days_before_month(year, 1) == 0);
    assert(days_before_month(year, 2) == 31);
    let f = days_in_month(year, 2);
    assert(days_before_month(year, 3) == 31 + f);
    assert(days_before_month(year, 4) == 62 + f);
    assert(days_before_month(year, 5) == 92 + f);
    assert(days_before_month(year, 6) == 123 + f);
    assert(days_before_month(year, 7) == 153 + f);
    assert(days_before_month(year, 8) == 184 + f);
    assert(days_before_month(year, 9) == 215 + f);
    assert(days_before_month(year, 10) == 245 + f);
    assert(days_before_month(year, 11) == 276 + f);
    assert(days_before_month(year, 12) == 306 + f);
}

/// A quotient by a positive number grows exactly at the multiples of it.
proof fn lemma_quotient_steps(y: int, d: int)
    requires
        d == 4 || d == 100 || d == 400,
    ensures
        y % d == 0 ==> y / d == (y - 1) / d + 1,
        y % d != 0 ==> y / d == (y - 1) / d,
{
    if d == 4 {
        assert(y % 4 == 0 ==> y / 4 == (y - 1) / 4 + 1);
    } else if d == 100 {
        assert(y % 100 == 0 ==> y / 100 == (y - 1) / 100 + 1);
    } else {
        assert(y % 400 == 0 ==> y / 400 == (y - 1) / 400 + 1);
    }
}

proof fn lemma_multiples_of_100(y: int)
    requires
        y % 100 == 0,
    ensures
        y % 4 == 0,
{
    assert(y == 4 * (25 * (y / 100)));
}

proof fn lemma_multiples_of_400(y: int)
    requires
        y % 400 == 0,
    ensures
        y % 100 == 0,
{
    assert(y == 100 * (4 * (y / 400)));
}

/// How many leap days the three quotients count for one year.
proof fn lemma_leap_days(y: int)
    ensures
        (y / 4 - y / 100 + y / 400) - ((y - 1) / 4 - (y - 1) / 100 + (y - 1) / 400) == (if is_leap(
            y,
        ) {
            1int
        } else {
            0int
        }),
{
    let (a, b, c) = (y % 4 == 0, y % 100 == 0, y % 400 == 0);
    assert(is_leap(y) == (a && (!b || c)));
    assert(b ==> a) by {
        if b {
            lemma_multiples_of_100(y);
        }
    }
    assert(c ==> b) by {
        if c {
            lemma_multiples_of_400(y);
        }
    }
    lemma_quotient_steps(y, 4);
    lemma_quotient_steps(y, 100);
    lemma_quotient_steps(y, 400);
}

proof fn lemma_year_length(year: int)
    ensures
        days_before_year(year + 1) == days_before_year(year) + days_before_month(year, 13),
        days_before_month(year, 13) > 0,
{
    lemma_months_of_year(year);
    lemma_leap_days(year);
    assert(days_in_month(year, 2) == 28 + (if is_leap(year) {
        1int
    } else {
        0int
    }));
}

proof fn lemma_years(a: int, b: int)
    requires
        a < b,
    ensures
        days_before_year(a) + days_before_month(a, 13) <= days_before_year(b),
    decreases b - a,
{
    if a + 1 < b {
        lemma_years(a, b - 1);
        lemma_year_length(b - 1);
    } else {
        lemma_year_length(a);
    }
}

proof fn lemma_month_positive(year: int, month: int)
    ensures
        days_before_month(year, month) >= 0,
    decreases month,
{
    if month > 1 {
        lemma_month_positive(year, month - 1);
    }
}

/// A day lies before another exactly where its number is less.
pub proof fn law_day_number_order(a: Date, b: Date)
    requires
        a.valid(),
        b.valid(),
    ensures
        a.precedes(b) <==> a.day_number() < b.day_number(),
        a == b <==> a.day_number() == b.day_number(),
{
    if a.precedes(b) {
        lemma_ahead(a, b);
    } else if b.precedes(a) {
        lemma_ahead(b, a);
    }
}

proof fn lemma_ahead(a: Date, b: Date)
    requires
        a.valid(),
        b.valid(),
        a.precedes(b),
    ensures
        a.day_number() < b.day_number(),
{
    let (ay, am) = (a.year as int, a.month as int);
    let (by, bm) = (b.year as int, b.month as int);
    if ay < by {
        lemma_months(ay, am, 13);
        lemma_years(ay, by);
        lemma_month_positive(by, bm);
    } else if am < bm {
        lemma_months(ay, am, bm);
    }
}

/// The text of a day holds nothing but digits and signs.
pub proof fn lemma_iso_characters(d: Date)
    requires
        d.valid(),
    ensures
        forall|i: int|
            0 <= i < d.iso().len() ==> text::is_digit(#[trigger] d.iso()[i]) || d.iso()[i] == '-'
                || d.iso()[i] == '+',
        d.iso().len() > 0,
{
    let size = decimal::magnitude(d.year as int);
    decimal::lemma_decimal(size);
    let y = year_text(d.year as int);
    assert forall|i: int| 0 <= i < y.len() implies text::is_digit(#[trigger] y[i]) || y[i] == '-'
        || y[i] == '+' by {
        if size > 9999 {
            if i > 0 {
                assert(text::is_digit(decimal::decimal(size)[i - 1]));
            }
        }
    }
    let s = d.iso();
    assert forall|i: int| 0 <= i < s.len() implies text::is_digit(#[trigger] s[i]) || s[i] == '-'
        || s[i] == '+' by {
        if i < y.len() {
            assert(s[i] == y[i]);
        }
    }
}

proof fn lemma_year_digits(year: int)
    ensures
        ({
            let size = decimal::magnitude(year);
            let y = year_text(year);
            let digits = if 0 <= year <= 9999 {
                y
            } else {
                y.skip(1)
            };
            &&& decimal::number(digits) == size
            &&& y.len() > 0
            &&& year < 0 ==> y[0] == '-'
            &&& year > 9999 ==> y[0] == '+'
            &&& 0 <= year <= 9999 ==> text::is_digit(y[0])
        }),
{
    let size = decimal::magnitude(year);
    decimal::lemma_decimal(size);
    let y = year_text(year);
    if size <= 9999 {
        let (h, l) = (size / 100, size % 100);
        let digits = decimal::two_digits(h) + decimal::two_digits(l);
        let (a, b) = (decimal::digit_for(h / 10), decimal::digit_for(h % 10));
        let (c, d) = (decimal::digit_for(l / 10), decimal::digit_for(l % 10));
        let none = Seq::<char>::empty();
        decimal::lemma_number_push(none, a);
        decimal::lemma_number_push(none.push(a), b);
        decimal::lemma_number_push(none.push(a).push(b), c);
        decimal::lemma_number_push(none.push(a).push(b).push(c), d);
        assert(digits == none.push(a).push(b).push(c).push(d));
        if year < 0 {
            assert(y.skip(1) == digits);
        }
    } else {
        assert(y.skip(1) == decimal::decimal(size));
    }
}

/// Two days with the same text are the same day.
pub proof fn law_iso_names_the_day(a: Date, b: Date)
    requires
        a.valid(),
        b.valid(),
        a.iso() == b.iso(),
    ensures
        a == b,
{
    let (s, t) = (a.iso(), b.iso());
    let (x, y) = (year_text(a.year as int), year_text(b.year as int));
    assert(s.len() == x.len() + 6);
    assert(t.len() == y.len() + 6);
    assert(s.take(x.len() as int) == x);
    assert(t.take(y.len() as int) == y);
    lemma_year_digits(a.year as int);
    lemma_year_digits(b.year as int);
    let n = x.len() as int;
    assert(s[n + 1] == decimal::digit_for(a.month as int / 10));
    assert(s[n + 2] == decimal::digit_for(a.month as int % 10));
    assert(s[n + 4] == decimal::digit_for(a.day as int / 10));
    assert(s[n + 5] == decimal::digit_for(a.day as int % 10));
    assert(t[n + 1] == decimal::digit_for(b.month as int / 10));
    assert(t[n + 2] == decimal::digit_for(b.month as int % 10));
    assert(t[n + 4] == decimal::digit_for(b.day as int / 10));
    assert(t[n + 5] == decimal::digit_for(b.day as int % 10));
}

proof fn lemma_two_digits_sort(m: int, n: int)
    requires
        0 <= m < 100,
        0 <= n < 100,
    ensures
        text::sorts_before(decimal::two_digits(m), decimal::two_digits(n)) == (m < n),
        decimal::two_digits(m) == decimal::two_digits(n) <==> m == n,
{
    reveal_with_fuel(text::sorts_before, 3);
    let (a, b) = (decimal::two_digits(m), decimal::two_digits(n));
    assert(a[0] == decimal::digit_for(m / 10) && a[1] == decimal::digit_for(m % 10));
    assert(b[0] == decimal::digit_for(n / 10) && b[1] == decimal::digit_for(n % 10));
    assert(a.drop_first()[0] == a[1]);
    assert(b.drop_first()[0] == b[1]);
}

/// Among days of the years 0 to 9999, the order of the texts is that of the
/// days, so that a range of texts is a range of days.
pub proof fn law_iso_sorts_by_day(a: Date, b: Date)
    requires
        a.valid(),
        b.valid(),
        0 <= a.year <= 9999,
        0 <= b.year <= 9999,
    ensures
        text::sorts_before(a.iso(), b.iso()) == a.precedes(b),
{
    let (p, q) = (a.year as int, b.year as int);
    let (ph, pl) = (decimal::two_digits(p / 100), decimal::two_digits(p % 100));
    let (qh, ql) = (decimal::two_digits(q / 100), decimal::two_digits(q % 100));
    let (am, bm) = (decimal::two_digits(a.month as int), decimal::two_digits(b.month as int));
    let (ad, bd) = (decimal::two_digits(a.day as int), decimal::two_digits(b.day as int));
    let dash = seq!['-'];
    let (a4, b4) = (dash + ad, dash + bd);
    let (a3, b3) = (am + a4, bm + b4);
    let (a2, b2) = (dash + a3, dash + b3);
    let (a1, b1) = (pl + a2, ql + b2);
    assert(a.iso() == ph + a1);
    assert(b.iso() == qh + b1);
    text::lemma_sorts_by_front(ph, a1, qh, b1);
    text::lemma_sorts_by_front(pl, a2, ql, b2);
    text::lemma_sorts_by_front(dash, a3, dash, b3);
    text::lemma_sorts_by_front(am, a4, bm, b4);
    text::lemma_sorts_by_front(dash, ad, dash, bd);
    reveal_with_fuel(text::sorts_before, 2);
    assert(!text::sorts_before(dash, dash));
    lemma_two_digits_sort(p / 100, q / 100);
    lemma_two_digits_sort(p % 100, q % 100);
    lemma_two_digits_sort(a.month as int, b.month as int);
    lemma_two_digits_sort(a.day as int, b.day as int);
}

/// No day that can be held lies before the first.
pub proof fn law_first_date(d: Date)
    requires
        d.valid(),
    ensures
        d.day_number() >= first_date().day_number(),
{
    let f = first_date();
    law_day_number_order(d, f);
}

/// The day after another: the next of the month, or the first of the next.
pub open spec fn day_after(d: Date) -> Date {
    if d.day < days_in_month(d.year as int, d.month as int) {
        Date { day: (d.day + 1) as u32, ..d }
    } else if d.month < 12 {
        Date { year: d.year, month: (d.month + 1) as u32, day: 1 }
    } else {
        Date { year: (d.year + 1) as i32, month: 1, day: 1 }
    }
}

/// Days are numbered one by one, through months and years, and the numbers count
/// from the first day of 1970 as the clock does.
pub proof fn law_days_are_numbered_one_by_one(d: Date)
    requires
        d.valid(),
        d.year < LAST_YEAR,
    ensures
        day_after(d).valid(),
        day_after(d).day_number() == d.day_number() + 1,
        (Date { year: 1970, month: 1, day: 1 }).day_number() == 719163,
{
    lemma_year_length(d.year as int);
    assert(days_before_month(1970, 1) == 0);
}

/// A year has 366 days exactly where four divides it, unless a hundred does and four
/// hundred does not; any other has 365.
pub proof fn law_years_have_their_days(year: i32)
    requires
        FIRST_YEAR <= year < LAST_YEAR,
    ensures
        ({
            let days = (Date { year: (year + 1) as i32, month: 1, day: 1 }).day_number() - (Date {
                year,
                month: 1,
                day: 1,
            }).day_number();
            &&& days == 366 <==> year as int % 4 == 0 && (year as int % 100 != 0 || year as int
                % 400 == 0)
            &&& days == 366 || days == 365
        }),
{
    lemma_year_length(year as int);
    lemma_months_of_year(year as int);
    assert(days_before_month(year as int, 1) == 0);
    assert(days_before_month(year + 1, 1) == 0);
}

} // verus!
