//! What a statement holds: rows, accounts, and the checks on them.
use crate::calendar::Date;
use crate::decimal;
use crate::decimal::{hundredths_text, push_decimal, push_signed};
use crate::money;
use crate::money::{minus, plus};
use crate::text;
use crate::text::{join, owned};
use vstd::hash_map::StringHashMap;
use vstd::prelude::*;

verus! {

#[derive(Debug, Clone, Copy, PartialEq, Eq, Structural)]
pub enum AccountType {
    Current,
    Savings,
    CreditCard,
}

/// The name under which a type of account is stored.
pub open spec fn stored_name(t: AccountType) -> Seq<char> {
    match t {
        AccountType::Current => "current"@,
        AccountType::Savings => "savings"@,
        AccountType::CreditCard => "credit_card"@,
    }
}

impl AccountType {
    pub fn as_str(&self) -> (r: &'static str)
        ensures
            r@ == stored_name(*self),
    {
        match self {
            AccountType::Current => "current",
            AccountType::Savings => "savings",
            AccountType::CreditCard => "credit_card",
        }
    }
}

// ---------------------------------------------------------------------------
// Rows
// ---------------------------------------------------------------------------

#[derive(Debug)]
pub struct ParsedRow {
    pub date: Date,
    pub description: String,
    /// The bank's own label, where it provides one.
    pub category: Option<String>,
    pub reference: Option<String>,
    /// A transaction identifier supplied by the bank, when there is one.
    ///
    /// Amex gives one on every row. It beats the positional fallback outright:
    /// it is stable across exports of any date range, so manual categories
    /// stay attached permanently. Revolut and Lloyds give nothing usable.
    pub external_id: Option<String>,
    /// Anything the source carries that has no column of its own: Amex's
    /// "Extended Details" holds foreign spend amounts.
    pub details: Option<String>,
    pub amount_text: String,
    /// Money out is negative, whatever the source file did. Credit card
    /// exports are normalised by their parser, not downstream.
    pub amount_minor: i64,
    pub currency: String,
    pub base_amount_minor: Option<i64>,
    pub base_currency: Option<String>,
    pub balance_minor: Option<i64>,
    pub fee_minor: i64,
    pub is_internal: bool,
    pub is_pending: bool,
    /// Occurrence index among rows identical on date, amount, balance and
    /// description. Counted this way, never by file position, so keys stay
    /// stable across exports of different date ranges.
    pub ordinal: usize,
}

/// A row as plain values.
#[verifier::ext_equal]
pub struct RowView {
    pub date: Date,
    pub description: Seq<char>,
    pub category: Option<Seq<char>>,
    pub reference: Option<Seq<char>>,
    pub external_id: Option<Seq<char>>,
    pub details: Option<Seq<char>>,
    pub amount_text: Seq<char>,
    pub amount_minor: i64,
    pub currency: Seq<char>,
    pub base_amount_minor: Option<i64>,
    pub base_currency: Option<Seq<char>>,
    pub balance_minor: Option<i64>,
    pub fee_minor: i64,
    pub is_internal: bool,
    pub is_pending: bool,
    pub ordinal: nat,
}

impl View for ParsedRow {
    type V = RowView;

    open spec fn view(&self) -> RowView {
        RowView {
            date: self.date,
            description: self.description@,
            category: text::opt(self.category),
            reference: text::opt(self.reference),
            external_id: text::opt(self.external_id),
            details: text::opt(self.details),
            amount_text: self.amount_text@,
            amount_minor: self.amount_minor,
            currency: self.currency@,
            base_amount_minor: self.base_amount_minor,
            base_currency: text::opt(self.base_currency),
            balance_minor: self.balance_minor,
            fee_minor: self.fee_minor,
            is_internal: self.is_internal,
            is_pending: self.is_pending,
            ordinal: self.ordinal as nat,
        }
    }
}

/// A list of rows as plain values.
pub open spec fn row_views(rows: Seq<ParsedRow>) -> Seq<RowView> {
    Seq::new(rows.len(), |i: int| rows[i]@)
}

/// Whether every row has a day of the calendar.
pub open spec fn all_dated(rows: Seq<RowView>) -> bool {
    forall|i: int| 0 <= i < rows.len() ==> (#[trigger] rows[i]).date.valid()
}

/// The balance of a row as it stands in keys.
pub open spec fn balance_text(balance: Option<i64>) -> Seq<char> {
    match balance {
        Some(b) => decimal::signed(b as int),
        None => seq!['-'],
    }
}

fn push_balance(out: &mut String, balance: Option<i64>)
    ensures
        final(out)@ == old(out)@ + balance_text(balance),
{
    match balance {
        Some(b) => push_signed(out, b),
        None => {
            out.push('-');
            assert(out@ == old(out)@ + seq!['-']);
        },
    }
}

/// What tells a row from the others of its day: date, amount, balance and
/// description.
pub open spec fn signature(row: RowView) -> Seq<char> {
    row.date.iso() + seq!['|'] + row.amount_text + seq!['|'] + balance_text(row.balance_minor)
        + seq!['|'] + row.description
}

/// Whether a row carries an identifier of the bank's.
pub open spec fn has_external_id(row: RowView) -> bool {
    match row.external_id {
        Some(id) => id.len() > 0,
        None => false,
    }
}

/// The stable identity of a row: the bank's identifier where there is one,
/// else `source:date:amount:balance:description:ordinal`.
pub open spec fn key_of(row: RowView, source: Seq<char>) -> Seq<char> {
    if has_external_id(row) {
        source + ":id:"@ + row.external_id->0
    } else {
        source + seq![':'] + row.date.iso() + seq![':'] + row.amount_text + seq![':']
            + balance_text(row.balance_minor) + seq![':'] + row.description + seq![':']
            + decimal::decimal(row.ordinal as int)
    }
}

impl ParsedRow {
    pub fn row_key(&self, source: &str) -> (r: String)
        requires
            self.date.valid(),
        ensures
            r@ == key_of(self@, source@),
    {
        let mut key = owned(source);
        if let Some(id) = &self.external_id {
            if id.as_str().unicode_len() > 0 {
                key.append(":id:");
                key.append(id.as_str());
                return key;
            }
        }
        key.push(':');
        self.date.push_iso(&mut key);
        key.push(':');
        key.append(self.amount_text.as_str());
        key.push(':');
        push_balance(&mut key, self.balance_minor);
        key.push(':');
        key.append(self.description.as_str());
        key.push(':');
        push_decimal(&mut key, self.ordinal as u64);
        assert(key@ == key_of(self@, source@));
        key
    }

    fn signature(&self) -> (r: String)
        requires
            self.date.valid(),
        ensures
            r@ == signature(self@),
    {
        let mut s = self.date.to_iso();
        s.push('|');
        s.append(self.amount_text.as_str());
        s.push('|');
        push_balance(&mut s, self.balance_minor);
        s.push('|');
        s.append(self.description.as_str());
        assert(s@ == signature(self@));
        s
    }
}

// ---------------------------------------------------------------------------
// Ordinals
// ---------------------------------------------------------------------------

/// How many of the first `n` rows have the given signature.
pub open spec fn occurrences(rows: Seq<RowView>, n: int, s: Seq<char>) -> nat
    decreases n,
{
    if n <= 0 {
        0
    } else if signature(rows[n - 1]) == s {
        occurrences(rows, n - 1, s) + 1
    } else {
        occurrences(rows, n - 1, s)
    }
}

/// The rows, each numbered among those before it that look the same.
pub open spec fn numbered(rows: Seq<RowView>) -> Seq<RowView> {
    Seq::new(
        rows.len(),
        |i: int|
            RowView { ordinal: occurrences(rows, i, signature(rows[i])), ..rows[i] },
    )
}

pub proof fn lemma_occurrences_bound(rows: Seq<RowView>, n: int, s: Seq<char>)
    requires
        0 <= n,
    ensures
        occurrences(rows, n, s) <= n,
    decreases n,
{
    if n > 0 {
        lemma_occurrences_bound(rows, n - 1, s);
    }
}

/// Assigns stable occurrence ordinals. Call once after a parser has collected
/// its rows; parsers should not compute ordinals themselves.
pub fn assign_ordinals(rows: &mut Vec<ParsedRow>)
    requires
        all_dated(row_views(old(rows)@)),
    ensures
        row_views(final(rows)@) == numbered(row_views(old(rows)@)),
{
    let ghost before = row_views(rows@);
    let mut seen: StringHashMap<usize> = StringHashMap::new();
    let mut i: usize = 0;
    while i < rows.len()
        invariant
            i <= rows@.len(),
            rows@.len() == before.len(),
            all_dated(before),
            forall|j: int| 0 <= j < i ==> (#[trigger] rows@[j])@ == numbered(before)[j],
            forall|j: int| i <= j < rows@.len() ==> (#[trigger] rows@[j])@ == before[j],
            forall|s: Seq<char>|
                #![trigger occurrences(before, i as int, s)]
                occurrences(before, i as int, s) == (if seen@.contains_key(s) {
                    seen@[s] as nat
                } else {
                    0nat
                }),
        decreases rows@.len() - i,
    {
        assert(rows@[i as int]@ == before[i as int]);
        let s = rows[i].signature();
        let len: usize = rows.len();
        let count: usize = match seen.get(s.as_str()) {
            Some(n) => *n,
            None => 0,
        };
        assert(occurrences(before, i as int, s@) == count);
        proof {
            lemma_occurrences_bound(before, i as int, s@);
        }
        rows[i].ordinal = count;
        seen.insert(s, count + 1);
        assert(rows@[i as int]@ == numbered(before)[i as int]);
        assert forall|t: Seq<char>|
            #![trigger occurrences(before, i + 1, t)]
            occurrences(before, i + 1, t) == (if seen@.contains_key(t) {
                seen@[t] as nat
            } else {
                0nat
            }) by {
            assert(occurrences(before, i as int, t) >= 0);
        }
        i = i + 1;
    }
    assert(row_views(rows@) == numbered(before));
}

// ---------------------------------------------------------------------------
// Accounts
// ---------------------------------------------------------------------------

#[derive(Debug)]
pub struct ParsedAccount {
    /// Stable synthetic identity. Must be derivable from any export of this
    /// account, or history fragments across files.
    pub account_key: String,
    pub institution: String,
    pub country: String,
    pub currency: String,
    pub display_name: String,
    pub account_type: AccountType,
    pub identifier_tail: Option<String>,
    pub rows: Vec<ParsedRow>,
    /// Rows of the table that gave no transaction, each as one line.
    pub skipped: Vec<String>,
    pub opening_balance_minor: Option<i64>,
    pub closing_balance_minor: Option<i64>,
}

/// An account as plain values.
#[verifier::ext_equal]
pub struct AccountView {
    pub account_key: Seq<char>,
    pub institution: Seq<char>,
    pub country: Seq<char>,
    pub currency: Seq<char>,
    pub display_name: Seq<char>,
    pub account_type: AccountType,
    pub identifier_tail: Option<Seq<char>>,
    pub rows: Seq<RowView>,
    pub skipped: Seq<Seq<char>>,
    pub opening_balance_minor: Option<i64>,
    pub closing_balance_minor: Option<i64>,
}

impl View for ParsedAccount {
    type V = AccountView;

    open spec fn view(&self) -> AccountView {
        AccountView {
            account_key: self.account_key@,
            institution: self.institution@,
            country: self.country@,
            currency: self.currency@,
            display_name: self.display_name@,
            account_type: self.account_type,
            identifier_tail: text::opt(self.identifier_tail),
            rows: row_views(self.rows@),
            skipped: text::views(self.skipped@),
            opening_balance_minor: self.opening_balance_minor,
            closing_balance_minor: self.closing_balance_minor,
        }
    }
}

/// A list of accounts as plain values.
pub open spec fn account_views(accounts: Seq<ParsedAccount>) -> Seq<AccountView> {
    Seq::new(accounts.len(), |i: int| accounts[i]@)
}

/// An account in the United Kingdom without rows or balances.
pub open spec fn empty_account(
    account_key: Seq<char>,
    institution: Seq<char>,
    currency: Seq<char>,
    display_name: Seq<char>,
    account_type: AccountType,
) -> AccountView {
    AccountView {
        account_key,
        institution,
        country: "GB"@,
        currency,
        display_name,
        account_type,
        identifier_tail: None,
        rows: seq![],
        skipped: seq![],
        opening_balance_minor: None,
        closing_balance_minor: None,
    }
}

/// The cells of a row on one line.
pub open spec fn skipped_line(row: Seq<Seq<char>>) -> Seq<char> {
    text::joined(row, " | "@)
}

/// The closing balance: the given one, or that of the last row.
pub open spec fn closing_of(given: Option<i64>, rows: Seq<RowView>) -> Option<i64> {
    if given is Some {
        given
    } else if rows.len() > 0 {
        rows.last().balance_minor
    } else {
        None
    }
}

/// The opening balance: the given one, or that of the first row before its amount.
pub open spec fn opening_of(given: Option<i64>, rows: Seq<RowView>) -> Option<i64> {
    if given is Some {
        given
    } else if rows.len() > 0 {
        match rows[0].balance_minor {
            Some(b) => Some(money::wrapped(b - rows[0].amount_minor) as i64),
            None => None,
        }
    } else {
        None
    }
}

/// The account with the balances that its rows give.
pub open spec fn balanced(account: AccountView) -> AccountView {
    AccountView {
        opening_balance_minor: opening_of(account.opening_balance_minor, account.rows),
        closing_balance_minor: closing_of(account.closing_balance_minor, account.rows),
        ..account
    }
}

/// A row from which periods, balances and chains are read.
pub trait LedgerRow {
    spec fn plain(&self) -> RowView;

    fn day(&self) -> (r: Date)
        ensures
            r == self.plain().date,
    ;

    fn what(&self) -> (r: &str)
        ensures
            r@ == self.plain().description,
    ;

    fn amount(&self) -> (r: i64)
        ensures
            r == self.plain().amount_minor,
    ;

    fn balance(&self) -> (r: Option<i64>)
        ensures
            r == self.plain().balance_minor,
    ;
}

impl LedgerRow for ParsedRow {
    open spec fn plain(&self) -> RowView {
        self@
    }

    fn day(&self) -> (r: Date) {
        self.date
    }

    fn what(&self) -> (r: &str) {
        self.description.as_str()
    }

    fn amount(&self) -> (r: i64) {
        self.amount_minor
    }

    fn balance(&self) -> (r: Option<i64>) {
        self.balance_minor
    }
}

/// Rows as plain values.
pub open spec fn plain_rows<R: LedgerRow>(rows: Seq<R>) -> Seq<RowView> {
    Seq::new(rows.len(), |i: int| rows[i].plain())
}

/// The opening and the closing balance, where they are not given from the rows.
pub fn inferred<R: LedgerRow>(opening: Option<i64>, closing: Option<i64>, rows: &Vec<R>) -> (r: (
    Option<i64>,
    Option<i64>,
))
    ensures
        r.0 == opening_of(opening, plain_rows(rows@)),
        r.1 == closing_of(closing, plain_rows(rows@)),
{
    let n: usize = rows.len();
    if n == 0 {
        return (opening, closing);
    }
    let first = match opening {
        Some(b) => Some(b),
        None => match rows[0].balance() {
            Some(b) => Some(minus(b, rows[0].amount())),
            None => None,
        },
    };
    let last = match closing {
        Some(b) => Some(b),
        None => rows[n - 1].balance(),
    };
    (first, last)
}

/// The dates that some rows span, earliest and latest.
pub fn span_of<R: LedgerRow>(rows: &Vec<R>) -> (r: Option<(Date, Date)>)
    ensures
        r == span(plain_rows(rows@)),
{
    let ghost all = plain_rows(rows@);
    if rows.len() == 0 {
        return None;
    }
    let mut from: Date = rows[0].day();
    let mut to: Date = rows[0].day();
    let mut i: usize = 1;
    assert(all.take(1)[0].date == from);
    while i < rows.len()
        invariant
            1 <= i <= rows@.len(),
            all == plain_rows(rows@),
            from == earliest(all.take(i as int)),
            to == latest(all.take(i as int)),
        decreases rows@.len() - i,
    {
        let date: Date = rows[i].day();
        assert(all.take(i + 1).drop_last() == all.take(i as int));
        assert(all.take(i + 1).last() == rows@[i as int].plain());
        if date.is_before(&from) {
            from = date;
        }
        if to.is_before(&date) {
            to = date;
        }
        i = i + 1;
    }
    assert(all.take(i as int) == all);
    Some((from, to))
}

/// The earliest date among some rows, of which there is at least one.
pub open spec fn earliest(rows: Seq<RowView>) -> Date
    decreases rows.len(),
{
    if rows.len() <= 1 {
        rows[0].date
    } else {
        let d = earliest(rows.drop_last());
        if rows.last().date.precedes(d) {
            rows.last().date
        } else {
            d
        }
    }
}

/// The latest date among some rows, of which there is at least one.
pub open spec fn latest(rows: Seq<RowView>) -> Date
    decreases rows.len(),
{
    if rows.len() <= 1 {
        rows[0].date
    } else {
        let d = latest(rows.drop_last());
        if d.precedes(rows.last().date) {
            rows.last().date
        } else {
            d
        }
    }
}

/// The dates that some rows span.
pub open spec fn span(rows: Seq<RowView>) -> Option<(Date, Date)> {
    if rows.len() == 0 {
        None
    } else {
        Some((earliest(rows), latest(rows)))
    }
}

impl ParsedAccount {
    pub fn new(
        account_key: &str,
        institution: &str,
        currency: &str,
        display_name: &str,
        account_type: AccountType,
    ) -> (r: ParsedAccount)
        ensures
            r@ == empty_account(
                account_key@,
                institution@,
                currency@,
                display_name@,
                account_type,
            ),
    {
        let r = ParsedAccount {
            account_key: owned(account_key),
            institution: owned(institution),
            country: owned("GB"),
            currency: owned(currency),
            display_name: owned(display_name),
            account_type,
            identifier_tail: None,
            rows: Vec::new(),
            skipped: Vec::new(),
            opening_balance_minor: None,
            closing_balance_minor: None,
        };
        assert(r@.rows == Seq::<RowView>::empty());
        assert(r@.skipped == Seq::<Seq<char>>::empty());
        r
    }

    /// Records a row that gave no transaction, so that a gap in the balances
    /// has something to point at.
    pub fn skip(&mut self, row: &[String])
        ensures
            final(self)@ == (AccountView {
                skipped: old(self)@.skipped.push(skipped_line(text::views(row@))),
                ..old(self)@
            }),
    {
        let line = join(row, " | ");
        self.skipped.push(line);
        assert(self@.skipped == old(self)@.skipped.push(skipped_line(text::views(row@))));
    }

    /// Appends a row.
    pub fn push_row(&mut self, row: ParsedRow)
        ensures
            final(self)@ == (AccountView { rows: old(self)@.rows.push(row@), ..old(self)@ }),
    {
        self.rows.push(row);
        assert(self@.rows == old(self)@.rows.push(row@));
    }

    /// Derive opening and closing from the rows when the file has a running
    /// balance. Parsers with a summary block should set these directly.
    pub fn infer_balances(&mut self)
        ensures
            final(self)@ == balanced(old(self)@),
    {
        let (opening, closing) = inferred(
            self.opening_balance_minor,
            self.closing_balance_minor,
            &self.rows,
        );
        assert(plain_rows(self.rows@) == self@.rows);
        self.opening_balance_minor = opening;
        self.closing_balance_minor = closing;
        assert(self@ == balanced(old(self)@));
    }

    /// The dates that the rows span, earliest and latest.
    pub fn period(&self) -> (r: Option<(Date, Date)>)
        ensures
            r == span(self@.rows),
    {
        assert(plain_rows(self.rows@) == self@.rows);
        span_of(&self.rows)
    }
}

/// The rows, turned around where the last is older than the first.
pub open spec fn chronological(rows: Seq<RowView>) -> Seq<RowView> {
    if turned(rows) {
        rows.reverse()
    } else {
        rows
    }
}

/// Whether the last of some rows is older than the first.
pub open spec fn turned(rows: Seq<RowView>) -> bool {
    rows.len() > 0 && rows.last().date.precedes(rows[0].date)
}

/// Normalise to oldest-first.
///
/// Lloyds and Amex both export newest-first. Reversing rather than sorting by
/// date is deliberate: it preserves the order of same-day transactions, which
/// a date sort would scramble, and that order is what makes the running
/// balance verifiable at all.
pub fn ensure_chronological(rows: &mut Vec<ParsedRow>) -> (r: bool)
    ensures
        r == turned(row_views(old(rows)@)),
        row_views(final(rows)@) == chronological(row_views(old(rows)@)),
{
    let n: usize = rows.len();
    if n == 0 || !rows[n - 1].date.is_before(&rows[0].date) {
        return false;
    }
    let ghost before = rows@;
    let mut turned: Vec<ParsedRow> = Vec::new();
    while rows.len() > 0
        invariant
            rows@ == before.take(rows@.len() as int),
            rows@.len() + turned@.len() == before.len(),
            forall|i: int|
                0 <= i < turned@.len() ==> #[trigger] turned@[i] == before[before.len() - 1 - i],
        decreases rows@.len(),
    {
        match rows.pop() {
            Some(row) => turned.push(row),
            None => {},
        }
    }
    *rows = turned;
    assert(row_views(rows@) == row_views(before).reverse());
    true
}

// ---------------------------------------------------------------------------
// Integrity
// ---------------------------------------------------------------------------

/// Whether a row's stated balance follows from the one before it. Where either
/// is missing there is nothing to compare.
pub open spec fn follows(before: Option<i64>, row: RowView) -> bool {
    match (before, row.balance_minor) {
        (Some(b), Some(stated)) => money::wrapped(b + row.amount_minor) == stated,
        _ => true,
    }
}

/// The line on a row whose balance does not follow.
pub open spec fn break_line(before: int, row: RowView) -> Seq<char> {
    line_of(row.date, row.description, before + row.amount_minor, row.balance_minor->0 as int)
}

/// The line on a day's row whose stated balance is not the expected one.
pub open spec fn line_of(date: Date, description: Seq<char>, expected: int, stated: int) -> Seq<
    char,
> {
    date.iso() + seq![' '] + description + ": expected "@ + decimal::hundredths(
        money::wrapped(expected),
    ) + ", file says "@ + decimal::hundredths(stated)
}

/// The line on a row, where its stated balance does not follow from the one
/// before it.
pub fn break_of(
    before: Option<i64>,
    date: &Date,
    description: &str,
    amount_minor: i64,
    balance_minor: Option<i64>,
) -> (r: Option<String>)
    requires
        date.valid(),
    ensures
        match (before, balance_minor) {
            (Some(b), Some(stated)) => if money::wrapped(b + amount_minor) == stated {
                r is None
            } else {
                r matches Some(line) && line@ == line_of(
                    *date,
                    description@,
                    b + amount_minor,
                    stated as int,
                )
            },
            _ => r is None,
        },
{
    if let (Some(previous), Some(stated)) = (before, balance_minor) {
        let expected: i64 = plus(previous, amount_minor);
        if expected != stated {
            let mut line = date.to_iso();
            line.push(' ');
            line.append(description);
            line.append(": expected ");
            let e = hundredths_text(expected);
            line.append(e.as_str());
            line.append(", file says ");
            let s = hundredths_text(stated);
            line.append(s.as_str());
            assert(line@ == line_of(*date, description@, previous + amount_minor, stated as int));
            return Some(line);
        }
    }
    None
}

/// The lines on all the rows whose balance does not follow from that of the
/// row before, the first being preceded by the given balance.
pub open spec fn breaks(before: Option<i64>, rows: Seq<RowView>) -> Seq<Seq<char>>
    decreases rows.len(),
{
    if rows.len() == 0 {
        seq![]
    } else {
        let rest = breaks(rows[0].balance_minor, rows.drop_first());
        if follows(before, rows[0]) {
            rest
        } else {
            seq![break_line(before->0 as int, rows[0])] + rest
        }
    }
}

/// Recompute the running balance of some rows against their own balances.
pub fn chain_breaks<R: LedgerRow>(opening: Option<i64>, ledger: &Vec<R>) -> (r: Vec<String>)
    requires
        all_dated(plain_rows(ledger@)),
    ensures
        text::views(r@) == breaks(opening, plain_rows(ledger@)),
{
    let mut found: Vec<String> = Vec::new();
    let mut running: Option<i64> = opening;
    let ghost rows = plain_rows(ledger@);
    let mut i: usize = 0;
    assert(rows.skip(0) == rows);
    assert(text::views(found@) + breaks(running, rows) == breaks(running, rows));
    while i < ledger.len()
        invariant
            i <= ledger@.len(),
            rows == plain_rows(ledger@),
            all_dated(rows),
            text::views(found@) + breaks(running, rows.skip(i as int)) == breaks(opening, rows),
        decreases ledger@.len() - i,
    {
        let row = &ledger[i];
        assert(rows[i as int] == row.plain());
        assert(rows.skip(i as int).drop_first() == rows.skip(i + 1));
        let ghost was = text::views(found@);
        let balance = row.balance();
        if let Some(line) = break_of(running, &row.day(), row.what(), row.amount(), balance) {
            let ghost view = line@;
            found.push(line);
            assert(text::views(found@) == was.push(view));
            assert(was.push(view) + breaks(balance, rows.skip(i + 1)) == was + (seq![view]
                + breaks(balance, rows.skip(i + 1))));
        }
        running = balance;
        i = i + 1;
    }
    assert(text::views(found@) + breaks(running, rows.skip(i as int)) == text::views(found@));
    found
}

/// Recompute the running balance against the file's own balance column.
///
/// Returns an empty list when the source has no balance column (Amex), which
/// means those imports have no completeness check: worth remembering when a
/// credit card total looks wrong.
pub fn verify_chain(account: &ParsedAccount) -> (r: Vec<String>)
    requires
        all_dated(account@.rows),
    ensures
        text::views(r@) == breaks(account@.opening_balance_minor, account@.rows),
{
    assert(plain_rows(account.rows@) == account@.rows);
    chain_breaks(account.opening_balance_minor, &account.rows)
}

/// Whether any row states a balance.
pub open spec fn states_balance(rows: Seq<RowView>) -> bool {
    exists|i: int| 0 <= i < rows.len() && (#[trigger] rows[i]).balance_minor is Some
}

pub fn has_balance_chain(account: &ParsedAccount) -> (r: bool)
    ensures
        r == states_balance(account@.rows),
{
    let mut i: usize = 0;
    while i < account.rows.len()
        invariant
            i <= account.rows@.len(),
            forall|j: int| 0 <= j < i ==> (#[trigger] account@.rows[j]).balance_minor is None,
        decreases account.rows@.len() - i,
    {
        assert(account@.rows[i as int] == account.rows@[i as int]@);
        if account.rows[i].balance_minor.is_some() {
            return true;
        }
        i = i + 1;
    }
    false
}

// ---------------------------------------------------------------------------
// Laws: the balance chain
// ---------------------------------------------------------------------------

/// The sum of the amounts of some rows.
pub open spec fn total(rows: Seq<RowView>) -> int
    decreases rows.len(),
{
    if rows.len() == 0 {
        0
    } else {
        total(rows.drop_last()) + rows.last().amount_minor
    }
}

/// Whether every row states a balance.
pub open spec fn all_balanced(rows: Seq<RowView>) -> bool {
    forall|i: int| 0 <= i < rows.len() ==> (#[trigger] rows[i]).balance_minor is Some
}

/// The balance before the row at a place.
pub open spec fn balance_before(opening: Option<i64>, rows: Seq<RowView>, i: int) -> Option<i64> {
    if i == 0 {
        opening
    } else {
        rows[i - 1].balance_minor
    }
}

/// The chain is reported as whole exactly where every row's balance follows
/// from the one before it.
pub proof fn law_whole_chain(opening: Option<i64>, rows: Seq<RowView>)
    ensures
        breaks(opening, rows).len() == 0 <==> forall|i: int|
            0 <= i < rows.len() ==> follows(balance_before(opening, rows, i), #[trigger] rows[i]),
    decreases rows.len(),
{
    if rows.len() > 0 {
        let rest = rows.drop_first();
        let next = rows[0].balance_minor;
        law_whole_chain(next, rest);
        if breaks(opening, rows).len() == 0 {
            assert forall|i: int| 0 <= i < rows.len() implies follows(
                balance_before(opening, rows, i),
                #[trigger] rows[i],
            ) by {
                if i > 0 {
                    assert(rest[i - 1] == rows[i]);
                    assert(balance_before(next, rest, i - 1) == balance_before(opening, rows, i));
                }
            }
        }
        if forall|i: int|
            0 <= i < rows.len() ==> follows(balance_before(opening, rows, i), #[trigger] rows[i]) {
            assert forall|i: int| 0 <= i < rest.len() implies follows(
                balance_before(next, rest, i),
                #[trigger] rest[i],
            ) by {
                assert(rest[i] == rows[i + 1]);
                assert(balance_before(next, rest, i) == balance_before(opening, rows, i + 1));
            }
            assert(rows[0] == rows[0]);
        }
    }
}

/// Where the chain is whole and every row states its balance, each balance is
/// the opening one plus all the amounts up to its row.
pub proof fn law_whole_chain_sums(opening: i64, rows: Seq<RowView>, i: int)
    requires
        all_balanced(rows),
        breaks(Some(opening), rows).len() == 0,
        0 <= i < rows.len(),
    ensures
        rows[i].balance_minor == Some(money::wrapped(opening + total(rows.take(i + 1))) as i64),
    decreases i,
{
    law_whole_chain(Some(opening), rows);
    assert(follows(balance_before(Some(opening), rows, i), rows[i]));
    let now = rows.take(i + 1);
    assert(now.drop_last() == rows.take(i));
    assert(now.last() == rows[i]);
    if i > 0 {
        law_whole_chain_sums(opening, rows, i - 1);
        money::lemma_wrapped_sum(opening + total(rows.take(i)), rows[i].amount_minor as int);
    } else {
        assert(total(rows.take(0)) == 0);
    }
}

proof fn lemma_total_split(rows: Seq<RowView>, a: int)
    requires
        0 <= a <= rows.len(),
    ensures
        total(rows) == total(rows.take(a)) + total(rows.skip(a)),
    decreases rows.len(),
{
    if a == rows.len() {
        assert(rows.take(a) == rows);
        assert(rows.skip(a).len() == 0);
    } else {
        lemma_total_split(rows.drop_last(), a);
        assert(rows.drop_last().take(a) == rows.take(a));
        assert(rows.skip(a).drop_last() == rows.drop_last().skip(a));
        assert(rows.skip(a).last() == rows.last());
    }
}

/// A file from whose middle rows were dropped is never reported as whole: not
/// where the full file was, every row states its balance, and the dropped
/// amounts do not cancel out.
pub proof fn law_dropped_rows_break_the_chain(opening: i64, rows: Seq<RowView>, a: int, b: int)
    requires
        all_balanced(rows),
        breaks(Some(opening), rows).len() == 0,
        0 <= a <= b < rows.len(),
        money::wrapped(total(rows.subrange(a, b))) != 0,
    ensures
        breaks(Some(opening), rows.take(a) + rows.skip(b)).len() > 0,
{
    let cut = rows.take(a) + rows.skip(b);
    assert forall|i: int| 0 <= i < cut.len() implies (#[trigger] cut[i]).balance_minor is Some by {
        if i < a {
            assert(cut[i] == rows[i]);
        } else {
            assert(cut[i] == rows[i - a + b]);
        }
    }
    if breaks(Some(opening), cut).len() == 0 {
        law_whole_chain_sums(opening, rows, b);
        law_whole_chain_sums(opening, cut, a);
        assert(cut[a] == rows[b]);
        assert(cut.take(a + 1).drop_last() == rows.take(a));
        assert(rows.take(b + 1).drop_last() == rows.take(b));
        lemma_total_split(rows.take(b), a);
        assert(rows.take(b).take(a) == rows.take(a));
        assert(rows.take(b).skip(a) == rows.subrange(a, b));
    }
}

// ---------------------------------------------------------------------------
// Laws: periods
// ---------------------------------------------------------------------------

/// The dates that an account spans are dates of its rows, and no row lies
/// outside them.
pub proof fn law_span_covers(rows: Seq<RowView>)
    requires
        rows.len() > 0,
    ensures
        exists|i: int| 0 <= i < rows.len() && (#[trigger] rows[i]).date == earliest(rows),
        exists|i: int| 0 <= i < rows.len() && (#[trigger] rows[i]).date == latest(rows),
        forall|i: int|
            0 <= i < rows.len() ==> !(#[trigger] rows[i]).date.precedes(earliest(rows))
                && !latest(rows).precedes(rows[i].date),
    decreases rows.len(),
{
    let last = rows.len() - 1;
    if last == 0 {
        assert(rows[0].date == earliest(rows));
    } else {
        let front = rows.drop_last();
        law_span_covers(front);
        let i = choose|i: int| 0 <= i < front.len() && (#[trigger] front[i]).date == earliest(front);
        let j = choose|j: int| 0 <= j < front.len() && (#[trigger] front[j]).date == latest(front);
        assert(rows[i] == front[i] && rows[j] == front[j]);
        assert(rows[last] == rows.last());
        assert forall|k: int| 0 <= k < rows.len() implies !(#[trigger] rows[k]).date.precedes(
            earliest(rows),
        ) && !latest(rows).precedes(rows[k].date) by {
            if k < last {
                assert(rows[k] == front[k]);
            }
        }
    }
}

// ---------------------------------------------------------------------------
// Laws: ordinals and keys
// ---------------------------------------------------------------------------

/// Whether a row is of the given day.
pub open spec fn on_day(day: Date) -> spec_fn(RowView) -> bool {
    |row: RowView| row.date == day
}

proof fn lemma_iso_lacks(d: Date, c: char)
    requires
        d.valid(),
        c == '|' || c == ':',
    ensures
        !d.iso().contains(c),
{
    crate::calendar::lemma_iso_characters(d);
}

/// Rows that look the same are of the same day.
proof fn lemma_signature_day(a: RowView, b: RowView)
    requires
        a.date.valid(),
        b.date.valid(),
        signature(a) == signature(b),
    ensures
        a.date == b.date,
{
    lemma_iso_lacks(a.date, '|');
    lemma_iso_lacks(b.date, '|');
    let x = a.amount_text + seq!['|'] + balance_text(a.balance_minor) + seq!['|'] + a.description;
    let y = b.amount_text + seq!['|'] + balance_text(b.balance_minor) + seq!['|'] + b.description;
    assert(signature(a) == a.date.iso() + seq!['|'] + x);
    assert(signature(b) == b.date.iso() + seq!['|'] + y);
    text::lemma_cut_first(a.date.iso(), x, b.date.iso(), y, '|');
    crate::calendar::law_iso_names_the_day(a.date, b.date);
}

pub proof fn lemma_occurrences_front(rows: Seq<RowView>, more: Seq<RowView>, n: int, s: Seq<char>)
    requires
        0 <= n <= rows.len(),
        n <= more.len(),
        forall|i: int| 0 <= i < n ==> rows[i] == more[i],
    ensures
        occurrences(rows, n, s) == occurrences(more, n, s),
    decreases n,
{
    if n > 0 {
        lemma_occurrences_front(rows, more, n - 1, s);
    }
}

/// Counting the rows that look like one row, those of other days may be left
/// out.
proof fn lemma_occurrences_by_day(rows: Seq<RowView>, row: RowView)
    requires
        all_dated(rows),
        row.date.valid(),
    ensures
        occurrences(rows, rows.len() as int, signature(row)) == ({
            let day = rows.filter(on_day(row.date));
            occurrences(day, day.len() as int, signature(row))
        }),
    decreases rows.len(),
{
    let f = on_day(row.date);
    let s = signature(row);
    reveal(Seq::filter);
    if rows.len() > 0 {
        let front = rows.drop_last();
        assert(all_dated(front)) by {
            assert forall|i: int| 0 <= i < front.len() implies (#[trigger] front[i]).date.valid() by {
                assert(front[i] == rows[i]);
            }
        }
        lemma_occurrences_by_day(front, row);
        lemma_occurrences_front(front, rows, front.len() as int, s);
        let last = rows.last();
        assert(rows[rows.len() - 1].date.valid());
        if f(last) {
            let day = front.filter(f).push(last);
            assert(rows.filter(f) == day);
            lemma_occurrences_front(front.filter(f), day, front.filter(f).len() as int, s);
        } else {
            assert(rows.filter(f) == front.filter(f));
            if signature(last) == s {
                lemma_signature_day(last, row);
            }
        }
    }
}

/// The number of a row depends on the rows of its own day alone: two files that
/// agree on the earlier rows of that day number a row alike, wherever in them it
/// stands and whatever else they hold.
pub proof fn law_ordinals_count_within_a_day(
    rows: Seq<RowView>,
    i: int,
    other: Seq<RowView>,
    j: int,
)
    requires
        all_dated(rows),
        all_dated(other),
        0 <= i < rows.len(),
        0 <= j < other.len(),
        signature(rows[i]) == signature(other[j]),
        rows.take(i).filter(on_day(rows[i].date)) == other.take(j).filter(on_day(rows[i].date)),
    ensures
        numbered(rows)[i].ordinal == numbered(other)[j].ordinal,
{
    let row = rows[i];
    let s = signature(row);
    assert(row.date.valid());
    assert forall|k: int| 0 <= k < i implies (#[trigger] rows.take(i)[k]).date.valid() by {
        assert(rows[k].date.valid());
    }
    assert forall|k: int| 0 <= k < j implies (#[trigger] other.take(j)[k]).date.valid() by {
        assert(other[k].date.valid());
    }
    lemma_occurrences_by_day(rows.take(i), row);
    lemma_occurrences_by_day(other.take(j), row);
    lemma_occurrences_front(rows.take(i), rows, i, s);
    lemma_occurrences_front(other.take(j), other, j, s);
}

proof fn lemma_occurrences_grow(rows: Seq<RowView>, i: int, j: int)
    requires
        0 <= i < j <= rows.len(),
    ensures
        occurrences(rows, i, signature(rows[i])) < occurrences(rows, j, signature(rows[i])),
    decreases j - i,
{
    if i + 1 < j {
        lemma_occurrences_grow(rows, i, j - 1);
    }
}

/// Whether a text can stand in a key without being cut.
pub open spec fn lacks_colon(s: Seq<char>) -> bool {
    !s.contains(':')
}

proof fn lemma_decimal_lacks_colon(n: int)
    ensures
        lacks_colon(decimal::signed(n)),
        n >= 0 ==> lacks_colon(decimal::decimal(n)),
{
    let m = decimal::magnitude(n);
    decimal::lemma_decimal(m);
    let d = decimal::decimal(m);
    assert forall|i: int| 0 <= i < decimal::signed(n).len() implies decimal::signed(n)[i] != ':' by {
        if n < 0 {
            if i > 0 {
                assert(text::is_digit(d[i - 1]));
            }
        } else {
            assert(text::is_digit(d[i]));
        }
    }
}

/// An amount written with two places can stand in a key without being cut.
pub proof fn lemma_hundredths_lack_colon(n: int)
    ensures
        lacks_colon(decimal::hundredths(n)),
{
    let m = decimal::magnitude(n);
    lemma_decimal_lacks_colon(m / 100);
    let w = decimal::decimal(m / 100);
    let s = decimal::hundredths(n);
    let k: int = if n < 0 {
        1
    } else {
        0
    };
    assert forall|i: int| 0 <= i < s.len() implies s[i] != ':' by {
        if k <= i < k + w.len() {
            assert(s[i] == w[i - k]);
            assert(w.contains(w[i - k]));
        }
    }
}

/// A key is made of the source, the date, the amount, the balance, and what
/// follows.
proof fn lemma_key_shape(row: RowView, source: Seq<char>)
    requires
        !has_external_id(row),
    ensures
        key_of(row, source) == source + (seq![':'] + (row.date.iso() + seq![':'] + (row.amount_text
            + seq![':'] + (balance_text(row.balance_minor) + seq![':'] + (row.description + seq![
            ':',
        ] + decimal::decimal(row.ordinal as int)))))),
{
}

proof fn lemma_key_parts(a: RowView, b: RowView, source: Seq<char>)
    requires
        a.date.valid(),
        b.date.valid(),
        lacks_colon(a.amount_text),
        lacks_colon(b.amount_text),
        !has_external_id(a),
        !has_external_id(b),
        key_of(a, source) == key_of(b, source),
    ensures
        signature(a) == signature(b),
        a.ordinal == b.ordinal,
{
    let (ab, bb) = (balance_text(a.balance_minor), balance_text(b.balance_minor));
    let (ao, bo) = (decimal::decimal(a.ordinal as int), decimal::decimal(b.ordinal as int));
    let (x3, y3) = (a.description + seq![':'] + ao, b.description + seq![':'] + bo);
    let (x2, y2) = (ab + seq![':'] + x3, bb + seq![':'] + y3);
    let (x1, y1) = (a.amount_text + seq![':'] + x2, b.amount_text + seq![':'] + y2);
    let (x, y) = (a.date.iso() + seq![':'] + x1, b.date.iso() + seq![':'] + y1);
    lemma_key_shape(a, source);
    lemma_key_shape(b, source);
    lemma_same_tail(source, seq![':'] + x, seq![':'] + y);
    lemma_same_tail(seq![':'], x, y);
    lemma_iso_lacks(a.date, ':');
    lemma_iso_lacks(b.date, ':');
    text::lemma_cut_first(a.date.iso(), x1, b.date.iso(), y1, ':');
    text::lemma_cut_first(a.amount_text, x2, b.amount_text, y2, ':');
    lemma_balance_lacks_colon(a.balance_minor);
    lemma_balance_lacks_colon(b.balance_minor);
    text::lemma_cut_first(ab, x3, bb, y3, ':');
    lemma_decimal_lacks_colon(a.ordinal as int);
    lemma_decimal_lacks_colon(b.ordinal as int);
    text::lemma_cut_last(a.description, ao, b.description, bo, ':');
    decimal::lemma_decimal(a.ordinal as int);
    decimal::lemma_decimal(b.ordinal as int);
}

proof fn lemma_same_tail(front: Seq<char>, a: Seq<char>, b: Seq<char>)
    requires
        front + a == front + b,
    ensures
        a == b,
{
    assert((front + a).skip(front.len() as int) == a);
    assert((front + b).skip(front.len() as int) == b);
}

proof fn lemma_balance_lacks_colon(balance: Option<i64>)
    ensures
        lacks_colon(balance_text(balance)),
{
    if let Some(b) = balance {
        lemma_decimal_lacks_colon(b as int);
    }
}

/// Once numbered, two different rows that lack an identifier of the bank's
/// never share a key, though they agree on every field.
pub proof fn law_keys_tell_rows_apart(rows: Seq<RowView>, source: Seq<char>, i: int, j: int)
    requires
        all_dated(rows),
        0 <= i < j < rows.len(),
        lacks_colon(rows[i].amount_text),
        lacks_colon(rows[j].amount_text),
        !has_external_id(rows[i]),
        !has_external_id(rows[j]),
    ensures
        key_of(numbered(rows)[i], source) != key_of(numbered(rows)[j], source),
{
    let (a, b) = (numbered(rows)[i], numbered(rows)[j]);
    assert(rows[i].date.valid() && rows[j].date.valid());
    if key_of(a, source) == key_of(b, source) {
        lemma_key_parts(a, b, source);
        assert(signature(a) == signature(rows[i]));
        assert(signature(b) == signature(rows[j]));
        lemma_occurrences_grow(rows, i, j);
    }
}

/// A key with the bank's identifier differs from every key without one, and
/// two with identifiers agree exactly where the identifiers do.
pub proof fn law_identifier_keys(a: RowView, b: RowView, source: Seq<char>)
    requires
        a.date.valid(),
        b.date.valid(),
        has_external_id(a),
    ensures
        !has_external_id(b) ==> key_of(a, source) != key_of(b, source),
        has_external_id(b) ==> (key_of(a, source) == key_of(b, source) <==> a.external_id->0
            == b.external_id->0),
{
    reveal_strlit(":id:");
    let n = source.len() as int;
    let (x, y) = (key_of(a, source), key_of(b, source));
    assert(x[n + 1] == 'i');
    if has_external_id(b) {
        assert(x.skip(n + 4) == a.external_id->0);
        assert(y.skip(n + 4) == b.external_id->0);
    } else {
        crate::calendar::lemma_iso_characters(b.date);
        assert(y[n + 1] == b.date.iso()[0]);
    }
}

/// The key of a row does not depend on where in a file it stands, nor on rows
/// of other days.
pub proof fn law_keys_are_stable(
    rows: Seq<RowView>,
    i: int,
    other: Seq<RowView>,
    j: int,
    source: Seq<char>,
)
    requires
        all_dated(rows),
        all_dated(other),
        0 <= i < rows.len(),
        0 <= j < other.len(),
        rows[i] == other[j],
        rows.take(i).filter(on_day(rows[i].date)) == other.take(j).filter(on_day(rows[i].date)),
    ensures
        key_of(numbered(rows)[i], source) == key_of(numbered(other)[j], source),
{
    law_ordinals_count_within_a_day(rows, i, other, j);
}

// ---------------------------------------------------------------------------
// Laws: what every reader keeps
// ---------------------------------------------------------------------------

/// Whether every row has a day of the calendar, and an amount that can stand in
/// a key without being cut.
pub open spec fn well_formed(rows: Seq<RowView>) -> bool {
    forall|i: int|
        0 <= i < rows.len() ==> (#[trigger] rows[i]).date.valid() && lacks_colon(
            rows[i].amount_text,
        )
}

pub proof fn lemma_well_formed_dated(rows: Seq<RowView>)
    requires
        well_formed(rows),
    ensures
        all_dated(rows),
{
}

/// Whether no two rows that lack an identifier of the bank's share a key.
pub open spec fn keys_apart(rows: Seq<RowView>) -> bool {
    forall|i: int, j: int, source: Seq<char>|
        #![trigger key_of(rows[i], source), key_of(rows[j], source)]
        0 <= i < j < rows.len() && !has_external_id(rows[i]) && !has_external_id(rows[j])
            ==> key_of(rows[i], source) != key_of(rows[j], source)
}

pub proof fn lemma_numbered_keys_apart(rows: Seq<RowView>)
    requires
        well_formed(rows),
    ensures
        keys_apart(numbered(rows)),
        well_formed(numbered(rows)),
{
    let done = numbered(rows);
    assert forall|i: int| 0 <= i < done.len() implies (#[trigger] done[i]).date.valid()
        && lacks_colon(done[i].amount_text) by {
        assert(rows[i].date.valid());
    }
    assert forall|i: int, j: int, source: Seq<char>|
        #![trigger key_of(done[i], source), key_of(done[j], source)]
        0 <= i < j < done.len() && !has_external_id(done[i]) && !has_external_id(
            done[j],
        ) implies key_of(done[i], source) != key_of(done[j], source) by {
        assert(rows[i].date.valid() && rows[j].date.valid());
        law_keys_tell_rows_apart(rows, source, i, j);
    }
}

/// Rows without balances are never reported as broken, and never as verified
/// either.
pub proof fn law_no_balances_no_check(opening: Option<i64>, rows: Seq<RowView>)
    requires
        !states_balance(rows),
    ensures
        breaks(opening, rows).len() == 0,
{
    law_whole_chain(opening, rows);
    assert forall|i: int| 0 <= i < rows.len() implies follows(
        balance_before(opening, rows, i),
        #[trigger] rows[i],
    ) by {
        assert(rows[i].balance_minor is None);
    }
}

/// The dates that dated rows span are days of the calendar.
pub proof fn lemma_span_valid(rows: Seq<RowView>)
    requires
        all_dated(rows),
    ensures
        span(rows) matches Some((from, to)) ==> from.valid() && to.valid(),
{
    if rows.len() > 0 {
        law_span_covers(rows);
    }
}

// ---------------------------------------------------------------------------
// Laws: what reading makes of rows
// ---------------------------------------------------------------------------

/// Balances that are given stay. Otherwise the opening balance and the amount of
/// the first row come to the balance of that row, the closing balance is that of
/// the last row, and the first row never breaks the chain. Nothing else changes.
pub proof fn law_balances_frame_the_rows(account: AccountView)
    ensures
        ({
            let done = balanced(account);
            let rows = account.rows;
            &&& done == AccountView {
                opening_balance_minor: done.opening_balance_minor,
                closing_balance_minor: done.closing_balance_minor,
                ..account
            }
            &&& account.opening_balance_minor is Some ==> done.opening_balance_minor
                == account.opening_balance_minor
            &&& account.closing_balance_minor is Some ==> done.closing_balance_minor
                == account.closing_balance_minor
            &&& account.opening_balance_minor is None && rows.len() > 0 ==> match (
                done.opening_balance_minor,
                rows[0].balance_minor,
            ) {
                (Some(opening), Some(stated)) => money::wrapped(opening + rows[0].amount_minor)
                    == stated,
                (None, None) => true,
                _ => false,
            }
            &&& account.closing_balance_minor is None && rows.len() > 0
                ==> done.closing_balance_minor == rows[rows.len() - 1].balance_minor
            &&& rows.len() == 0 ==> done == account
            &&& account.opening_balance_minor is None && rows.len() > 0 ==> follows(
                done.opening_balance_minor,
                rows[0],
            )
        }),
{
}

/// Where the chain is whole and every row states its balance, the opening balance
/// and all the amounts come to the closing balance.
pub proof fn law_opening_and_amounts_come_to_closing(account: AccountView)
    requires
        account.rows.len() > 0,
        account.opening_balance_minor is None,
        account.closing_balance_minor is None,
        all_balanced(account.rows),
        breaks(balanced(account).opening_balance_minor, account.rows).len() == 0,
    ensures
        (balanced(account).opening_balance_minor matches Some(opening) && balanced(
            account,
        ).closing_balance_minor matches Some(closing) && closing == money::wrapped(
            opening + total(account.rows),
        )),
{
    let rows = account.rows;
    let n = rows.len() as int;
    assert(rows[0].balance_minor is Some);
    assert(rows[n - 1].balance_minor is Some);
    let opening = balanced(account).opening_balance_minor->0;
    law_whole_chain_sums(opening, rows, n - 1);
    assert(rows.take(n) == rows);
}

/// Where every balance is the opening one plus all the amounts up to its row, the
/// chain is whole.
pub proof fn law_running_sums_are_a_chain(opening: i64, rows: Seq<RowView>)
    requires
        forall|i: int|
            0 <= i < rows.len() ==> (#[trigger] rows[i]).balance_minor == Some(
                money::wrapped(opening + total(rows.take(i + 1))) as i64,
            ),
    ensures
        breaks(Some(opening), rows).len() == 0,
{
    assert forall|i: int| 0 <= i < rows.len() implies follows(
        balance_before(Some(opening), rows, i),
        #[trigger] rows[i],
    ) by {
        let now = rows.take(i + 1);
        assert(now.drop_last() == rows.take(i));
        assert(now.last() == rows[i]);
        if i > 0 {
            assert(rows[i - 1].balance_minor is Some);
            money::lemma_wrapped_sum(opening + total(rows.take(i)), rows[i].amount_minor as int);
        } else {
            assert(total(rows.take(0)) == 0);
        }
    }
    law_whole_chain(Some(opening), rows);
}

/// The line on a break, of its parts.
pub open spec fn break_parts(
    day: Seq<char>,
    description: Seq<char>,
    expected: Seq<char>,
    stated: Seq<char>,
) -> Seq<char> {
    day + seq![' '] + description + ": expected "@ + expected + ", file says "@ + stated
}

/// There is a line on every row whose balance does not follow, in order, which says
/// the day and the description, the balance that was expected, which is the one
/// before and the amount, and the one that the file states.
pub proof fn law_breaks_say_what_is_wrong(before: i64, row: RowView, rest: Seq<RowView>)
    requires
        row.balance_minor matches Some(stated) && stated > i64::MIN,
        money::wrapped(before + row.amount_minor) > i64::MIN,
        row.balance_minor != Some(money::wrapped(before + row.amount_minor) as i64),
    ensures
        breaks(Some(before), seq![row] + rest).len() == 1 + breaks(row.balance_minor, rest).len(),
        breaks(Some(before), seq![row] + rest).drop_first() == breaks(row.balance_minor, rest),
        exists|e: Seq<char>, s: Seq<char>|
            breaks(Some(before), seq![row] + rest)[0] == #[trigger] break_parts(
                row.date.iso(),
                row.description,
                e,
                s,
            ) && money::minor_of(e, 2) == Ok::<int, money::MoneyFault>(
                money::wrapped(before + row.amount_minor),
            ) && money::minor_of(s, 2) == Ok::<int, money::MoneyFault>(row.balance_minor->0 as int),
{
    let all = seq![row] + rest;
    assert(all.drop_first() == rest);
    assert(all[0] == row);
    let expected = money::wrapped(before + row.amount_minor) as i64;
    let stated = row.balance_minor->0;
    money::law_two_places_round_trip(expected);
    money::law_two_places_round_trip(stated);
    let after = breaks(Some(before), all);
    assert(after == seq![break_line(before as int, row)] + breaks(row.balance_minor, rest));
    assert(after.drop_first() == breaks(row.balance_minor, rest));
    assert(after[0] == break_parts(
        row.date.iso(),
        row.description,
        decimal::hundredths(expected as int),
        decimal::hundredths(stated as int),
    ));
}

/// Whether no row is older than one before it.
pub open spec fn oldest_first(rows: Seq<RowView>) -> bool {
    forall|i: int, j: int|
        0 <= i < j < rows.len() ==> !(#[trigger] rows[j]).date.precedes((#[trigger] rows[i]).date)
}

/// Whether no row is newer than one before it.
pub open spec fn newest_first(rows: Seq<RowView>) -> bool {
    forall|i: int, j: int|
        0 <= i < j < rows.len() ==> !(#[trigger] rows[i]).date.precedes((#[trigger] rows[j]).date)
}

/// Rows that come oldest first, or newest first, come out oldest first, with those
/// of one day in the order or in the reverse order in which they stood: no row is
/// lost, and nothing in it changes.
pub proof fn law_rows_come_out_oldest_first(rows: Seq<RowView>)
    ensures
        oldest_first(rows) ==> chronological(rows) == rows,
        newest_first(rows) ==> oldest_first(chronological(rows)),
        chronological(rows) == rows || chronological(rows) == rows.reverse(),
        chronological(rows).len() == rows.len(),
        rows.len() > 0 ==> !chronological(rows).last().date.precedes(chronological(rows)[0].date),
{
    if rows.len() > 0 {
        let (first, last) = (rows[0], rows[rows.len() - 1]);
        if oldest_first(rows) && rows.len() > 1 {
            assert(!last.date.precedes(first.date));
        }
        if newest_first(rows) {
            let back = rows.reverse();
            assert forall|i: int, j: int| 0 <= i < j < back.len() implies !(
            #[trigger] back[j]).date.precedes((#[trigger] back[i]).date) by {
                let (a, b) = (rows.len() - 1 - j, rows.len() - 1 - i);
                assert(back[j] == rows[a] && back[i] == rows[b]);
                assert(!rows[a].date.precedes(rows[b].date));
            }
            if !turned(rows) && rows.len() > 1 {
                assert forall|i: int, j: int| 0 <= i < j < rows.len() implies !(
                #[trigger] rows[j]).date.precedes((#[trigger] rows[i]).date) by {
                    assert(i > 0 ==> !first.date.precedes(rows[i].date));
                    assert(j < rows.len() - 1 ==> !rows[j].date.precedes(last.date));
                }
            }
        }
    }
}

/// Numbering changes nothing in a row but its number.
pub proof fn law_numbering_changes_only_numbers(rows: Seq<RowView>, i: int)
    requires
        0 <= i < rows.len(),
    ensures
        numbered(rows).len() == rows.len(),
        (RowView { ordinal: rows[i].ordinal, ..numbered(rows)[i] }) == rows[i],
        numbered(rows)[i].ordinal == rows.take(i).filter(
            |other: RowView| signature(other) == signature(rows[i]),
        ).len(),
{
    lemma_occurrences_filter(rows, i, signature(rows[i]));
}

/// An ordinal is a number of rows.
pub proof fn lemma_occurrences_filter(rows: Seq<RowView>, n: int, s: Seq<char>)
    requires
        0 <= n <= rows.len(),
    ensures
        occurrences(rows, n, s) == rows.take(n).filter(|other: RowView| signature(other) == s).len(),
    decreases n,
{
    reveal(Seq::filter);
    if n > 0 {
        lemma_occurrences_filter(rows, n - 1, s);
        assert(rows.take(n).drop_last() == rows.take(n - 1));
        assert(rows.take(n).last() == rows[n - 1]);
    } else {
        assert(rows.take(0).len() == 0);
    }
}

/// A key that is made of a row says its day, its amount, its balance, its
/// description and its number: rows of the same key agree on all of them. Rows with
/// an identifier of the bank's, and descriptions that hold a colon, are left out.
pub proof fn law_keys_say_what_they_are_made_of(a: RowView, b: RowView, source: Seq<char>)
    requires
        !has_external_id(a),
        !has_external_id(b),
        a.date.valid(),
        b.date.valid(),
        lacks_colon(a.amount_text),
        lacks_colon(b.amount_text),
        lacks_colon(a.description),
        lacks_colon(b.description),
        key_of(a, source) == key_of(b, source),
    ensures
        a.date.iso() == b.date.iso(),
        a.amount_text == b.amount_text,
        balance_text(a.balance_minor) == balance_text(b.balance_minor),
        a.description == b.description,
        a.ordinal == b.ordinal,
{
    let colon = seq![':'];
    let (a1, b1) = (source + colon + a.date.iso(), source + colon + b.date.iso());
    let (a2, b2) = (a1 + colon + a.amount_text, b1 + colon + b.amount_text);
    let (a3, b3) = (
        a2 + colon + balance_text(a.balance_minor),
        b2 + colon + balance_text(b.balance_minor),
    );
    let (a4, b4) = (a3 + colon + a.description, b3 + colon + b.description);
    let (m, n) = (decimal::decimal(a.ordinal as int), decimal::decimal(b.ordinal as int));
    decimal::lemma_decimal(a.ordinal as int);
    decimal::lemma_decimal(b.ordinal as int);
    lemma_decimal_lacks_colon(a.ordinal as int);
    lemma_decimal_lacks_colon(b.ordinal as int);
    lemma_balance_lacks_colon(a.balance_minor);
    lemma_balance_lacks_colon(b.balance_minor);
    text::lemma_cut_last(a4, m, b4, n, ':');
    text::lemma_cut_last(a3, a.description, b3, b.description, ':');
    text::lemma_cut_last(
        a2,
        balance_text(a.balance_minor),
        b2,
        balance_text(b.balance_minor),
        ':',
    );
    text::lemma_cut_last(a1, a.amount_text, b1, b.amount_text, ':');
    let k = source.len() as int + 1;
    assert(a1.skip(k) == a.date.iso());
    assert(b1.skip(k) == b.date.iso());
}

} // verus!
