//! Revolut consolidated statement CSV importer.
//!
//! The file is not a flat table. A summaries block per currency wallet comes
//! first, then "Current Accounts Transaction Statements" holds one table per
//! wallet. Table shape differs between wallets: the base-currency wallet gets
//! single columns, the others get every money column twice (native, then
//! converted). Column positions are resolved from each table's own header row.
//!
//! Import is replace-by-range. The statement is authoritative for its period,
//! and merging is unsafe: Revolut emits rows identical on date, description,
//! amount AND running balance, because an intervening credit can restore the
//! balance between two identical debits.
use crate::calendar;
use crate::calendar::{parse_by, Date};
use crate::decimal;
use crate::decimal::{push_decimal, push_signed};
use crate::importer;
use crate::importer::{direction, json_fields, optional_text, StoredRow, WritePlan};
use crate::json;
use crate::json::{write_object, Json};
use crate::money;
use crate::money::{scale, split_money, MoneyError};
use crate::statements;
use crate::statements::revolut;
use crate::statements::revolut::{filler, find_marker, wallet_currency, Columns};
use crate::statements::rows;
use crate::statements::rows::{
    chain_breaks, inferred, span_of, AccountType, AccountView, LedgerRow, RowView,
};
use crate::statements::table;
use crate::statements::table::{cell, or_blank, trimmed_cell};
use crate::statements::{currency_exponent, date_text, read_csv};
use crate::text;
use crate::text::{owned, same};
use vstd::hash_map::StringHashMap;
use vstd::prelude::*;

verus! {

/// The value stored in transactions.source.
pub const SOURCE: &'static str = "revolut_csv";

// ---------------------------------------------------------------------------
// Money and dates
// ---------------------------------------------------------------------------

/// Decimal string to signed minor units, without floats.
pub fn to_minor(amount: &str, currency: &str) -> (r: Result<i64, MoneyError>)
    ensures
        money::reads_as(r, amount@, statements::places(currency@)),
{
    scale(amount, currency_exponent(currency))
}

/// The amount and the currency of a money text that names its currency.
pub open spec fn money_text(raw: Seq<char>) -> Option<(Seq<char>, Seq<char>)> {
    match money::money_in(raw, false) {
        Some((amount, Some(currency))) => Some((amount, currency)),
        _ => None,
    }
}

/// Handles all three formats Revolut emits in one file: symbol-prefixed
/// (`-£5.00`, `€0.00`), code-suffixed (`0.00 PLN`), and thousands separators.
pub fn parse_money(raw: &str) -> (r: Option<(String, String)>)
    ensures
        statements::pair_view(r) == money_text(raw@),
{
    match split_money(raw, false) {
        Some((amount, Some(currency))) => Some((amount, currency)),
        _ => None,
    }
}

/// Minor units, amount and currency of a money text that names its currency.
pub open spec fn minor_in(raw: Seq<char>) -> Option<(int, Seq<char>, Seq<char>)> {
    match money_text(raw) {
        Some((amount, currency)) => match money::minor_of(amount, statements::places(currency)) {
            Ok(minor) => Some((minor, amount, currency)),
            Err(_) => None,
        },
        None => None,
    }
}

fn money_minor(raw: &str) -> (r: Option<(i64, String, String)>)
    ensures
        statements::minor_view(r) == minor_in(raw@),
        r matches Some((_, amount, _)) ==> rows::lacks_colon(amount@),
{
    match parse_money(raw) {
        Some((amount, currency)) => {
            assert forall|i: int| 0 <= i < amount@.len() implies amount@[i] != ':' by {
                money::lemma_amount_characters(raw@, false, i);
            }
            match to_minor(amount.as_str(), currency.as_str()) {
                Ok(minor) => Some((minor, amount, currency)),
                Err(_) => None,
            }
        },
        None => None,
    }
}

/// The money in a cell.
pub open spec fn money_of(row: Seq<Seq<char>>, column: Option<usize>) -> Option<
    (int, Seq<char>, Seq<char>),
> {
    match table::cell_in(row, column) {
        Some(c) => minor_in(c),
        None => None,
    }
}

fn money_cell(row: &[String], column: Option<usize>) -> (r: Option<(i64, String, String)>)
    ensures
        statements::minor_view(r) == money_of(text::views(row@), column),
        r matches Some((_, amount, _)) ==> rows::lacks_colon(amount@),
{
    match cell(row, column) {
        Some(c) => money_minor(c),
        None => None,
    }
}

/// The minor units of the money in a cell.
pub open spec fn units_of(row: Seq<Seq<char>>, column: Option<usize>) -> Option<i64> {
    match money_of(row, column) {
        Some((m, _, _)) => Some(m as i64),
        None => None,
    }
}

fn units_cell(row: &[String], column: Option<usize>) -> (r: Option<i64>)
    ensures
        r == units_of(text::views(row@), column),
{
    match money_cell(row, column) {
        Some((m, _, _)) => Some(m),
        None => None,
    }
}

/// The date of a Revolut cell, such as `1 Jul 2026`: the day is not padded.
pub open spec fn revolut_date(raw: Seq<char>) -> Option<Date> {
    let t = statements::september(text::unquoted(raw));
    statements::or_date(calendar::date_by(t, "%d %b %Y"@), calendar::date_by(t, "%e %b %Y"@))
}

pub fn parse_date(raw: &str) -> (r: Option<Date>)
    ensures
        r == revolut_date(raw@),
        r matches Some(d) ==> d.valid(),
{
    let t = date_text(raw);
    match parse_by(t.as_str(), "%d %b %Y") {
        Some(d) => Some(d),
        None => parse_by(t.as_str(), "%e %b %Y"),
    }
}

/// The date in a cell.
pub open spec fn date_of(row: Seq<Seq<char>>, column: usize) -> Option<Date> {
    match table::cell_in(row, Some(column)) {
        Some(c) => revolut_date(c),
        None => None,
    }
}

fn date_cell(row: &[String], column: usize) -> (r: Option<Date>)
    ensures
        r == date_of(text::views(row@), column),
        r matches Some(d) ==> d.valid(),
{
    match cell(row, Some(column)) {
        Some(c) => parse_date(c),
        None => None,
    }
}

// ---------------------------------------------------------------------------
// Parsed shapes
// ---------------------------------------------------------------------------

#[derive(Debug)]
pub struct ParsedRow {
    pub date: Date,
    pub description: String,
    pub category: String,
    pub amount_text: String,
    pub amount_minor: i64,
    pub currency: String,
    pub base_amount_minor: Option<i64>,
    pub base_currency: Option<String>,
    pub balance_minor: Option<i64>,
    pub fee_minor: i64,
    /// Occurrence index among rows identical on date, amount, balance and
    /// description.
    ///
    /// Counted this way, not by file position, so the key is identical whether
    /// the row arrives in a monthly export or a lifetime one. Position-based
    /// ordinals shift when the file's date range changes, which orphans every
    /// manual category.
    pub ordinal: usize,
}

impl View for ParsedRow {
    type V = RowView;

    open spec fn view(&self) -> RowView {
        RowView {
            date: self.date,
            description: self.description@,
            category: Some(self.category@),
            reference: None,
            external_id: None,
            details: None,
            amount_text: self.amount_text@,
            amount_minor: self.amount_minor,
            currency: self.currency@,
            base_amount_minor: self.base_amount_minor,
            base_currency: text::opt(self.base_currency),
            balance_minor: self.balance_minor,
            fee_minor: self.fee_minor,
            is_internal: self.category@ == "Exchange"@,
            is_pending: false,
            ordinal: self.ordinal as nat,
        }
    }
}

/// A list of rows as plain values.
pub open spec fn row_views(rows: Seq<ParsedRow>) -> Seq<RowView> {
    Seq::new(rows.len(), |i: int| rows[i]@)
}

/// A row as its key shows it: a missing balance stands as zero.
pub open spec fn keyed(row: RowView) -> RowView {
    RowView {
        balance_minor: Some(
            match row.balance_minor {
                Some(b) => b,
                None => 0,
            },
        ),
        ..row
    }
}

pub open spec fn all_keyed(rows: Seq<RowView>) -> Seq<RowView> {
    Seq::new(rows.len(), |i: int| keyed(rows[i]))
}

impl ParsedRow {
    fn shown_balance(&self) -> (r: i64)
        ensures
            keyed(self@).balance_minor == Some(r),
    {
        match self.balance_minor {
            Some(b) => b,
            None => 0,
        }
    }

    pub fn row_key(&self) -> (r: String)
        requires
            self.date.valid(),
        ensures
            r@ == rows::key_of(keyed(self@), SOURCE@),
    {
        let mut key = owned(SOURCE);
        key.push(':');
        self.date.push_iso(&mut key);
        key.push(':');
        key.append(self.amount_text.as_str());
        key.push(':');
        push_signed(&mut key, self.shown_balance());
        key.push(':');
        key.append(self.description.as_str());
        key.push(':');
        push_decimal(&mut key, self.ordinal as u64);
        assert(key@ == rows::key_of(keyed(self@), SOURCE@));
        key
    }

    fn signature(&self) -> (r: String)
        requires
            self.date.valid(),
        ensures
            r@ == rows::signature(keyed(self@)),
    {
        let mut s = self.date.to_iso();
        s.push('|');
        s.append(self.amount_text.as_str());
        s.push('|');
        push_signed(&mut s, self.shown_balance());
        s.push('|');
        s.append(self.description.as_str());
        assert(s@ == rows::signature(keyed(self@)));
        s
    }
}

impl LedgerRow for ParsedRow {
    open spec fn plain(&self) -> RowView {
        self@
    }

    fn day(&self) -> (r: Date) {
        self.date
    }

    fn what(&self) -> (r: &str) {
        self.description.as_str()
    }

    fn amount(&self) -> (r: i64) {
        self.amount_minor
    }

    fn balance(&self) -> (r: Option<i64>) {
        self.balance_minor
    }
}

#[derive(Debug)]
pub struct ParsedAccount {
    pub currency: String,
    pub rows: Vec<ParsedRow>,
    pub opening_balance_minor: Option<i64>,
    pub closing_balance_minor: Option<i64>,
}

impl Default for ParsedAccount {
    fn default() -> (r: ParsedAccount)
        ensures
            r.currency@ == Seq::<char>::empty(),
            r.rows@ == Seq::<ParsedRow>::empty(),
            r.opening_balance_minor is None,
            r.closing_balance_minor is None,
    {
        ParsedAccount {
            currency: String::new(),
            rows: Vec::new(),
            opening_balance_minor: None,
            closing_balance_minor: None,
        }
    }
}

impl View for ParsedAccount {
    type V = AccountView;

    /// The account is the wallet of its currency.
    open spec fn view(&self) -> AccountView {
        AccountView {
            rows: row_views(self.rows@),
            opening_balance_minor: self.opening_balance_minor,
            closing_balance_minor: self.closing_balance_minor,
            ..revolut::wallet_account(self.currency@)
        }
    }
}

#[derive(Debug)]
pub struct ParsedStatement {
    pub accounts: Vec<ParsedAccount>,
}

impl Default for ParsedStatement {
    fn default() -> (r: ParsedStatement)
        ensures
            r.accounts@ == Seq::<ParsedAccount>::empty(),
    {
        ParsedStatement { accounts: Vec::new() }
    }
}

/// A list of accounts as plain values.
pub open spec fn account_views(accounts: Seq<ParsedAccount>) -> Seq<AccountView> {
    Seq::new(accounts.len(), |i: int| accounts[i]@)
}

// ---------------------------------------------------------------------------
// Rows
// ---------------------------------------------------------------------------

/// The transaction in a row of a wallet's table, not yet numbered.
pub open spec fn row_in(cols: Columns, row: Seq<Seq<char>>) -> Option<RowView> {
    match (date_of(row, cols.date), money_of(row, Some(cols.amount))) {
        (Some(date), Some((minor, amount_text, currency))) => {
            let base = money_of(row, cols.amount_base);
            let category = table::or_empty(table::trimmed_in(row, Some(cols.category)));
            Some(
                RowView {
                    date,
                    description: table::or_empty(table::trimmed_in(row, Some(cols.description))),
                    category: Some(category),
                    reference: None,
                    external_id: None,
                    details: None,
                    amount_text,
                    amount_minor: minor as i64,
                    currency,
                    base_amount_minor: match base {
                        Some((m, _, _)) => Some(m as i64),
                        None => None,
                    },
                    base_currency: match base {
                        Some((_, _, c)) => Some(c),
                        None => None,
                    },
                    balance_minor: units_of(row, cols.balance),
                    fee_minor: match units_of(row, cols.fee) {
                        Some(m) => m,
                        None => 0,
                    },
                    is_internal: category == "Exchange"@,
                    is_pending: false,
                    ordinal: 0,
                },
            )
        },
        _ => None,
    }
}

fn read_row(cols: &Columns, row: &[String]) -> (r: Option<ParsedRow>)
    ensures
        match r {
            Some(p) => row_in(*cols, text::views(row@)) == Some(p@) && p.date.valid()
                && rows::lacks_colon(p.amount_text@),
            None => row_in(*cols, text::views(row@)) is None,
        },
{
    let date = match date_cell(row, cols.date) {
        Some(d) => d,
        None => {
            return None;
        },
    };
    let (amount_minor, amount_text, currency) = match money_cell(row, Some(cols.amount)) {
        Some(m) => m,
        None => {
            return None;
        },
    };
    let (base_amount_minor, base_currency) = match money_cell(row, cols.amount_base) {
        Some((m, _, c)) => (Some(m), Some(c)),
        None => (None, None),
    };
    let fee_minor = match units_cell(row, cols.fee) {
        Some(m) => m,
        None => 0,
    };
    let parsed = ParsedRow {
        date,
        description: or_blank(trimmed_cell(row, Some(cols.description))),
        category: or_blank(trimmed_cell(row, Some(cols.category))),
        amount_text,
        amount_minor,
        currency,
        base_amount_minor,
        base_currency,
        balance_minor: units_cell(row, cols.balance),
        fee_minor,
        ordinal: 0,
    };
    assert(row_in(*cols, text::views(row@)) == Some(parsed@));
    Some(parsed)
}

/// The number of a row among the earlier ones of its account that look the
/// same.
pub open spec fn ordinal_of(earlier: Seq<RowView>, row: RowView) -> nat {
    rows::occurrences(all_keyed(earlier), earlier.len() as int, rows::signature(keyed(row)))
}

// ---------------------------------------------------------------------------
// The walk through the file
// ---------------------------------------------------------------------------

/// The account with one more row of its table. What is no transaction is passed
/// over.
pub open spec fn with_row(account: AccountView, cols: Columns, row: Seq<Seq<char>>) -> AccountView {
    match row_in(cols, row) {
        Some(r) => AccountView {
            rows: account.rows.push(RowView { ordinal: ordinal_of(account.rows, r), ..r }),
            ..account
        },
        None => account,
    }
}

/// What has been read after one more row.
pub open spec fn step(walk: revolut::Walk, row: Seq<Seq<char>>) -> revolut::Walk {
    let first = revolut::first_cell(row);
    if revolut::wallet(first) is Some {
        revolut::Walk {
            done: revolut::wallets(walk),
            current: Some(revolut::wallet_account(revolut::wallet(first)->0)),
            columns: None,
            ..walk
        }
    } else if first == "Date"@ {
        revolut::Walk { columns: revolut::columns_in(row), ..walk }
    } else if revolut::is_filler(first) {
        walk
    } else {
        match (walk.current, walk.columns) {
            (Some(account), Some(cols)) => revolut::Walk {
                current: Some(with_row(account, cols, row)),
                ..walk
            },
            _ => walk,
        }
    }
}

/// What has been read after all the given rows.
pub open spec fn walked(records: Seq<Seq<Seq<char>>>) -> revolut::Walk
    decreases records.len(),
{
    if records.len() == 0 {
        revolut::Walk { done: seq![], current: None, columns: None, stray: seq![] }
    } else {
        step(walked(records.drop_last()), records.last())
    }
}

/// The accounts that hold any row, with the balances that their rows give.
pub open spec fn kept(accounts: Seq<AccountView>) -> Seq<AccountView>
    decreases accounts.len(),
{
    if accounts.len() == 0 {
        seq![]
    } else {
        let last = accounts.last();
        if last.rows.len() > 0 {
            kept(accounts.drop_last()).push(rows::balanced(last))
        } else {
            kept(accounts.drop_last())
        }
    }
}

/// Whether the rows are well-formed, and numbered as they stand.
pub open spec fn in_order(rows: Seq<RowView>) -> bool {
    &&& rows::well_formed(rows)
    &&& rows::numbered(all_keyed(rows)) == all_keyed(rows)
    &&& forall|i: int| 0 <= i < rows.len() ==> !rows::has_external_id(#[trigger] rows[i])
}

proof fn lemma_push_in_order(rows: Seq<RowView>, row: RowView)
    requires
        in_order(rows),
        row.date.valid(),
        rows::lacks_colon(row.amount_text),
        !rows::has_external_id(row),
        row.ordinal == ordinal_of(rows, row),
    ensures
        in_order(rows.push(row)),
        all_keyed(rows.push(row)) == all_keyed(rows).push(keyed(row)),
{
    let n = rows.len() as int;
    let (old_keyed, new_keyed) = (all_keyed(rows), all_keyed(rows.push(row)));
    assert(new_keyed == old_keyed.push(keyed(row)));
    let more = rows.push(row);
    assert forall|i: int| 0 <= i < more.len() implies (#[trigger] more[i]).date.valid()
        && rows::lacks_colon(more[i].amount_text) by {
        if i < n {
            assert(more[i] == rows[i]);
        }
    }
    assert forall|i: int| 0 <= i < more.len() implies !rows::has_external_id(#[trigger] more[i]) by {
        if i < n {
            assert(more[i] == rows[i]);
        }
    }
    assert forall|i: int| 0 <= i < new_keyed.len() implies #[trigger] rows::numbered(new_keyed)[i]
        == new_keyed[i] by {
        let s = rows::signature(new_keyed[i]);
        if i < n {
            assert(new_keyed[i] == old_keyed[i]);
            rows::lemma_occurrences_front(old_keyed, new_keyed, i, s);
            assert(rows::numbered(old_keyed)[i] == old_keyed[i]);
        } else {
            rows::lemma_occurrences_front(old_keyed, new_keyed, n, s);
        }
    }
    assert(rows::numbered(new_keyed) == new_keyed);
}

/// Whether a table of counts tells, for every signature, how many of some rows
/// have it.
spec fn counts(seen: Map<Seq<char>, usize>, rows: Seq<RowView>) -> bool {
    forall|s: Seq<char>|
        #![trigger rows::occurrences(all_keyed(rows), rows.len() as int, s)]
        rows::occurrences(all_keyed(rows), rows.len() as int, s) == (if seen.contains_key(s) {
            seen[s] as nat
        } else {
            0nat
        })
}

/// Numbers a row and appends it.
fn add_row(account: &mut ParsedAccount, seen: &mut StringHashMap<usize>, row: ParsedRow)
    requires
        in_order(old(account)@.rows),
        counts(old(seen)@, old(account)@.rows),
        old(account)@.rows.len() < usize::MAX,
        row.date.valid(),
        rows::lacks_colon(row.amount_text@),
    ensures
        final(account)@ == (AccountView {
            rows: old(account)@.rows.push(
                RowView { ordinal: ordinal_of(old(account)@.rows, row@), ..row@ },
            ),
            ..old(account)@
        }),
        in_order(final(account)@.rows),
        counts(final(seen)@, final(account)@.rows),
{
    let ghost before = account@.rows;
    let s = row.signature();
    let count: usize = match seen.get(s.as_str()) {
        Some(n) => *n,
        None => 0,
    };
    assert(rows::occurrences(all_keyed(before), before.len() as int, s@) == count);
    proof {
        rows::lemma_occurrences_bound(all_keyed(before), before.len() as int, s@);
    }
    let mut numbered = row;
    numbered.ordinal = count;
    let ghost view = numbered@;
    let ghost sig = s@;
    assert(view == RowView { ordinal: ordinal_of(before, row@), ..row@ });
    assert(rows::signature(keyed(view)) == sig);
    proof {
        lemma_push_in_order(before, view);
    }
    seen.insert(s, count + 1);
    account.rows.push(numbered);
    assert(account@.rows == before.push(view));
    assert forall|t: Seq<char>|
        #![trigger rows::occurrences(all_keyed(account@.rows), account@.rows.len() as int, t)]
        rows::occurrences(all_keyed(account@.rows), account@.rows.len() as int, t) == (
        if seen@.contains_key(t) {
            seen@[t] as nat
        } else {
            0nat
        }) by {
        let n = before.len() as int;
        rows::lemma_occurrences_front(all_keyed(before), all_keyed(account@.rows), n, t);
        assert(rows::occurrences(all_keyed(before), n, t) >= 0);
        assert(all_keyed(account@.rows)[n] == keyed(view));
    }
}

/// Whether the rows of every account are well-formed and numbered.
pub open spec fn all_in_order(accounts: Seq<AccountView>) -> bool {
    forall|i: int| 0 <= i < accounts.len() ==> in_order((#[trigger] accounts[i]).rows)
}

fn keep_filled(accounts: &mut Vec<ParsedAccount>)
    requires
        all_in_order(account_views(old(accounts)@)),
    ensures
        account_views(final(accounts)@) == kept(account_views(old(accounts)@)),
        all_in_order(account_views(final(accounts)@)),
{
    let ghost all = account_views(accounts@);
    let ghost mut done: int = 0;
    let mut i: usize = 0;
    assert(all.take(0) == Seq::<AccountView>::empty());
    while i < accounts.len()
        invariant
            i <= done,
            i <= accounts@.len(),
            done - i == all.len() - accounts@.len(),
            all_in_order(all),
            all_in_order(account_views(accounts@)),
            account_views(accounts@).take(i as int) == kept(all.take(done)),
            forall|j: int|
                i <= j < accounts@.len() ==> (#[trigger] accounts@[j])@ == all[j - i + done],
        decreases accounts@.len() - i,
    {
        let ghost views = account_views(accounts@);
        assert(views[i as int] == all[done]);
        assert(all.take(done + 1).drop_last() == all.take(done));
        assert(all.take(done + 1).last() == all[done]);
        if accounts[i].rows.len() == 0 {
            accounts.remove(i);
            assert(account_views(accounts@) == views.remove(i as int));
            assert(account_views(accounts@).take(i as int) == views.take(i as int));
        } else {
            accounts[i].infer_balances();
            assert(account_views(accounts@) == views.update(
                i as int,
                rows::balanced(all[done]),
            ));
            assert(account_views(accounts@).take(i + 1) == views.take(i as int).push(
                rows::balanced(all[done]),
            ));
            i = i + 1;
        }
        proof {
            done = done + 1;
        }
    }
    assert(all.take(done) == all);
    assert(account_views(accounts@).take(i as int) == account_views(accounts@));
}

impl ParsedAccount {
    fn new(currency: String) -> (r: ParsedAccount)
        ensures
            r@ == revolut::wallet_account(currency@),
    {
        let r = ParsedAccount {
            currency,
            rows: Vec::new(),
            opening_balance_minor: None,
            closing_balance_minor: None,
        };
        assert(r@.rows == Seq::<RowView>::empty());
        r
    }

    /// The balances that the rows give, where none are set.
    fn infer_balances(&mut self)
        ensures
            final(self)@ == rows::balanced(old(self)@),
    {
        let (opening, closing) = inferred(
            self.opening_balance_minor,
            self.closing_balance_minor,
            &self.rows,
        );
        assert(rows::plain_rows(self.rows@) == self@.rows);
        self.opening_balance_minor = opening;
        self.closing_balance_minor = closing;
        assert(self@ == rows::balanced(old(self)@));
    }
}

pub enum CsvImportError {
    /// The bytes are no CSV text.
    Unreadable(csv::Error),
    /// There is no section of transactions, so this is no Revolut consolidated
    /// statement.
    NoSection,
}

spec fn current_view(current: Option<ParsedAccount>) -> Option<AccountView> {
    match current {
        Some(a) => Some(a@),
        None => None,
    }
}

/// What the records of a file come to.
pub open spec fn read_as(
    r: Result<ParsedStatement, CsvImportError>,
    records: Seq<Seq<Seq<char>>>,
) -> bool {
    match revolut::marker_place(records) {
        Some(k) => r matches Ok(statement) && account_views(statement.accounts@) == kept(
            revolut::wallets(walked(records.skip(k + 1))),
        ) && all_in_order(account_views(statement.accounts@)),
        None => r matches Err(e) && e is NoSection,
    }
}

/// The accounts in the records of a file.
pub fn parse_records(records: &[Vec<String>]) -> (r: Result<ParsedStatement, CsvImportError>)
    ensures
        read_as(r, table::cells(records@)),
{
    let count: usize = records.len();
    let start: usize = match find_marker(records) {
        Some(k) => k + 1,
        None => {
            return Err(CsvImportError::NoSection);
        },
    };
    let ghost all = table::cells(records@);
    let ghost body = all.skip(start as int);
    let mut accounts: Vec<ParsedAccount> = Vec::new();
    let mut current: Option<ParsedAccount> = None;
    let mut columns: Option<Columns> = None;
    let mut seen: StringHashMap<usize> = StringHashMap::new();
    let mut i: usize = start;
    assert(body.take(0) == Seq::<Seq<Seq<char>>>::empty());
    assert(account_views(accounts@) == Seq::<AccountView>::empty());
    while i < count
        invariant
            count == records@.len(),
            start <= i <= count,
            all == table::cells(records@),
            body == all.skip(start as int),
            walked(body.take(i - start)) == (revolut::Walk {
                done: account_views(accounts@),
                current: current_view(current),
                columns,
                stray: seq![],
            }),
            all_in_order(account_views(accounts@)),
            current matches Some(a) ==> in_order(a@.rows) && counts(seen@, a@.rows)
                && a@.rows.len() <= i,
        decreases count - i,
    {
        let row = records[i].as_slice();
        let ghost cells = text::views(row@);
        let ghost walk = walked(body.take(i - start));
        assert(body.take(i - start + 1).drop_last() == body.take(i - start));
        assert(body.take(i - start + 1).last() == cells);
        assert(walked(body.take(i - start + 1)) == step(walk, cells));
        i = i + 1;
        let first = or_blank(trimmed_cell(row, Some(0)));
        if let Some(currency) = wallet_currency(first.as_str()) {
            let ghost before = accounts@;
            if let Some(account) = current {
                accounts.push(account);
                assert(account_views(accounts@) == account_views(before).push(account@));
            }
            let account = ParsedAccount::new(currency);
            seen.clear();
            assert(all_keyed(account@.rows) == Seq::<RowView>::empty());
            assert(rows::numbered(all_keyed(account@.rows)) == all_keyed(account@.rows));
            current = Some(account);
            columns = None;
        } else if same(first.as_str(), "Date") {
            columns = Columns::from_header(row);
        } else if !filler(first.as_str()) {
            if let Some(cols) = &columns {
                if let Some(account) = &mut current {
                    if let Some(parsed) = read_row(cols, row) {
                        add_row(account, &mut seen, parsed);
                    }
                }
            }
        }
    }
    assert(body.take(i - start) == body);
    let ghost before = accounts@;
    if let Some(account) = current {
        accounts.push(account);
        assert(account_views(accounts@) == account_views(before).push(account@));
    }
    keep_filled(&mut accounts);
    Ok(ParsedStatement { accounts })
}

/// The accounts in a Revolut consolidated statement.
pub fn parse_file(content: &[u8]) -> (r: Result<ParsedStatement, CsvImportError>)
    ensures
        match statements::csv_records(true, false, content@) {
            Some(cells) => read_as(r, cells),
            None => r matches Err(e) && e is Unreadable,
        },
{
    match read_csv(true, false, content) {
        Ok(records) => parse_records(records.as_slice()),
        Err(e) => Err(CsvImportError::Unreadable(e)),
    }
}

// ---------------------------------------------------------------------------
// Integrity
// ---------------------------------------------------------------------------

/// Recompute the running balance against the file's own balance column. A break
/// means the export dropped or reordered rows.
pub fn verify_chain(account: &ParsedAccount) -> (r: Vec<String>)
    requires
        rows::all_dated(account@.rows),
    ensures
        text::views(r@) == rows::breaks(account@.opening_balance_minor, account@.rows),
{
    assert(rows::plain_rows(account.rows@) == account@.rows);
    chain_breaks(account.opening_balance_minor, &account.rows)
}

// ---------------------------------------------------------------------------
// Import
// ---------------------------------------------------------------------------

#[derive(Debug)]
pub struct ImportReport {
    pub currency: String,
    pub parsed: usize,
    pub inserted: u64,
    pub replaced: u64,
    pub period: Option<(Date, Date)>,
    pub chain_breaks: Vec<String>,
    pub closing_balance: Option<i64>,
}

impl Default for ImportReport {
    fn default() -> (r: ImportReport)
        ensures
            r.currency@ == Seq::<char>::empty(),
            r.parsed == 0,
            r.inserted == 0,
            r.replaced == 0,
            r.period is None,
            r.chain_breaks@ == Seq::<String>::empty(),
            r.closing_balance is None,
    {
        ImportReport {
            currency: String::new(),
            parsed: 0,
            inserted: 0,
            replaced: 0,
            period: None,
            chain_breaks: Vec::new(),
            closing_balance: None,
        }
    }
}

/// Whether a report is that of an account of which nothing was written yet.
pub open spec fn reports(report: ImportReport, account: AccountView) -> bool {
    &&& report.currency@ == account.currency
    &&& report.parsed == account.rows.len()
    &&& report.inserted == 0
    &&& report.replaced == 0
    &&& report.period == rows::span(account.rows)
    &&& text::views(report.chain_breaks@) == rows::breaks(
        account.opening_balance_minor,
        account.rows,
    )
    &&& report.closing_balance == account.closing_balance_minor
}

/// Whether a plan is that of an account. Every statement has balances, so the
/// chain counts as verified where nothing breaks it.
pub open spec fn plans(plan: WritePlan, account: AccountView, filename: Seq<char>) -> bool {
    let broken = rows::breaks(account.opening_balance_minor, account.rows);
    &&& importer::plans_account(plan, account, SOURCE@, filename, rows::span(account.rows))
    &&& plan.rows@.len() == account.rows.len()
    &&& forall|i: int|
        0 <= i < account.rows.len() ==> importer::stores(
            #[trigger] plan.rows@[i],
            account.rows[i],
            rows::key_of(keyed(account.rows[i]), SOURCE@),
            importer::base_fields(account.rows[i]),
        )
    &&& plan.chain_verified == importer::flag(broken.len() == 0)
    &&& plan.chain_breaks == broken.len() as i64
    &&& plan.records_balances == (account.rows.len() > 0)
}

impl ParsedAccount {
    /// The dates that the rows span, earliest and latest.
    fn period(&self) -> (r: Option<(Date, Date)>)
        ensures
            r == rows::span(self@.rows),
    {
        assert(rows::plain_rows(self.rows@) == self@.rows);
        span_of(&self.rows)
    }
}

/// The report on an account of which nothing was written yet.
pub fn report_on(account: &ParsedAccount) -> (r: ImportReport)
    requires
        rows::all_dated(account@.rows),
    ensures
        reports(r, account@),
{
    ImportReport {
        currency: owned(account.currency.as_str()),
        parsed: account.rows.len(),
        inserted: 0,
        replaced: 0,
        period: account.period(),
        chain_breaks: verify_chain(account),
        closing_balance: account.closing_balance_minor,
    }
}

/// How a row is stored.
pub fn stored_row(row: &ParsedRow) -> (r: StoredRow)
    requires
        row.date.valid(),
    ensures
        importer::stores(
            r,
            row@,
            rows::key_of(keyed(row@), SOURCE@),
            importer::base_fields(row@),
        ),
{
    let fields = json_fields(
        &row.date,
        row.description.as_str(),
        Json::Text(owned(row.category.as_str())),
        row.amount_text.as_str(),
        row.currency.as_str(),
        row.balance_minor,
        row.fee_minor,
    );
    assert(json::fields_of(fields@) == importer::base_fields(row@));
    let base_currency = match &row.base_currency {
        Some(c) => Some(owned(c.as_str())),
        None => None,
    };
    let is_internal: i64 = if same(row.category.as_str(), "Exchange") {
        1
    } else {
        0
    };
    StoredRow {
        row_key: row.row_key(),
        booking_date: row.date.to_iso(),
        description: owned(row.description.as_str()),
        source_category: Some(owned(row.category.as_str())),
        reference: None,
        amount_minor: row.amount_minor,
        amount_text: owned(row.amount_text.as_str()),
        currency: owned(row.currency.as_str()),
        direction: direction(row.amount_minor),
        base_amount_minor: row.base_amount_minor,
        base_currency,
        balance_minor: row.balance_minor,
        fee_minor: row.fee_minor,
        is_internal,
        is_pending: 0,
        raw_json: write_object(fields.as_slice()),
    }
}

/// What an import of an account writes. All the wallets share one IBAN, so
/// currency is the only discriminator.
pub fn plan_account(account: &ParsedAccount, filename: &str) -> (r: WritePlan)
    requires
        rows::all_dated(account@.rows),
    ensures
        plans(r, account@, filename@),
{
    let mut account_key = owned("revolut:gb:");
    account_key.append(account.currency.as_str());
    let mut display_name = owned("Revolut ");
    display_name.append(account.currency.as_str());
    let mut stored: Vec<StoredRow> = Vec::new();
    let mut i: usize = 0;
    while i < account.rows.len()
        invariant
            i <= account.rows@.len(),
            rows::all_dated(account@.rows),
            stored@.len() == i,
            forall|j: int|
                0 <= j < i ==> importer::stores(
                    #[trigger] stored@[j],
                    account@.rows[j],
                    rows::key_of(keyed(account@.rows[j]), SOURCE@),
                    importer::base_fields(account@.rows[j]),
                ),
        decreases account.rows@.len() - i,
    {
        assert(account@.rows[i as int] == account.rows@[i as int]@);
        assert(account@.rows[i as int].date.valid());
        stored.push(stored_row(&account.rows[i]));
        i = i + 1;
    }
    let period = account.period();
    proof {
        rows::lemma_span_valid(account@.rows);
    }
    let (period_start, period_end) = match &period {
        Some((from, to)) => (Some(from.to_iso()), Some(to.to_iso())),
        None => (None, None),
    };
    let broken = verify_chain(account);
    assert(broken@.len() == rows::breaks(account@.opening_balance_minor, account@.rows).len());
    let chain_verified: i64 = if broken.len() == 0 {
        1
    } else {
        0
    };
    WritePlan {
        institution: owned("Revolut"),
        country: owned("GB"),
        account_key,
        currency: owned(account.currency.as_str()),
        display_name,
        account_type: AccountType::Current.as_str(),
        identifier_tail: None,
        filename: owned(filename),
        source: owned(SOURCE),
        period_start,
        period_end,
        rows_parsed: account.rows.len() as i64,
        opening_balance: optional_text(account.opening_balance_minor),
        closing_balance: optional_text(account.closing_balance_minor),
        rows: stored,
        chain_verified,
        chain_breaks: broken.len() as i64,
        records_balances: account.rows.len() > 0,
        opening_minor: account.opening_balance_minor,
        closing_minor: account.closing_balance_minor,
    }
}

/// One account of a file: what is written of it, and what is reported.
#[derive(Debug)]
pub struct AccountImport {
    pub report: ImportReport,
    pub plan: WritePlan,
}

/// What of an account is written: all that is planned, and on a dry run nothing.
pub open spec fn written(account: AccountImport, dry_run: bool) -> Option<WritePlan> {
    if dry_run {
        None
    } else {
        Some(account.plan)
    }
}

/// What of each account of a file is written.
pub open spec fn all_written(imported: Seq<AccountImport>, dry_run: bool) -> Seq<
    Option<WritePlan>,
> {
    Seq::new(imported.len(), |i: int| written(imported[i], dry_run))
}

/// The report on an account after a run. How many rows were inserted and replaced
/// counts only where anything was written.
pub open spec fn report_after(
    account: AccountImport,
    dry_run: bool,
    inserted: u64,
    replaced: u64,
) -> ImportReport {
    if dry_run {
        account.report
    } else {
        ImportReport { inserted, replaced, ..account.report }
    }
}

impl AccountImport {
    /// What is to be written of the account.
    pub fn to_write(&self, dry_run: bool) -> (r: Option<&WritePlan>)
        ensures
            match r {
                Some(plan) => written(*self, dry_run) == Some(*plan),
                None => written(*self, dry_run) is None,
            },
    {
        if dry_run {
            None
        } else {
            Some(&self.plan)
        }
    }

    /// The report on the account, once the rows have been inserted and replaced.
    pub fn done(self, dry_run: bool, inserted: u64, replaced: u64) -> (r: ImportReport)
        ensures
            r == report_after(self, dry_run, inserted, replaced),
    {
        let mut report = self.report;
        if !dry_run {
            report.inserted = inserted;
            report.replaced = replaced;
        }
        report
    }
}

pub enum ImportError {
    Statement(CsvImportError),
    /// The file holds no transactions.
    NoTransactions,
}

/// What the records of a file come to: the wallets that hold rows, in order,
/// each with its report and its plan.
pub open spec fn imports(
    r: Result<Vec<AccountImport>, ImportError>,
    records: Seq<Seq<Seq<char>>>,
    filename: Seq<char>,
) -> bool {
    match revolut::marker_place(records) {
        None => r matches Err(ImportError::Statement(e)) && e is NoSection,
        Some(k) => {
            let accounts = kept(revolut::wallets(walked(records.skip(k + 1))));
            if accounts.len() == 0 {
                r matches Err(e) && e is NoTransactions
            } else {
                &&& r is Ok
                &&& r->Ok_0@.len() == accounts.len()
                &&& forall|i: int|
                    0 <= i < accounts.len() ==> reports(
                        (#[trigger] r->Ok_0@[i]).report,
                        accounts[i],
                    ) && plans(r->Ok_0@[i].plan, accounts[i], filename)
            }
        },
    }
}

/// What an import of the records of a file writes and reports.
pub fn plan_records(records: &[Vec<String>], filename: &str) -> (r: Result<
    Vec<AccountImport>,
    ImportError,
>)
    ensures
        imports(r, table::cells(records@), filename@),
{
    let statement = match parse_records(records) {
        Ok(s) => s,
        Err(e) => {
            return Err(ImportError::Statement(e));
        },
    };
    let ghost views = account_views(statement.accounts@);
    if statement.accounts.len() == 0 {
        assert(views.len() == 0);
        return Err(ImportError::NoTransactions);
    }
    let mut r: Vec<AccountImport> = Vec::new();
    let mut i: usize = 0;
    while i < statement.accounts.len()
        invariant
            i <= statement.accounts@.len(),
            views == account_views(statement.accounts@),
            all_in_order(views),
            r@.len() == i,
            forall|j: int|
                0 <= j < i ==> reports((#[trigger] r@[j]).report, views[j]) && plans(
                    r@[j].plan,
                    views[j],
                    filename@,
                ),
        decreases statement.accounts@.len() - i,
    {
        let account = &statement.accounts[i];
        assert(views[i as int] == account@);
        proof {
            rows::lemma_well_formed_dated(account@.rows);
        }
        let report = report_on(account);
        let plan = plan_account(account, filename);
        r.push(AccountImport { report, plan });
        i = i + 1;
    }
    Ok(r)
}

/// What an import of a file writes and reports.
pub fn plan_file(content: &[u8], filename: &str) -> (r: Result<Vec<AccountImport>, ImportError>)
    ensures
        match statements::csv_records(true, false, content@) {
            Some(records) => imports(r, records, filename@),
            None => r matches Err(ImportError::Statement(e)) && e is Unreadable,
        },
{
    match read_csv(true, false, content) {
        Ok(records) => plan_records(records.as_slice(), filename),
        Err(e) => Err(ImportError::Statement(CsvImportError::Unreadable(e))),
    }
}

// ---------------------------------------------------------------------------
// Laws
// ---------------------------------------------------------------------------

/// Two different rows of a wallet never share a key, though they agree on every
/// field that the file has.
pub proof fn law_keys_tell_rows_apart(rows: Seq<RowView>, i: int, j: int)
    requires
        in_order(rows),
        0 <= i < j < rows.len(),
    ensures
        rows::key_of(keyed(rows[i]), SOURCE@) != rows::key_of(keyed(rows[j]), SOURCE@),
{
    let shown = all_keyed(rows);
    assert(rows[i].date.valid() && rows[j].date.valid());
    assert forall|k: int| 0 <= k < shown.len() implies (#[trigger] shown[k]).date.valid() by {
        assert(rows[k].date.valid());
    }
    assert(!rows::has_external_id(rows[i]) && !rows::has_external_id(rows[j]));
    rows::law_keys_tell_rows_apart(shown, SOURCE@, i, j);
    assert(rows::numbered(shown)[i] == shown[i]);
    assert(rows::numbered(shown)[j] == shown[j]);
}

/// The key of a row does not depend on where in a file it stands, nor on rows of
/// other days.
pub proof fn law_keys_are_stable(rows: Seq<RowView>, i: int, other: Seq<RowView>, j: int)
    requires
        in_order(rows),
        in_order(other),
        0 <= i < rows.len(),
        0 <= j < other.len(),
        (RowView { ordinal: 0, ..rows[i] }) == (RowView { ordinal: 0, ..other[j] }),
        all_keyed(rows).take(i).filter(rows::on_day(rows[i].date)) == all_keyed(other).take(
            j,
        ).filter(rows::on_day(rows[i].date)),
    ensures
        rows::key_of(keyed(rows[i]), SOURCE@) == rows::key_of(keyed(other[j]), SOURCE@),
{
    let (a, b) = (all_keyed(rows), all_keyed(other));
    assert forall|k: int| 0 <= k < a.len() implies (#[trigger] a[k]).date.valid() by {
        assert(rows[k].date.valid());
    }
    assert forall|k: int| 0 <= k < b.len() implies (#[trigger] b[k]).date.valid() by {
        assert(other[k].date.valid());
    }
    let (x, y) = (RowView { ordinal: 0, ..rows[i] }, RowView { ordinal: 0, ..other[j] });
    assert(rows::signature(a[i]) == rows::signature(keyed(x)));
    assert(rows::signature(b[j]) == rows::signature(keyed(y)));
    rows::law_ordinals_count_within_a_day(a, i, b, j);
    assert(rows::numbered(a)[i] == a[i]);
    assert(rows::numbered(b)[j] == b[j]);
    assert(keyed(rows[i]) == keyed(other[j])) by {
        assert(keyed(RowView { ordinal: rows[i].ordinal, ..x }) == keyed(rows[i]));
        assert(keyed(RowView { ordinal: rows[i].ordinal, ..y }) == keyed(other[j]));
    }
}

/// Whether two reports tell the same, apart from what was written.
pub open spec fn told_alike(a: ImportReport, b: ImportReport) -> bool {
    &&& a.currency@ == b.currency@
    &&& a.parsed == b.parsed
    &&& a.period == b.period
    &&& text::views(a.chain_breaks@) == text::views(b.chain_breaks@)
    &&& a.closing_balance == b.closing_balance
}

/// A dry run of a file and a real one come to the same, but that the dry run writes
/// nothing. Both succeed or both fail. Both report on the same wallets in the same
/// order, and their reports agree in all but the numbers of rows inserted and
/// replaced, which are zero on the dry run, whatever the writing came to.
pub proof fn law_dry_and_real_runs_agree(
    dry: Result<Vec<AccountImport>, ImportError>,
    full: Result<Vec<AccountImport>, ImportError>,
    records: Seq<Seq<Seq<char>>>,
    filename: Seq<char>,
    stored: Set<importer::Entry>,
    inserted: u64,
    replaced: u64,
)
    requires
        imports(dry, records, filename),
        imports(full, records, filename),
    ensures
        dry is Ok == full is Ok,
        dry is Ok ==> {
            &&& importer::after_run(stored, all_written(dry->Ok_0@, true)) == stored
            &&& dry->Ok_0@.len() == full->Ok_0@.len()
            &&& forall|i: int|
                #![trigger dry->Ok_0@[i]]
                0 <= i < dry->Ok_0@.len() ==> {
                    let shown = report_after(dry->Ok_0@[i], true, inserted, replaced);
                    let told = report_after(full->Ok_0@[i], false, inserted, replaced);
                    &&& written(dry->Ok_0@[i], true) is None
                    &&& shown.inserted == 0
                    &&& shown.replaced == 0
                    &&& told_alike(shown, told)
                }
        },
{
    if dry is Ok {
        let accounts = kept(
            revolut::wallets(walked(records.skip(revolut::marker_place(records)->0 + 1))),
        );
        importer::lemma_nothing_written(stored, all_written(dry->Ok_0@, true));
        assert forall|i: int| #![trigger dry->Ok_0@[i]] 0 <= i < dry->Ok_0@.len() implies reports(
            dry->Ok_0@[i].report,
            accounts[i],
        ) && reports(full->Ok_0@[i].report, accounts[i]) by {
            assert(reports(full->Ok_0@[i].report, accounts[i]));
        }
    }
}

/// Every row that an import writes lies in the period that it replaces.
pub proof fn law_rows_lie_in_the_period(plan: WritePlan, account: AccountView, filename: Seq<char>)
    requires
        rows::all_dated(account.rows),
        importer::four_digit_years(account.rows),
        plans(plan, account, filename),
    ensures
        importer::keeps_to_its_period(plan),
{
    assert forall|i: int| 0 <= i < plan.rows@.len() implies (
    #[trigger] plan.rows@[i]).booking_date@ == account.rows[i].date.iso() by {
        let row = account.rows[i];
        assert(importer::stores(
            plan.rows@[i],
            row,
            rows::key_of(keyed(row), SOURCE@),
            importer::base_fields(row),
        ));
    }
    importer::lemma_span_covers_plan(plan, account, SOURCE@, filename);
}

/// Importing a wallet again changes nothing: what was written is replaced by itself,
/// with the same contents. Nor does its import touch what other accounts and other
/// sources stored, or what lies outside its period.
pub proof fn law_import_replaces_by_range(
    stored: Set<importer::Entry>,
    plan: WritePlan,
    again: WritePlan,
    account: AccountView,
    filename: Seq<char>,
    e: importer::Entry,
)
    requires
        rows::all_dated(account.rows),
        importer::four_digit_years(account.rows),
        plans(plan, account, filename),
        plans(again, account, filename),
    ensures
        importer::after_import(importer::after_import(stored, plan), again)
            == importer::after_import(stored, plan),
        !importer::replaces(plan, e) ==> importer::after_import(stored, plan).contains(e)
            == stored.contains(e),
{
    law_rows_lie_in_the_period(plan, account, filename);
    assert forall|i: int| 0 <= i < plan.rows@.len() implies (#[trigger] plan.rows@[i])@
        == again.rows@[i]@ by {
        let row = account.rows[i];
        let (key, fields) = (rows::key_of(keyed(row), SOURCE@), importer::base_fields(row));
        assert(importer::stores(plan.rows@[i], row, key, fields));
        assert(importer::stores(again.rows@[i], row, key, fields));
        assert(plan.rows@[i]@ =~= again.rows@[i]@);
    }
    importer::lemma_replaces_by_range(stored, plan, again);
}

// ---------------------------------------------------------------------------
// What a row shows
// ---------------------------------------------------------------------------

/// A money text that names its currency is read as it is wherever statements are
/// read, but that brackets say nothing here; one that names none is not read.
pub proof fn law_money_is_read_as_elsewhere(raw: Seq<char>, default_currency: Seq<char>)
    ensures
        ({
            let t = text::unquoted(raw);
            let bracketed = t.len() > 0 && t[0] == '(' && t.last() == ')';
            &&& minor_in(raw) is Some && !bracketed ==> minor_in(raw) == statements::minor_in(
                raw,
                default_currency,
            )
            &&& minor_in(raw) matches Some((minor, amount, currency)) ==> {
                &&& money::minor_of(amount, statements::places(currency)) == Ok::<
                    int,
                    money::MoneyFault,
                >(minor)
                &&& minor < 0 ==> t[0] == '-'
                &&& minor > 0 ==> t[0] != '-'
                &&& -i64::MAX <= minor <= i64::MAX
            }
        }),
{
    if let Some((minor, amount, currency)) = minor_in(raw) {
        money::lemma_minor_bound(amount, statements::places(currency));
        money::lemma_sign_of_plain_amount(raw, statements::places(currency));
    }
}

/// Money that a statement prints with two places and a symbol comes to what was
/// printed, in the currency of the symbol.
pub proof fn law_printed_money_comes_back(minor: i64, symbol: Seq<char>)
    requires
        minor > i64::MIN,
        money::is_symbol(symbol),
        money::symbol_code(symbol) is Some,
        statements::places(money::symbol_code(symbol)->0) == 2,
    ensures
        minor_in(money::printed(minor as int, symbol)) == Some(
            (
                minor as int,
                decimal::hundredths(minor as int),
                money::symbol_code(symbol)->0,
            ),
        ),
{
    money::law_printed_money_is_read(minor as int, symbol, false);
    money::law_two_places_round_trip(minor);
}

/// Whether a value is the money that a cell shows, or is missing where the cell is or
/// shows none.
pub open spec fn shows(row: Seq<Seq<char>>, column: Option<usize>, value: Option<i64>) -> bool {
    match value {
        Some(minor) => {
            &&& table::has_cell(row, column)
            &&& minor_in(table::text_at(row, column)) matches Some((shown, _, _))
            &&& shown == minor
            &&& minor < 0 ==> text::unquoted(table::text_at(row, column))[0] == '-'
            &&& minor > 0 ==> text::unquoted(table::text_at(row, column))[0] != '-'
        },
        None => !table::has_cell(row, column) || minor_in(table::text_at(row, column)) is None,
    }
}

proof fn lemma_shows(row: Seq<Seq<char>>, column: Option<usize>)
    ensures
        shows(row, column, units_of(row, column)),
        match money_of(row, column) {
            Some((minor, _, _)) => shows(row, column, Some(minor as i64)) && minor as i64 == minor,
            None => shows(row, column, None),
        },
{
    if table::has_cell(row, column) {
        law_money_is_read_as_elsewhere(table::text_at(row, column), seq![]);
    }
}

/// A row is a transaction exactly where its date and its amount can be read. Every
/// amount is what its cell shows, sign and all: the wallet's own, the converted one,
/// the balance, and the fee, which is nothing where none is shown. Date and texts are
/// those of their cells, and only the category says whether the row is internal.
pub proof fn law_row_shows_its_cells(cols: Columns, row: Seq<Seq<char>>)
    ensures
        row_in(cols, row) is Some <==> {
            &&& table::has_cell(row, Some(cols.date))
            &&& revolut_date(row[cols.date as int]) is Some
            &&& table::has_cell(row, Some(cols.amount))
            &&& minor_in(row[cols.amount as int]) is Some
        },
        row_in(cols, row) matches Some(r) ==> {
            &&& revolut_date(row[cols.date as int]) == Some(r.date)
            &&& shows(row, Some(cols.amount), Some(r.amount_minor))
            &&& minor_in(row[cols.amount as int]) == Some(
                (r.amount_minor as int, r.amount_text, r.currency),
            )
            &&& shows(row, cols.amount_base, r.base_amount_minor)
            &&& r.base_currency is Some <==> r.base_amount_minor is Some
            &&& r.base_currency matches Some(base) ==> (minor_in(
                table::text_at(row, cols.amount_base),
            ) matches Some((_, _, named)) && base == named)
            &&& shows(row, cols.balance, r.balance_minor)
            &&& shows(row, cols.fee, Some(r.fee_minor)) || shows(row, cols.fee, None)
                && r.fee_minor == 0
            &&& table::has_cell(row, Some(cols.description)) ==> r.description == text::trimmed(
                row[cols.description as int],
            )
            &&& !table::has_cell(row, Some(cols.description)) ==> r.description.len() == 0
            &&& r.category matches Some(c) && if table::has_cell(row, Some(cols.category)) {
                c == text::trimmed(row[cols.category as int])
            } else {
                c.len() == 0
            }
            &&& r.is_internal <==> r.category == Some("Exchange"@)
            &&& !r.is_pending
            &&& r.external_id is None
            &&& r.reference is None
            &&& r.details is None
        },
{
    lemma_shows(row, Some(cols.amount));
    lemma_shows(row, cols.amount_base);
    lemma_shows(row, cols.balance);
    lemma_shows(row, cols.fee);
}

/// A date is what the day, the month by its short name and the year say; a padded
/// day counts before one that is not.
pub proof fn law_dates_by_short_months(raw: Seq<char>)
    ensures
        ({
            let t = statements::september(text::unquoted(raw));
            let (padded, plain) = (
                calendar::date_by(t, "%d %b %Y"@),
                calendar::date_by(t, "%e %b %Y"@),
            );
            &&& padded is Some ==> revolut_date(raw) == padded
            &&& padded is None ==> revolut_date(raw) == plain
        }),
{
}

/// The transactions among the rows of a table, in order, each with its number among
/// those before it that look the same.
pub open spec fn table_rows(cols: Columns, body: Seq<Seq<Seq<char>>>) -> Seq<RowView>
    decreases body.len(),
{
    if body.len() == 0 {
        seq![]
    } else {
        let before = table_rows(cols, body.drop_last());
        match row_in(cols, body.last()) {
            Some(r) => before.push(
                RowView {
                    ordinal: all_keyed(before).filter(
                        |other: RowView|
                            rows::signature(other) == rows::signature(keyed(r)),
                    ).len(),
                    ..r
                },
            ),
            None => before,
        }
    }
}

/// Whatever comes before it, a wallet's title, its header and its rows make an
/// account of that currency, with the key of that currency, whose transactions are
/// those of the rows, in their order, read by that header; what was read before
/// stands as it was.
pub proof fn law_a_table_is_a_wallet(
    front: Seq<Seq<Seq<char>>>,
    title: Seq<Seq<char>>,
    header: Seq<Seq<char>>,
    body: Seq<Seq<Seq<char>>>,
)
    requires
        revolut::wallet(revolut::first_cell(title)) is Some,
        revolut::wallet(revolut::first_cell(header)) is None,
        revolut::first_cell(header) == "Date"@,
        revolut::columns_in(header) is Some,
        forall|i: int|
            0 <= i < body.len() ==> !revolut::is_frame(#[trigger] body[i])
                && revolut::first_cell(body[i]).len() > 0,
    ensures
        ({
            let currency = revolut::wallet(revolut::first_cell(title))->0;
            let cols = revolut::columns_in(header)->0;
            let walk = walked(front.push(title).push(header) + body);
            &&& walk.done == revolut::wallets(walked(front))
            &&& walk.columns == Some(cols)
            &&& walk.current matches Some(account) && account.currency == currency
                && account.account_key == "revolut:gb:"@ + currency && account.rows == table_rows(
                cols,
                body,
            )
        }),
    decreases body.len(),
{
    let all = front.push(title).push(header) + body;
    if body.len() == 0 {
        assert(all == front.push(title).push(header));
        assert(all.drop_last() == front.push(title));
        assert(all.drop_last().drop_last() == front);
        reveal_with_fuel(walked, 3);
    } else {
        assert forall|i: int| 0 <= i < body.drop_last().len() implies !revolut::is_frame(
            #[trigger] body.drop_last()[i],
        ) && revolut::first_cell(body.drop_last()[i]).len() > 0 by {
            assert(!revolut::is_frame(body[i]));
        }
        law_a_table_is_a_wallet(front, title, header, body.drop_last());
        assert(all.drop_last() == front.push(title).push(header) + body.drop_last());
        assert(all.last() == body.last());
        assert(!revolut::is_frame(body[body.len() - 1]));
        let cols = revolut::columns_in(header)->0;
        let before = table_rows(cols, body.drop_last());
        if let Some(r) = row_in(cols, body.last()) {
            let shown = all_keyed(before);
            rows::lemma_occurrences_filter(
                shown,
                shown.len() as int,
                rows::signature(keyed(r)),
            );
            assert(shown.take(shown.len() as int) == shown);
        }
    }
}

/// What is written of a wallet adds up to what was read of it: as many rows, with
/// the same total, each under its own key. The batch says the period that they span
/// and the balances that were read, and counts as verified exactly where every
/// balance follows.
pub proof fn law_plan_adds_up(plan: WritePlan, account: AccountView, filename: Seq<char>, i: int)
    requires
        plans(plan, account, filename),
        account.rows.len() <= i64::MAX,
    ensures
        plan.rows@.len() == account.rows.len(),
        plan.rows_parsed == account.rows.len(),
        importer::stored_total(plan.rows@) == rows::total(account.rows),
        0 <= i < account.rows.len() ==> plan.rows@[i].row_key@ == rows::key_of(
            keyed(account.rows[i]),
            "revolut_csv"@,
        ) && plan.rows@[i].amount_minor == account.rows[i].amount_minor
            && plan.rows@[i].balance_minor == account.rows[i].balance_minor
            && plan.rows@[i].base_amount_minor == account.rows[i].base_amount_minor
            && plan.rows@[i].booking_date@ == account.rows[i].date.iso(),
        plan.account_key@ == account.account_key,
        plan.source@ == "revolut_csv"@,
        plan.filename@ == filename,
        plan.currency@ == account.currency,
        plan.opening_minor == account.opening_balance_minor,
        plan.closing_minor == account.closing_balance_minor,
        account.rows.len() > 0 ==> text::opt(plan.period_start) == Some(
            rows::earliest(account.rows).iso(),
        ) && text::opt(plan.period_end) == Some(rows::latest(account.rows).iso()),
        plan.chain_verified == 1 <==> forall|k: int|
            0 <= k < account.rows.len() ==> rows::follows(
                rows::balance_before(account.opening_balance_minor, account.rows, k),
                #[trigger] account.rows[k],
            ),
        plan.records_balances <==> account.rows.len() > 0,
{
    let read = account.rows;
    assert forall|k: int| 0 <= k < read.len() implies (
    #[trigger] plan.rows@[k]).amount_minor == read[k].amount_minor by {
        assert(importer::stores(
            plan.rows@[k],
            read[k],
            rows::key_of(keyed(read[k]), SOURCE@),
            importer::base_fields(read[k]),
        ));
    }
    importer::lemma_stored_total(plan.rows@, read);
    rows::law_whole_chain(account.opening_balance_minor, read);
    if 0 <= i < read.len() {
        assert(importer::stores(
            plan.rows@[i],
            read[i],
            rows::key_of(keyed(read[i]), SOURCE@),
            importer::base_fields(read[i]),
        ));
    }
}

} // verus!
