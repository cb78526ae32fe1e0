//! Lloyds internet banking CSV export.
//!
//!   Transaction Date, Transaction Type, Sort Code, Account Number,
//!   Transaction Description, Debit Amount, Credit Amount, Balance
//!
//! Notes from a real file:
//!   * Rows are NEWEST-FIRST. Normalised centrally by `ensure_chronological`.
//!   * Sort Code is prefixed with an apostrophe as a spreadsheet text guard,
//!     and hyphenated. Digits are extracted for the account key.
//!   * Debit and Credit are separate columns, both positive.
//!   * Transaction Type is a code, not a merchant category:
//!       DEB  card payment          FPO  faster payment out
//!       FPI  faster payment in     SO   standing order
//!       DD   direct debit          BGC  bank giro credit (salary, cashback)
//!       TFR  transfer              CSH  cash / ATM
use super::rows;
use super::rows::{AccountType, AccountView, ParsedAccount, ParsedRow, RowView};
use super::table;
use super::table::{
    blank, cell, date_cell, find, header_row, money_cell, only_filled, or_blank, trimmed_cell,
    units_cell,
};
use super::StatementParser;
use crate::calendar::Date;
use crate::decimal;
use crate::money;
use crate::statements;
use crate::text;
use crate::text::{chars_of, join, keep_digits, owned, string_of};
use vstd::prelude::*;
use vstd::slice::slice_subrange;

verus! {

pub struct LloydsCsv;

// ---------------------------------------------------------------------------
// Header
// ---------------------------------------------------------------------------

/// The place of the header. Separate debit and credit columns are the
/// distinguishing feature. It should be the first row, but preamble rows are
/// tolerated.
pub open spec fn header_place(records: Seq<Seq<Seq<char>>>) -> Option<int> {
    table::header_place(records, "Debit Amount"@, "Credit Amount"@)
}

/// The columns of a statement.
pub struct Columns {
    pub date: usize,
    pub transaction_type: Option<usize>,
    pub sort_code: Option<usize>,
    pub account_number: Option<usize>,
    pub description: Option<usize>,
    pub debit: Option<usize>,
    pub credit: Option<usize>,
    pub balance: Option<usize>,
}

/// The column of that name.
pub open spec fn col(header: Seq<Seq<char>>, name: Seq<char>) -> Option<usize> {
    table::column(table::place(header, name))
}

/// The columns that a header gives, if it has one for the date.
pub open spec fn columns_in(header: Seq<Seq<char>>) -> Option<Columns> {
    match table::either(col(header, "Transaction Date"@), col(header, "Date"@)) {
        Some(date) => Some(
            Columns {
                date,
                transaction_type: col(header, "Transaction Type"@),
                sort_code: col(header, "Sort Code"@),
                account_number: col(header, "Account Number"@),
                description: table::either(
                    col(header, "Transaction Description"@),
                    col(header, "Description"@),
                ),
                debit: col(header, "Debit Amount"@),
                credit: col(header, "Credit Amount"@),
                balance: col(header, "Balance"@),
            },
        ),
        None => None,
    }
}

fn find_either(header: &[String], name: &str, other: &str) -> (r: Option<usize>)
    ensures
        r == table::either(col(text::views(header@), name@), col(text::views(header@), other@)),
{
    match find(header, name) {
        Some(i) => Some(i),
        None => find(header, other),
    }
}

impl Columns {
    pub fn from_header(header: &[String]) -> (r: Option<Columns>)
        ensures
            r == columns_in(text::views(header@)),
    {
        match find_either(header, "Transaction Date", "Date") {
            Some(date) => Some(
                Columns {
                    date,
                    transaction_type: find(header, "Transaction Type"),
                    sort_code: find(header, "Sort Code"),
                    account_number: find(header, "Account Number"),
                    description: find_either(header, "Transaction Description", "Description"),
                    debit: find(header, "Debit Amount"),
                    credit: find(header, "Credit Amount"),
                    balance: find(header, "Balance"),
                },
            ),
            None => None,
        }
    }
}

// ---------------------------------------------------------------------------
// The account
// ---------------------------------------------------------------------------

/// The digits of a cell.
pub open spec fn digits_of(row: Seq<Seq<char>>, column: Option<usize>) -> Seq<char> {
    match table::cell_in(row, column) {
        Some(c) => text::digits_in(c),
        None => seq![],
    }
}

fn digits_only(row: &[String], column: Option<usize>) -> (r: String)
    ensures
        r@ == digits_of(text::views(row@), column),
{
    match cell(row, column) {
        Some(c) => keep_digits(c),
        None => String::new(),
    }
}

/// The last four digits of an account number.
pub open spec fn tail_of(number: Seq<char>) -> Option<Seq<char>> {
    if number.len() >= 4 {
        Some(number.skip(number.len() - 4))
    } else {
        None
    }
}

/// The account that a row belongs to. One file is one account, but the sort code
/// and account number are repeated on every row, so the key comes from the data
/// rather than the filename.
pub open spec fn account_of(cols: Columns, row: Seq<Seq<char>>) -> AccountView {
    let sort_code = digits_of(row, cols.sort_code);
    let number = digits_of(row, cols.account_number);
    let tail = tail_of(number);
    AccountView {
        identifier_tail: tail,
        ..rows::empty_account(
            if sort_code.len() == 0 && number.len() == 0 {
                "lloyds:gb:unknown"@
            } else {
                "lloyds:gb:"@ + sort_code + number
            },
            "Lloyds"@,
            "GBP"@,
            match tail {
                Some(t) => "Lloyds ..."@ + t,
                None => "Lloyds"@,
            },
            AccountType::Current,
        )
    }
}

fn new_account(cols: &Columns, row: &[String]) -> (r: ParsedAccount)
    ensures
        r@ == account_of(*cols, text::views(row@)),
{
    let sort_code = digits_only(row, cols.sort_code);
    let number = digits_only(row, cols.account_number);
    let digits = chars_of(number.as_str());
    let n: usize = digits.len();
    let key = if sort_code.as_str().unicode_len() == 0 && n == 0 {
        owned("lloyds:gb:unknown")
    } else {
        let mut k = owned("lloyds:gb:");
        k.append(sort_code.as_str());
        k.append(number.as_str());
        k
    };
    let tail = if n >= 4 {
        Some(string_of(slice_subrange(digits.as_slice(), n - 4, n)))
    } else {
        None
    };
    let name = match &tail {
        Some(t) => {
            let mut s = owned("Lloyds ...");
            s.append(t.as_str());
            s
        },
        None => owned("Lloyds"),
    };
    assert(text::opt(tail) == tail_of(number@));
    let mut account = ParsedAccount::new(
        key.as_str(),
        "Lloyds",
        "GBP",
        name.as_str(),
        AccountType::Current,
    );
    account.identifier_tail = tail;
    account
}

// ---------------------------------------------------------------------------
// Rows
// ---------------------------------------------------------------------------

/// The amount of a row, money out being negative, and its text. Debit and credit
/// live in separate columns, both positive; a debit counts first. A row with
/// neither, or with zero in both, has no amount.
pub open spec fn amount_of(cols: Columns, row: Seq<Seq<char>>) -> Option<(int, Seq<char>)> {
    match table::money_of(row, cols.debit, "GBP"@) {
        Some((minor, amount, _)) if minor != 0 => Some(
            (-decimal::magnitude(minor), seq!['-'] + amount),
        ),
        _ => match table::money_of(row, cols.credit, "GBP"@) {
            Some((minor, amount, _)) if minor != 0 => Some((decimal::magnitude(minor), amount)),
            _ => None,
        },
    }
}

fn size_of(minor: i64) -> (r: i64)
    requires
        minor > i64::MIN,
    ensures
        r == decimal::magnitude(minor as int),
{
    if minor < 0 {
        -minor
    } else {
        minor
    }
}

fn read_amount(cols: &Columns, row: &[String]) -> (r: Option<(i64, String)>)
    ensures
        match r {
            Some((minor, amount)) => amount_of(*cols, text::views(row@)) == Some(
                (minor as int, amount@),
            ) && rows::lacks_colon(amount@),
            None => amount_of(*cols, text::views(row@)) is None,
        },
{
    proof {
        table::lemma_money_lacks_colon(text::views(row@), cols.debit, "GBP"@);
        table::lemma_money_lacks_colon(text::views(row@), cols.credit, "GBP"@);
    }
    if let Some((minor, amount, _)) = money_cell(row, cols.debit, "GBP") {
        if minor != 0 {
            let mut t = owned("-");
            t.append(amount.as_str());
            proof {
                reveal_strlit("-");
            }
            assert(t@ == seq!['-'] + amount@);
            assert forall|i: int| 0 <= i < t@.len() implies t@[i] != ':' by {
                if i > 0 {
                    assert(amount@.contains(amount@[i - 1]));
                }
            }
            return Some((-size_of(minor), t));
        }
    }
    if let Some((minor, amount, _)) = money_cell(row, cols.credit, "GBP") {
        if minor != 0 {
            return Some((size_of(minor), amount));
        }
    }
    None
}

/// The transaction in a row. Lloyds gives a type code rather than a merchant
/// category, but it is still a useful first-pass signal.
pub open spec fn row_of(
    cols: Columns,
    row: Seq<Seq<char>>,
    date: Date,
    amount: (int, Seq<char>),
) -> RowView {
    RowView {
        date,
        description: table::or_empty(table::trimmed_in(row, cols.description)),
        category: table::filled(table::trimmed_in(row, cols.transaction_type)),
        reference: None,
        external_id: None,
        details: None,
        amount_text: amount.1,
        amount_minor: amount.0 as i64,
        currency: "GBP"@,
        base_amount_minor: None,
        base_currency: None,
        balance_minor: table::units_of(row, cols.balance, "GBP"@),
        fee_minor: 0,
        is_internal: false,
        is_pending: false,
        ordinal: 0,
    }
}

fn make_row(
    cols: &Columns,
    row: &[String],
    date: Date,
    amount_minor: i64,
    amount_text: String,
) -> (r: ParsedRow)
    ensures
        r@ == row_of(*cols, text::views(row@), date, (amount_minor as int, amount_text@)),
        r.date == date,
{
    ParsedRow {
        date,
        description: or_blank(trimmed_cell(row, cols.description)),
        category: only_filled(trimmed_cell(row, cols.transaction_type)),
        reference: None,
        external_id: None,
        details: None,
        amount_text,
        amount_minor,
        currency: owned("GBP"),
        base_amount_minor: None,
        base_currency: None,
        balance_minor: units_cell(row, cols.balance, "GBP"),
        fee_minor: 0,
        is_internal: false,
        is_pending: false,
        ordinal: 0,
    }
}

// ---------------------------------------------------------------------------
// The walk through the file
// ---------------------------------------------------------------------------

/// What has been read so far: the account, from the first dated row on, and the
/// rows that gave no transaction.
#[verifier::ext_equal]
pub struct Walk {
    pub account: Option<AccountView>,
    pub skipped: Seq<Seq<char>>,
}

/// What has been read after one more row. A row that has a date but no amount is
/// reported as skipped, because on a real transaction the balance chain would
/// break with nothing else to point at; so is one whose date is missing or cannot
/// be read, unless it is blank.
pub open spec fn step(cols: Columns, walk: Walk, row: Seq<Seq<char>>) -> Walk {
    match table::date_of(row, Some(cols.date)) {
        Some(date) => {
            let account = match walk.account {
                Some(a) => a,
                None => account_of(cols, row),
            };
            match amount_of(cols, row) {
                Some(amount) => Walk {
                    account: Some(
                        AccountView {
                            rows: account.rows.push(row_of(cols, row, date, amount)),
                            ..account
                        },
                    ),
                    ..walk
                },
                None => Walk {
                    account: Some(account),
                    skipped: walk.skipped.push(rows::skipped_line(row)),
                },
            }
        },
        None => if table::is_blank(row) {
            walk
        } else {
            Walk { skipped: walk.skipped.push(rows::skipped_line(row)), ..walk }
        },
    }
}

/// What has been read after all the given rows.
pub open spec fn walked(cols: Columns, records: Seq<Seq<Seq<char>>>) -> Walk
    decreases records.len(),
{
    if records.len() == 0 {
        Walk { account: None, skipped: seq![] }
    } else {
        step(cols, walked(cols, records.drop_last()), records.last())
    }
}

/// The account, with the rows that were skipped. Where no row has a date, it is one
/// of which nothing is known, if any row was skipped.
pub open spec fn accounts_of(cols: Columns, walk: Walk) -> Seq<AccountView> {
    match walk.account {
        Some(a) => seq![AccountView { skipped: walk.skipped, ..a }],
        None => if walk.skipped.len() > 0 {
            seq![AccountView { skipped: walk.skipped, ..account_of(cols, seq![]) }]
        } else {
            seq![]
        },
    }
}

spec fn account_view(account: Option<ParsedAccount>) -> Option<AccountView> {
    match account {
        Some(a) => Some(a@),
        None => None,
    }
}

spec fn walk_sound(walk: Walk) -> bool {
    match walk.account {
        Some(a) => rows::well_formed(a.rows),
        None => true,
    }
}

impl StatementParser for LloydsCsv {
    open spec fn source_name(&self) -> Seq<char> {
        "lloyds_csv"@
    }

    open spec fn label_name(&self) -> Seq<char> {
        "Lloyds"@
    }

    open spec fn claims(&self, records: Seq<Seq<Seq<char>>>) -> bool {
        header_place(records) is Some
    }

    open spec fn readable(&self, records: Seq<Seq<Seq<char>>>) -> bool {
        true
    }

    open spec fn reading(&self, records: Seq<Seq<Seq<char>>>) -> Result<
        Seq<AccountView>,
        Seq<char>,
    > {
        match header_place(records) {
            Some(k) => match columns_in(records[k]) {
                Some(cols) => Ok(accounts_of(cols, walked(cols, records.skip(k + 1)))),
                None => Err("Lloyds header missing required columns"@),
            },
            None => Err("no Lloyds header row found"@),
        }
    }

    proof fn claimed_is_readable(&self, records: Seq<Seq<Seq<char>>>) {
    }

    fn source(&self) -> (r: &'static str) {
        "lloyds_csv"
    }

    fn label(&self) -> (r: &'static str) {
        "Lloyds"
    }

    fn detect(&self, records: &[Vec<String>]) -> (r: bool) {
        header_row(records, "Debit Amount", "Credit Amount").is_some()
    }

    fn parse(&self, records: &[Vec<String>]) -> (r: Result<Vec<ParsedAccount>, &'static str>) {
        let count: usize = records.len();
        let ghost all = table::cells(records@);
        let header: usize = match header_row(records, "Debit Amount", "Credit Amount") {
            Some(k) => k,
            None => {
                return Err("no Lloyds header row found");
            },
        };
        assert(all[header as int] == text::views(records@[header as int]@));
        let cols = match Columns::from_header(records[header].as_slice()) {
            Some(c) => c,
            None => {
                return Err("Lloyds header missing required columns");
            },
        };
        let start: usize = header + 1;
        let ghost body = all.skip(start as int);
        let mut account: Option<ParsedAccount> = None;
        let mut skipped: Vec<String> = Vec::new();
        let mut i: usize = start;
        assert(body.take(0) == Seq::<Seq<Seq<char>>>::empty());
        assert(text::views(skipped@) == Seq::<Seq<char>>::empty());
        while i < count
            invariant
                count == records@.len(),
                start <= i <= count,
                all == table::cells(records@),
                body == all.skip(start as int),
                walked(cols, body.take(i - start)) == (Walk {
                    account: account_view(account),
                    skipped: text::views(skipped@),
                }),
                walk_sound(walked(cols, body.take(i - start))),
            decreases count - i,
        {
            let row = records[i].as_slice();
            let ghost cells = text::views(row@);
            let ghost walk = walked(cols, body.take(i - start));
            assert(body.take(i - start + 1).drop_last() == body.take(i - start));
            assert(body.take(i - start + 1).last() == cells);
            assert(walked(cols, body.take(i - start + 1)) == step(cols, walk, cells));
            i = i + 1;
            let ghost before = skipped@;
            match date_cell(row, Some(cols.date)) {
                Some(date) => {
                    let mut a = match account {
                        Some(a) => a,
                        None => new_account(&cols, row),
                    };
                    match read_amount(&cols, row) {
                        Some((amount_minor, amount_text)) => {
                            a.push_row(make_row(&cols, row, date, amount_minor, amount_text));
                        },
                        None => {
                            skipped.push(join(row, " | "));
                            assert(text::views(skipped@) == text::views(before).push(
                                rows::skipped_line(cells),
                            ));
                        },
                    }
                    account = Some(a);
                },
                None => {
                    if !blank(row) {
                        skipped.push(join(row, " | "));
                        assert(text::views(skipped@) == text::views(before).push(
                            rows::skipped_line(cells),
                        ));
                    }
                },
            }
        }
        assert(body.take(i - start) == body);
        let mut accounts: Vec<ParsedAccount> = Vec::new();
        if let Some(mut a) = account {
            a.skipped = skipped;
            accounts.push(a);
        } else if skipped.len() > 0 {
            let none: Vec<String> = Vec::new();
            assert(text::views(none@) == Seq::<Seq<char>>::empty());
            let mut a = new_account(&cols, none.as_slice());
            a.skipped = skipped;
            accounts.push(a);
        }
        assert(rows::account_views(accounts@) == accounts_of(cols, walked(cols, body)));
        Ok(accounts)
    }
}

/// The transactions that have been read.
pub open spec fn rows_of(walk: Walk) -> Seq<RowView> {
    match walk.account {
        Some(a) => a.rows,
        None => seq![],
    }
}

/// The transaction in a row, if it is one.
pub open spec fn row_in(cols: Columns, row: Seq<Seq<char>>) -> Option<RowView> {
    match (table::date_of(row, Some(cols.date)), amount_of(cols, row)) {
        (Some(date), Some(amount)) => Some(row_of(cols, row, date, amount)),
        _ => None,
    }
}

/// Whether a row is a transaction or is listed among the skipped ones: it has a
/// date, or is not blank.
pub open spec fn counts(cols: Columns, row: Seq<Seq<char>>) -> bool {
    table::date_of(row, Some(cols.date)) is Some || !table::is_blank(row)
}

/// Nothing below the header is dropped in silence: every row is a transaction of
/// the account, or is listed among its skipped ones, or is blank.
pub proof fn law_every_row_is_accounted_for(cols: Columns, records: Seq<Seq<Seq<char>>>, k: int)
    requires
        0 <= k < records.len(),
    ensures
        ({
            let accounts = accounts_of(cols, walked(cols, records));
            match row_in(cols, records[k]) {
                Some(r) => accounts.len() == 1 && accounts[0].rows.contains(r),
                None => table::is_blank(records[k]) || accounts.len() == 1
                    && accounts[0].skipped.contains(rows::skipped_line(records[k])),
            }
        }),
{
    lemma_row_is_held(cols, records, k);
}

proof fn lemma_row_is_held(cols: Columns, records: Seq<Seq<Seq<char>>>, k: int)
    requires
        0 <= k < records.len(),
    ensures
        match row_in(cols, records[k]) {
            Some(r) => rows_of(walked(cols, records)).contains(r),
            None => table::is_blank(records[k]) || walked(cols, records).skipped.contains(
                rows::skipped_line(records[k]),
            ),
        },
    decreases records.len(),
{
    let front = records.drop_last();
    let (before, after) = (walked(cols, front), walked(cols, records));
    assert(rows_of(before).is_prefix_of(rows_of(after)));
    assert(before.skipped.is_prefix_of(after.skipped));
    let line = rows::skipped_line(records[k]);
    if k < front.len() {
        lemma_row_is_held(cols, front, k);
        assert(front[k] == records[k]);
        match row_in(cols, records[k]) {
            Some(r) => {
                let i = choose|i: int| 0 <= i < rows_of(before).len() && rows_of(before)[i] == r;
                assert(rows_of(after)[i] == r);
            },
            None => {
                if !table::is_blank(records[k]) {
                    let i = choose|i: int|
                        0 <= i < before.skipped.len() && before.skipped[i] == line;
                    assert(after.skipped[i] == line);
                }
            },
        }
    } else {
        assert(records[k] == records.last());
        match row_in(cols, records[k]) {
            Some(r) => {
                assert(rows_of(after)[rows_of(after).len() - 1] == r);
            },
            None => {
                if !table::is_blank(records[k]) {
                    assert(after.skipped[after.skipped.len() - 1] == line);
                }
            },
        }
    }
}

/// There are as many transactions and skipped rows as rows below the header that
/// are one or the other: none is lost, and none is counted twice.
pub proof fn law_rows_add_up(cols: Columns, records: Seq<Seq<Seq<char>>>)
    ensures
        rows_of(walked(cols, records)).len() + walked(cols, records).skipped.len()
            == records.filter(|row: Seq<Seq<char>>| counts(cols, row)).len(),
    decreases records.len(),
{
    let f = |row: Seq<Seq<char>>| counts(cols, row);
    if records.len() == 0 {
        reveal(Seq::filter);
    } else {
        law_rows_add_up(cols, records.drop_last());
        table::lemma_filter_last(records, f);
    }
}

/// A debit is negative whatever sign its column carries, a credit is positive,
/// and no transaction has the amount zero.
pub proof fn law_debits_are_negative(cols: Columns, row: Seq<Seq<char>>)
    ensures
        amount_of(cols, row) matches Some((minor, _)) ==> minor != 0 && (minor < 0 <==> (
        table::money_of(row, cols.debit, "GBP"@) matches Some((m, _, _)) && m != 0)),
{
}

// ---------------------------------------------------------------------------
// What a row shows
// ---------------------------------------------------------------------------

/// The minor units that a money cell shows, if it shows any that are not zero.
pub open spec fn shown_units(row: Seq<Seq<char>>, column: Option<usize>) -> Option<int> {
    if table::has_cell(row, column) {
        match statements::minor_in(table::text_at(row, column), "GBP"@) {
            Some((minor, _, _)) if minor != 0 => Some(minor),
            _ => None,
        }
    } else {
        None
    }
}

/// A row is a transaction exactly where its date can be read and its debit or its
/// credit cell shows money. The amount is what the debit cell shows, taken out, or
/// else what the credit cell shows, put in, whatever their signs; the balance is
/// what the balance cell shows, with its sign, so that an overdrawn account has a
/// negative one. Date and texts are those of their cells.
pub proof fn law_row_shows_its_cells(cols: Columns, row: Seq<Seq<char>>)
    ensures
        row_in(cols, row) is Some <==> {
            &&& table::has_cell(row, Some(cols.date))
            &&& statements::statement_date(row[cols.date as int]) is Some
            &&& shown_units(row, cols.debit) is Some || shown_units(row, cols.credit) is Some
        },
        row_in(cols, row) matches Some(r) ==> {
            &&& statements::statement_date(row[cols.date as int]) == Some(r.date)
            &&& match shown_units(row, cols.debit) {
                Some(out) => r.amount_minor < 0 && (r.amount_minor == out || r.amount_minor == -out),
                None => r.amount_minor > 0 && (r.amount_minor == shown_units(row, cols.credit)->0
                    || r.amount_minor == -shown_units(row, cols.credit)->0),
            }
            &&& table::shows(row, cols.balance, "GBP"@, r.balance_minor)
            &&& table::has_cell(row, cols.description) ==> r.description == text::trimmed(
                table::text_at(row, cols.description),
            )
            &&& !table::has_cell(row, cols.description) ==> r.description.len() == 0
            &&& match r.category {
                Some(c) => c.len() > 0 && table::has_cell(row, cols.transaction_type) && c
                    == text::trimmed(table::text_at(row, cols.transaction_type)),
                None => !table::has_cell(row, cols.transaction_type) || text::trimmed(
                    table::text_at(row, cols.transaction_type),
                ).len() == 0,
            }
            &&& r.currency == "GBP"@
            &&& r.base_amount_minor is None
            &&& r.base_currency is None
            &&& r.external_id is None
            &&& r.reference is None
            &&& r.details is None
            &&& r.fee_minor == 0
            &&& !r.is_internal
            &&& !r.is_pending
        },
{
    table::law_money_is_as_shown(row, cols.debit, "GBP"@);
    table::law_money_is_as_shown(row, cols.credit, "GBP"@);
    table::law_money_is_as_shown(row, cols.balance, "GBP"@);
}

/// The text that is kept of an amount reads as the amount, where the cell shows it
/// without a sign of its own and in pounds.
pub proof fn law_amount_text_reads_as_the_amount(cols: Columns, row: Seq<Seq<char>>, minor: i64)
    requires
        minor > 0,
        row_in(cols, row) is Some,
        ({
            let column = if shown_units(row, cols.debit) is Some {
                cols.debit
            } else {
                cols.credit
            };
            table::text_at(row, column) == money::printed(minor as int, seq![])
        }),
    ensures
        row_in(cols, row) matches Some(r) ==> money::minor_of(r.amount_text, 2) == Ok::<
            int,
            money::MoneyFault,
        >(r.amount_minor as int) && (r.amount_minor == minor || r.amount_minor == -minor),
{
    let none = Seq::<char>::empty();
    assert(money::symbol_code(none) is None) by {
        reveal_strlit("£");
        reveal_strlit("€");
        reveal_strlit("$");
        reveal_strlit("¥");
        reveal_strlit("zł");
        reveal_strlit("₱");
    }
    assert(statements::places("GBP"@) == 2) by {
        lemma_pounds_have_two_places();
    }
    statements::law_printed_money_comes_back(minor, none, "GBP"@);
    money::law_two_places_round_trip(minor);
    money::law_two_places_round_trip((-minor) as i64);
    table::law_money_is_as_shown(row, cols.debit, "GBP"@);
    table::law_money_is_as_shown(row, cols.credit, "GBP"@);
    assert(seq!['-'] + decimal::hundredths(minor as int) == decimal::hundredths(-minor));
}

proof fn lemma_pounds_have_two_places()
    ensures
        statements::places("GBP"@) == 2,
{
    reveal_strlit("GBP");
    reveal_strlit("JPY");
    reveal_strlit("KRW");
    reveal_strlit("ISK");
    reveal_strlit("CLP");
    reveal_strlit("VND");
    reveal_strlit("HUF");
    reveal_strlit("BHD");
    reveal_strlit("KWD");
    reveal_strlit("JOD");
    reveal_strlit("OMR");
    reveal_strlit("TND");
    assert("GBP"@[0] == 'G');
    assert("JPY"@[0] == 'J' && "KRW"@[0] == 'K' && "ISK"@[0] == 'I' && "CLP"@[0] == 'C');
    assert("VND"@[0] == 'V' && "HUF"@[0] == 'H' && "BHD"@[0] == 'B' && "KWD"@[0] == 'K');
    assert("JOD"@[0] == 'J' && "OMR"@[0] == 'O' && "TND"@[0] == 'T');
}

/// Each column is the one whose header has its name.
pub proof fn law_columns_have_their_names(header: Seq<Seq<char>>)
    requires
        header.len() <= usize::MAX,
    ensures
        columns_in(header) matches Some(cols) ==> {
            &&& table::is_column(header, "Transaction Date"@, Some(cols.date)) || table::is_column(
                header,
                "Transaction Date"@,
                None,
            ) && table::is_column(header, "Date"@, Some(cols.date))
            &&& table::is_column(header, "Transaction Type"@, cols.transaction_type)
            &&& table::is_column(header, "Sort Code"@, cols.sort_code)
            &&& table::is_column(header, "Account Number"@, cols.account_number)
            &&& if table::is_column(header, "Transaction Description"@, None) {
                table::is_column(header, "Description"@, cols.description)
            } else {
                table::is_column(header, "Transaction Description"@, cols.description)
            }
            &&& table::is_column(header, "Debit Amount"@, cols.debit)
            &&& table::is_column(header, "Credit Amount"@, cols.credit)
            &&& table::is_column(header, "Balance"@, cols.balance)
        },
        columns_in(header) is None ==> table::is_column(header, "Transaction Date"@, None)
            && table::is_column(header, "Date"@, None),
{
    table::lemma_column_of_name(header, "Transaction Date"@);
    table::lemma_column_of_name(header, "Date"@);
    table::lemma_column_of_name(header, "Transaction Type"@);
    table::lemma_column_of_name(header, "Sort Code"@);
    table::lemma_column_of_name(header, "Account Number"@);
    table::lemma_column_of_name(header, "Transaction Description"@);
    table::lemma_column_of_name(header, "Description"@);
    table::lemma_column_of_name(header, "Debit Amount"@);
    table::lemma_column_of_name(header, "Credit Amount"@);
    table::lemma_column_of_name(header, "Balance"@);
    if let Some(c) = col(header, "Transaction Description"@) {
        assert(text::alike(text::trimmed(header[c as int]), "Transaction Description"@));
    }
}

/// The account is that of the first dated row, and is named by the digits of its
/// sort code and number: rows with the same digits are of one account, and what is
/// shown of it is the end of its key.
pub proof fn law_account_is_named_by_its_number(
    cols: Columns,
    row: Seq<Seq<char>>,
    other: Seq<Seq<char>>,
)
    ensures
        ({
            let (a, b) = (account_of(cols, row), account_of(cols, other));
            let (sort, number) = (digits_of(row, cols.sort_code), digits_of(row, cols.account_number));
            &&& sort == digits_of(other, cols.sort_code) && number == digits_of(
                other,
                cols.account_number,
            ) ==> a == b
            &&& sort.len() + number.len() > 0 ==> a.account_key == "lloyds:gb:"@ + sort + number
            &&& number.len() >= 4 <==> a.identifier_tail is Some
            &&& a.identifier_tail matches Some(tail) ==> tail.len() == 4
                && tail == a.account_key.skip(a.account_key.len() - 4) && a.display_name
                == "Lloyds ..."@ + tail
            &&& a.currency == "GBP"@
            &&& a.institution == "Lloyds"@
            &&& a.account_type == AccountType::Current
            &&& a.rows.len() == 0
        }),
{
    let a = account_of(cols, row);
    let (sort, number) = (digits_of(row, cols.sort_code), digits_of(row, cols.account_number));
    if number.len() >= 4 {
        assert(a.account_key.skip(a.account_key.len() - 4) == number.skip(number.len() - 4));
    }
}

/// Reading goes row by row: what two parts of a file come to, they come to
/// together, in the order of the file.
pub proof fn law_rows_stand_in_order(
    cols: Columns,
    front: Seq<Seq<Seq<char>>>,
    back: Seq<Seq<Seq<char>>>,
)
    ensures
        rows_of(walked(cols, front + back)) == rows_of(walked(cols, front)) + rows_of(
            walked(cols, back),
        ),
        walked(cols, front + back).skipped == walked(cols, front).skipped + walked(
            cols,
            back,
        ).skipped,
    decreases back.len(),
{
    if back.len() == 0 {
        assert(front + back == front);
        assert(rows_of(walked(cols, back)) == Seq::<RowView>::empty());
    } else {
        let all = front + back;
        law_rows_stand_in_order(cols, front, back.drop_last());
        assert(all.drop_last() == front + back.drop_last());
        assert(all.last() == back.last());
        lemma_step_rows(cols, walked(cols, all.drop_last()), back.last());
        lemma_step_rows(cols, walked(cols, back.drop_last()), back.last());
    }
}

proof fn lemma_step_rows(cols: Columns, walk: Walk, row: Seq<Seq<char>>)
    ensures
        rows_of(step(cols, walk, row)) == rows_of(walk) + (match row_in(cols, row) {
            Some(r) => seq![r],
            None => seq![],
        }),
        step(cols, walk, row).skipped == walk.skipped + (if row_in(cols, row) is None && counts(
            cols,
            row,
        ) {
            seq![rows::skipped_line(row)]
        } else {
            seq![]
        }),
{
}

/// Everything below the first row that names both a debit and a credit column is
/// read by the columns of that row: it is a transaction of the one account, or is
/// listed as skipped, or is blank.
pub proof fn law_all_below_the_header_is_read(records: Seq<Seq<Seq<char>>>, k: int, j: int)
    requires
        table::header_place(records, "Debit Amount"@, "Credit Amount"@) == Some(k),
        columns_in(records[k]) is Some,
        0 <= k < j < records.len(),
    ensures
        LloydsCsv.reading(records) matches Ok(accounts) && {
            let cols = columns_in(records[k])->0;
            match row_in(cols, records[j]) {
                Some(r) => accounts.len() == 1 && accounts[0].rows.contains(r),
                None => table::is_blank(records[j]) || accounts.len() == 1
                    && accounts[0].skipped.contains(rows::skipped_line(records[j])),
            }
        },
{
    let body = records.skip(k + 1);
    assert(body[j - k - 1] == records[j]);
    law_every_row_is_accounted_for(columns_in(records[k])->0, body, j - k - 1);
}

} // verus!
