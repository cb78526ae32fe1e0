//! Revolut consolidated statement CSV.
//!
//! The file is not a flat table: a summaries block per currency wallet comes
//! first, then "Current Accounts Transaction Statements" holds one table per
//! wallet. Table shape differs between wallets: the base-currency wallet gets
//! single columns, the others get every money column twice (native, then
//! converted), so column positions are resolved from each table's own header
//! row.
use super::rows;
use super::rows::{AccountType, AccountView, ParsedAccount, ParsedRow, RowView};
use super::table;
use super::table::{blank, date_cell, money_cell, or_blank, trimmed_cell, units_cell};
use super::StatementParser;
use crate::money;
use crate::statements;
use crate::text;
use crate::text::{chars_of, code, is_text, join, same, starts_with, string_of, trim};
use vstd::prelude::*;
use vstd::slice::slice_subrange;

verus! {

pub struct RevolutCsv;

// ---------------------------------------------------------------------------
// Columns
// ---------------------------------------------------------------------------

/// The columns of a wallet's table.
pub struct Columns {
    pub date: usize,
    pub description: usize,
    pub category: usize,
    pub amount: usize,
    pub amount_base: Option<usize>,
    pub balance: Option<usize>,
    pub fee: Option<usize>,
}

/// The place of the header cell that reads `name`, after `skip` others that do.
pub open spec fn nth_place(header: Seq<Seq<char>>, name: Seq<char>, skip: nat) -> Option<int>
    decreases header.len(),
{
    if header.len() == 0 {
        None
    } else {
        let here = text::trimmed(header[0]) == name;
        if here && skip == 0 {
            Some(0)
        } else {
            match nth_place(
                header.drop_first(),
                name,
                if here {
                    (skip - 1) as nat
                } else {
                    skip
                },
            ) {
                Some(k) => Some(k + 1),
                None => None,
            }
        }
    }
}

/// The number of the column that reads `name`, after `skip` others that do.
pub open spec fn nth_column(header: Seq<Seq<char>>, name: Seq<char>, skip: nat) -> Option<usize> {
    table::column(nth_place(header, name, skip))
}

fn find(header: &[String], name: &str, skip: usize) -> (r: Option<usize>)
    ensures
        r == nth_column(text::views(header@), name@, skip as nat),
{
    let ghost all = text::views(header@);
    let mut left: usize = skip;
    let mut i: usize = 0;
    assert(all.skip(0) == all);
    while i < header.len()
        invariant
            i <= header@.len(),
            all == text::views(header@),
            match nth_place(all.skip(i as int), name@, left as nat) {
                Some(k) => nth_place(all, name@, skip as nat) == Some(k + i),
                None => nth_place(all, name@, skip as nat) is None,
            },
        decreases header@.len() - i,
    {
        assert(all.skip(i as int)[0] == header@[i as int]@);
        assert(all.skip(i as int).drop_first() == all.skip(i + 1));
        let c = chars_of(header[i].as_str());
        if is_text(trim(c.as_slice()), name) {
            if left == 0 {
                return Some(i);
            }
            left = left - 1;
        }
        i = i + 1;
    }
    None
}

/// The columns that a header row gives. Duplicated names mean native, then
/// converted, so the occurrence matters.
pub open spec fn columns_in(header: Seq<Seq<char>>) -> Option<Columns> {
    match (
        nth_column(header, "Date"@, 0),
        nth_column(header, "Description"@, 0),
        nth_column(header, "Category"@, 0),
        nth_column(header, "Money in/out"@, 0),
    ) {
        (Some(date), Some(description), Some(category), Some(amount)) => Some(
            Columns {
                date,
                description,
                category,
                amount,
                amount_base: nth_column(header, "Money in/out"@, 1),
                balance: nth_column(header, "Balance"@, 0),
                fee: nth_column(header, "Fees"@, 0),
            },
        ),
        _ => None,
    }
}

impl Columns {
    pub fn from_header(header: &[String]) -> (r: Option<Columns>)
        ensures
            r == columns_in(text::views(header@)),
    {
        let date = match find(header, "Date", 0) {
            Some(i) => i,
            None => {
                return None;
            },
        };
        let description = match find(header, "Description", 0) {
            Some(i) => i,
            None => {
                return None;
            },
        };
        let category = match find(header, "Category", 0) {
            Some(i) => i,
            None => {
                return None;
            },
        };
        let amount = match find(header, "Money in/out", 0) {
            Some(i) => i,
            None => {
                return None;
            },
        };
        Some(
            Columns {
                date,
                description,
                category,
                amount,
                amount_base: find(header, "Money in/out", 1),
                balance: find(header, "Balance", 0),
                fee: find(header, "Fees", 0),
            },
        )
    }
}

// ---------------------------------------------------------------------------
// Wallets
// ---------------------------------------------------------------------------

/// The currency that a cell such as `Personal Account (GBP)` announces.
pub open spec fn wallet(cell: Seq<char>) -> Option<Seq<char>> {
    let t = text::trimmed(cell);
    let front = "Personal Account ("@;
    if front.is_prefix_of(t) && t.len() > front.len() && t.last() == ')' {
        let inner = t.subrange(front.len() as int, t.len() - 1);
        if text::is_code(inner) {
            Some(inner)
        } else {
            None
        }
    } else {
        None
    }
}

pub fn wallet_currency(cell: &str) -> (r: Option<String>)
    ensures
        text::opt(r) == wallet(cell@),
{
    let all = chars_of(cell);
    let t = trim(all.as_slice());
    proof {
        reveal_strlit("Personal Account (");
    }
    let n: usize = t.len();
    if starts_with(t, "Personal Account (") && n > 18 && t[n - 1] == ')' {
        let inner = slice_subrange(t, 18, n - 1);
        if code(inner) {
            return Some(string_of(inner));
        }
    }
    None
}

/// The account of a wallet. All wallets share one IBAN, so currency is the only
/// thing that distinguishes them.
pub open spec fn wallet_account(currency: Seq<char>) -> AccountView {
    rows::empty_account(
        "revolut:gb:"@ + currency,
        "Revolut"@,
        currency,
        "Revolut "@ + currency,
        AccountType::Current,
    )
}

fn new_wallet(currency: &str) -> (r: ParsedAccount)
    ensures
        r@ == wallet_account(currency@),
{
    let mut key = text::owned("revolut:gb:");
    key.append(currency);
    let mut name = text::owned("Revolut ");
    name.append(currency);
    ParsedAccount::new(key.as_str(), "Revolut", currency, name.as_str(), AccountType::Current)
}

// ---------------------------------------------------------------------------
// Rows
// ---------------------------------------------------------------------------

/// The transaction in a row of a wallet's table. The category "Exchange" moves
/// money between the user's own wallets; "Top up" does not: that is money
/// arriving from an external card.
pub open spec fn row_in(cols: Columns, currency: Seq<char>, row: Seq<Seq<char>>) -> Option<
    RowView,
> {
    match (
        table::date_of(row, Some(cols.date)),
        table::money_of(row, Some(cols.amount), currency),
    ) {
        (Some(date), Some((minor, amount_text, row_currency))) => {
            let base = table::money_of(row, cols.amount_base, "GBP"@);
            let category = table::trimmed_in(row, Some(cols.category));
            Some(
                RowView {
                    date,
                    description: table::or_empty(table::trimmed_in(row, Some(cols.description))),
                    category,
                    reference: None,
                    external_id: None,
                    details: None,
                    amount_text,
                    amount_minor: minor as i64,
                    currency: row_currency,
                    base_amount_minor: match base {
                        Some((m, _, _)) => Some(m as i64),
                        None => None,
                    },
                    base_currency: match base {
                        Some((_, _, c)) => Some(c),
                        None => None,
                    },
                    balance_minor: table::units_of(row, cols.balance, currency),
                    fee_minor: match table::units_of(row, cols.fee, currency) {
                        Some(m) => m,
                        None => 0,
                    },
                    is_internal: category == Some("Exchange"@),
                    is_pending: false,
                    ordinal: 0,
                },
            )
        },
        _ => None,
    }
}

fn read_row(cols: &Columns, currency: &str, row: &[String]) -> (r: Option<ParsedRow>)
    ensures
        match r {
            Some(p) => row_in(*cols, currency@, text::views(row@)) == Some(p@) && p.date.valid()
                && rows::lacks_colon(p.amount_text@),
            None => row_in(*cols, currency@, text::views(row@)) is None,
        },
{
    let date = match date_cell(row, Some(cols.date)) {
        Some(d) => d,
        None => {
            return None;
        },
    };
    let (amount_minor, amount_text, row_currency) = match money_cell(
        row,
        Some(cols.amount),
        currency,
    ) {
        Some(m) => m,
        None => {
            return None;
        },
    };
    proof {
        table::lemma_money_lacks_colon(text::views(row@), Some(cols.amount), currency@);
    }
    let (base_amount_minor, base_currency) = match money_cell(row, cols.amount_base, "GBP") {
        Some((m, _, c)) => (Some(m), Some(c)),
        None => (None, None),
    };
    let category = trimmed_cell(row, Some(cols.category));
    let is_internal = match &category {
        Some(c) => same(c.as_str(), "Exchange"),
        None => false,
    };
    let fee_minor = match units_cell(row, cols.fee, currency) {
        Some(m) => m,
        None => 0,
    };
    let parsed = ParsedRow {
        date,
        description: or_blank(trimmed_cell(row, Some(cols.description))),
        category,
        reference: None,
        external_id: None,
        details: None,
        amount_text,
        amount_minor,
        currency: row_currency,
        base_amount_minor,
        base_currency,
        balance_minor: units_cell(row, cols.balance, currency),
        fee_minor,
        is_internal,
        is_pending: false,
        ordinal: 0,
    };
    assert(row_in(*cols, currency@, text::views(row@)) == Some(parsed@));
    Some(parsed)
}

// ---------------------------------------------------------------------------
// The walk through the file
// ---------------------------------------------------------------------------

/// What has been read so far: the wallets that are complete, the one being
/// read, the columns of its table, and the rows before any wallet.
#[verifier::ext_equal]
pub struct Walk {
    pub done: Seq<AccountView>,
    pub current: Option<AccountView>,
    pub columns: Option<Columns>,
    pub stray: Seq<Seq<char>>,
}

/// Whether a first cell marks a row that holds no transaction.
pub open spec fn is_filler(first: Seq<char>) -> bool {
    ||| first.len() == 0
    ||| "---"@.is_prefix_of(first)
    ||| first == "Total"@
    ||| first == "Transaction statement"@
}

pub fn filler(first: &str) -> (r: bool)
    ensures
        r == is_filler(first@),
{
    let c = chars_of(first);
    c.len() == 0 || starts_with(c.as_slice(), "---") || same(first, "Total") || same(
        first,
        "Transaction statement",
    )
}

/// The first cell of a row, without the space around it.
pub open spec fn first_cell(row: Seq<Seq<char>>) -> Seq<char> {
    table::or_empty(table::trimmed_in(row, Some(0)))
}

/// Whether a row is passed over: by its first cell, or, where that is empty, because
/// nothing else stands in it.
pub open spec fn is_passed_over(row: Seq<Seq<char>>) -> bool {
    is_filler(first_cell(row)) && (first_cell(row).len() > 0 || table::is_blank(row))
}

/// All the wallets read so far.
pub open spec fn wallets(walk: Walk) -> Seq<AccountView> {
    match walk.current {
        Some(a) => walk.done.push(a),
        None => walk.done,
    }
}

fn passed_over(first: &str, row: &[String]) -> (r: bool)
    requires
        first@ == first_cell(text::views(row@)),
    ensures
        r == is_passed_over(text::views(row@)),
{
    filler(first) && (first.unicode_len() > 0 || blank(row))
}

/// What has been read after one more row. A wallet's title opens its account, a
/// header row gives the columns, and every other row that is not passed over is a
/// transaction or is reported as skipped: also where its first cell is empty, where
/// the header lacks a column, and, by the first wallet, where it stands before any
/// wallet.
pub open spec fn step(walk: Walk, row: Seq<Seq<char>>) -> Walk {
    let first = first_cell(row);
    if wallet(first) is Some {
        Walk {
            done: wallets(walk),
            current: Some(
                AccountView { skipped: walk.stray, ..wallet_account(wallet(first)->0) },
            ),
            columns: None,
            stray: seq![],
        }
    } else if first == "Date"@ {
        Walk { columns: columns_in(row), ..walk }
    } else if is_passed_over(row) {
        walk
    } else {
        match walk.current {
            Some(account) => Walk {
                current: Some(with_row(account, walk.columns, row)),
                ..walk
            },
            None => Walk { stray: walk.stray.push(rows::skipped_line(row)), ..walk },
        }
    }
}

/// The transaction in a row of a wallet, if it is one. A row whose first cell is
/// empty is none.
pub open spec fn transaction(
    columns: Option<Columns>,
    currency: Seq<char>,
    row: Seq<Seq<char>>,
) -> Option<RowView> {
    match columns {
        Some(cols) => if first_cell(row).len() > 0 {
            row_in(cols, currency, row)
        } else {
            None
        },
        None => None,
    }
}

/// The account with one more row.
pub open spec fn with_row(
    account: AccountView,
    columns: Option<Columns>,
    row: Seq<Seq<char>>,
) -> AccountView {
    match transaction(columns, account.currency, row) {
        Some(r) => AccountView { rows: account.rows.push(r), ..account },
        None => AccountView {
            skipped: account.skipped.push(rows::skipped_line(row)),
            ..account
        },
    }
}

/// What has been read after all the given rows.
pub open spec fn walked(records: Seq<Seq<Seq<char>>>) -> Walk
    decreases records.len(),
{
    if records.len() == 0 {
        Walk { done: seq![], current: None, columns: None, stray: seq![] }
    } else {
        step(walked(records.drop_last()), records.last())
    }
}

/// The account that lists the rows of a file in which no wallet was found.
pub open spec fn no_wallet() -> AccountView {
    rows::empty_account(
        "revolut:gb:unknown"@,
        "Revolut"@,
        Seq::empty(),
        "Revolut"@,
        AccountType::Current,
    )
}

/// The accounts that have been read: the wallets, or where there is none and any
/// row was skipped, one that lists those rows.
pub open spec fn accounts_of(walk: Walk) -> Seq<AccountView> {
    if wallets(walk).len() == 0 && walk.stray.len() > 0 {
        seq![AccountView { skipped: walk.stray, ..no_wallet() }]
    } else {
        wallets(walk)
    }
}

/// Whether a row announces the tables.
pub open spec fn is_marker(row: Seq<Seq<char>>) -> bool {
    table::trimmed_in(row, Some(0)) == Some("Current Accounts Transaction Statements"@)
}

fn marker(row: &[String]) -> (r: bool)
    ensures
        r == is_marker(text::views(row@)),
{
    match trimmed_cell(row, Some(0)) {
        Some(c) => same(c.as_str(), "Current Accounts Transaction Statements"),
        None => false,
    }
}

/// The place of the first row that announces the tables.
pub open spec fn marker_place(records: Seq<Seq<Seq<char>>>) -> Option<int>
    decreases records.len(),
{
    if records.len() == 0 {
        None
    } else if is_marker(records[0]) {
        Some(0)
    } else {
        match marker_place(records.drop_first()) {
            Some(k) => Some(k + 1),
            None => None,
        }
    }
}

pub fn find_marker(records: &[Vec<String>]) -> (r: Option<usize>)
    ensures
        match r {
            Some(k) => marker_place(table::cells(records@)) == Some(k as int) && k
                < records@.len(),
            None => marker_place(table::cells(records@)) is None,
        },
{
    let ghost all = table::cells(records@);
    let mut i: usize = 0;
    assert(all.skip(0) == all);
    while i < records.len()
        invariant
            i <= records@.len(),
            all == table::cells(records@),
            match marker_place(all.skip(i as int)) {
                Some(k) => marker_place(all) == Some(k + i),
                None => marker_place(all) is None,
            },
        decreases records@.len() - i,
    {
        assert(all.skip(i as int)[0] == text::views(records@[i as int]@));
        assert(all.skip(i as int).drop_first() == all.skip(i + 1));
        if marker(records[i].as_slice()) {
            return Some(i);
        }
        i = i + 1;
    }
    None
}

/// The place of the first row after the announcement, or after the first row
/// where there is no announcement.
pub open spec fn tables_start(records: Seq<Seq<Seq<char>>>) -> int {
    match marker_place(records) {
        Some(k) => k + 1,
        None => 1,
    }
}

/// The view of the wallet being read.
spec fn current_view(current: Option<ParsedAccount>) -> Option<AccountView> {
    match current {
        Some(a) => Some(a@),
        None => None,
    }
}

/// Whether all that has been read is well-formed.
spec fn walk_sound(walk: Walk) -> bool {
    statements::all_accounts_well_formed(walk.done) && match walk.current {
        Some(a) => rows::well_formed(a.rows),
        None => true,
    }
}

impl StatementParser for RevolutCsv {
    open spec fn source_name(&self) -> Seq<char> {
        "revolut_csv"@
    }

    open spec fn label_name(&self) -> Seq<char> {
        "Revolut"@
    }

    open spec fn claims(&self, records: Seq<Seq<Seq<char>>>) -> bool {
        marker_place(records) is Some
    }

    open spec fn readable(&self, records: Seq<Seq<Seq<char>>>) -> bool {
        records.len() > 0
    }

    open spec fn reading(&self, records: Seq<Seq<Seq<char>>>) -> Result<
        Seq<AccountView>,
        Seq<char>,
    > {
        Ok(accounts_of(walked(records.skip(tables_start(records)))))
    }

    proof fn claimed_is_readable(&self, records: Seq<Seq<Seq<char>>>) {
    }

    fn source(&self) -> (r: &'static str) {
        "revolut_csv"
    }

    fn label(&self) -> (r: &'static str) {
        "Revolut"
    }

    fn detect(&self, records: &[Vec<String>]) -> (r: bool) {
        find_marker(records).is_some()
    }

    fn parse(&self, records: &[Vec<String>]) -> (r: Result<Vec<ParsedAccount>, &'static str>) {
        let count: usize = records.len();
        let start: usize = match find_marker(records) {
            Some(k) => k + 1,
            None => 1,
        };
        let ghost all = table::cells(records@);
        let ghost body = all.skip(start as int);
        let mut accounts: Vec<ParsedAccount> = Vec::new();
        let mut current: Option<ParsedAccount> = None;
        let mut columns: Option<Columns> = None;
        let mut stray: Vec<String> = Vec::new();
        let mut i: usize = start;
        assert(text::views(stray@) == Seq::<Seq<char>>::empty());
        assert(body.take(0) == Seq::<Seq<Seq<char>>>::empty());
        assert(rows::account_views(accounts@) == Seq::<AccountView>::empty());
        while i < count
            invariant
                count == records@.len(),
                start <= i <= records@.len(),
                all == table::cells(records@),
                body == all.skip(start as int),
                walked(body.take(i - start)) == (Walk {
                    done: rows::account_views(accounts@),
                    current: current_view(current),
                    columns,
                    stray: text::views(stray@),
                }),
                walk_sound(walked(body.take(i - start))),
            decreases records@.len() - i,
        {
            let row = records[i].as_slice();
            let ghost cells = text::views(row@);
            let ghost walk = walked(body.take(i - start));
            assert(body.take(i - start + 1).drop_last() == body.take(i - start));
            assert(body.take(i - start + 1).last() == cells);
            assert(walked(body.take(i - start + 1)) == step(walk, cells));
            i = i + 1;
            let first = or_blank(trimmed_cell(row, Some(0)));
            if let Some(currency) = wallet_currency(first.as_str()) {
                let ghost before = accounts@;
                if let Some(account) = current {
                    accounts.push(account);
                    assert(rows::account_views(accounts@) == rows::account_views(before).push(
                        account@,
                    ));
                }
                let mut opened = new_wallet(currency.as_str());
                opened.skipped = stray;
                current = Some(opened);
                columns = None;
                stray = Vec::new();
                assert(text::views(stray@) == Seq::<Seq<char>>::empty());
            } else if same(first.as_str(), "Date") {
                columns = Columns::from_header(row);
            } else if !passed_over(first.as_str(), row) {
                let ghost lost = stray@;
                if let Some(account) = &mut current {
                    let read = match &columns {
                        Some(cols) => if first.as_str().unicode_len() > 0 {
                            read_row(cols, account.currency.as_str(), row)
                        } else {
                            None
                        },
                        None => None,
                    };
                    match read {
                        Some(parsed) => {
                            account.push_row(parsed);
                        },
                        None => {
                            account.skip(row);
                        },
                    }
                } else {
                    stray.push(join(row, " | "));
                    assert(text::views(stray@) == text::views(lost).push(
                        rows::skipped_line(cells),
                    ));
                }
            }
        }
        assert(body.take(i - start) == body);
        let ghost before = accounts@;
        if let Some(account) = current {
            accounts.push(account);
            assert(rows::account_views(accounts@) == rows::account_views(before).push(account@));
        }
        if accounts.len() == 0 && stray.len() > 0 {
            let mut unknown = ParsedAccount::new(
                "revolut:gb:unknown",
                "Revolut",
                "",
                "Revolut",
                AccountType::Current,
            );
            proof {
                reveal_strlit("");
            }
            assert(""@ == Seq::<char>::empty());
            unknown.skipped = stray;
            accounts.push(unknown);
            assert(rows::account_views(accounts@) == accounts_of(walked(body)));
        }
        Ok(accounts)
    }
}

// ---------------------------------------------------------------------------
// Laws
// ---------------------------------------------------------------------------

/// Whether a row is a wallet's title, a header or passed over.
pub open spec fn is_frame(row: Seq<Seq<char>>) -> bool {
    let first = first_cell(row);
    wallet(first) is Some || first == "Date"@ || is_passed_over(row)
}

/// Whether an account holds a row: as a transaction, or among those skipped.
pub open spec fn holds(account: AccountView, row: Seq<Seq<char>>) -> bool {
    ||| account.skipped.contains(rows::skipped_line(row))
    ||| exists|cols: Columns|
        (#[trigger] row_in(cols, account.currency, row)) is Some && account.rows.contains(
            row_in(cols, account.currency, row)->0,
        )
}

/// Whether any of some accounts holds a row.
pub open spec fn any_holds(accounts: Seq<AccountView>, row: Seq<Seq<char>>) -> bool {
    exists|w: int| 0 <= w < accounts.len() && holds(#[trigger] accounts[w], row)
}

/// How many transactions and skipped rows some accounts hold.
pub open spec fn held(accounts: Seq<AccountView>) -> nat
    decreases accounts.len(),
{
    if accounts.len() == 0 {
        0
    } else {
        held(accounts.drop_last()) + accounts.last().rows.len() + accounts.last().skipped.len()
    }
}

proof fn lemma_held_push(accounts: Seq<AccountView>, a: AccountView)
    ensures
        held(accounts.push(a)) == held(accounts) + a.rows.len() + a.skipped.len(),
{
    assert(accounts.push(a).drop_last() == accounts);
}

proof fn lemma_still_contained<A>(before: Seq<A>, item: A, more: A)
    requires
        before.contains(item),
    ensures
        before.push(more).contains(item),
{
    let i = choose|i: int| 0 <= i < before.len() && before[i] == item;
    assert(before.push(more)[i] == item);
}

/// What an account holds it still holds after one more row.
proof fn lemma_still_held(
    account: AccountView,
    columns: Option<Columns>,
    row: Seq<Seq<char>>,
    old_row: Seq<Seq<char>>,
)
    requires
        holds(account, old_row),
    ensures
        holds(with_row(account, columns, row), old_row),
{
    let line = rows::skipped_line(old_row);
    if account.skipped.contains(line) {
        lemma_still_contained(account.skipped, line, rows::skipped_line(row));
    } else {
        let cols = choose|cols: Columns|
            (#[trigger] row_in(cols, account.currency, old_row)) is Some && account.rows.contains(
                row_in(cols, account.currency, old_row)->0,
            );
        if let Some(r) = transaction(columns, account.currency, row) {
            lemma_still_contained(
                account.rows,
                row_in(cols, account.currency, old_row)->0,
                r,
            );
        }
        assert(row_in(cols, with_row(account, columns, row).currency, old_row) is Some);
    }
}

/// An account holds the row that it was just given.
proof fn lemma_new_held(account: AccountView, columns: Option<Columns>, row: Seq<Seq<char>>)
    ensures
        holds(with_row(account, columns, row), row),
{
    let after = with_row(account, columns, row);
    match transaction(columns, account.currency, row) {
        Some(r) => {
            assert(after.rows[after.rows.len() - 1] == r);
            assert(row_in(columns->0, after.currency, row) == Some(r));
        },
        None => {
            assert(after.skipped[after.skipped.len() - 1] == rows::skipped_line(row));
        },
    }
}

/// What a walk holds it still holds after one more row.
proof fn lemma_step_holds(walk: Walk, row: Seq<Seq<char>>, old_row: Seq<Seq<char>>)
    requires
        any_holds(wallets(walk), old_row) || walk.stray.contains(rows::skipped_line(old_row)),
    ensures
        any_holds(wallets(step(walk, row)), old_row) || step(walk, row).stray.contains(
            rows::skipped_line(old_row),
        ),
{
    let (before, after) = (wallets(walk), wallets(step(walk, row)));
    let line = rows::skipped_line(old_row);
    let first = first_cell(row);
    if any_holds(before, old_row) {
        let w = choose|w: int| 0 <= w < before.len() && holds(#[trigger] before[w], old_row);
        if walk.current is Some && w == before.len() - 1 && !is_frame(row) {
            lemma_still_held(before[w], walk.columns, row, old_row);
            assert(after[w] == with_row(before[w], walk.columns, row));
        } else {
            assert(after[w] == before[w]);
        }
        assert(holds(after[w], old_row));
    } else if wallet(first) is Some {
        let opened = after[after.len() - 1];
        assert(opened.skipped == walk.stray);
        assert(holds(opened, old_row));
    } else if !is_frame(row) && walk.current is None {
        lemma_still_contained(walk.stray, line, rows::skipped_line(row));
    }
}

proof fn lemma_row_is_held(records: Seq<Seq<Seq<char>>>, k: int)
    requires
        0 <= k < records.len(),
        !is_frame(records[k]),
    ensures
        any_holds(wallets(walked(records)), records[k]) || walked(records).stray.contains(
            rows::skipped_line(records[k]),
        ),
    decreases records.len(),
{
    let front = records.drop_last();
    let walk = walked(front);
    if k < front.len() {
        assert(front[k] == records[k]);
        lemma_row_is_held(front, k);
        lemma_step_holds(walk, records.last(), records[k]);
    } else {
        let row = records.last();
        let after = step(walk, row);
        assert(records[k] == row);
        match walk.current {
            Some(account) => {
                lemma_new_held(account, walk.columns, row);
                let w = wallets(after).len() - 1;
                assert(wallets(after)[w] == with_row(account, walk.columns, row));
            },
            None => {
                assert(after.stray[after.stray.len() - 1] == rows::skipped_line(row));
            },
        }
    }
}

/// Where there is any wallet, nothing is left over outside the wallets.
proof fn lemma_nothing_left_over(records: Seq<Seq<Seq<char>>>)
    ensures
        held(wallets(walked(records))) + walked(records).stray.len() == records.filter(
            |row: Seq<Seq<char>>| !is_frame(row),
        ).len(),
        wallets(walked(records)).len() > 0 ==> walked(records).stray.len() == 0,
        walked(records).current is None ==> walked(records).done.len() == 0,
    decreases records.len(),
{
    let f = |row: Seq<Seq<char>>| !is_frame(row);
    if records.len() == 0 {
        reveal(Seq::filter);
    } else {
        let front = records.drop_last();
        lemma_nothing_left_over(front);
        table::lemma_filter_last(records, f);
        let walk = walked(front);
        let after = step(walk, records.last());
        if let Some(a) = walk.current {
            lemma_held_push(walk.done, a);
        }
        if let Some(a) = after.current {
            lemma_held_push(after.done, a);
        }
    }
}

/// The accounts hold as many transactions and skipped rows as there are rows that
/// are no title and no header and are not passed over: none is lost, and none is
/// counted twice.
pub proof fn law_rows_add_up(records: Seq<Seq<Seq<char>>>)
    ensures
        held(accounts_of(walked(records))) == records.filter(
            |row: Seq<Seq<char>>| !is_frame(row),
        ).len(),
{
    lemma_nothing_left_over(records);
    let walk = walked(records);
    if wallets(walk).len() == 0 && walk.stray.len() > 0 {
        let lone = AccountView { skipped: walk.stray, ..no_wallet() };
        lemma_held_push(seq![], lone);
        assert(Seq::<AccountView>::empty().push(lone) == accounts_of(walk));
        assert(wallets(walk) == Seq::<AccountView>::empty());
    }
}

/// Nothing below the announcement is dropped in silence: every row is a title, a
/// header or passed over, or some account holds it as a transaction or lists it
/// among the skipped ones.
pub proof fn law_every_row_is_accounted_for(records: Seq<Seq<Seq<char>>>, k: int)
    requires
        0 <= k < records.len(),
    ensures
        is_frame(records[k]) || any_holds(accounts_of(walked(records)), records[k]),
{
    if !is_frame(records[k]) {
        lemma_row_is_held(records, k);
        lemma_nothing_left_over(records);
        let walk = walked(records);
        if wallets(walk).len() == 0 {
            assert(holds(accounts_of(walk)[0], records[k]));
        }
    }
}

/// Whether an account is that of a wallet: its key is made of its currency, and of
/// its rows exactly those of the category "Exchange" are internal.
pub open spec fn is_wallet(account: AccountView) -> bool {
    &&& text::is_code(account.currency)
    &&& account.account_key == "revolut:gb:"@ + account.currency
    &&& forall|i: int|
        0 <= i < account.rows.len() ==> (#[trigger] account.rows[i]).is_internal == (
        account.rows[i].category == Some("Exchange"@))
}

proof fn lemma_all_are_wallets(records: Seq<Seq<Seq<char>>>)
    ensures
        forall|w: int|
            0 <= w < wallets(walked(records)).len() ==> is_wallet(
                #[trigger] wallets(walked(records))[w],
            ),
    decreases records.len(),
{
    if records.len() > 0 {
        let row = records.last();
        let walk = walked(records.drop_last());
        let after = step(walk, row);
        lemma_all_are_wallets(records.drop_last());
        assert forall|w: int| 0 <= w < wallets(after).len() implies is_wallet(
            #[trigger] wallets(after)[w],
        ) by {
            if w < walk.done.len() {
                assert(wallets(after)[w] == wallets(walk)[w]);
            } else if let Some(account) = walk.current {
                assert(is_wallet(wallets(walk)[walk.done.len() as int]));
                let grown = with_row(account, walk.columns, row);
                assert forall|i: int| 0 <= i < grown.rows.len() implies (
                #[trigger] grown.rows[i]).is_internal == (grown.rows[i].category == Some(
                    "Exchange"@,
                )) by {
                    if i < account.rows.len() {
                        assert(grown.rows[i] == account.rows[i]);
                    }
                }
            }
        }
    }
}

proof fn lemma_finished_is_wallet(account: AccountView)
    requires
        is_wallet(account),
    ensures
        is_wallet(super::finished(account)),
{
    let before = account.rows;
    let sorted = rows::chronological(before);
    let after = super::finished(account).rows;
    assert forall|i: int| 0 <= i < after.len() implies (#[trigger] after[i]).is_internal == (
    after[i].category == Some("Exchange"@)) by {
        assert(sorted.len() == before.len());
        assert(after[i].is_internal == sorted[i].is_internal);
        assert(after[i].category == sorted[i].category);
        assert(sorted[i] == before[i] || sorted[i] == before[before.len() - 1 - i]);
    }
}

/// Wallets are told apart by their currency, and moves between them are not taken
/// for income or spending: the key of every account is made of its currency, and
/// exactly its rows of the category "Exchange" are internal, as it is read and as
/// it is imported. The one account of which that is not said holds no row: it lists
/// what was skipped of a file in which no wallet was found.
pub proof fn law_wallets_are_told_apart(records: Seq<Seq<Seq<char>>>, w: int)
    requires
        0 <= w < accounts_of(walked(records)).len(),
    ensures
        ({
            let account = accounts_of(walked(records))[w];
            ||| is_wallet(account) && is_wallet(super::finished(account))
            ||| wallets(walked(records)).len() == 0 && account == AccountView {
                skipped: walked(records).stray,
                ..no_wallet()
            }
        }),
{
    lemma_all_are_wallets(records);
    let walk = walked(records);
    if wallets(walk).len() > 0 || walk.stray.len() == 0 {
        assert(is_wallet(wallets(walk)[w]));
        lemma_finished_is_wallet(wallets(walk)[w]);
    }
}

// ---------------------------------------------------------------------------
// What a row shows
// ---------------------------------------------------------------------------

/// A row is a transaction exactly where its date and its amount can be read. Every
/// amount is what its cell shows, sign and all: the wallet's own in its currency,
/// the converted one in pounds, the balance, and the fee, which is nothing where
/// none is shown. Money that comes in comes in in both currencies. Date and texts
/// are those of their cells, and only the category says whether the row is
/// internal.
pub proof fn law_row_shows_its_cells(cols: Columns, currency: Seq<char>, row: Seq<Seq<char>>)
    ensures
        row_in(cols, currency, row) is Some <==> {
            &&& table::has_cell(row, Some(cols.date))
            &&& statements::statement_date(row[cols.date as int]) is Some
            &&& table::has_cell(row, Some(cols.amount))
            &&& statements::minor_in(row[cols.amount as int], currency) is Some
        },
        row_in(cols, currency, row) matches Some(r) ==> {
            &&& statements::statement_date(row[cols.date as int]) == Some(r.date)
            &&& table::shows(row, Some(cols.amount), currency, Some(r.amount_minor))
            &&& statements::minor_in(row[cols.amount as int], currency) == Some(
                (r.amount_minor as int, r.amount_text, r.currency),
            )
            &&& table::shows(row, cols.amount_base, "GBP"@, r.base_amount_minor)
            &&& r.base_currency is Some <==> r.base_amount_minor is Some
            &&& r.base_currency matches Some(base) ==> (statements::minor_in(
                table::text_at(row, cols.amount_base),
                "GBP"@,
            ) matches Some((_, _, named)) && base == named)
            &&& table::shows(row, cols.balance, currency, r.balance_minor)
            &&& table::shows(row, cols.fee, currency, Some(r.fee_minor)) || table::shows(
                row,
                cols.fee,
                currency,
                None,
            ) && r.fee_minor == 0
            &&& table::has_cell(row, Some(cols.description)) ==> r.description == text::trimmed(
                row[cols.description as int],
            )
            &&& !table::has_cell(row, Some(cols.description)) ==> r.description.len() == 0
            &&& r.category is Some <==> table::has_cell(row, Some(cols.category))
            &&& r.category matches Some(c) ==> c == text::trimmed(row[cols.category as int])
            &&& r.is_internal <==> table::has_cell(row, Some(cols.category)) && text::trimmed(
                row[cols.category as int],
            ) == "Exchange"@
            &&& r.reference is None
            &&& r.external_id is None
            &&& r.details is None
            &&& !r.is_pending
        },
{
    table::law_money_is_as_shown(row, Some(cols.amount), currency);
    table::law_money_is_as_shown(row, cols.amount_base, "GBP"@);
    table::law_money_is_as_shown(row, cols.balance, currency);
    table::law_money_is_as_shown(row, cols.fee, currency);
}

/// The converted amount is the one that is printed: where the cell prints so many
/// pence, in or out, the base amount is as many, with the same sign.
pub proof fn law_base_amount_is_the_printed_one(
    cols: Columns,
    currency: Seq<char>,
    row: Seq<Seq<char>>,
    minor: i64,
    symbol: Seq<char>,
)
    requires
        minor > i64::MIN,
        money::is_symbol(symbol),
        statements::places(statements::named_or(money::symbol_code(symbol), "GBP"@)) == 2,
        table::has_cell(row, cols.amount_base),
        table::text_at(row, cols.amount_base) == money::printed(minor as int, symbol),
    ensures
        row_in(cols, currency, row) matches Some(r) ==> r.base_amount_minor == Some(minor)
            && r.base_currency == Some(statements::named_or(money::symbol_code(symbol), "GBP"@)),
{
    statements::law_printed_money_comes_back(minor, symbol, "GBP"@);
}

/// How many of the first cells of a header read the name.
pub open spec fn named_before(header: Seq<Seq<char>>, name: Seq<char>, k: int) -> nat
    decreases k,
{
    if k <= 0 {
        0
    } else if text::trimmed(header[k - 1]) == name {
        named_before(header, name, k - 1) + 1
    } else {
        named_before(header, name, k - 1)
    }
}

proof fn lemma_named_before_rest(header: Seq<Seq<char>>, name: Seq<char>, k: int)
    requires
        0 < k <= header.len(),
    ensures
        named_before(header, name, k) == named_before(header.drop_first(), name, k - 1) + (
        if text::trimmed(header[0]) == name {
            1nat
        } else {
            0nat
        }),
    decreases k,
{
    if k > 1 {
        lemma_named_before_rest(header, name, k - 1);
        assert(header[k - 1] == header.drop_first()[k - 2]);
    } else {
        assert(named_before(header, name, 0) == 0);
        assert(named_before(header.drop_first(), name, 0) == 0);
    }
}

proof fn lemma_nth_place(header: Seq<Seq<char>>, name: Seq<char>, skip: nat)
    ensures
        match nth_place(header, name, skip) {
            Some(k) => 0 <= k < header.len() && text::trimmed(header[k]) == name && named_before(
                header,
                name,
                k,
            ) == skip,
            None => named_before(header, name, header.len() as int) <= skip,
        },
    decreases header.len(),
{
    if header.len() > 0 {
        let rest = header.drop_first();
        let here = text::trimmed(header[0]) == name;
        let left = if here {
            (skip - 1) as nat
        } else {
            skip
        };
        if here && skip == 0 {
        } else {
            lemma_nth_place(rest, name, left);
            match nth_place(rest, name, left) {
                Some(k) => {
                    assert(header[k + 1] == rest[k]);
                    lemma_named_before_rest(header, name, k + 1);
                },
                None => {
                    lemma_named_before_rest(header, name, header.len() as int);
                },
            }
        }
    }
}

/// Whether a column reads the name and so many before it do, or is missing where
/// there are not so many.
pub open spec fn is_nth_column(
    header: Seq<Seq<char>>,
    name: Seq<char>,
    skip: nat,
    column: Option<usize>,
) -> bool {
    match column {
        Some(c) => c < header.len() && text::trimmed(header[c as int]) == name && named_before(
            header,
            name,
            c as int,
        ) == skip,
        None => named_before(header, name, header.len() as int) <= skip,
    }
}

/// Each column is the one whose header has its name. Of the two that may be called
/// "Money in/out", the first is the wallet's own amount, and the second the
/// converted one.
pub proof fn law_columns_have_their_names(header: Seq<Seq<char>>)
    requires
        header.len() <= usize::MAX,
    ensures
        columns_in(header) matches Some(cols) ==> {
            &&& is_nth_column(header, "Date"@, 0, Some(cols.date))
            &&& is_nth_column(header, "Description"@, 0, Some(cols.description))
            &&& is_nth_column(header, "Category"@, 0, Some(cols.category))
            &&& is_nth_column(header, "Money in/out"@, 0, Some(cols.amount))
            &&& is_nth_column(header, "Money in/out"@, 1, cols.amount_base)
            &&& is_nth_column(header, "Balance"@, 0, cols.balance)
            &&& is_nth_column(header, "Fees"@, 0, cols.fee)
        },
        columns_in(header) is None ==> is_nth_column(header, "Date"@, 0, None) || is_nth_column(
            header,
            "Description"@,
            0,
            None,
        ) || is_nth_column(header, "Category"@, 0, None) || is_nth_column(
            header,
            "Money in/out"@,
            0,
            None,
        ),
{
    lemma_nth_place(header, "Date"@, 0);
    lemma_nth_place(header, "Description"@, 0);
    lemma_nth_place(header, "Category"@, 0);
    lemma_nth_place(header, "Money in/out"@, 0);
    lemma_nth_place(header, "Money in/out"@, 1);
    lemma_nth_place(header, "Balance"@, 0);
    lemma_nth_place(header, "Fees"@, 0);
}

/// A row that begins with a digit, as a dated one does, is neither a title nor a
/// header, and is never passed over.
pub proof fn law_rows_with_a_digit_count(row: Seq<Seq<char>>)
    requires
        row.len() > 0,
        text::trimmed(row[0]).len() > 0,
        text::is_digit(text::trimmed(row[0])[0]),
    ensures
        !is_frame(row),
{
    reveal_strlit("Personal Account (");
    reveal_strlit("Date");
    reveal_strlit("---");
    reveal_strlit("Total");
    reveal_strlit("Transaction statement");
    let first = first_cell(row);
    assert(first == text::trimmed(row[0]));
    assert("Personal Account ("@[0] == 'P' && "Date"@[0] == 'D' && "---"@[0] == '-');
    assert("Total"@[0] == 'T' && "Transaction statement"@[0] == 'T');
    if wallet(first) is Some {
        lemma_wallet_begins(row[0]);
    }
}

proof fn lemma_wallet_begins(cell: Seq<char>)
    requires
        wallet(text::trimmed(cell)) is Some,
    ensures
        text::trimmed(cell)[0] == 'P',
{
    reveal_strlit("Personal Account (");
    let t = text::trimmed(cell);
    text::lemma_trimmed_twice(cell);
    assert("Personal Account ("@[0] == 'P');
    assert("Personal Account ("@.is_prefix_of(t));
}

/// The wallet of a title is the code between its brackets.
pub proof fn law_titles_name_their_wallet(currency: Seq<char>)
    requires
        text::is_code(currency),
    ensures
        wallet("Personal Account ("@ + currency + seq![')']) == Some(currency),
{
    reveal_strlit("Personal Account (");
    let t = "Personal Account ("@ + currency + seq![')'];
    assert(t[0] == 'P' && t.last() == ')');
    money::lemma_trimmed_same(t);
    assert("Personal Account ("@.is_prefix_of(t));
    assert(t.subrange(18, t.len() - 1) == currency);
}

/// The transactions among the rows of a table, in order.
pub open spec fn table_rows(
    columns: Option<Columns>,
    currency: Seq<char>,
    body: Seq<Seq<Seq<char>>>,
) -> Seq<RowView>
    decreases body.len(),
{
    if body.len() == 0 {
        seq![]
    } else {
        let before = table_rows(columns, currency, body.drop_last());
        match (columns, first_cell(body.last()).len() > 0) {
            (Some(cols), true) => match row_in(cols, currency, body.last()) {
                Some(r) => before.push(r),
                None => before,
            },
            _ => before,
        }
    }
}

/// Whatever comes before it, a wallet's title, its header and its rows make an
/// account of that currency whose transactions are those of the rows, in their
/// order, read by that header; what was read before stands as it was.
pub proof fn law_a_table_is_a_wallet(
    front: Seq<Seq<Seq<char>>>,
    title: Seq<Seq<char>>,
    header: Seq<Seq<char>>,
    body: Seq<Seq<Seq<char>>>,
)
    requires
        wallet(first_cell(title)) is Some,
        wallet(first_cell(header)) is None,
        first_cell(header) == "Date"@,
        forall|i: int| 0 <= i < body.len() ==> !is_frame(#[trigger] body[i]),
    ensures
        ({
            let currency = wallet(first_cell(title))->0;
            let walk = walked(front.push(title).push(header) + body);
            &&& walk.done == wallets(walked(front))
            &&& walk.columns == columns_in(header)
            &&& walk.stray.len() == 0
            &&& walk.current matches Some(account) && account.currency == currency && account.rows
                == table_rows(columns_in(header), currency, body)
        }),
    decreases body.len(),
{
    let all = front.push(title).push(header) + body;
    if body.len() == 0 {
        assert(all == front.push(title).push(header));
        assert(all.drop_last() == front.push(title));
        assert(all.drop_last().drop_last() == front);
        reveal_with_fuel(walked, 3);
    } else {
        assert forall|i: int| 0 <= i < body.drop_last().len() implies !is_frame(
            #[trigger] body.drop_last()[i],
        ) by {
            assert(!is_frame(body[i]));
        }
        law_a_table_is_a_wallet(front, title, header, body.drop_last());
        assert(all.drop_last() == front.push(title).push(header) + body.drop_last());
        assert(all.last() == body.last());
        assert(!is_frame(body[body.len() - 1]));
    }
}

/// The tables stand below the first row whose first cell announces them.
pub proof fn law_tables_stand_below_the_announcement(records: Seq<Seq<Seq<char>>>)
    ensures
        match marker_place(records) {
            Some(k) => 0 <= k < records.len() && announces(records[k]) && forall|i: int|
                0 <= i < k ==> !announces(#[trigger] records[i]),
            None => forall|i: int| 0 <= i < records.len() ==> !announces(#[trigger] records[i]),
        },
    decreases records.len(),
{
    if records.len() > 0 && !is_marker(records[0]) {
        let rest = records.drop_first();
        law_tables_stand_below_the_announcement(rest);
        assert forall|i: int| 0 < i < records.len() implies #[trigger] records[i] == rest[i
            - 1] by {
        }
    }
}

/// Whether the first cell of a row announces the tables.
pub open spec fn announces(row: Seq<Seq<char>>) -> bool {
    row.len() > 0 && text::trimmed(row[0]) == "Current Accounts Transaction Statements"@
}

/// Every row below the announcement that begins with a digit is a transaction of
/// some account or is listed among the rows that one skipped.
pub proof fn law_all_below_the_announcement_is_read(
    records: Seq<Seq<Seq<char>>>,
    k: int,
    j: int,
)
    requires
        marker_place(records) == Some(k),
        0 <= k < j < records.len(),
        records[j].len() > 0,
        text::trimmed(records[j][0]).len() > 0,
        text::is_digit(text::trimmed(records[j][0])[0]),
    ensures
        RevolutCsv.reading(records) matches Ok(accounts) && any_holds(accounts, records[j]),
{
    let body = records.skip(k + 1);
    assert(body[j - k - 1] == records[j]);
    law_rows_with_a_digit_count(records[j]);
    law_every_row_is_accounted_for(body, j - k - 1);
}

} // verus!
