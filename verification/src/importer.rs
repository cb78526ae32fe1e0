//! What an import writes. Source-agnostic: it takes whatever a parser produced
//! and plans its storage identically, so adding a bank means adding a parser
//! only.
//!
//! Import is replace-by-range, scoped to (account, source, date range). The
//! statement is authoritative for its period, and merging is unsafe because
//! banks emit rows identical on every available field: Revolut can produce two
//! transactions matching on date, description, amount AND running balance, when
//! an intervening credit restores the balance between them.
//!
//! Scoping the delete by source matters: it means a Lloyds export covering July
//! never removes Amex rows from the same July.
use crate::calendar;
use crate::calendar::Date;
use crate::decimal;
use crate::decimal::hundredths_text;
use crate::json;
use crate::json::{write_object, Json, Scalar};
use crate::money;
use crate::statements;
use crate::statements::rows;
use crate::statements::rows::{
    has_balance_chain, verify_chain, AccountView, ParsedAccount, ParsedRow, RowView,
};
use crate::statements::table;
use crate::statements::{parse_records, read_records, StatementError, StatementParser};
use crate::text;
use crate::text::{copy_opt, owned};
use vstd::prelude::*;

verus! {

// ---------------------------------------------------------------------------
// Rows
// ---------------------------------------------------------------------------

/// The direction under which an amount is stored.
pub open spec fn direction_of(amount_minor: int) -> Seq<char> {
    if amount_minor < 0 {
        "DBIT"@
    } else {
        "CRDT"@
    }
}

pub fn direction(amount_minor: i64) -> (r: &'static str)
    ensures
        r@ == direction_of(amount_minor as int),
{
    if amount_minor < 0 {
        "DBIT"
    } else {
        "CRDT"
    }
}

/// A row as it is stored.
#[derive(Debug)]
pub struct StoredRow {
    pub row_key: String,
    pub booking_date: String,
    pub description: String,
    pub source_category: Option<String>,
    pub reference: Option<String>,
    pub amount_minor: i64,
    pub amount_text: String,
    pub currency: String,
    pub direction: &'static str,
    pub base_amount_minor: Option<i64>,
    pub base_currency: Option<String>,
    pub balance_minor: Option<i64>,
    pub fee_minor: i64,
    pub is_internal: i64,
    pub is_pending: i64,
    pub raw_json: String,
}

/// A row as it is stored, as plain values.
#[verifier::ext_equal]
pub struct StoredView {
    pub row_key: Seq<char>,
    pub booking_date: Seq<char>,
    pub description: Seq<char>,
    pub source_category: Option<Seq<char>>,
    pub reference: Option<Seq<char>>,
    pub amount_minor: i64,
    pub amount_text: Seq<char>,
    pub currency: Seq<char>,
    pub direction: Seq<char>,
    pub base_amount_minor: Option<i64>,
    pub base_currency: Option<Seq<char>>,
    pub balance_minor: Option<i64>,
    pub fee_minor: i64,
    pub is_internal: i64,
    pub is_pending: i64,
    pub raw_json: Seq<char>,
}

impl View for StoredRow {
    type V = StoredView;

    open spec fn view(&self) -> StoredView {
        StoredView {
            row_key: self.row_key@,
            booking_date: self.booking_date@,
            description: self.description@,
            source_category: text::opt(self.source_category),
            reference: text::opt(self.reference),
            amount_minor: self.amount_minor,
            amount_text: self.amount_text@,
            currency: self.currency@,
            direction: self.direction@,
            base_amount_minor: self.base_amount_minor,
            base_currency: text::opt(self.base_currency),
            balance_minor: self.balance_minor,
            fee_minor: self.fee_minor,
            is_internal: self.is_internal,
            is_pending: self.is_pending,
            raw_json: self.raw_json@,
        }
    }
}

/// The fields of a row that are kept as JSON.
pub open spec fn base_fields(row: RowView) -> Seq<(Seq<char>, Scalar)> {
    seq![
        ("date"@, Scalar::Text(row.date.iso())),
        ("description"@, Scalar::Text(row.description)),
        ("category"@, json::text_or_null(row.category)),
        ("amount"@, Scalar::Text(row.amount_text)),
        ("currency"@, Scalar::Text(row.currency)),
        ("balance_minor"@, json::number_or_null(row.balance_minor)),
        ("fee_minor"@, Scalar::Number(row.fee_minor)),
    ]
}

/// Those fields and the details, which have no column of their own: this is
/// where they can be mined.
pub open spec fn raw_fields(row: RowView) -> Seq<(Seq<char>, Scalar)> {
    base_fields(row).push(("details"@, json::text_or_null(row.details)))
}

/// A flag as it is stored.
pub open spec fn flag(b: bool) -> i64 {
    if b {
        1
    } else {
        0
    }
}

fn as_flag(b: bool) -> (r: i64)
    ensures
        r == flag(b),
{
    if b {
        1
    } else {
        0
    }
}

/// Whether a row is stored as it should be, under the given key and with the
/// given fields as JSON.
pub open spec fn stores(
    s: StoredRow,
    row: RowView,
    key: Seq<char>,
    fields: Seq<(Seq<char>, Scalar)>,
) -> bool {
    &&& s.row_key@ == key
    &&& s.booking_date@ == row.date.iso()
    &&& s.description@ == row.description
    &&& text::opt(s.source_category) == row.category
    &&& text::opt(s.reference) == row.reference
    &&& s.amount_minor == row.amount_minor
    &&& s.amount_text@ == row.amount_text
    &&& s.currency@ == row.currency
    &&& s.direction@ == direction_of(row.amount_minor as int)
    &&& s.base_amount_minor == row.base_amount_minor
    &&& text::opt(s.base_currency) == row.base_currency
    &&& s.balance_minor == row.balance_minor
    &&& s.fee_minor == row.fee_minor
    &&& s.is_internal == flag(row.is_internal)
    &&& s.is_pending == flag(row.is_pending)
    &&& s.raw_json@ == json::object_text(fields)
}

fn text_or_null(o: &Option<String>) -> (r: Json)
    ensures
        r@ == json::text_or_null(text::opt(*o)),
{
    match o {
        Some(s) => Json::Text(owned(s.as_str())),
        None => Json::Null,
    }
}

/// The fields of a row that are kept as JSON.
pub fn json_fields(
    date: &Date,
    description: &str,
    category: Json,
    amount_text: &str,
    currency: &str,
    balance_minor: Option<i64>,
    fee_minor: i64,
) -> (r: Vec<(String, Json)>)
    requires
        date.valid(),
    ensures
        json::fields_of(r@) == seq![
            ("date"@, Scalar::Text(date.iso())),
            ("description"@, Scalar::Text(description@)),
            ("category"@, category@),
            ("amount"@, Scalar::Text(amount_text@)),
            ("currency"@, Scalar::Text(currency@)),
            ("balance_minor"@, json::number_or_null(balance_minor)),
            ("fee_minor"@, Scalar::Number(fee_minor)),
        ],
{
    let mut fields: Vec<(String, Json)> = Vec::new();
    fields.push((owned("date"), Json::Text(date.to_iso())));
    fields.push((owned("description"), Json::Text(owned(description))));
    fields.push((owned("category"), category));
    fields.push((owned("amount"), Json::Text(owned(amount_text))));
    fields.push((owned("currency"), Json::Text(owned(currency))));
    let balance = match balance_minor {
        Some(b) => Json::Number(b),
        None => Json::Null,
    };
    fields.push((owned("balance_minor"), balance));
    fields.push((owned("fee_minor"), Json::Number(fee_minor)));
    fields
}

fn raw_json(row: &ParsedRow) -> (r: String)
    requires
        row.date.valid(),
    ensures
        r@ == json::object_text(raw_fields(row@)),
{
    let mut fields = json_fields(
        &row.date,
        row.description.as_str(),
        text_or_null(&row.category),
        row.amount_text.as_str(),
        row.currency.as_str(),
        row.balance_minor,
        row.fee_minor,
    );
    assert(json::fields_of(fields@) == base_fields(row@));
    let ghost before = fields@;
    fields.push((owned("details"), text_or_null(&row.details)));
    assert(json::fields_of(fields@) == json::fields_of(before).push(
        ("details"@, json::text_or_null(row@.details)),
    ));
    write_object(fields.as_slice())
}

/// How a row is stored.
pub fn stored_row(row: &ParsedRow, source: &str) -> (r: StoredRow)
    requires
        row.date.valid(),
    ensures
        stores(r, row@, rows::key_of(row@, source@), raw_fields(row@)),
{
    StoredRow {
        row_key: row.row_key(source),
        booking_date: row.date.to_iso(),
        description: owned(row.description.as_str()),
        source_category: copy_opt(&row.category),
        reference: copy_opt(&row.reference),
        amount_minor: row.amount_minor,
        amount_text: owned(row.amount_text.as_str()),
        currency: owned(row.currency.as_str()),
        direction: direction(row.amount_minor),
        base_amount_minor: row.base_amount_minor,
        base_currency: copy_opt(&row.base_currency),
        balance_minor: row.balance_minor,
        fee_minor: row.fee_minor,
        is_internal: as_flag(row.is_internal),
        is_pending: as_flag(row.is_pending),
        raw_json: raw_json(row),
    }
}

// ---------------------------------------------------------------------------
// The plan
// ---------------------------------------------------------------------------

/// An amount in minor units as it is stored in a batch.
pub fn minor_to_text(minor: i64) -> (r: String)
    ensures
        r@ == decimal::hundredths(minor as int),
{
    hundredths_text(minor)
}

/// An optional amount as it is stored in a batch.
pub open spec fn balance_text(balance: Option<i64>) -> Option<Seq<char>> {
    match balance {
        Some(b) => Some(decimal::hundredths(b as int)),
        None => None,
    }
}

pub fn optional_text(balance: Option<i64>) -> (r: Option<String>)
    ensures
        text::opt(r) == balance_text(balance),
{
    match balance {
        Some(b) => Some(minor_to_text(b)),
        None => None,
    }
}

/// All that an import of one account writes: the account, the batch, the rows
/// that replace those of the same account, source and period, and the balances
/// that the statement states.
#[derive(Debug)]
pub struct WritePlan {
    pub institution: String,
    pub country: String,
    pub account_key: String,
    pub currency: String,
    pub display_name: String,
    pub account_type: &'static str,
    pub identifier_tail: Option<String>,
    pub filename: String,
    pub source: String,
    pub period_start: Option<String>,
    pub period_end: Option<String>,
    pub rows_parsed: i64,
    pub opening_balance: Option<String>,
    pub closing_balance: Option<String>,
    pub rows: Vec<StoredRow>,
    pub chain_verified: i64,
    pub chain_breaks: i64,
    /// Whether the balances are recorded for the period.
    pub records_balances: bool,
    pub opening_minor: Option<i64>,
    pub closing_minor: Option<i64>,
}

/// The first and the last day of a period as they are stored.
pub open spec fn start_text(period: Option<(Date, Date)>) -> Option<Seq<char>> {
    match period {
        Some((from, _)) => Some(from.iso()),
        None => None,
    }
}

pub open spec fn end_text(period: Option<(Date, Date)>) -> Option<Seq<char>> {
    match period {
        Some((_, to)) => Some(to.iso()),
        None => None,
    }
}

/// Whether a plan is that of an account, apart from its rows and from what is
/// said of its balances.
pub open spec fn plans_account(
    plan: WritePlan,
    account: AccountView,
    source: Seq<char>,
    filename: Seq<char>,
    period: Option<(Date, Date)>,
) -> bool {
    &&& plan.institution@ == account.institution
    &&& plan.country@ == account.country
    &&& plan.account_key@ == account.account_key
    &&& plan.currency@ == account.currency
    &&& plan.display_name@ == account.display_name
    &&& plan.account_type@ == rows::stored_name(account.account_type)
    &&& text::opt(plan.identifier_tail) == account.identifier_tail
    &&& plan.filename@ == filename
    &&& plan.source@ == source
    &&& text::opt(plan.period_start) == start_text(period)
    &&& text::opt(plan.period_end) == end_text(period)
    &&& plan.rows_parsed == account.rows.len() as i64
    &&& text::opt(plan.opening_balance) == balance_text(account.opening_balance_minor)
    &&& text::opt(plan.closing_balance) == balance_text(account.closing_balance_minor)
    &&& plan.opening_minor == account.opening_balance_minor
    &&& plan.closing_minor == account.closing_balance_minor
}

/// Whether a plan is that of an account. The chain counts as verified only where
/// there is one, and the balances are recorded only then.
pub open spec fn plans(
    plan: WritePlan,
    account: AccountView,
    source: Seq<char>,
    filename: Seq<char>,
) -> bool {
    let broken = rows::breaks(account.opening_balance_minor, account.rows);
    let chained = rows::states_balance(account.rows);
    &&& plans_account(plan, account, source, filename, rows::span(account.rows))
    &&& plan.rows@.len() == account.rows.len()
    &&& forall|i: int|
        0 <= i < account.rows.len() ==> stores(
            #[trigger] plan.rows@[i],
            account.rows[i],
            rows::key_of(account.rows[i], source),
            raw_fields(account.rows[i]),
        )
    &&& plan.chain_verified == flag(broken.len() == 0 && chained)
    &&& plan.chain_breaks == broken.len() as i64
    &&& plan.records_balances == (account.rows.len() > 0 && chained)
}

fn stored_rows(account: &ParsedAccount, source: &str) -> (r: Vec<StoredRow>)
    requires
        rows::all_dated(account@.rows),
    ensures
        r@.len() == account@.rows.len(),
        forall|i: int|
            0 <= i < r@.len() ==> stores(
                #[trigger] r@[i],
                account@.rows[i],
                rows::key_of(account@.rows[i], source@),
                raw_fields(account@.rows[i]),
            ),
{
    let mut r: Vec<StoredRow> = Vec::new();
    let mut i: usize = 0;
    while i < account.rows.len()
        invariant
            i <= account.rows@.len(),
            rows::all_dated(account@.rows),
            r@.len() == i,
            forall|j: int|
                0 <= j < i ==> stores(
                    #[trigger] r@[j],
                    account@.rows[j],
                    rows::key_of(account@.rows[j], source@),
                    raw_fields(account@.rows[j]),
                ),
        decreases account.rows@.len() - i,
    {
        assert(account@.rows[i as int] == account.rows@[i as int]@);
        assert(account@.rows[i as int].date.valid());
        r.push(stored_row(&account.rows[i], source));
        i = i + 1;
    }
    r
}

/// What an import of an account writes.
pub fn plan_account(account: &ParsedAccount, source: &str, filename: &str) -> (r: WritePlan)
    requires
        rows::all_dated(account@.rows),
    ensures
        plans(r, account@, source@, filename@),
{
    let period = account.period();
    proof {
        rows::lemma_span_valid(account@.rows);
    }
    let (period_start, period_end) = match &period {
        Some((from, to)) => (Some(from.to_iso()), Some(to.to_iso())),
        None => (None, None),
    };
    let broken = verify_chain(account);
    let chained = has_balance_chain(account);
    assert(broken@.len() == rows::breaks(account@.opening_balance_minor, account@.rows).len());
    WritePlan {
        institution: owned(account.institution.as_str()),
        country: owned(account.country.as_str()),
        account_key: owned(account.account_key.as_str()),
        currency: owned(account.currency.as_str()),
        display_name: owned(account.display_name.as_str()),
        account_type: account.account_type.as_str(),
        identifier_tail: copy_opt(&account.identifier_tail),
        filename: owned(filename),
        source: owned(source),
        period_start,
        period_end,
        rows_parsed: account.rows.len() as i64,
        opening_balance: optional_text(account.opening_balance_minor),
        closing_balance: optional_text(account.closing_balance_minor),
        rows: stored_rows(account, source),
        chain_verified: as_flag(broken.len() == 0 && chained),
        chain_breaks: broken.len() as i64,
        records_balances: account.rows.len() > 0 && chained,
        opening_minor: account.opening_balance_minor,
        closing_minor: account.closing_balance_minor,
    }
}

// ---------------------------------------------------------------------------
// Reports
// ---------------------------------------------------------------------------

#[derive(Debug)]
pub struct ImportReport {
    pub label: String,
    pub account: String,
    pub parsed: usize,
    pub inserted: u64,
    pub replaced: u64,
    pub period: Option<(Date, Date)>,
    pub skipped: Vec<String>,
    pub chain_breaks: Vec<String>,
    pub chain_available: bool,
    pub closing_balance: Option<i64>,
}

impl Default for ImportReport {
    fn default() -> (r: ImportReport)
        ensures
            r.label@ == Seq::<char>::empty(),
            r.account@ == Seq::<char>::empty(),
            r.parsed == 0,
            r.inserted == 0,
            r.replaced == 0,
            r.period is None,
            r.skipped@ == Seq::<String>::empty(),
            r.chain_breaks@ == Seq::<String>::empty(),
            !r.chain_available,
            r.closing_balance is None,
    {
        ImportReport {
            label: String::new(),
            account: String::new(),
            parsed: 0,
            inserted: 0,
            replaced: 0,
            period: None,
            skipped: Vec::new(),
            chain_breaks: Vec::new(),
            chain_available: false,
            closing_balance: None,
        }
    }
}

/// Whether a report is that of an account of which nothing was written yet.
pub open spec fn reports(report: ImportReport, account: AccountView, label: Seq<char>) -> bool {
    &&& report.label@ == label
    &&& report.account@ == account.display_name
    &&& report.parsed == account.rows.len()
    &&& report.inserted == 0
    &&& report.replaced == 0
    &&& report.period == rows::span(account.rows)
    &&& text::views(report.skipped@) == account.skipped
    &&& text::views(report.chain_breaks@) == rows::breaks(
        account.opening_balance_minor,
        account.rows,
    )
    &&& report.chain_available == rows::states_balance(account.rows)
    &&& report.closing_balance == account.closing_balance_minor
}

fn copy_all(v: &Vec<String>) -> (r: Vec<String>)
    ensures
        text::views(r@) == text::views(v@),
{
    let mut r: Vec<String> = Vec::new();
    let mut i: usize = 0;
    while i < v.len()
        invariant
            i <= v@.len(),
            text::views(r@) == text::views(v@).take(i as int),
        decreases v@.len() - i,
    {
        let ghost before = r@;
        r.push(owned(v[i].as_str()));
        assert(text::views(r@) == text::views(before).push(v@[i as int]@));
        assert(text::views(v@).take(i + 1) == text::views(v@).take(i as int).push(v@[i as int]@));
        i = i + 1;
    }
    assert(text::views(v@).take(i as int) == text::views(v@));
    r
}

/// The report on an account of which nothing was written yet.
pub fn report_on(account: &ParsedAccount, label: &str) -> (r: ImportReport)
    requires
        rows::all_dated(account@.rows),
    ensures
        reports(r, account@, label@),
{
    ImportReport {
        label: owned(label),
        account: owned(account.display_name.as_str()),
        parsed: account.rows.len(),
        inserted: 0,
        replaced: 0,
        period: account.period(),
        skipped: copy_all(&account.skipped),
        chain_breaks: verify_chain(account),
        chain_available: has_balance_chain(account),
        closing_balance: account.closing_balance_minor,
    }
}

// ---------------------------------------------------------------------------
// The import of a file
// ---------------------------------------------------------------------------

/// One account of a file: what is reported, and what is written of it. Nothing is
/// written of an account of which no row was read.
#[derive(Debug)]
pub struct AccountImport {
    pub report: ImportReport,
    pub plan: Option<WritePlan>,
}

pub enum ImportError {
    Statement(StatementError),
    /// The file was recognised, as the labelled bank's, but holds no
    /// transactions. The reports list the rows that were skipped.
    NoTransactions(&'static str, Vec<ImportReport>),
}

/// What of an account is written: all that is planned, and on a dry run nothing.
pub open spec fn written(account: AccountImport, dry_run: bool) -> Option<WritePlan> {
    if dry_run {
        None
    } else {
        account.plan
    }
}

/// The report on an account after a run. How many rows were inserted and replaced
/// counts only where anything was written.
pub open spec fn report_after(
    account: AccountImport,
    dry_run: bool,
    inserted: u64,
    replaced: u64,
) -> ImportReport {
    if written(account, dry_run) is Some {
        ImportReport { inserted, replaced, ..account.report }
    } else {
        account.report
    }
}

impl AccountImport {
    /// What is to be written of the account.
    pub fn to_write(&self, dry_run: bool) -> (r: Option<&WritePlan>)
        ensures
            match r {
                Some(plan) => written(*self, dry_run) == Some(*plan),
                None => written(*self, dry_run) is None,
            },
    {
        if dry_run {
            None
        } else {
            self.plan.as_ref()
        }
    }

    /// The report on the account, once the rows have been inserted and replaced.
    pub fn done(self, dry_run: bool, inserted: u64, replaced: u64) -> (r: ImportReport)
        ensures
            r == report_after(self, dry_run, inserted, replaced),
    {
        let wrote = self.to_write(dry_run).is_some();
        let mut report = self.report;
        if wrote {
            report.inserted = inserted;
            report.replaced = replaced;
        }
        report
    }
}

/// What the records of a file come to: the accounts that hold rows, in order,
/// each with its report and its plan, and behind them the reports on those of
/// which rows were skipped and none was read.
pub open spec fn imports(
    r: Result<Vec<AccountImport>, ImportError>,
    records: Seq<Seq<Seq<char>>>,
    filename: Seq<char>,
) -> bool {
    match statements::claimant(statements::parser_order(), records) {
        None => r matches Err(ImportError::Statement(e)) && e is Unrecognised,
        Some(parser) => match parser.reading(records) {
            Err(message) => r matches Err(ImportError::Statement(StatementError::Header(m))) && m@
                == message,
            Ok(read) => {
                let accounts = statements::kept(read);
                let unread = statements::unread(read);
                let n = accounts.len();
                if n == 0 {
                    &&& r matches Err(ImportError::NoTransactions(label, lost))
                    &&& label@ == parser.label_name()
                    &&& lost@.len() == unread.len()
                    &&& forall|i: int|
                        0 <= i < unread.len() ==> reports(
                            #[trigger] lost@[i],
                            unread[i],
                            parser.label_name(),
                        )
                } else {
                    &&& r is Ok
                    &&& r->Ok_0@.len() == n + unread.len()
                    &&& forall|i: int|
                        0 <= i < n ==> reports(
                            (#[trigger] r->Ok_0@[i]).report,
                            accounts[i],
                            parser.label_name(),
                        ) && r->Ok_0@[i].plan is Some && plans(
                            r->Ok_0@[i].plan->0,
                            accounts[i],
                            parser.source_name(),
                            filename,
                        )
                    &&& forall|i: int|
                        n <= i < n + unread.len() ==> reports(
                            (#[trigger] r->Ok_0@[i]).report,
                            unread[i - n],
                            parser.label_name(),
                        ) && r->Ok_0@[i].plan is None
                }
            },
        },
    }
}

/// The reports that come of an import, whether or not anything is written.
pub open spec fn all_reports(r: Result<Vec<AccountImport>, ImportError>) -> Seq<ImportReport> {
    match r {
        Ok(imported) => Seq::new(imported@.len(), |i: int| imported@[i].report),
        Err(ImportError::NoTransactions(_, lost)) => lost@,
        Err(_) => seq![],
    }
}

/// Whether some report is on an account, under its name and with exactly the rows
/// of it that were skipped.
pub open spec fn is_reported(given: Seq<ImportReport>, account: AccountView) -> bool {
    exists|i: int|
        0 <= i < given.len() && (#[trigger] given[i]).account@ == account.display_name
            && text::views(given[i].skipped@) == account.skipped
}

/// Whether nothing that was skipped goes unreported: every account of the file of
/// which any row was read or skipped has a report that lists what was skipped.
pub open spec fn skips_are_reported(
    r: Result<Vec<AccountImport>, ImportError>,
    records: Seq<Seq<Seq<char>>>,
) -> bool {
    match statements::claimant(statements::parser_order(), records) {
        None => true,
        Some(parser) => match parser.reading(records) {
            Ok(read) => forall|k: int|
                0 <= k < read.len() && ((#[trigger] read[k]).rows.len() > 0
                    || read[k].skipped.len() > 0) ==> is_reported(all_reports(r), read[k]),
            Err(_) => true,
        },
    }
}

/// An account of which any row was read is among those that are kept, and one of
/// which rows were only skipped among those that are not.
proof fn lemma_sorted_out(read: Seq<AccountView>, k: int)
    requires
        0 <= k < read.len(),
    ensures
        read[k].rows.len() > 0 ==> exists|i: int|
            0 <= i < statements::kept(read).len() && #[trigger] statements::kept(read)[i]
                == statements::finished(read[k]),
        read[k].rows.len() == 0 && read[k].skipped.len() > 0 ==> exists|i: int|
            0 <= i < statements::unread(read).len() && #[trigger] statements::unread(read)[i]
                == statements::finished(read[k]),
    decreases read.len(),
{
    let front = read.drop_last();
    let (kept, unread) = (statements::kept(read), statements::unread(read));
    let done = statements::finished(read[k]);
    assert(done.rows.len() == read[k].rows.len());
    assert(done.skipped == read[k].skipped);
    if k < front.len() {
        assert(front[k] == read[k]);
        lemma_sorted_out(front, k);
        if read[k].rows.len() > 0 {
            let i = choose|i: int|
                0 <= i < statements::kept(front).len() && #[trigger] statements::kept(front)[i]
                    == done;
            assert(kept[i] == done);
        } else if read[k].skipped.len() > 0 {
            let i = choose|i: int|
                0 <= i < statements::unread(front).len() && #[trigger] statements::unread(front)[i]
                    == done;
            assert(unread[i] == done);
        }
    } else {
        assert(read[k] == read.last());
        if read[k].rows.len() > 0 {
            assert(kept[kept.len() - 1] == done);
        } else if read[k].skipped.len() > 0 {
            assert(unread[unread.len() - 1] == done);
        }
    }
}

/// An import never drops a skipped row in silence.
pub proof fn law_skipped_rows_are_reported(
    r: Result<Vec<AccountImport>, ImportError>,
    records: Seq<Seq<Seq<char>>>,
    filename: Seq<char>,
)
    requires
        imports(r, records, filename),
    ensures
        skips_are_reported(r, records),
{
    if let Some(parser) = statements::claimant(statements::parser_order(), records) {
        if let Ok(read) = parser.reading(records) {
            let n = statements::kept(read).len();
            let given = all_reports(r);
            assert forall|k: int|
                0 <= k < read.len() && ((#[trigger] read[k]).rows.len() > 0
                    || read[k].skipped.len() > 0) implies is_reported(given, read[k]) by {
                lemma_sorted_out(read, k);
                let done = statements::finished(read[k]);
                if read[k].rows.len() > 0 {
                    let i = choose|i: int|
                        0 <= i < n && #[trigger] statements::kept(read)[i] == done;
                    assert(reports(r->Ok_0@[i].report, done, parser.label_name()));
                    assert(given[i] == r->Ok_0@[i].report);
                } else {
                    let i = choose|i: int|
                        0 <= i < statements::unread(read).len()
                            && #[trigger] statements::unread(read)[i] == done;
                    if n > 0 {
                        assert(reports(r->Ok_0@[n + i].report, done, parser.label_name()));
                        assert(given[n + i] == r->Ok_0@[n + i].report);
                    } else {
                        assert(reports(given[i], done, parser.label_name()));
                    }
                }
            }
        }
    }
}

/// The reports on accounts of which no row was read.
fn reports_on(accounts: &Vec<ParsedAccount>, label: &str) -> (r: Vec<ImportReport>)
    requires
        statements::no_rows(rows::account_views(accounts@)),
    ensures
        r@.len() == accounts@.len(),
        forall|i: int|
            0 <= i < r@.len() ==> reports(
                #[trigger] r@[i],
                rows::account_views(accounts@)[i],
                label@,
            ),
{
    let ghost views = rows::account_views(accounts@);
    let mut r: Vec<ImportReport> = Vec::new();
    let mut i: usize = 0;
    while i < accounts.len()
        invariant
            i <= accounts@.len(),
            views == rows::account_views(accounts@),
            statements::no_rows(views),
            r@.len() == i,
            forall|j: int| 0 <= j < i ==> reports(#[trigger] r@[j], views[j], label@),
        decreases accounts@.len() - i,
    {
        assert(views[i as int] == accounts@[i as int]@);
        r.push(report_on(&accounts[i], label));
        i = i + 1;
    }
    r
}

/// What an import of the records of a file writes and reports.
pub fn plan_records(records: &[Vec<String>], filename: &str) -> (r: Result<
    Vec<AccountImport>,
    ImportError,
>)
    ensures
        imports(r, table::cells(records@), filename@),
        skips_are_reported(r, table::cells(records@)),
{
    let detected = match parse_records(records) {
        Ok(d) => d,
        Err(e) => {
            return Err(ImportError::Statement(e));
        },
    };
    let ghost views = rows::account_views(detected.accounts@);
    let lost = reports_on(&detected.unread, detected.label);
    if detected.accounts.len() == 0 {
        assert(views.len() == 0);
        let failed = Err(ImportError::NoTransactions(detected.label, lost));
        proof {
            law_skipped_rows_are_reported(failed, table::cells(records@), filename@);
        }
        return failed;
    }
    let mut r: Vec<AccountImport> = Vec::new();
    let mut i: usize = 0;
    while i < detected.accounts.len()
        invariant
            i <= detected.accounts@.len(),
            views == rows::account_views(detected.accounts@),
            statements::all_accounts_well_formed(views),
            r@.len() == i,
            forall|j: int|
                0 <= j < i ==> reports((#[trigger] r@[j]).report, views[j], detected.label@)
                    && r@[j].plan is Some && plans(
                    r@[j].plan->0,
                    views[j],
                    detected.source@,
                    filename@,
                ),
        decreases detected.accounts@.len() - i,
    {
        let account = &detected.accounts[i];
        assert(views[i as int] == account@);
        proof {
            rows::lemma_well_formed_dated(account@.rows);
        }
        let report = report_on(account, detected.label);
        let plan = plan_account(account, detected.source, filename);
        r.push(AccountImport { report, plan: Some(plan) });
        i = i + 1;
    }
    let ghost read = r@;
    let ghost unread = lost@;
    for report in it: lost
        invariant
            it.seq() == unread,
            r@.len() == read.len() + it.index(),
            forall|j: int| 0 <= j < read.len() ==> #[trigger] r@[j] == read[j],
            forall|j: int|
                read.len() <= j < r@.len() ==> (#[trigger] r@[j]).report == unread[j - read.len()]
                    && r@[j].plan is None,
    {
        r.push(AccountImport { report, plan: None });
    }
    let result = Ok(r);
    proof {
        law_skipped_rows_are_reported(result, table::cells(records@), filename@);
    }
    result
}

/// What an import of a file writes and reports.
pub fn plan_file(content: &[u8], filename: &str) -> (r: Result<Vec<AccountImport>, ImportError>)
    ensures
        match statements::csv_records(true, false, content@) {
            Some(records) => imports(r, records, filename@) && skips_are_reported(r, records),
            None => r matches Err(ImportError::Statement(e)) && e is Unreadable,
        },
{
    match read_records(content) {
        Ok(records) => plan_records(records.as_slice(), filename),
        Err(e) => Err(ImportError::Statement(e)),
    }
}

// ---------------------------------------------------------------------------
// Laws
// ---------------------------------------------------------------------------

/// A stored transaction: whose it is, where it came from, and all that is stored
/// of it.
pub struct Entry {
    pub account_key: Seq<char>,
    pub source: Seq<char>,
    pub row: StoredView,
}

/// Whether a plan replaces a stored transaction: one of the same account and
/// source whose date is not outside the period.
pub open spec fn replaces(plan: WritePlan, e: Entry) -> bool {
    &&& e.account_key == plan.account_key@
    &&& e.source == plan.source@
    &&& plan.period_start is Some
    &&& plan.period_end is Some
    &&& !text::sorts_before(e.row.booking_date, plan.period_start->0@)
    &&& !text::sorts_before(plan.period_end->0@, e.row.booking_date)
}

/// The transaction that a row of a plan becomes.
pub open spec fn entry_of(plan: WritePlan, i: int) -> Entry {
    Entry { account_key: plan.account_key@, source: plan.source@, row: plan.rows@[i]@ }
}

/// Whether a transaction is among those that a plan writes.
pub open spec fn writes(plan: WritePlan, e: Entry) -> bool {
    exists|i: int| 0 <= i < plan.rows@.len() && e == #[trigger] entry_of(plan, i)
}

/// What is stored after an import: what was not replaced, and what was written.
pub open spec fn after_import(stored: Set<Entry>, plan: WritePlan) -> Set<Entry> {
    Set::new(|e: Entry| stored.contains(e) && !replaces(plan, e) || writes(plan, e))
}

/// What is stored after the accounts of a file were written, one after the other,
/// those that are.
pub open spec fn after_run(stored: Set<Entry>, plans: Seq<Option<WritePlan>>) -> Set<Entry>
    decreases plans.len(),
{
    if plans.len() == 0 {
        stored
    } else {
        let before = after_run(stored, plans.drop_last());
        match plans.last() {
            Some(plan) => after_import(before, plan),
            None => before,
        }
    }
}

/// What of each account of a file is written.
pub open spec fn all_written(imported: Seq<AccountImport>, dry_run: bool) -> Seq<
    Option<WritePlan>,
> {
    Seq::new(imported.len(), |i: int| written(imported[i], dry_run))
}

/// Whether two reports tell the same, apart from what was written.
pub open spec fn told_alike(a: ImportReport, b: ImportReport) -> bool {
    &&& a.label@ == b.label@
    &&& a.account@ == b.account@
    &&& a.parsed == b.parsed
    &&& a.period == b.period
    &&& text::views(a.skipped@) == text::views(b.skipped@)
    &&& text::views(a.chain_breaks@) == text::views(b.chain_breaks@)
    &&& a.chain_available == b.chain_available
    &&& a.closing_balance == b.closing_balance
}

/// Whether a plan writes nothing outside the period that it replaces.
pub open spec fn keeps_to_its_period(plan: WritePlan) -> bool {
    forall|i: int| 0 <= i < plan.rows@.len() ==> replaces(plan, #[trigger] entry_of(plan, i))
}

/// Whether two plans replace and write the same.
pub open spec fn agree(plan: WritePlan, again: WritePlan) -> bool {
    &&& plan.account_key@ == again.account_key@
    &&& plan.source@ == again.source@
    &&& text::opt(plan.period_start) == text::opt(again.period_start)
    &&& text::opt(plan.period_end) == text::opt(again.period_end)
    &&& plan.rows@.len() == again.rows@.len()
    &&& forall|i: int| 0 <= i < plan.rows@.len() ==> (#[trigger] plan.rows@[i])@ == again.rows@[i]@
}

/// A plan that keeps to its period, carried out again, changes nothing, and
/// leaves alone what it does not replace.
pub proof fn lemma_replaces_by_range(stored: Set<Entry>, plan: WritePlan, again: WritePlan)
    requires
        keeps_to_its_period(plan),
        agree(plan, again),
    ensures
        after_import(after_import(stored, plan), again) == after_import(stored, plan),
        forall|e: Entry|
            !replaces(plan, e) ==> #[trigger] after_import(stored, plan).contains(e)
                == stored.contains(e),
{
    assert forall|e: Entry| writes(plan, e) implies replaces(plan, e) by {
        let i = choose|i: int| 0 <= i < plan.rows@.len() && e == #[trigger] entry_of(plan, i);
        assert(replaces(plan, entry_of(plan, i)));
    }
    assert forall|i: int| 0 <= i < plan.rows@.len() implies #[trigger] entry_of(plan, i)
        == entry_of(again, i) by {
        assert(plan.rows@[i]@ == again.rows@[i]@);
    }
    assert forall|e: Entry| writes(again, e) == writes(plan, e) by {
        if writes(again, e) {
            let i = choose|i: int| 0 <= i < again.rows@.len() && e == #[trigger] entry_of(again, i);
            assert(e == entry_of(plan, i));
        }
        if writes(plan, e) {
            let i = choose|i: int| 0 <= i < plan.rows@.len() && e == #[trigger] entry_of(plan, i);
            assert(e == entry_of(again, i));
        }
    }
    assert(after_import(after_import(stored, plan), again) =~= after_import(stored, plan));
}

/// Whether the years of some rows are written with four digits.
pub open spec fn four_digit_years(rows: Seq<RowView>) -> bool {
    forall|i: int| 0 <= i < rows.len() ==> 0 <= (#[trigger] rows[i]).date.year <= 9999
}

/// A plan whose rows are stored under their dates, and whose period is the span of
/// those dates, keeps to its period.
pub proof fn lemma_span_covers_plan(
    plan: WritePlan,
    account: AccountView,
    source: Seq<char>,
    filename: Seq<char>,
)
    requires
        rows::all_dated(account.rows),
        four_digit_years(account.rows),
        plans_account(plan, account, source, filename, rows::span(account.rows)),
        plan.rows@.len() == account.rows.len(),
        forall|i: int|
            0 <= i < plan.rows@.len() ==> (#[trigger] plan.rows@[i]).booking_date@
                == account.rows[i].date.iso(),
    ensures
        keeps_to_its_period(plan),
{
    let rows = account.rows;
    assert forall|i: int| 0 <= i < plan.rows@.len() implies replaces(
        plan,
        #[trigger] entry_of(plan, i),
    ) by {
        let row = rows[i];
        rows::law_span_covers(rows);
        assert(row.date.valid());
        let (from, to) = (rows::earliest(rows), rows::latest(rows));
        rows::lemma_span_valid(rows);
        let a = choose|a: int| 0 <= a < rows.len() && (#[trigger] rows[a]).date == from;
        let b = choose|b: int| 0 <= b < rows.len() && (#[trigger] rows[b]).date == to;
        assert(0 <= rows[a].date.year <= 9999 && 0 <= rows[b].date.year <= 9999);
        assert(0 <= row.date.year <= 9999);
        calendar::law_iso_sorts_by_day(row.date, from);
        calendar::law_iso_sorts_by_day(to, row.date);
        assert(plan.rows@[i].booking_date@ == row.date.iso());
    }
}

/// Every row that an import writes lies in the period that it replaces.
pub proof fn law_rows_lie_in_the_period(
    plan: WritePlan,
    account: AccountView,
    source: Seq<char>,
    filename: Seq<char>,
)
    requires
        rows::all_dated(account.rows),
        four_digit_years(account.rows),
        plans(plan, account, source, filename),
    ensures
        keeps_to_its_period(plan),
{
    assert forall|i: int| 0 <= i < plan.rows@.len() implies (
    #[trigger] plan.rows@[i]).booking_date@ == account.rows[i].date.iso() by {
        let row = account.rows[i];
        assert(stores(plan.rows@[i], row, rows::key_of(row, source), raw_fields(row)));
    }
    lemma_span_covers_plan(plan, account, source, filename);
}

/// Importing a file again changes nothing: what it wrote is replaced by itself,
/// with the same contents.
pub proof fn law_importing_again_changes_nothing(
    stored: Set<Entry>,
    plan: WritePlan,
    again: WritePlan,
    account: AccountView,
    source: Seq<char>,
    filename: Seq<char>,
)
    requires
        rows::all_dated(account.rows),
        four_digit_years(account.rows),
        plans(plan, account, source, filename),
        plans(again, account, source, filename),
    ensures
        after_import(after_import(stored, plan), again) == after_import(stored, plan),
{
    law_rows_lie_in_the_period(plan, account, source, filename);
    assert forall|i: int| 0 <= i < plan.rows@.len() implies (#[trigger] plan.rows@[i])@
        == again.rows@[i]@ by {
        let row = account.rows[i];
        assert(stores(plan.rows@[i], row, rows::key_of(row, source), raw_fields(row)));
        assert(stores(again.rows@[i], row, rows::key_of(row, source), raw_fields(row)));
        assert(plan.rows@[i]@ =~= again.rows@[i]@);
    }
    lemma_replaces_by_range(stored, plan, again);
}

/// An import leaves alone what other accounts and other sources stored, and what
/// lies outside its period.
pub proof fn law_import_is_scoped(
    stored: Set<Entry>,
    plan: WritePlan,
    account: AccountView,
    source: Seq<char>,
    filename: Seq<char>,
    e: Entry,
)
    requires
        rows::all_dated(account.rows),
        four_digit_years(account.rows),
        plans(plan, account, source, filename),
        !replaces(plan, e),
    ensures
        after_import(stored, plan).contains(e) == stored.contains(e),
{
    law_rows_lie_in_the_period(plan, account, source, filename);
    lemma_replaces_by_range(stored, plan, plan);
}

/// Where no account is written, what is stored stays as it is.
pub proof fn lemma_nothing_written(stored: Set<Entry>, plans: Seq<Option<WritePlan>>)
    requires
        forall|i: int| 0 <= i < plans.len() ==> (#[trigger] plans[i]) is None,
    ensures
        after_run(stored, plans) == stored,
    decreases plans.len(),
{
    if plans.len() > 0 {
        assert(plans[plans.len() - 1] is None);
        lemma_nothing_written(stored, plans.drop_last());
    }
}

/// A dry run of a file and a real one come to the same, but that the dry run writes
/// nothing. Both succeed or both fail. Both report on the same accounts in the same
/// order, and their reports agree in all but the numbers of rows inserted and
/// replaced, which are zero on the dry run, whatever the writing came to.
pub proof fn law_dry_and_real_runs_agree(
    dry: Result<Vec<AccountImport>, ImportError>,
    full: Result<Vec<AccountImport>, ImportError>,
    records: Seq<Seq<Seq<char>>>,
    filename: Seq<char>,
    stored: Set<Entry>,
    inserted: u64,
    replaced: u64,
)
    requires
        imports(dry, records, filename),
        imports(full, records, filename),
    ensures
        dry is Ok == full is Ok,
        all_reports(dry).len() == all_reports(full).len(),
        forall|i: int|
            0 <= i < all_reports(dry).len() ==> told_alike(
                #[trigger] all_reports(dry)[i],
                all_reports(full)[i],
            ),
        dry is Ok ==> {
            &&& after_run(stored, all_written(dry->Ok_0@, true)) == stored
            &&& dry->Ok_0@.len() == full->Ok_0@.len()
            &&& forall|i: int|
                #![trigger dry->Ok_0@[i]]
                0 <= i < dry->Ok_0@.len() ==> {
                    let shown = report_after(dry->Ok_0@[i], true, inserted, replaced);
                    let told = report_after(full->Ok_0@[i], false, inserted, replaced);
                    &&& written(dry->Ok_0@[i], true) is None
                    &&& shown.inserted == 0
                    &&& shown.replaced == 0
                    &&& told_alike(shown, told)
                }
        },
{
    if let Some(parser) = statements::claimant(statements::parser_order(), records) {
        if let Ok(read) = parser.reading(records) {
            let label = parser.label_name();
            let (accounts, unread) = (statements::kept(read), statements::unread(read));
            let n = accounts.len();
            let (shown, told) = (all_reports(dry), all_reports(full));
            assert forall|i: int| 0 <= i < shown.len() implies told_alike(
                #[trigger] shown[i],
                told[i],
            ) && shown[i].inserted == 0 && shown[i].replaced == 0 by {
                if n == 0 {
                    assert(reports(shown[i], unread[i], label));
                    assert(reports(told[i], unread[i], label));
                } else {
                    let account = if i < n {
                        accounts[i]
                    } else {
                        unread[i - n]
                    };
                    assert(reports(dry->Ok_0@[i].report, account, label));
                    assert(reports(full->Ok_0@[i].report, account, label));
                }
            }
            if n > 0 {
                lemma_nothing_written(stored, all_written(dry->Ok_0@, true));
                assert forall|i: int|
                    #![trigger dry->Ok_0@[i]]
                    0 <= i < dry->Ok_0@.len() implies told_alike(
                    dry->Ok_0@[i].report,
                    full->Ok_0@[i].report,
                ) && dry->Ok_0@[i].report.inserted == 0 && dry->Ok_0@[i].report.replaced == 0 by {
                    assert(told_alike(shown[i], told[i]));
                }
            }
        }
    }
}

/// All that is kept of a row as JSON stands in the stored text under its name, the
/// details among it, which have no column of their own.
pub proof fn law_fields_are_kept(s: StoredRow, row: RowView, key: Seq<char>, i: int)
    requires
        stores(s, row, key, raw_fields(row)),
        0 <= i < raw_fields(row).len(),
    ensures
        s.raw_json@ == json::text_for(json::object_of(raw_fields(row))),
        json::member_of(json::object_of(raw_fields(row)), raw_fields(row)[i].0) == Some(
            json::scalar_tree(raw_fields(row)[i].1),
        ),
        json::member_of(json::object_of(raw_fields(row)), "details"@) == Some(
            json::scalar_tree(json::text_or_null(row.details)),
        ),
{
    reveal_strlit("date");
    reveal_strlit("description");
    reveal_strlit("category");
    reveal_strlit("amount");
    reveal_strlit("currency");
    reveal_strlit("balance_minor");
    reveal_strlit("fee_minor");
    reveal_strlit("details");
    let fields = raw_fields(row);
    assert(fields[0].0.len() == 4 && fields[1].0.len() == 11 && fields[2].0[1] == 'a');
    assert(fields[2].0.len() == 8 && fields[3].0.len() == 6 && fields[4].0.len() == 8);
    assert(fields[4].0[1] == 'u' && fields[5].0.len() == 13 && fields[6].0.len() == 9);
    assert(fields[7].0.len() == 7 && fields.len() == 8);
    json::lemma_field_stands(fields, i);
    json::lemma_field_stands(fields, 7);
}

// ---------------------------------------------------------------------------
// What is written is what was read
// ---------------------------------------------------------------------------

/// What is stored of a row is what the row says: its amounts with their signs, the
/// direction that goes with the sign, its day and its texts, and whether it is
/// internal or pending.
pub proof fn law_row_is_stored_as_read(
    s: StoredRow,
    row: RowView,
    key: Seq<char>,
    fields: Seq<(Seq<char>, Scalar)>,
)
    requires
        stores(s, row, key, fields),
    ensures
        s.row_key@ == key,
        s.booking_date@ == row.date.iso(),
        s.description@ == row.description,
        text::opt(s.source_category) == row.category,
        text::opt(s.reference) == row.reference,
        s.amount_minor == row.amount_minor,
        s.amount_text@ == row.amount_text,
        s.currency@ == row.currency,
        s.direction@ == "DBIT"@ <==> row.amount_minor < 0,
        s.direction@ == "CRDT"@ <==> row.amount_minor >= 0,
        s.base_amount_minor == row.base_amount_minor,
        text::opt(s.base_currency) == row.base_currency,
        s.balance_minor == row.balance_minor,
        s.fee_minor == row.fee_minor,
        s.is_internal == 1 <==> row.is_internal,
        s.is_internal == 0 <==> !row.is_internal,
        s.is_pending == 1 <==> row.is_pending,
        s.is_pending == 0 <==> !row.is_pending,
        s.raw_json@ == json::text_for(json::object_of(fields)),
{
    reveal_strlit("DBIT");
    reveal_strlit("CRDT");
    assert("DBIT"@[0] == 'D' && "CRDT"@[0] == 'C');
}

/// The sum of the amounts of stored rows.
pub open spec fn stored_total(stored: Seq<StoredRow>) -> int
    decreases stored.len(),
{
    if stored.len() == 0 {
        0
    } else {
        stored_total(stored.drop_last()) + stored.last().amount_minor
    }
}

/// Stored rows with the amounts of those that were read have their total.
pub proof fn lemma_stored_total(stored: Seq<StoredRow>, read: Seq<RowView>)
    requires
        stored.len() == read.len(),
        forall|i: int|
            0 <= i < stored.len() ==> (#[trigger] stored[i]).amount_minor == read[i].amount_minor,
    ensures
        stored_total(stored) == rows::total(read),
    decreases stored.len(),
{
    if stored.len() > 0 {
        assert(stored[stored.len() - 1].amount_minor == read[read.len() - 1].amount_minor);
        assert forall|i: int| 0 <= i < stored.drop_last().len() implies (
        #[trigger] stored.drop_last()[i]).amount_minor == read.drop_last()[i].amount_minor by {
            assert(stored[i].amount_minor == read[i].amount_minor);
        }
        lemma_stored_total(stored.drop_last(), read.drop_last());
    }
}

/// What is written of an account adds up to what was read of it: as many rows, with
/// the same total, in the same order, each under its own key. The batch says as many
/// rows, the period that they span, and the balances that were read; it counts as
/// verified exactly where some row states a balance and every balance follows, and
/// balances are recorded exactly where some row states one.
pub proof fn law_plan_adds_up(
    plan: WritePlan,
    account: AccountView,
    source: Seq<char>,
    filename: Seq<char>,
    i: int,
)
    requires
        plans(plan, account, source, filename),
        account.rows.len() <= i64::MAX,
    ensures
        plan.rows@.len() == account.rows.len(),
        plan.rows_parsed == account.rows.len(),
        stored_total(plan.rows@) == rows::total(account.rows),
        0 <= i < account.rows.len() ==> plan.rows@[i].row_key@ == rows::key_of(
            account.rows[i],
            source,
        ) && plan.rows@[i].amount_minor == account.rows[i].amount_minor
            && plan.rows@[i].balance_minor == account.rows[i].balance_minor
            && plan.rows@[i].base_amount_minor == account.rows[i].base_amount_minor
            && plan.rows@[i].booking_date@ == account.rows[i].date.iso(),
        plan.account_key@ == account.account_key,
        plan.source@ == source,
        plan.filename@ == filename,
        plan.currency@ == account.currency,
        plan.institution@ == account.institution,
        plan.country@ == account.country,
        plan.display_name@ == account.display_name,
        text::opt(plan.identifier_tail) == account.identifier_tail,
        plan.opening_minor == account.opening_balance_minor,
        plan.closing_minor == account.closing_balance_minor,
        text::opt(plan.period_start) == (if account.rows.len() > 0 {
            Some(rows::earliest(account.rows).iso())
        } else {
            None
        }),
        text::opt(plan.period_end) == (if account.rows.len() > 0 {
            Some(rows::latest(account.rows).iso())
        } else {
            None
        }),
        account.opening_balance_minor matches Some(b) && b > i64::MIN ==> (
        plan.opening_balance matches Some(t) && money::minor_of(t@, 2) == Ok::<
            int,
            money::MoneyFault,
        >(account.opening_balance_minor->0 as int)),
        account.closing_balance_minor matches Some(b) && b > i64::MIN ==> (
        plan.closing_balance matches Some(t) && money::minor_of(t@, 2) == Ok::<
            int,
            money::MoneyFault,
        >(account.closing_balance_minor->0 as int)),
        plan.chain_verified == 1 <==> (forall|k: int|
            0 <= k < account.rows.len() ==> rows::follows(
                rows::balance_before(account.opening_balance_minor, account.rows, k),
                #[trigger] account.rows[k],
            )) && (exists|k: int|
            0 <= k < account.rows.len() && (#[trigger] account.rows[k]).balance_minor is Some),
        plan.records_balances <==> exists|k: int|
            0 <= k < account.rows.len() && (#[trigger] account.rows[k]).balance_minor is Some,
{
    let read = account.rows;
    assert forall|k: int| 0 <= k < read.len() implies (
    #[trigger] plan.rows@[k]).amount_minor == read[k].amount_minor by {
        assert(stores(plan.rows@[k], read[k], rows::key_of(read[k], source), raw_fields(read[k])));
    }
    lemma_stored_total(plan.rows@, read);
    rows::law_whole_chain(account.opening_balance_minor, read);
    if 0 <= i < read.len() {
        assert(stores(plan.rows@[i], read[i], rows::key_of(read[i], source), raw_fields(read[i])));
    }
    if let Some(b) = account.opening_balance_minor {
        if b > i64::MIN {
            money::law_two_places_round_trip(b);
        }
    }
    if let Some(b) = account.closing_balance_minor {
        if b > i64::MIN {
            money::law_two_places_round_trip(b);
        }
    }
}

/// The report on an account says what is planned of it: as many rows, the period
/// that is replaced, and the closing balance that is stored; it lists a break exactly
/// where the plan counts one, and says that there is a chain exactly where balances
/// are recorded.
pub proof fn law_report_says_what_is_planned(
    report: ImportReport,
    plan: WritePlan,
    account: AccountView,
    label: Seq<char>,
    source: Seq<char>,
    filename: Seq<char>,
)
    requires
        reports(report, account, label),
        plans(plan, account, source, filename),
        account.rows.len() <= i64::MAX,
        rows::breaks(account.opening_balance_minor, account.rows).len() <= i64::MAX,
    ensures
        report.label@ == label,
        report.account@ == plan.display_name@,
        report.parsed == plan.rows_parsed,
        report.parsed == plan.rows@.len(),
        report.closing_balance == plan.closing_minor,
        report.chain_breaks@.len() == plan.chain_breaks,
        report.chain_available == plan.records_balances,
        plan.chain_verified == 1 <==> report.chain_available && report.chain_breaks@.len() == 0,
        text::opt(plan.period_start) == start_text(report.period),
        text::opt(plan.period_end) == end_text(report.period),
        text::views(report.skipped@) == account.skipped,
{
    assert(text::views(report.chain_breaks@).len() == report.chain_breaks@.len());
}

} // verus!
