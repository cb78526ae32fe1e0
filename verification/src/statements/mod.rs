//! Statement parsing: shared types, money handling, and the parser registry.
//!
//! A file is read once into rows, then offered to each parser's `detect` until
//! one claims it, so an import never needs to be told which bank a file came
//! from.
pub mod amex;
pub mod lloyds;
pub mod revolut;
pub mod rows;
pub mod table;

pub use amex::AmexCsv;
pub use lloyds::LloydsCsv;
pub use revolut::RevolutCsv;
pub use rows::{
    assign_ordinals, ensure_chronological, has_balance_chain, verify_chain, AccountType, AccountView,
    ParsedAccount, ParsedRow, RowView,
};

use crate::calendar;
use crate::calendar::{parse_by, Date};
use crate::decimal;
use crate::money;
use crate::money::{scale, split_money, MoneyError};
use crate::text;
use crate::text::{chars_of, find_text, owned, same, string_of, unquote};
use vstd::prelude::*;
use vstd::slice::slice_subrange;

verus! {

// ---------------------------------------------------------------------------
// Money
// ---------------------------------------------------------------------------

/// How many decimal places a currency has.
pub open spec fn places(currency: Seq<char>) -> nat {
    if currency == "JPY"@ || currency == "KRW"@ || currency == "ISK"@ || currency == "CLP"@
        || currency == "VND"@ || currency == "HUF"@ {
        0
    } else if currency == "BHD"@ || currency == "KWD"@ || currency == "JOD"@ || currency == "OMR"@
        || currency == "TND"@ {
        3
    } else {
        2
    }
}

pub fn currency_exponent(currency: &str) -> (r: usize)
    ensures
        r == places(currency@),
        r <= 3,
{
    if same(currency, "JPY") || same(currency, "KRW") || same(currency, "ISK") || same(
        currency,
        "CLP",
    ) || same(currency, "VND") || same(currency, "HUF") {
        0
    } else if same(currency, "BHD") || same(currency, "KWD") || same(currency, "JOD") || same(
        currency,
        "OMR",
    ) || same(currency, "TND") {
        3
    } else {
        2
    }
}

/// Decimal string to signed minor units, without floats.
pub fn to_minor(amount: &str, currency: &str) -> (r: Result<i64, MoneyError>)
    ensures
        money::reads_as(r, amount@, places(currency@)),
{
    scale(amount, currency_exponent(currency))
}

/// The amount and the currency of a money text; a text that names no currency
/// is in the default one.
pub open spec fn money_text(raw: Seq<char>, default_currency: Seq<char>) -> Option<
    (Seq<char>, Seq<char>),
> {
    match money::money_in(raw, true) {
        Some((amount, Some(currency))) => Some((amount, currency)),
        Some((amount, None)) => Some((amount, default_currency)),
        None => None,
    }
}

pub open spec fn pair_view(r: Option<(String, String)>) -> Option<(Seq<char>, Seq<char>)> {
    match r {
        Some((a, b)) => Some((a@, b@)),
        None => None,
    }
}

/// Splits a money string into (signed decimal, currency code).
///
/// Covers symbol-prefixed (`-£5.00`, `€0.00`), code-suffixed (`0.00 PLN`), bare
/// numbers with no currency at all (`-12.34`), parenthesised negatives
/// (`(12.34)`), and thousands separators.
pub fn parse_money(raw: &str, default_currency: &str) -> (r: Option<(String, String)>)
    ensures
        pair_view(r) == money_text(raw@, default_currency@),
{
    match split_money(raw, true) {
        Some((amount, Some(currency))) => Some((amount, currency)),
        Some((amount, None)) => Some((amount, owned(default_currency))),
        None => None,
    }
}

/// Minor units, amount and currency of a money text.
pub open spec fn minor_in(raw: Seq<char>, default_currency: Seq<char>) -> Option<
    (int, Seq<char>, Seq<char>),
> {
    match money_text(raw, default_currency) {
        Some((amount, currency)) => match money::minor_of(amount, places(currency)) {
            Ok(minor) => Some((minor, amount, currency)),
            Err(_) => None,
        },
        None => None,
    }
}

pub open spec fn minor_view(r: Option<(i64, String, String)>) -> Option<
    (int, Seq<char>, Seq<char>),
> {
    match r {
        Some((m, a, c)) => Some((m as int, a@, c@)),
        None => None,
    }
}

/// Minor units, amount and currency of a money text. The units are never the
/// least `i64`, so their sign can be turned.
pub fn money_minor(raw: &str, default_currency: &str) -> (r: Option<(i64, String, String)>)
    ensures
        minor_view(r) == minor_in(raw@, default_currency@),
        r matches Some((m, _, _)) ==> m > i64::MIN,
{
    match parse_money(raw, default_currency) {
        None => None,
        Some((amount, currency)) => {
            proof {
                money::lemma_minor_bound(amount@, places(currency@));
            }
            match to_minor(amount.as_str(), currency.as_str()) {
                Ok(minor) => Some((minor, amount, currency)),
                Err(_) => None,
            }
        },
    }
}

// ---------------------------------------------------------------------------
// Dates
// ---------------------------------------------------------------------------

/// A date text with the month `Sept`, as Revolut writes it, shortened to the
/// `Sep` that date formats know.
pub open spec fn september(s: Seq<char>) -> Seq<char> {
    match text::place_of(s, " Sept "@) {
        Some(k) => s.take(k) + " Sep "@ + s.skip(k + 6),
        None => s,
    }
}

/// The first of two dates that there is.
pub open spec fn or_date(a: Option<Date>, b: Option<Date>) -> Option<Date> {
    if a is Some {
        a
    } else {
        b
    }
}

/// The date that the first fitting format finds in a text.
pub open spec fn date_in(s: Seq<char>) -> Option<Date> {
    or_date(
        calendar::date_by(s, "%d/%m/%Y"@),
        or_date(
            calendar::date_by(s, "%d %b %Y"@),
            or_date(
                calendar::date_by(s, "%e %b %Y"@),
                or_date(
                    calendar::date_by(s, "%Y-%m-%d"@),
                    or_date(
                        calendar::date_by(s, "%d/%m/%y"@),
                        or_date(
                            calendar::date_by(s, "%d-%m-%Y"@),
                            calendar::date_by(s, "%d %B %Y"@),
                        ),
                    ),
                ),
            ),
        ),
    )
}

/// The date of a statement cell.
pub open spec fn statement_date(raw: Seq<char>) -> Option<Date> {
    date_in(september(text::unquoted(raw)))
}

/// A date text as the formats know it: without quotes, and with `Sep` for
/// `Sept`.
pub fn date_text(raw: &str) -> (r: String)
    ensures
        r@ == september(text::unquoted(raw@)),
{
    let all = chars_of(raw);
    let t = unquote(all.as_slice());
    proof {
        reveal_strlit(" Sept ");
    }
    match find_text(t, " Sept ") {
        Some(k) => {
            let len: usize = t.len();
            let mut r = string_of(slice_subrange(t, 0, k));
            r.append(" Sep ");
            let rest = string_of(slice_subrange(t, k + 6, len));
            r.append(rest.as_str());
            r
        },
        None => string_of(t),
    }
}

/// Statement date formats, in the order worth trying.
///
/// `%d/%m/%Y` is first deliberately: UK exports are day-first, and a
/// month-first attempt would silently mis-parse 03/04 as 4 March.
pub fn parse_date(raw: &str) -> (r: Option<Date>)
    ensures
        r == statement_date(raw@),
        r matches Some(d) ==> d.valid(),
{
    let t = date_text(raw);
    let s = t.as_str();
    if let Some(d) = parse_by(s, "%d/%m/%Y") {
        return Some(d);
    }
    if let Some(d) = parse_by(s, "%d %b %Y") {
        return Some(d);
    }
    if let Some(d) = parse_by(s, "%e %b %Y") {
        return Some(d);
    }
    if let Some(d) = parse_by(s, "%Y-%m-%d") {
        return Some(d);
    }
    if let Some(d) = parse_by(s, "%d/%m/%y") {
        return Some(d);
    }
    if let Some(d) = parse_by(s, "%d-%m-%Y") {
        return Some(d);
    }
    parse_by(s, "%d %B %Y")
}

// ---------------------------------------------------------------------------
// Registry
// ---------------------------------------------------------------------------

/// Whether the rows of every account are well-formed.
pub open spec fn all_accounts_well_formed(accounts: Seq<AccountView>) -> bool {
    forall|i: int| 0 <= i < accounts.len() ==> rows::well_formed((#[trigger] accounts[i]).rows)
}

/// Whether in every account the keys tell the rows apart.
pub open spec fn all_keys_apart(accounts: Seq<AccountView>) -> bool {
    forall|i: int| 0 <= i < accounts.len() ==> rows::keys_apart((#[trigger] accounts[i]).rows)
}

/// The reader of one bank's statements.
pub trait StatementParser {
    spec fn source_name(&self) -> Seq<char>;

    spec fn label_name(&self) -> Seq<char>;

    /// Whether the rows look like this bank's.
    spec fn claims(&self, records: Seq<Seq<Seq<char>>>) -> bool;

    /// Whether the rows can be read at all.
    spec fn readable(&self, records: Seq<Seq<Seq<char>>>) -> bool;

    /// The accounts in the rows, or what is wrong with the header.
    spec fn reading(&self, records: Seq<Seq<Seq<char>>>) -> Result<Seq<AccountView>, Seq<char>>;

    /// What is claimed can be read.
    proof fn claimed_is_readable(&self, records: Seq<Seq<Seq<char>>>)
        requires
            self.claims(records),
        ensures
            self.readable(records),
    ;

    /// Value stored in transactions.source. Also scopes replace-by-range, so
    /// two banks covering the same dates never delete each other's rows.
    fn source(&self) -> (r: &'static str)
        ensures
            r@ == self.source_name(),
    ;

    fn label(&self) -> (r: &'static str)
        ensures
            r@ == self.label_name(),
    ;

    /// Cheap structural check against the file's rows.
    fn detect(&self, records: &[Vec<String>]) -> (r: bool)
        ensures
            r == self.claims(table::cells(records@)),
    ;

    fn parse(&self, records: &[Vec<String>]) -> (r: Result<Vec<ParsedAccount>, &'static str>)
        requires
            self.readable(table::cells(records@)),
        ensures
            match r {
                Ok(accounts) => self.reading(table::cells(records@)) == Ok::<
                    Seq<AccountView>,
                    Seq<char>,
                >(rows::account_views(accounts@)) && all_accounts_well_formed(
                    rows::account_views(accounts@),
                ),
                Err(message) => self.reading(table::cells(records@)) == Err::<
                    Seq<AccountView>,
                    Seq<char>,
                >(message@),
            },
    ;
}

/// The readers that there are.
#[derive(Clone, Copy)]
pub enum Parser {
    Revolut,
    Lloyds,
    Amex,
}

impl StatementParser for Parser {
    open spec fn source_name(&self) -> Seq<char> {
        match self {
            Parser::Revolut => RevolutCsv.source_name(),
            Parser::Lloyds => LloydsCsv.source_name(),
            Parser::Amex => AmexCsv.source_name(),
        }
    }

    open spec fn label_name(&self) -> Seq<char> {
        match self {
            Parser::Revolut => RevolutCsv.label_name(),
            Parser::Lloyds => LloydsCsv.label_name(),
            Parser::Amex => AmexCsv.label_name(),
        }
    }

    open spec fn claims(&self, records: Seq<Seq<Seq<char>>>) -> bool {
        match self {
            Parser::Revolut => RevolutCsv.claims(records),
            Parser::Lloyds => LloydsCsv.claims(records),
            Parser::Amex => AmexCsv.claims(records),
        }
    }

    open spec fn readable(&self, records: Seq<Seq<Seq<char>>>) -> bool {
        match self {
            Parser::Revolut => RevolutCsv.readable(records),
            Parser::Lloyds => LloydsCsv.readable(records),
            Parser::Amex => AmexCsv.readable(records),
        }
    }

    open spec fn reading(&self, records: Seq<Seq<Seq<char>>>) -> Result<
        Seq<AccountView>,
        Seq<char>,
    > {
        match self {
            Parser::Revolut => RevolutCsv.reading(records),
            Parser::Lloyds => LloydsCsv.reading(records),
            Parser::Amex => AmexCsv.reading(records),
        }
    }

    proof fn claimed_is_readable(&self, records: Seq<Seq<Seq<char>>>) {
        match self {
            Parser::Revolut => RevolutCsv.claimed_is_readable(records),
            Parser::Lloyds => LloydsCsv.claimed_is_readable(records),
            Parser::Amex => AmexCsv.claimed_is_readable(records),
        }
    }

    fn source(&self) -> (r: &'static str) {
        match self {
            Parser::Revolut => RevolutCsv.source(),
            Parser::Lloyds => LloydsCsv.source(),
            Parser::Amex => AmexCsv.source(),
        }
    }

    fn label(&self) -> (r: &'static str) {
        match self {
            Parser::Revolut => RevolutCsv.label(),
            Parser::Lloyds => LloydsCsv.label(),
            Parser::Amex => AmexCsv.label(),
        }
    }

    fn detect(&self, records: &[Vec<String>]) -> (r: bool) {
        match self {
            Parser::Revolut => RevolutCsv.detect(records),
            Parser::Lloyds => LloydsCsv.detect(records),
            Parser::Amex => AmexCsv.detect(records),
        }
    }

    fn parse(&self, records: &[Vec<String>]) -> (r: Result<Vec<ParsedAccount>, &'static str>) {
        match self {
            Parser::Revolut => RevolutCsv.parse(records),
            Parser::Lloyds => LloydsCsv.parse(records),
            Parser::Amex => AmexCsv.parse(records),
        }
    }
}

/// The readers in the order in which a file is offered to them. Amex is last:
/// its detection is the loosest, so it should only get a file nothing else
/// claimed.
pub open spec fn parser_order() -> Seq<Parser> {
    seq![Parser::Revolut, Parser::Lloyds, Parser::Amex]
}

pub fn parsers() -> (r: Vec<Parser>)
    ensures
        r@ == parser_order(),
{
    let mut v: Vec<Parser> = Vec::new();
    v.push(Parser::Revolut);
    v.push(Parser::Lloyds);
    v.push(Parser::Amex);
    v
}

/// The first of some readers that claims the rows.
pub open spec fn claimant(order: Seq<Parser>, records: Seq<Seq<Seq<char>>>) -> Option<Parser>
    decreases order.len(),
{
    if order.len() == 0 {
        None
    } else if order[0].claims(records) {
        Some(order[0])
    } else {
        claimant(order.drop_first(), records)
    }
}

pub struct Detected {
    pub source: &'static str,
    pub label: &'static str,
    /// The accounts that hold any row.
    pub accounts: Vec<ParsedAccount>,
    /// The accounts of which rows were skipped and none was read.
    pub unread: Vec<ParsedAccount>,
}

/// An account as it is after reading: rows oldest-first and numbered, balances
/// inferred. Order comes first: both the ordinals and the inferred opening
/// balance depend on rows running oldest-first.
pub open spec fn finished(account: AccountView) -> AccountView {
    rows::balanced(
        AccountView { rows: rows::numbered(rows::chronological(account.rows)), ..account },
    )
}

/// The finished accounts that hold any row.
pub open spec fn kept(accounts: Seq<AccountView>) -> Seq<AccountView>
    decreases accounts.len(),
{
    if accounts.len() == 0 {
        seq![]
    } else {
        let last = finished(accounts.last());
        if last.rows.len() > 0 {
            kept(accounts.drop_last()).push(last)
        } else {
            kept(accounts.drop_last())
        }
    }
}

/// The finished accounts of which rows were skipped and none was read.
pub open spec fn unread(accounts: Seq<AccountView>) -> Seq<AccountView>
    decreases accounts.len(),
{
    if accounts.len() == 0 {
        seq![]
    } else {
        let last = finished(accounts.last());
        if last.rows.len() == 0 && last.skipped.len() > 0 {
            unread(accounts.drop_last()).push(last)
        } else {
            unread(accounts.drop_last())
        }
    }
}

pub enum StatementError {
    /// The bytes are no CSV text.
    Unreadable(csv::Error),
    /// A reader claimed the file, but its header will not do.
    Header(&'static str),
    /// No reader claims the file.
    Unrecognised,
}

/// What the rows of a file come to: nothing where no reader claims them, else
/// the accounts or what is wrong with the header.
pub open spec fn detected_as(
    r: Result<Detected, StatementError>,
    records: Seq<Seq<Seq<char>>>,
) -> bool {
    match claimant(parser_order(), records) {
        None => r matches Err(e) && e is Unrecognised,
        Some(parser) => match parser.reading(records) {
            Ok(accounts) => {
                &&& r is Ok
                &&& r->Ok_0.source@ == parser.source_name()
                &&& r->Ok_0.label@ == parser.label_name()
                &&& rows::account_views(r->Ok_0.accounts@) == kept(accounts)
                &&& rows::account_views(r->Ok_0.unread@) == unread(accounts)
            },
            Err(message) => r matches Err(e) && e matches StatementError::Header(m) && m@
                == message,
        },
    }
}

proof fn lemma_chronological_well_formed(rows: Seq<RowView>)
    requires
        rows::well_formed(rows),
    ensures
        rows::well_formed(rows::chronological(rows)),
{
    let turned = rows.reverse();
    assert forall|i: int| 0 <= i < turned.len() implies (#[trigger] turned[i]).date.valid()
        && rows::lacks_colon(turned[i].amount_text) by {
        assert(turned[i] == rows[rows.len() - 1 - i]);
    }
}

fn finish(account: &mut ParsedAccount)
    requires
        rows::well_formed(old(account)@.rows),
    ensures
        final(account)@ == finished(old(account)@),
        rows::well_formed(final(account)@.rows),
        rows::keys_apart(final(account)@.rows),
{
    proof {
        lemma_chronological_well_formed(account@.rows);
        rows::lemma_numbered_keys_apart(rows::chronological(account@.rows));
    }
    ensure_chronological(&mut account.rows);
    assign_ordinals(&mut account.rows);
    account.infer_balances();
}

/// Whether no account holds any row.
pub open spec fn no_rows(accounts: Seq<AccountView>) -> bool {
    forall|i: int| 0 <= i < accounts.len() ==> (#[trigger] accounts[i]).rows.len() == 0
}

/// Finishes all accounts, keeps those that hold any row, and hands out those of
/// which rows were skipped and none was read.
fn finish_all(accounts: &mut Vec<ParsedAccount>) -> (r: Vec<ParsedAccount>)
    requires
        all_accounts_well_formed(rows::account_views(old(accounts)@)),
    ensures
        rows::account_views(final(accounts)@) == kept(rows::account_views(old(accounts)@)),
        rows::account_views(r@) == unread(rows::account_views(old(accounts)@)),
        no_rows(rows::account_views(r@)),
        all_accounts_well_formed(rows::account_views(final(accounts)@)),
        all_keys_apart(rows::account_views(final(accounts)@)),
{
    let ghost all = rows::account_views(accounts@);
    let ghost mut done: int = 0;
    let mut lost: Vec<ParsedAccount> = Vec::new();
    let mut i: usize = 0;
    assert(all.take(0) == Seq::<AccountView>::empty());
    assert(rows::account_views(lost@) == Seq::<AccountView>::empty());
    while i < accounts.len()
        invariant
            i <= done,
            i <= accounts@.len(),
            done - i == all.len() - accounts@.len(),
            all_accounts_well_formed(all),
            all_accounts_well_formed(rows::account_views(accounts@)),
            rows::account_views(accounts@).take(i as int) == kept(all.take(done)),
            rows::account_views(lost@) == unread(all.take(done)),
            no_rows(rows::account_views(lost@)),
            forall|j: int| 0 <= j < i ==> rows::keys_apart((#[trigger] accounts@[j])@.rows),
            forall|j: int|
                i <= j < accounts@.len() ==> (#[trigger] accounts@[j])@ == all[j - i + done],
        decreases accounts@.len() - i,
    {
        let ghost was = accounts@;
        let ghost views = rows::account_views(was);
        assert(views[i as int] == all[done]);
        assert(all.take(done + 1).drop_last() == all.take(done));
        assert(all.take(done + 1).last() == all[done]);
        finish(&mut accounts[i]);
        let ghost now = accounts@;
        assert(rows::account_views(now) == views.update(i as int, finished(all[done])));
        assert(now[i as int]@ == finished(all[done]));
        if accounts[i].rows.len() == 0 {
            let account = accounts.remove(i);
            let ghost before = lost@;
            if account.skipped.len() > 0 {
                lost.push(account);
                assert(rows::account_views(lost@) == rows::account_views(before).push(
                    finished(all[done]),
                ));
            }
            assert(rows::account_views(accounts@) == views.remove(i as int));
            assert(rows::account_views(accounts@).take(i as int) == views.take(i as int));
        } else {
            assert(rows::account_views(now).take(i + 1) == views.take(i as int).push(
                finished(all[done]),
            ));
            i = i + 1;
        }
        proof {
            done = done + 1;
        }
    }
    assert(all.take(done) == all);
    assert(rows::account_views(accounts@).take(i as int) == rows::account_views(accounts@));
    lost
}

/// The accounts in the rows of a file, by the first reader that claims them.
pub fn parse_records(records: &[Vec<String>]) -> (r: Result<Detected, StatementError>)
    ensures
        detected_as(r, table::cells(records@)),
        r matches Ok(d) ==> all_accounts_well_formed(rows::account_views(d.accounts@))
            && all_keys_apart(rows::account_views(d.accounts@)) && no_rows(
            rows::account_views(d.unread@),
        ),
{
    let order = parsers();
    let ghost cells = table::cells(records@);
    let mut i: usize = 0;
    assert(order@.skip(0) == order@);
    while i < order.len()
        invariant
            i <= order@.len(),
            order@ == parser_order(),
            cells == table::cells(records@),
            claimant(order@.skip(i as int), cells) == claimant(parser_order(), cells),
        decreases order@.len() - i,
    {
        let parser = order[i];
        assert(order@.skip(i as int).drop_first() == order@.skip(i + 1));
        if parser.detect(records) {
            proof {
                parser.claimed_is_readable(cells);
            }
            return match parser.parse(records) {
                Ok(mut accounts) => {
                    let unread = finish_all(&mut accounts);
                    Ok(
                        Detected {
                            source: parser.source(),
                            label: parser.label(),
                            accounts,
                            unread,
                        },
                    )
                },
                Err(message) => Err(StatementError::Header(message)),
            };
        }
        i = i + 1;
    }
    Err(StatementError::Unrecognised)
}

// ---------------------------------------------------------------------------
// CSV
// ---------------------------------------------------------------------------

/// `csv::Error`.
#[verifier::external_type_specification]
#[verifier::external_body]
pub struct ExCsvError(csv::Error);

/// The records that a `csv::Reader` over some bytes hands out, all of them, or
/// nothing where it reports an error on any.
pub uninterp spec fn csv_records(flexible: bool, has_headers: bool, bytes: Seq<u8>) -> Option<
    Seq<Seq<Seq<char>>>,
>;

/// The cells of the records that were read.
pub open spec fn records_read(r: Result<Vec<Vec<String>>, csv::Error>) -> Option<
    Seq<Seq<Seq<char>>>,
> {
    match r {
        Ok(records) => Some(table::cells(records@)),
        Err(_) => None,
    }
}

/// `csv::Reader::records`, on a reader that `csv::ReaderBuilder` made with the
/// given settings. What it makes of the bytes is left to the name `csv_records`.
#[verifier::external_body]
pub(crate) fn read_csv(flexible: bool, has_headers: bool, bytes: &[u8]) -> (r: Result<
    Vec<Vec<String>>,
    csv::Error,
>)
    ensures
        records_read(r) == csv_records(flexible, has_headers, bytes@),
{
    csv::ReaderBuilder::new()
        .flexible(flexible)
        .has_headers(has_headers)
        .from_reader(bytes)
        .records()
        .map(|r| r.map(|record| record.iter().map(str::to_string).collect()))
        .collect()
}

/// The records of a statement. They may differ in length, and the first is a
/// record like the others.
pub fn read_records(content: &[u8]) -> (r: Result<Vec<Vec<String>>, StatementError>)
    ensures
        match csv_records(true, false, content@) {
            Some(cells) => r matches Ok(records) && table::cells(records@) == cells,
            None => r matches Err(e) && e is Unreadable,
        },
{
    match read_csv(true, false, content) {
        Ok(records) => Ok(records),
        Err(e) => Err(StatementError::Unreadable(e)),
    }
}

/// The accounts in a statement file.
pub fn parse_file(content: &[u8]) -> (r: Result<Detected, StatementError>)
    ensures
        match csv_records(true, false, content@) {
            Some(cells) => detected_as(r, cells),
            None => r matches Err(e) && e is Unreadable,
        },
        r matches Ok(d) ==> all_accounts_well_formed(rows::account_views(d.accounts@))
            && all_keys_apart(rows::account_views(d.accounts@)),
{
    match read_records(content) {
        Ok(records) => parse_records(records.as_slice()),
        Err(e) => Err(e),
    }
}

// ---------------------------------------------------------------------------
// Laws
// ---------------------------------------------------------------------------

/// A file goes to Amex only where neither Revolut nor Lloyds claims it, and to
/// Lloyds only where Revolut does not; one that nobody claims goes to nobody.
pub proof fn law_claims_in_order(records: Seq<Seq<Seq<char>>>)
    ensures
        claimant(parser_order(), records) == (if RevolutCsv.claims(records) {
            Some(Parser::Revolut)
        } else if LloydsCsv.claims(records) {
            Some(Parser::Lloyds)
        } else if AmexCsv.claims(records) {
            Some(Parser::Amex)
        } else {
            None
        }),
{
    reveal_with_fuel(claimant, 4);
    let order = parser_order();
    assert(order.drop_first() == seq![Parser::Lloyds, Parser::Amex]);
    assert(order.drop_first().drop_first() == seq![Parser::Amex]);
    assert(order.drop_first().drop_first().drop_first() == Seq::<Parser>::empty());
}

/// The sources of two readers differ, so that replacing the rows of one never
/// touches those of another.
pub proof fn law_sources_differ(a: Parser, b: Parser)
    ensures
        a.source_name() == b.source_name() ==> a == b,
{
    reveal_strlit("revolut_csv");
    reveal_strlit("lloyds_csv");
    reveal_strlit("amex_csv");
    assert("revolut_csv"@.len() == 11);
    assert("lloyds_csv"@.len() == 10);
    assert("amex_csv"@.len() == 8);
}

// ---------------------------------------------------------------------------
// What cells come to
// ---------------------------------------------------------------------------

/// Whether a money text says that the amount is negative: it begins with a minus
/// sign, or stands in brackets.
pub open spec fn says_negative(raw: Seq<char>) -> bool {
    let t = text::unquoted(raw);
    t.len() > 0 && (t[0] == '-' || t[0] == '(' && t.last() == ')')
}

/// Money that a text says is negative is not positive, and no other money is
/// negative. The amount that is kept as a text reads as the same number.
pub proof fn law_sign_of_a_money_text(raw: Seq<char>, default_currency: Seq<char>)
    ensures
        minor_in(raw, default_currency) matches Some((minor, amount, currency)) ==> {
            &&& says_negative(raw) ==> minor <= 0
            &&& !says_negative(raw) ==> minor >= 0
            &&& money::minor_of(amount, places(currency)) == Ok::<int, money::MoneyFault>(minor)
            &&& -i64::MAX <= minor <= i64::MAX
        },
{
    if let Some((minor, amount, currency)) = minor_in(raw, default_currency) {
        money::lemma_minor_bound(amount, places(currency));
        money::lemma_sign_of_amount(raw, places(currency));
    }
}

/// The currency that a text names, or the default one.
pub open spec fn named_or(named: Option<Seq<char>>, default_currency: Seq<char>) -> Seq<char> {
    match named {
        Some(c) => c,
        None => default_currency,
    }
}

/// Money that a statement prints with two places comes to what was printed, in the
/// currency of its symbol, or in the default one where it has none.
pub proof fn law_printed_money_comes_back(
    minor: i64,
    symbol: Seq<char>,
    default_currency: Seq<char>,
)
    requires
        minor > i64::MIN,
        money::is_symbol(symbol),
        places(named_or(money::symbol_code(symbol), default_currency)) == 2,
    ensures
        minor_in(money::printed(minor as int, symbol), default_currency) == Some(
            (
                minor as int,
                decimal::hundredths(minor as int),
                named_or(money::symbol_code(symbol), default_currency),
            ),
        ),
{
    money::law_printed_money_is_read(minor as int, symbol, true);
    money::law_two_places_round_trip(minor);
}

/// The formats in which a date may stand.
pub open spec fn date_formats() -> Set<Seq<char>> {
    set![
        "%d/%m/%Y"@,
        "%d %b %Y"@,
        "%e %b %Y"@,
        "%Y-%m-%d"@,
        "%d/%m/%y"@,
        "%d-%m-%Y"@,
        "%d %B %Y"@,
    ]
}

/// A date is one that some format finds, and there is none only where no format
/// finds one. Where the day-first format with slashes finds one, it is that one,
/// whatever the others make of the text; and one in ISO form counts before one with
/// a year of two digits.
pub proof fn law_dates_are_day_first(raw: Seq<char>)
    ensures
        ({
            let t = september(text::unquoted(raw));
            let found = statement_date(raw);
            &&& found is Some ==> exists|format: Seq<char>|
                date_formats().contains(format) && found == #[trigger] calendar::date_by(t, format)
            &&& found is None ==> forall|format: Seq<char>|
                date_formats().contains(format) ==> (#[trigger] calendar::date_by(t, format)) is None
            &&& calendar::date_by(t, "%d/%m/%Y"@) is Some ==> found == calendar::date_by(
                t,
                "%d/%m/%Y"@,
            )
            &&& calendar::date_by(t, "%d/%m/%Y"@) is None && calendar::date_by(
                t,
                "%d %b %Y"@,
            ) is None && calendar::date_by(t, "%e %b %Y"@) is None && calendar::date_by(
                t,
                "%Y-%m-%d"@,
            ) is Some ==> found == calendar::date_by(t, "%Y-%m-%d"@)
        }),
{
    let all = date_formats();
    assert(all.contains("%d/%m/%Y"@) && all.contains("%d %b %Y"@) && all.contains("%e %b %Y"@));
    assert(all.contains("%Y-%m-%d"@) && all.contains("%d/%m/%y"@) && all.contains("%d-%m-%Y"@));
    assert(all.contains("%d %B %Y"@));
    let t = september(text::unquoted(raw));
    let found = statement_date(raw);
    if found is Some {
        assert(found == calendar::date_by(t, "%d/%m/%Y"@) || found == calendar::date_by(
            t,
            "%d %b %Y"@,
        ) || found == calendar::date_by(t, "%e %b %Y"@) || found == calendar::date_by(
            t,
            "%Y-%m-%d"@,
        ) || found == calendar::date_by(t, "%d/%m/%y"@) || found == calendar::date_by(
            t,
            "%d-%m-%Y"@,
        ) || found == calendar::date_by(t, "%d %B %Y"@));
    }
}

/// September is known by four letters as by three, and no other text is touched.
pub proof fn law_september_by_four_letters(front: Seq<char>, back: Seq<char>)
    requires
        forall|i: int|
            0 <= i < front.len() ==> !#[trigger] text::stands_at(
                front + " Sept "@ + back,
                " Sept "@,
                i,
            ),
    ensures
        september(front + " Sept "@ + back) == front + " Sep "@ + back,
        !text::holds(back, " Sept "@) ==> september(back) == back,
{
    reveal_strlit(" Sept ");
    let s = front + " Sept "@ + back;
    assert(s.subrange(front.len() as int, front.len() as int + 6) == " Sept "@);
    text::lemma_first_place(s, " Sept "@, front.len() as int);
    assert(s.take(front.len() as int) == front);
    assert(s.skip(front.len() as int + 6) == back);
    if !text::holds(back, " Sept "@) {
        text::lemma_no_place(back, " Sept "@);
    }
}

/// An account that has been read is finished without losing anything: it has the
/// same rows, but for their order and their numbers, with the same total, and all
/// else is as it was but for balances that were not given.
pub proof fn law_finishing_keeps_what_was_read(account: AccountView)
    ensures
        ({
            let done = finished(account);
            &&& done.rows.len() == account.rows.len()
            &&& rows::total(done.rows) == rows::total(account.rows)
            &&& done == AccountView {
                rows: done.rows,
                opening_balance_minor: done.opening_balance_minor,
                closing_balance_minor: done.closing_balance_minor,
                ..account
            }
            &&& account.opening_balance_minor is Some ==> done.opening_balance_minor
                == account.opening_balance_minor
            &&& account.closing_balance_minor is Some ==> done.closing_balance_minor
                == account.closing_balance_minor
            &&& done.rows.len() > 0 && account.closing_balance_minor is None
                ==> done.closing_balance_minor == done.rows.last().balance_minor
            &&& rows::newest_first(account.rows) || rows::oldest_first(account.rows)
                ==> rows::oldest_first(done.rows)
        }),
{
    let sorted = rows::chronological(account.rows);
    let numbered = rows::numbered(sorted);
    rows::law_rows_come_out_oldest_first(account.rows);
    lemma_total_of_numbered(sorted);
    if rows::turned(account.rows) {
        lemma_total_reversed(account.rows);
    }
    assert forall|i: int, j: int| 0 <= i < j < numbered.len() && rows::oldest_first(sorted) implies
        !(#[trigger] numbered[j]).date.precedes((#[trigger] numbered[i]).date) by {
        assert(!sorted[j].date.precedes(sorted[i].date));
    }
}

proof fn lemma_total_of_numbered(rows: Seq<RowView>)
    ensures
        rows::total(rows::numbered(rows)) == rows::total(rows),
{
    lemma_same_amounts(rows::numbered(rows), rows);
}

proof fn lemma_same_amounts(a: Seq<RowView>, b: Seq<RowView>)
    requires
        a.len() == b.len(),
        forall|i: int| 0 <= i < a.len() ==> (#[trigger] a[i]).amount_minor == b[i].amount_minor,
    ensures
        rows::total(a) == rows::total(b),
    decreases a.len(),
{
    if a.len() > 0 {
        assert(a[a.len() - 1].amount_minor == b[b.len() - 1].amount_minor);
        assert forall|i: int| 0 <= i < a.drop_last().len() implies (
        #[trigger] a.drop_last()[i]).amount_minor == b.drop_last()[i].amount_minor by {
            assert(a[i].amount_minor == b[i].amount_minor);
        }
        lemma_same_amounts(a.drop_last(), b.drop_last());
    }
}

proof fn lemma_total_reversed(rows: Seq<RowView>)
    ensures
        rows::total(rows.reverse()) == rows::total(rows),
    decreases rows.len(),
{
    if rows.len() > 0 {
        let rest = rows.drop_first();
        lemma_total_reversed(rest);
        let back = rows.reverse();
        assert(back.drop_last() == rest.reverse());
        assert(back.last() == rows[0]);
        lemma_total_first(rows);
    }
}

proof fn lemma_total_first(rows: Seq<RowView>)
    requires
        rows.len() > 0,
    ensures
        rows::total(rows) == rows[0].amount_minor + rows::total(rows.drop_first()),
    decreases rows.len(),
{
    if rows.len() > 1 {
        lemma_total_first(rows.drop_last());
        assert(rows.drop_last().drop_first() == rows.drop_first().drop_last());
        assert(rows.drop_first().last() == rows.last());
        assert(rows.drop_last()[0] == rows[0]);
    } else {
        assert(rows.drop_first().len() == 0);
        assert(rows::total(rows.drop_first()) == 0);
        assert(rows::total(rows.drop_last()) == 0);
        assert(rows.last() == rows[0]);
    }
}

/// The currencies that statements write without places.
pub open spec fn whole_currencies() -> Set<Seq<char>> {
    set!["JPY"@, "KRW"@, "ISK"@, "CLP"@, "VND"@, "HUF"@]
}

/// The currencies that statements write with three places.
pub open spec fn thousandth_currencies() -> Set<Seq<char>> {
    set!["BHD"@, "KWD"@, "JOD"@, "OMR"@, "TND"@]
}

/// An amount that is written with two places comes to as many hundredths, but in the
/// currencies that have other minor units: there it comes to whole units, or to
/// thousandths.
pub proof fn law_amounts_by_currency(minor: i64, currency: Seq<char>)
    requires
        minor > i64::MIN,
        -i64::MAX <= 10 * minor <= i64::MAX,
    ensures
        ({
            let read = money::minor_of(decimal::hundredths(minor as int), places(currency));
            if whole_currencies().contains(currency) {
                read == Ok::<int, money::MoneyFault>(money::quotient(minor as int, 100))
            } else if thousandth_currencies().contains(currency) {
                read == Ok::<int, money::MoneyFault>(10 * minor)
            } else {
                read == Ok::<int, money::MoneyFault>(minor as int)
            }
        }),
{
    money::law_two_places_round_trip(minor);
    money::law_other_places(minor);
}

/// A file is a Revolut statement where some row announces its tables, a Lloyds one
/// where one of the first ten rows names a debit and a credit column, and an Amex one
/// where the first of those that name a date and an amount column names no debit
/// column.
pub proof fn law_files_are_known_by_their_headers(records: Seq<Seq<Seq<char>>>)
    ensures
        RevolutCsv.claims(records) <==> exists|i: int|
            0 <= i < records.len() && revolut::announces(#[trigger] records[i]),
        LloydsCsv.claims(records) <==> exists|i: int|
            0 <= i < records.len() && i < 10 && table::has_names(
                #[trigger] records[i],
                "Debit Amount"@,
                "Credit Amount"@,
            ),
        AmexCsv.claims(records) <==> exists|i: int|
            0 <= i < records.len() && i < 10 && table::has_names(
                #[trigger] records[i],
                "Date"@,
                "Amount"@,
            ) && table::place(records[i], "Debit Amount"@) is None && forall|j: int|
                0 <= j < i ==> !table::has_names(#[trigger] records[j], "Date"@, "Amount"@),
{
    revolut::law_tables_stand_below_the_announcement(records);
    table::law_header_is_the_first(records, "Debit Amount"@, "Credit Amount"@);
    table::law_header_is_the_first(records, "Date"@, "Amount"@);
    if let Some(k) = table::header_place(records, "Date"@, "Amount"@) {
        if exists|i: int|
            0 <= i < records.len() && i < 10 && table::has_names(
                #[trigger] records[i],
                "Date"@,
                "Amount"@,
            ) && table::place(records[i], "Debit Amount"@) is None && forall|j: int|
                0 <= j < i ==> !table::has_names(#[trigger] records[j], "Date"@, "Amount"@) {
            let i = choose|i: int|
                0 <= i < records.len() && i < 10 && table::has_names(
                    #[trigger] records[i],
                    "Date"@,
                    "Amount"@,
                ) && table::place(records[i], "Debit Amount"@) is None && forall|j: int|
                    0 <= j < i ==> !table::has_names(#[trigger] records[j], "Date"@, "Amount"@);
            assert(table::has_names(records[k], "Date"@, "Amount"@));
            assert(i == k);
        }
        if AmexCsv.claims(records) {
            assert(table::has_names(records[k], "Date"@, "Amount"@));
        }
    }
}

} // verus!
