//! American Express CSV export.
//!
//!   Date, Description, Amount, Extended Details,
//!   Appears On Your Statement As, Address, Town/City, Postcode, Country,
//!   Reference, Category
//!
//! Two things make a credit card unlike a bank account:
//!
//! 1. SIGN CONVENTION IS INVERTED. A purchase exports as a POSITIVE amount
//!    (it increases what you owe); refunds and payments are negative. Every
//!    other source treats money leaving you as negative, so rows are flipped
//!    here and the rest of the system never has to know.
//!
//! 2. NO RUNNING BALANCE. `verify_chain` has nothing to check, so a dropped
//!    row cannot be detected. Reconcile against the statement total by eye.
//!
//! Unlike the other two sources, Amex supplies a per-transaction Reference,
//! which is used as the row identity.
use super::rows;
use super::rows::{AccountType, AccountView, ParsedAccount, ParsedRow, RowView};
use super::table;
use super::table::{
    blank, cell, date_cell, find, header_row, money_cell, only_filled, or_blank,
};
use super::StatementParser;
use crate::decimal;
use crate::decimal::hundredths_text;
use crate::money;
use crate::statements;
use crate::text;
use crate::text::{
    chars_of, collapse, contains, holds_words, string_of, strip_start, to_upper, trimmed_copy,
};
use vstd::prelude::*;
use vstd::utf8;

verus! {

pub struct AmexCsv;

// ---------------------------------------------------------------------------
// Header
// ---------------------------------------------------------------------------

pub open spec fn header_place(records: Seq<Seq<Seq<char>>>) -> Option<int> {
    table::header_place(records, "Date"@, "Amount"@)
}

/// The place of the first header cell that holds the given words, in capitals
/// or not.
pub open spec fn place_containing(header: Seq<Seq<char>>, needle: Seq<char>) -> Option<int>
    decreases header.len(),
{
    if header.len() == 0 {
        None
    } else if text::holds(text::in_capitals(text::trimmed(header[0])), text::in_capitals(needle)) {
        Some(0)
    } else {
        match place_containing(header.drop_first(), needle) {
            Some(k) => Some(k + 1),
            None => None,
        }
    }
}

fn find_containing(header: &[String], needle: &str) -> (r: Option<usize>)
    ensures
        r == table::column(place_containing(text::views(header@), needle@)),
{
    let ghost all = text::views(header@);
    let upper = to_upper(needle);
    let wanted = chars_of(upper.as_str());
    let mut i: usize = 0;
    assert(all.skip(0) == all);
    while i < header.len()
        invariant
            i <= header@.len(),
            all == text::views(header@),
            wanted@ == text::in_capitals(needle@),
            match place_containing(all.skip(i as int), needle@) {
                Some(k) => place_containing(all, needle@) == Some(k + i),
                None => place_containing(all, needle@) is None,
            },
        decreases header@.len() - i,
    {
        assert(all.skip(i as int)[0] == header@[i as int]@);
        assert(all.skip(i as int).drop_first() == all.skip(i + 1));
        let t = trimmed_copy(header[i].as_str());
        let u = to_upper(t.as_str());
        let c = chars_of(u.as_str());
        if contains(c.as_slice(), wanted.as_slice()) {
            return Some(i);
        }
        i = i + 1;
    }
    None
}

/// The columns of a statement.
pub struct Columns {
    pub date: usize,
    pub amount: usize,
    pub description: Option<usize>,
    pub category: Option<usize>,
    pub reference: Option<usize>,
    pub extended: Option<usize>,
}

/// The column of that name.
pub open spec fn col(header: Seq<Seq<char>>, name: Seq<char>) -> Option<usize> {
    table::column(table::place(header, name))
}

/// The columns that a header gives, if it has them for date and amount. "Appears
/// On Your Statement As" is often cleaner than "Description", but Description
/// is the one that is always present, so it stays primary.
pub open spec fn columns_in(header: Seq<Seq<char>>) -> Option<Columns> {
    match (col(header, "Date"@), col(header, "Amount"@)) {
        (Some(date), Some(amount)) => Some(
            Columns {
                date,
                amount,
                description: table::either(
                    col(header, "Description"@),
                    table::column(place_containing(header, "Appears On Your Statement"@)),
                ),
                category: col(header, "Category"@),
                reference: col(header, "Reference"@),
                extended: col(header, "Extended Details"@),
            },
        ),
        _ => None,
    }
}

impl Columns {
    pub fn from_header(header: &[String]) -> (r: Option<Columns>)
        ensures
            r == columns_in(text::views(header@)),
    {
        match (find(header, "Date"), find(header, "Amount")) {
            (Some(date), Some(amount)) => {
                let description = match find(header, "Description") {
                    Some(i) => Some(i),
                    None => find_containing(header, "Appears On Your Statement"),
                };
                Some(
                    Columns {
                        date,
                        amount,
                        description,
                        category: find(header, "Category"),
                        reference: find(header, "Reference"),
                        extended: find(header, "Extended Details"),
                    },
                )
            },
            _ => None,
        }
    }
}

// ---------------------------------------------------------------------------
// Rows
// ---------------------------------------------------------------------------

/// A cell on one line. Address and description fields contain embedded newlines,
/// which survive CSV parsing intact and then wreck column alignment when
/// printed.
pub open spec fn cleaned(row: Seq<Seq<char>>, column: Option<usize>) -> Option<Seq<char>> {
    match table::cell_in(row, column) {
        Some(c) => Some(text::collapsed(c)),
        None => None,
    }
}

fn clean(row: &[String], column: Option<usize>) -> (r: Option<String>)
    ensures
        text::opt(r) == cleaned(text::views(row@), column),
{
    match cell(row, column) {
        Some(c) => Some(collapse(c)),
        None => None,
    }
}

/// Whether a description is that of a payment to the card: money moving from
/// another account you own, when the spending was already counted with the
/// purchase.
pub open spec fn is_payment(description: Seq<char>) -> bool {
    let upper = text::in_capitals(description);
    ||| text::holds(upper, "PAYMENT RECEIVED"@)
    ||| text::holds(upper, "THANK YOU"@)
    ||| text::holds(upper, "DIRECT DEBIT"@)
    ||| text::holds(upper, "ONLINE PAYMENT"@)
}

fn payment(description: &str) -> (r: bool)
    ensures
        r == is_payment(description@),
{
    let upper = to_upper(description);
    let c = chars_of(upper.as_str());
    let s = c.as_slice();
    holds_words(s, "PAYMENT RECEIVED") || holds_words(s, "THANK YOU") || holds_words(
        s,
        "DIRECT DEBIT",
    ) || holds_words(s, "ONLINE PAYMENT")
}

/// The reference of a row, without the apostrophes that Amex puts before it so
/// that spreadsheets treat it as text.
pub open spec fn reference_of(row: Seq<Seq<char>>, column: Option<usize>) -> Option<Seq<char>> {
    match cleaned(row, column) {
        Some(c) => table::filled(Some(text::stripped_start(c, '\''))),
        None => None,
    }
}

fn read_reference(row: &[String], column: Option<usize>) -> (r: Option<String>)
    ensures
        text::opt(r) == reference_of(text::views(row@), column),
{
    match clean(row, column) {
        Some(t) => {
            let c = chars_of(t.as_str());
            only_filled(Some(string_of(strip_start(c.as_slice(), '\''))))
        },
        None => None,
    }
}

/// The transaction in a row. Amex positive means you spent it, so the sign is
/// turned. The category is two levels joined by a hyphen, kept whole; the
/// details hold the foreign spend amount.
pub open spec fn row_in(cols: Columns, row: Seq<Seq<char>>) -> Option<RowView> {
    match (
        table::date_of(row, Some(cols.date)),
        table::money_of(row, Some(cols.amount), "GBP"@),
    ) {
        (Some(date), Some((raw, _, currency))) => {
            let description = table::or_empty(cleaned(row, cols.description));
            Some(
                RowView {
                    date,
                    description,
                    category: table::filled(cleaned(row, cols.category)),
                    reference: None,
                    external_id: reference_of(row, cols.reference),
                    details: table::filled(cleaned(row, cols.extended)),
                    amount_text: decimal::hundredths(-raw),
                    amount_minor: (-raw) as i64,
                    currency,
                    base_amount_minor: None,
                    base_currency: None,
                    balance_minor: None,
                    fee_minor: 0,
                    is_internal: is_payment(description),
                    is_pending: false,
                    ordinal: 0,
                },
            )
        },
        _ => None,
    }
}

fn read_row(cols: &Columns, row: &[String]) -> (r: Option<ParsedRow>)
    ensures
        match r {
            Some(p) => row_in(*cols, text::views(row@)) == Some(p@) && p.date.valid()
                && rows::lacks_colon(p.amount_text@),
            None => row_in(*cols, text::views(row@)) is None,
        },
{
    let date = match date_cell(row, Some(cols.date)) {
        Some(d) => d,
        None => {
            return None;
        },
    };
    let (raw, _, currency) = match money_cell(row, Some(cols.amount), "GBP") {
        Some(m) => m,
        None => {
            return None;
        },
    };
    let amount_minor: i64 = -raw;
    proof {
        rows::lemma_hundredths_lack_colon(amount_minor as int);
    }
    let description = or_blank(clean(row, cols.description));
    let is_internal = payment(description.as_str());
    let parsed = ParsedRow {
        date,
        description,
        category: only_filled(clean(row, cols.category)),
        reference: None,
        external_id: read_reference(row, cols.reference),
        details: only_filled(clean(row, cols.extended)),
        amount_text: hundredths_text(amount_minor),
        amount_minor,
        currency,
        base_amount_minor: None,
        base_currency: None,
        balance_minor: None,
        fee_minor: 0,
        is_internal,
        is_pending: false,
        ordinal: 0,
    };
    assert(row_in(*cols, text::views(row@)) == Some(parsed@));
    Some(parsed)
}

// ---------------------------------------------------------------------------
// The walk through the file
// ---------------------------------------------------------------------------

/// The card. The export carries no card number, so one key serves.
pub open spec fn card() -> AccountView {
    rows::empty_account("amex:gb:card"@, "Amex"@, "GBP"@, "Amex"@, AccountType::CreditCard)
}

/// The account with one more row: a transaction, or reported as skipped unless it
/// is blank. Without a running balance, the report is all there is to show that a
/// row is missing.
pub open spec fn step(cols: Columns, account: AccountView, row: Seq<Seq<char>>) -> AccountView {
    match row_in(cols, row) {
        Some(r) => AccountView { rows: account.rows.push(r), ..account },
        None => if table::is_blank(row) {
            account
        } else {
            AccountView { skipped: account.skipped.push(rows::skipped_line(row)), ..account }
        },
    }
}

/// The account after all the given rows.
pub open spec fn walked(cols: Columns, records: Seq<Seq<Seq<char>>>) -> AccountView
    decreases records.len(),
{
    if records.len() == 0 {
        card()
    } else {
        step(cols, walked(cols, records.drop_last()), records.last())
    }
}

impl StatementParser for AmexCsv {
    open spec fn source_name(&self) -> Seq<char> {
        "amex_csv"@
    }

    open spec fn label_name(&self) -> Seq<char> {
        "Amex"@
    }

    /// A debit column would make it Lloyds-shaped.
    open spec fn claims(&self, records: Seq<Seq<Seq<char>>>) -> bool {
        match header_place(records) {
            Some(k) => table::place(records[k], "Debit Amount"@) is None,
            None => false,
        }
    }

    open spec fn readable(&self, records: Seq<Seq<Seq<char>>>) -> bool {
        true
    }

    open spec fn reading(&self, records: Seq<Seq<Seq<char>>>) -> Result<
        Seq<AccountView>,
        Seq<char>,
    > {
        match header_place(records) {
            Some(k) => match columns_in(records[k]) {
                Some(cols) => Ok(seq![walked(cols, records.skip(k + 1))]),
                None => Err("Amex header missing a date or amount column"@),
            },
            None => Err("no Amex header row found"@),
        }
    }

    proof fn claimed_is_readable(&self, records: Seq<Seq<Seq<char>>>) {
    }

    fn source(&self) -> (r: &'static str) {
        "amex_csv"
    }

    fn label(&self) -> (r: &'static str) {
        "Amex"
    }

    fn detect(&self, records: &[Vec<String>]) -> (r: bool) {
        match header_row(records, "Date", "Amount") {
            Some(k) => {
                assert(table::cells(records@)[k as int] == text::views(records@[k as int]@));
                find(records[k].as_slice(), "Debit Amount").is_none()
            },
            None => false,
        }
    }

    fn parse(&self, records: &[Vec<String>]) -> (r: Result<Vec<ParsedAccount>, &'static str>) {
        let count: usize = records.len();
        let ghost all = table::cells(records@);
        let header: usize = match header_row(records, "Date", "Amount") {
            Some(k) => k,
            None => {
                return Err("no Amex header row found");
            },
        };
        assert(all[header as int] == text::views(records@[header as int]@));
        let cols = match Columns::from_header(records[header].as_slice()) {
            Some(c) => c,
            None => {
                return Err("Amex header missing a date or amount column");
            },
        };
        let start: usize = header + 1;
        let ghost body = all.skip(start as int);
        let mut account = ParsedAccount::new(
            "amex:gb:card",
            "Amex",
            "GBP",
            "Amex",
            AccountType::CreditCard,
        );
        let mut i: usize = start;
        assert(body.take(0) == Seq::<Seq<Seq<char>>>::empty());
        while i < count
            invariant
                count == records@.len(),
                start <= i <= count,
                all == table::cells(records@),
                body == all.skip(start as int),
                account@ == walked(cols, body.take(i - start)),
                rows::well_formed(account@.rows),
            decreases count - i,
        {
            let row = records[i].as_slice();
            assert(body.take(i - start + 1).drop_last() == body.take(i - start));
            assert(body.take(i - start + 1).last() == text::views(row@));
            match read_row(&cols, row) {
                Some(parsed) => {
                    account.push_row(parsed);
                },
                None => {
                    if !blank(row) {
                        account.skip(row);
                    }
                },
            }
            i = i + 1;
        }
        assert(body.take(i - start) == body);
        let mut accounts: Vec<ParsedAccount> = Vec::new();
        accounts.push(account);
        assert(rows::account_views(accounts@) == seq![walked(cols, body)]);
        Ok(accounts)
    }
}

/// A purchase, which Amex writes as a positive amount, is negative; a refund or
/// a payment is positive.
pub proof fn law_sign_is_turned(cols: Columns, row: Seq<Seq<char>>)
    ensures
        row_in(cols, row) matches Some(r) ==> (table::money_of(row, Some(cols.amount), "GBP"@)
            matches Some((raw, _, _)) && r.amount_minor == -raw),
{
    if let Some(c) = table::cell_in(row, Some(cols.amount)) {
        if let Some((amount, currency)) = statements::money_text(c, "GBP"@) {
            money::lemma_minor_bound(amount, statements::places(currency));
        }
    }
}

/// Nothing below the header is dropped in silence: every row is a transaction, or
/// is listed among the skipped ones, or is blank; and each is so once.
pub proof fn law_every_row_is_accounted_for(cols: Columns, records: Seq<Seq<Seq<char>>>, k: int)
    requires
        0 <= k < records.len(),
    ensures
        ({
            let card = walked(cols, records);
            match row_in(cols, records[k]) {
                Some(r) => card.rows.contains(r),
                None => table::is_blank(records[k]) || card.skipped.contains(
                    rows::skipped_line(records[k]),
                ),
            }
        }),
    decreases records.len(),
{
    let front = records.drop_last();
    let (before, after) = (walked(cols, front), walked(cols, records));
    if k < front.len() {
        law_every_row_is_accounted_for(cols, front, k);
        assert(front[k] == records[k]);
        match row_in(cols, records[k]) {
            Some(r) => {
                let i = choose|i: int| 0 <= i < before.rows.len() && before.rows[i] == r;
                assert(after.rows[i] == r);
            },
            None => {
                if !table::is_blank(records[k]) {
                    let line = rows::skipped_line(records[k]);
                    let i = choose|i: int|
                        0 <= i < before.skipped.len() && before.skipped[i] == line;
                    assert(after.skipped[i] == line);
                }
            },
        }
    } else {
        assert(records[k] == records.last());
        match row_in(cols, records[k]) {
            Some(r) => {
                assert(after.rows[after.rows.len() - 1] == r);
            },
            None => {
                if !table::is_blank(records[k]) {
                    assert(after.skipped[after.skipped.len() - 1] == rows::skipped_line(
                        records[k],
                    ));
                }
            },
        }
    }
}

/// Whether a row is a transaction or is listed among the skipped ones: it is one,
/// or is not blank.
pub open spec fn counts(cols: Columns, row: Seq<Seq<char>>) -> bool {
    row_in(cols, row) is Some || !table::is_blank(row)
}

/// There are as many transactions and skipped rows as rows below the header that
/// are one or the other: none is lost, and none is counted twice.
pub proof fn law_rows_add_up(cols: Columns, records: Seq<Seq<Seq<char>>>)
    ensures
        walked(cols, records).rows.len() + walked(cols, records).skipped.len() == records.filter(
            |row: Seq<Seq<char>>| counts(cols, row),
        ).len(),
    decreases records.len(),
{
    let f = |row: Seq<Seq<char>>| counts(cols, row);
    if records.len() == 0 {
        reveal(Seq::filter);
    } else {
        law_rows_add_up(cols, records.drop_last());
        table::lemma_filter_last(records, f);
    }
}

/// A card states no balances, so its rows are never reported as broken, nor as
/// verified.
pub proof fn law_card_states_no_balance(cols: Columns, records: Seq<Seq<Seq<char>>>)
    ensures
        !rows::states_balance(walked(cols, records).rows),
    decreases records.len(),
{
    if records.len() > 0 {
        law_card_states_no_balance(cols, records.drop_last());
        let before = walked(cols, records.drop_last()).rows;
        let now = walked(cols, records).rows;
        assert forall|i: int| 0 <= i < now.len() implies (#[trigger] now[i]).balance_minor is None by {
            if i < before.len() {
                assert(now[i] == before[i]);
            }
        }
    }
}

// ---------------------------------------------------------------------------
// What a row shows
// ---------------------------------------------------------------------------

/// The words by which a payment to the card is known.
pub open spec fn payment_words() -> Set<Seq<char>> {
    set!["PAYMENT RECEIVED"@, "THANK YOU"@, "DIRECT DEBIT"@, "ONLINE PAYMENT"@]
}

/// A transaction is a payment to the card, and so no spending, exactly where its
/// description in capitals holds some of the words of one. Nothing else counts: not
/// the sign of the amount, nor any other cell.
pub proof fn law_payments_are_known_by_their_words(
    cols: Columns,
    row: Seq<Seq<char>>,
    other: Seq<Seq<char>>,
)
    ensures
        row_in(cols, row) matches Some(r) ==> (r.is_internal <==> exists|words: Seq<char>|
            payment_words().contains(words) && #[trigger] text::holds(
                text::in_capitals(r.description),
                words,
            )),
        (row_in(cols, row) matches Some(r) && row_in(cols, other) matches Some(s) && r.description
            == s.description) ==> row_in(cols, row)->0.is_internal == row_in(
            cols,
            other,
        )->0.is_internal,
{
    if let Some(r) = row_in(cols, row) {
        let upper = text::in_capitals(r.description);
        assert(payment_words().contains("PAYMENT RECEIVED"@));
        assert(payment_words().contains("THANK YOU"@));
        assert(payment_words().contains("DIRECT DEBIT"@));
        assert(payment_words().contains("ONLINE PAYMENT"@));
        if r.is_internal {
            assert(text::holds(upper, "PAYMENT RECEIVED"@) || text::holds(upper, "THANK YOU"@)
                || text::holds(upper, "DIRECT DEBIT"@) || text::holds(upper, "ONLINE PAYMENT"@));
        }
    }
}

/// A payment is known by its words in capitals or not.
pub proof fn law_payments_in_any_letters(description: Seq<char>)
    requires
        utf8::is_ascii_chars(description),
    ensures
        is_payment(description.map_values(|c: char| text::ascii_upper(c))) == is_payment(
            description,
        ),
{
    let upper = description.map_values(|c: char| text::ascii_upper(c));
    assert forall|i: int| 0 <= i < upper.len() implies (#[trigger] upper[i]) as u32 <= 127 by {
        assert(description[i] as u32 <= 127);
    }
    assert(utf8::is_ascii_chars(upper));
    assert(text::in_capitals(upper) =~= upper);
}

/// A row is a transaction exactly where its date and its amount can be read. The
/// amount is what the cell shows with its sign turned, and the text that is kept of
/// it says the same; the identity is the reference without the apostrophes before
/// it. There is no balance. Date and texts are those of their cells.
pub proof fn law_row_shows_its_cells(cols: Columns, row: Seq<Seq<char>>)
    ensures
        row_in(cols, row) is Some <==> {
            &&& table::has_cell(row, Some(cols.date))
            &&& statements::statement_date(row[cols.date as int]) is Some
            &&& table::has_cell(row, Some(cols.amount))
            &&& statements::minor_in(row[cols.amount as int], "GBP"@) is Some
        },
        row_in(cols, row) matches Some(r) ==> {
            &&& statements::statement_date(row[cols.date as int]) == Some(r.date)
            &&& r.amount_minor > i64::MIN
            &&& table::shows(row, Some(cols.amount), "GBP"@, Some((-r.amount_minor) as i64))
            &&& r.amount_minor > 0 ==> statements::says_negative(row[cols.amount as int])
            &&& r.amount_minor < 0 ==> !statements::says_negative(row[cols.amount as int])
            &&& money::minor_of(r.amount_text, 2) == Ok::<int, money::MoneyFault>(
                r.amount_minor as int,
            )
            &&& statements::minor_in(row[cols.amount as int], "GBP"@) matches Some((_, _, currency))
                && r.currency == currency
            &&& r.description == shown_text(row, cols.description)
            &&& r.category == unless_empty(shown_text(row, cols.category))
            &&& r.details == unless_empty(shown_text(row, cols.extended))
            &&& r.external_id == unless_empty(
                text::stripped_start(shown_text(row, cols.reference), '\''),
            )
            &&& r.reference is None
            &&& r.base_amount_minor is None
            &&& r.base_currency is None
            &&& r.balance_minor is None
            &&& r.fee_minor == 0
            &&& !r.is_pending
        },
{
    table::law_money_is_as_shown(row, Some(cols.amount), "GBP"@);
    if let Some(r) = row_in(cols, row) {
        statements::law_sign_of_a_money_text(row[cols.amount as int], "GBP"@);
        money::law_two_places_round_trip(r.amount_minor);
        assert(Seq::<char>::empty() == text::stripped_start(Seq::<char>::empty(), '\''));
    }
}

/// The words of a cell, with single spaces between them; nothing where there is no
/// cell.
pub open spec fn shown_text(row: Seq<Seq<char>>, column: Option<usize>) -> Seq<char> {
    if table::has_cell(row, column) {
        text::collapsed(table::text_at(row, column))
    } else {
        seq![]
    }
}

/// A text, unless it is empty.
pub open spec fn unless_empty(s: Seq<char>) -> Option<Seq<char>> {
    if s.len() == 0 {
        None
    } else {
        Some(s)
    }
}

/// A refund is the purchase taken back: where two rows differ only in the sign of
/// the printed amount, so do their amounts, and nothing else but the text of it.
pub proof fn law_refund_takes_back_a_purchase(
    cols: Columns,
    bought: Seq<Seq<char>>,
    returned: Seq<Seq<char>>,
    minor: i64,
    symbol: Seq<char>,
)
    requires
        minor > 0,
        money::is_symbol(symbol),
        statements::places(statements::named_or(money::symbol_code(symbol), "GBP"@)) == 2,
        cols.amount < bought.len(),
        bought[cols.amount as int] == money::printed(minor as int, symbol),
        returned == bought.update(cols.amount as int, money::printed(-minor, symbol)),
        cols.date != cols.amount,
        cols.description != Some(cols.amount),
        cols.category != Some(cols.amount),
        cols.reference != Some(cols.amount),
        cols.extended != Some(cols.amount),
    ensures
        match (row_in(cols, bought), row_in(cols, returned)) {
            (Some(b), Some(r)) => b.amount_minor == -minor && r.amount_minor == minor && r
                == (RowView {
                amount_minor: r.amount_minor,
                amount_text: r.amount_text,
                ..b
            }),
            (None, None) => true,
            _ => false,
        },
{
    statements::law_printed_money_comes_back(minor, symbol, "GBP"@);
    statements::law_printed_money_comes_back((-minor) as i64, symbol, "GBP"@);
}

/// Each column is the one whose header has its name.
pub proof fn law_columns_have_their_names(header: Seq<Seq<char>>)
    requires
        header.len() <= usize::MAX,
    ensures
        columns_in(header) matches Some(cols) ==> {
            &&& table::is_column(header, "Date"@, Some(cols.date))
            &&& table::is_column(header, "Amount"@, Some(cols.amount))
            &&& table::is_column(header, "Category"@, cols.category)
            &&& table::is_column(header, "Reference"@, cols.reference)
            &&& table::is_column(header, "Extended Details"@, cols.extended)
            &&& !table::is_column(header, "Description"@, None) ==> table::is_column(
                header,
                "Description"@,
                cols.description,
            )
            &&& table::is_column(header, "Description"@, None) ==> match cols.description {
                Some(c) => c < header.len() && text::holds(
                    text::in_capitals(text::trimmed(header[c as int])),
                    text::in_capitals("Appears On Your Statement"@),
                ),
                None => forall|i: int|
                    0 <= i < header.len() ==> !text::holds(
                        text::in_capitals(text::trimmed(#[trigger] header[i])),
                        text::in_capitals("Appears On Your Statement"@),
                    ),
            }
        },
        columns_in(header) is None ==> table::is_column(header, "Date"@, None)
            || table::is_column(header, "Amount"@, None),
{
    table::lemma_column_of_name(header, "Date"@);
    table::lemma_column_of_name(header, "Amount"@);
    table::lemma_column_of_name(header, "Description"@);
    table::lemma_column_of_name(header, "Category"@);
    table::lemma_column_of_name(header, "Reference"@);
    table::lemma_column_of_name(header, "Extended Details"@);
    lemma_place_containing(header, "Appears On Your Statement"@);
    if let Some(c) = col(header, "Description"@) {
        assert(text::alike(text::trimmed(header[c as int]), "Description"@));
    }
}

proof fn lemma_place_containing(header: Seq<Seq<char>>, needle: Seq<char>)
    ensures
        match place_containing(header, needle) {
            Some(k) => 0 <= k < header.len() && text::holds(
                text::in_capitals(text::trimmed(header[k])),
                text::in_capitals(needle),
            ),
            None => forall|i: int|
                0 <= i < header.len() ==> !text::holds(
                    text::in_capitals(text::trimmed(#[trigger] header[i])),
                    text::in_capitals(needle),
                ),
        },
    decreases header.len(),
{
    if header.len() > 0 {
        let rest = header.drop_first();
        lemma_place_containing(rest, needle);
        assert forall|i: int| 0 < i < header.len() implies #[trigger] header[i] == rest[i - 1] by {
        }
    }
}

/// Reading goes row by row: what two parts of a file come to, they come to
/// together, in the order of the file.
pub proof fn law_rows_stand_in_order(
    cols: Columns,
    front: Seq<Seq<Seq<char>>>,
    back: Seq<Seq<Seq<char>>>,
)
    ensures
        walked(cols, front + back).rows == walked(cols, front).rows + walked(cols, back).rows,
        walked(cols, front + back).skipped == walked(cols, front).skipped + walked(
            cols,
            back,
        ).skipped,
    decreases back.len(),
{
    if back.len() == 0 {
        assert(front + back == front);
    } else {
        let all = front + back;
        law_rows_stand_in_order(cols, front, back.drop_last());
        assert(all.drop_last() == front + back.drop_last());
        assert(all.last() == back.last());
    }
}

/// Everything below the first row that names both a date and an amount column is
/// read by the columns of that row: it is a transaction of the card, or is listed
/// as skipped, or is blank.
pub proof fn law_all_below_the_header_is_read(records: Seq<Seq<Seq<char>>>, k: int, j: int)
    requires
        table::header_place(records, "Date"@, "Amount"@) == Some(k),
        columns_in(records[k]) is Some,
        0 <= k < j < records.len(),
    ensures
        AmexCsv.reading(records) matches Ok(accounts) && accounts.len() == 1 && {
            let cols = columns_in(records[k])->0;
            match row_in(cols, records[j]) {
                Some(r) => accounts[0].rows.contains(r),
                None => table::is_blank(records[j]) || accounts[0].skipped.contains(
                    rows::skipped_line(records[j]),
                ),
            }
        },
{
    let body = records.skip(k + 1);
    assert(body[j - k - 1] == records[j]);
    law_every_row_is_accounted_for(columns_in(records[k])->0, body, j - k - 1);
}

/// The card is one account of the card issuer, in pounds, whatever a file holds.
pub proof fn law_card_is_one_account(cols: Columns, records: Seq<Seq<Seq<char>>>)
    ensures
        ({
            let card = walked(cols, records);
            &&& card.account_key == "amex:gb:card"@
            &&& card.institution == "Amex"@
            &&& card.currency == "GBP"@
            &&& card.account_type == AccountType::CreditCard
            &&& card.identifier_tail is None
            &&& card.opening_balance_minor is None
            &&& card.closing_balance_minor is None
        }),
    decreases records.len(),
{
    if records.len() > 0 {
        law_card_is_one_account(cols, records.drop_last());
    }
}

} // verus!
