//! What is stored of an account that is read through the banking API.
use crate::decimal;
use crate::decimal::push_decimal;
use crate::json;
use crate::json::{elements, json_text, member, read_text, read_text_within, text_in, Tree};
use crate::money;
use crate::money::{scale, MoneyError, MoneyFault};
use crate::text;
use crate::text::{chars_of, copy_opt, join, matches_ignoring_case, owned, same, to_upper};
use vstd::hash_map::StringHashMap;
use vstd::prelude::*;
use vstd::utf8;

verus! {

// ---------------------------------------------------------------------------
// Money
// ---------------------------------------------------------------------------

/// Minor-unit exponent per ISO 4217. 2 for anything unlisted.
pub open spec fn places(currency: Seq<char>) -> nat {
    if currency == "JPY"@ || currency == "KRW"@ || currency == "ISK"@ || currency == "CLP"@
        || currency == "VND"@ || currency == "XOF"@ || currency == "XAF"@ || currency == "PYG"@
        || currency == "UGX"@ || currency == "RWF"@ {
        0
    } else if currency == "BHD"@ || currency == "KWD"@ || currency == "JOD"@ || currency == "OMR"@
        || currency == "TND"@ || currency == "IQD"@ || currency == "LYD"@ {
        3
    } else {
        2
    }
}

pub fn currency_exponent(currency: &str) -> (r: usize)
    ensures
        r == places(currency@),
        r <= 3,
{
    if same(currency, "JPY") || same(currency, "KRW") || same(currency, "ISK") || same(
        currency,
        "CLP",
    ) || same(currency, "VND") || same(currency, "XOF") || same(currency, "XAF") || same(
        currency,
        "PYG",
    ) || same(currency, "UGX") || same(currency, "RWF") {
        0
    } else if same(currency, "BHD") || same(currency, "KWD") || same(currency, "JOD") || same(
        currency,
        "OMR",
    ) || same(currency, "TND") || same(currency, "IQD") || same(currency, "LYD") {
        3
    } else {
        2
    }
}

/// Parse an API decimal string ("12.34", "-0.5", "1000") into signed minor
/// units. Deliberately avoids floats.
pub fn to_minor(amount: &str, currency: &str) -> (r: Result<i64, MoneyError>)
    ensures
        money::reads_as(r, amount@, places(currency@)),
{
    scale(amount, currency_exponent(currency))
}

// ---------------------------------------------------------------------------
// Transactions as the API gives them
// ---------------------------------------------------------------------------

/// What a payment says it is for: nothing, one text, or a list of them.
#[derive(Debug)]
pub enum Remittance {
    Absent,
    Text(String),
    Parts(Vec<String>),
}

pub enum RemittanceView {
    Absent,
    Text(Seq<char>),
    Parts(Seq<Seq<char>>),
}

impl View for Remittance {
    type V = RemittanceView;

    open spec fn view(&self) -> RemittanceView {
        match self {
            Remittance::Absent => RemittanceView::Absent,
            Remittance::Text(t) => RemittanceView::Text(t@),
            Remittance::Parts(p) => RemittanceView::Parts(text::views(p@)),
        }
    }
}

/// The ways in which a party's account can be named.
#[derive(Debug)]
pub struct PartyAccount {
    pub iban: Option<String>,
    pub bban: Option<String>,
    pub masked_pan: Option<String>,
    pub other: Option<String>,
}

#[verifier::ext_equal]
pub struct PartyView {
    pub iban: Option<Seq<char>>,
    pub bban: Option<Seq<char>>,
    pub masked_pan: Option<Seq<char>>,
    pub other: Option<Seq<char>>,
}

impl View for PartyAccount {
    type V = PartyView;

    open spec fn view(&self) -> PartyView {
        PartyView {
            iban: text::opt(self.iban),
            bban: text::opt(self.bban),
            masked_pan: text::opt(self.masked_pan),
            other: text::opt(self.other),
        }
    }
}

/// A transaction as the API gives it: the texts that are there.
#[derive(Debug)]
pub struct ApiTransaction {
    pub status: Option<String>,
    pub entry_reference: Option<String>,
    pub booking_date: Option<String>,
    pub value_date: Option<String>,
    pub transaction_date: Option<String>,
    pub amount: Option<String>,
    pub currency: Option<String>,
    pub indicator: Option<String>,
    pub balance_after: Option<String>,
    pub creditor_name: Option<String>,
    pub debtor_name: Option<String>,
    pub creditor_account: PartyAccount,
    pub debtor_account: PartyAccount,
    pub remittance: Remittance,
    pub bank_transaction_code: Option<String>,
    pub merchant_category_code: Option<String>,
    /// The whole of it as JSON.
    pub raw_json: String,
}

#[verifier::ext_equal]
pub struct TransactionView {
    pub status: Option<Seq<char>>,
    pub entry_reference: Option<Seq<char>>,
    pub booking_date: Option<Seq<char>>,
    pub value_date: Option<Seq<char>>,
    pub transaction_date: Option<Seq<char>>,
    pub amount: Option<Seq<char>>,
    pub currency: Option<Seq<char>>,
    pub indicator: Option<Seq<char>>,
    pub balance_after: Option<Seq<char>>,
    pub creditor_name: Option<Seq<char>>,
    pub debtor_name: Option<Seq<char>>,
    pub creditor_account: PartyView,
    pub debtor_account: PartyView,
    pub remittance: RemittanceView,
    pub bank_transaction_code: Option<Seq<char>>,
    pub merchant_category_code: Option<Seq<char>>,
    pub raw_json: Seq<char>,
}

impl View for ApiTransaction {
    type V = TransactionView;

    open spec fn view(&self) -> TransactionView {
        TransactionView {
            status: text::opt(self.status),
            entry_reference: text::opt(self.entry_reference),
            booking_date: text::opt(self.booking_date),
            value_date: text::opt(self.value_date),
            transaction_date: text::opt(self.transaction_date),
            amount: text::opt(self.amount),
            currency: text::opt(self.currency),
            indicator: text::opt(self.indicator),
            balance_after: text::opt(self.balance_after),
            creditor_name: text::opt(self.creditor_name),
            debtor_name: text::opt(self.debtor_name),
            creditor_account: self.creditor_account@,
            debtor_account: self.debtor_account@,
            remittance: self.remittance@,
            bank_transaction_code: text::opt(self.bank_transaction_code),
            merchant_category_code: text::opt(self.merchant_category_code),
            raw_json: self.raw_json@,
        }
    }
}

pub open spec fn transaction_views(items: Seq<ApiTransaction>) -> Seq<TransactionView> {
    Seq::new(items.len(), |i: int| items[i]@)
}

/// The texts among some values.
pub open spec fn texts_among(items: Seq<Tree>) -> Seq<Seq<char>>
    decreases items.len(),
{
    if items.len() == 0 {
        seq![]
    } else {
        match items.last() {
            Tree::Text(t) => texts_among(items.drop_last()).push(t),
            _ => texts_among(items.drop_last()),
        }
    }
}

/// What a payment in JSON says it is for.
pub open spec fn remittance_in(tree: Tree) -> RemittanceView {
    match json::member_of(tree, "remittance_information"@) {
        Some(Tree::List(items)) => RemittanceView::Parts(texts_among(items)),
        Some(Tree::Text(t)) => RemittanceView::Text(t),
        _ => RemittanceView::Absent,
    }
}

fn texts_of(items: &Vec<serde_json::Value>) -> (r: Vec<String>)
    ensures
        text::views(r@) == texts_among(json::trees_of(items@)),
{
    let mut r: Vec<String> = Vec::new();
    let ghost trees = json::trees_of(items@);
    let mut i: usize = 0;
    assert(trees.take(0) == Seq::<Tree>::empty());
    assert(text::views(r@) == Seq::<Seq<char>>::empty());
    while i < items.len()
        invariant
            i <= items@.len(),
            trees == json::trees_of(items@),
            text::views(r@) == texts_among(trees.take(i as int)),
        decreases items@.len() - i,
    {
        assert(trees.take(i + 1).drop_last() == trees.take(i as int));
        assert(trees.take(i + 1).last() == json::tree_of(items@[i as int]));
        let ghost before = r@;
        if let Some(s) = text_in(&items[i]) {
            r.push(owned(s));
            assert(text::views(r@) == text::views(before).push(s@));
        }
        i = i + 1;
    }
    assert(trees.take(i as int) == trees);
    r
}

fn read_remittance(value: &serde_json::Value) -> (r: Remittance)
    ensures
        r@ == remittance_in(json::tree_of(*value)),
{
    match member(value, "remittance_information") {
        Some(v) => match elements(v) {
            Some(items) => Remittance::Parts(texts_of(items)),
            None => match text_in(v) {
                Some(s) => Remittance::Text(owned(s)),
                None => Remittance::Absent,
            },
        },
        None => Remittance::Absent,
    }
}

/// The account that a member names.
pub open spec fn party_in(tree: Tree, name: Seq<char>) -> PartyView {
    PartyView {
        iban: json::text_within(tree, name, "iban"@),
        bban: json::text_within(tree, name, "bban"@),
        masked_pan: json::text_within(tree, name, "masked_pan"@),
        other: json::text_within(tree, name, "other"@),
    }
}

fn read_party(value: &serde_json::Value, name: &str) -> (r: PartyAccount)
    ensures
        r@ == party_in(json::tree_of(*value), name@),
{
    PartyAccount {
        iban: read_text_within(value, name, "iban"),
        bban: read_text_within(value, name, "bban"),
        masked_pan: read_text_within(value, name, "masked_pan"),
        other: read_text_within(value, name, "other"),
    }
}

/// The transaction that a JSON value describes.
pub open spec fn transaction_in(tree: Tree) -> TransactionView {
    TransactionView {
        status: json::text_at(tree, "status"@),
        entry_reference: json::text_at(tree, "entry_reference"@),
        booking_date: json::text_at(tree, "booking_date"@),
        value_date: json::text_at(tree, "value_date"@),
        transaction_date: json::text_at(tree, "transaction_date"@),
        amount: json::text_within(tree, "transaction_amount"@, "amount"@),
        currency: json::text_within(tree, "transaction_amount"@, "currency"@),
        indicator: json::text_at(tree, "credit_debit_indicator"@),
        balance_after: json::text_within(tree, "balance_after_transaction"@, "amount"@),
        creditor_name: json::text_within(tree, "creditor"@, "name"@),
        debtor_name: json::text_within(tree, "debtor"@, "name"@),
        creditor_account: party_in(tree, "creditor_account"@),
        debtor_account: party_in(tree, "debtor_account"@),
        remittance: remittance_in(tree),
        bank_transaction_code: json::text_within(
            tree,
            "bank_transaction_code"@,
            "description"@,
        ),
        merchant_category_code: json::text_at(tree, "merchant_category_code"@),
        raw_json: json::text_for(tree),
    }
}

pub fn read_transaction(value: &serde_json::Value) -> (r: ApiTransaction)
    ensures
        r@ == transaction_in(json::tree_of(*value)),
{
    ApiTransaction {
        status: read_text(value, "status"),
        entry_reference: read_text(value, "entry_reference"),
        booking_date: read_text(value, "booking_date"),
        value_date: read_text(value, "value_date"),
        transaction_date: read_text(value, "transaction_date"),
        amount: read_text_within(value, "transaction_amount", "amount"),
        currency: read_text_within(value, "transaction_amount", "currency"),
        indicator: read_text(value, "credit_debit_indicator"),
        balance_after: read_text_within(value, "balance_after_transaction", "amount"),
        creditor_name: read_text_within(value, "creditor", "name"),
        debtor_name: read_text_within(value, "debtor", "name"),
        creditor_account: read_party(value, "creditor_account"),
        debtor_account: read_party(value, "debtor_account"),
        remittance: read_remittance(value),
        bank_transaction_code: read_text_within(value, "bank_transaction_code", "description"),
        merchant_category_code: read_text(value, "merchant_category_code"),
        raw_json: json_text(value),
    }
}

// ---------------------------------------------------------------------------
// What is read out of a transaction
// ---------------------------------------------------------------------------

/// A text, or an empty one where there is none.
pub open spec fn or_empty(o: Option<Seq<char>>) -> Seq<char> {
    match o {
        Some(s) => s,
        None => seq![],
    }
}

fn push_opt(out: &mut String, o: &Option<String>)
    ensures
        final(out)@ == old(out)@ + or_empty(text::opt(*o)),
{
    if let Some(s) = o {
        out.append(s.as_str());
    } else {
        assert(out@ == old(out)@ + Seq::<char>::empty());
    }
}

impl TransactionView {
    /// Whether money leaves the account.
    pub open spec fn debit(self) -> bool {
        match self.indicator {
            Some(i) => text::alike(i, "DBIT"@),
            None => false,
        }
    }

    /// The other side's name.
    pub open spec fn counterparty(self) -> Option<Seq<char>> {
        if self.debit() {
            self.creditor_name
        } else {
            self.debtor_name
        }
    }

    /// The other side's account: the first way of naming it that is there.
    pub open spec fn counterparty_account(self) -> Option<Seq<char>> {
        let party = if self.debit() {
            self.creditor_account
        } else {
            self.debtor_account
        };
        if party.iban is Some {
            party.iban
        } else if party.bban is Some {
            party.bban
        } else if party.masked_pan is Some {
            party.masked_pan
        } else {
            party.other
        }
    }

    /// What the payment says it is for, on one line.
    pub open spec fn reference(self) -> Option<Seq<char>> {
        match self.remittance {
            RemittanceView::Absent => None,
            RemittanceView::Text(t) => Some(t),
            RemittanceView::Parts(p) => {
                let line = text::joined(p, " "@);
                if line.len() > 0 {
                    Some(line)
                } else {
                    None
                }
            },
        }
    }

    /// The reference that the bank gives, if it is not empty.
    pub open spec fn bank_reference(self) -> Option<Seq<char>> {
        match self.entry_reference {
            Some(e) => if e.len() > 0 {
                Some(e)
            } else {
                None
            },
            None => None,
        }
    }

    /// What tells a transaction from others where the bank gives no reference.
    pub open spec fn base(self) -> Seq<char> {
        "syn:"@ + or_empty(self.booking_date) + seq!['|'] + or_empty(self.amount) + seq!['|']
            + or_empty(self.currency) + seq!['|'] + or_empty(self.indicator) + seq!['|'] + or_empty(
            self.counterparty(),
        ) + seq!['|'] + or_empty(self.reference())
    }
}

impl ApiTransaction {
    pub fn is_debit(&self) -> (r: bool)
        ensures
            r == self@.debit(),
    {
        match &self.indicator {
            Some(i) => {
                let c = chars_of(i.as_str());
                matches_ignoring_case(c.as_slice(), "DBIT")
            },
            None => false,
        }
    }

    pub fn counterparty_name(&self) -> (r: Option<String>)
        ensures
            text::opt(r) == self@.counterparty(),
    {
        if self.is_debit() {
            copy_opt(&self.creditor_name)
        } else {
            copy_opt(&self.debtor_name)
        }
    }

    pub fn counterparty_account(&self) -> (r: Option<String>)
        ensures
            text::opt(r) == self@.counterparty_account(),
    {
        let party = if self.is_debit() {
            &self.creditor_account
        } else {
            &self.debtor_account
        };
        if party.iban.is_some() {
            copy_opt(&party.iban)
        } else if party.bban.is_some() {
            copy_opt(&party.bban)
        } else if party.masked_pan.is_some() {
            copy_opt(&party.masked_pan)
        } else {
            copy_opt(&party.other)
        }
    }

    pub fn remittance(&self) -> (r: Option<String>)
        ensures
            text::opt(r) == self@.reference(),
    {
        match &self.remittance {
            Remittance::Absent => None,
            Remittance::Text(t) => Some(owned(t.as_str())),
            Remittance::Parts(p) => {
                let line = join(p.as_slice(), " ");
                if line.as_str().unicode_len() > 0 {
                    Some(line)
                } else {
                    None
                }
            },
        }
    }

    fn base(&self) -> (r: String)
        ensures
            r@ == self@.base(),
    {
        let mut s = owned("syn:");
        push_opt(&mut s, &self.booking_date);
        s.push('|');
        push_opt(&mut s, &self.amount);
        s.push('|');
        push_opt(&mut s, &self.currency);
        s.push('|');
        push_opt(&mut s, &self.indicator);
        s.push('|');
        let name = self.counterparty_name();
        push_opt(&mut s, &name);
        s.push('|');
        let reference = self.remittance();
        push_opt(&mut s, &reference);
        assert(s@ == self@.base());
        s
    }
}

// ---------------------------------------------------------------------------
// Dedupe keys
// ---------------------------------------------------------------------------

/// How many of the first `n` transactions have no reference of the bank's and
/// look like the given base.
pub open spec fn alike_before(items: Seq<TransactionView>, n: int, base: Seq<char>) -> nat
    decreases n,
{
    if n <= 0 {
        0
    } else if items[n - 1].bank_reference() is None && items[n - 1].base() == base {
        alike_before(items, n - 1, base) + 1
    } else {
        alike_before(items, n - 1, base)
    }
}

/// The key of a transaction among those of a sync: the bank's reference, or else
/// what it looks like and its number among those that look the same, so that two
/// genuinely identical purchases on the same day have different keys.
pub open spec fn key_at(items: Seq<TransactionView>, i: int) -> Seq<char> {
    match items[i].bank_reference() {
        Some(e) => e,
        None => items[i].base() + seq!['#'] + decimal::decimal(
            alike_before(items, i, items[i].base()) as int + 1,
        ),
    }
}

/// The count in a table, zero where there is none.
pub open spec fn count_in(seen: Map<Seq<char>, usize>, s: Seq<char>) -> nat {
    if seen.contains_key(s) {
        seen[s] as nat
    } else {
        0
    }
}

/// Build the dedupe key for one transaction.
///
/// Prefers `entry_reference`. When absent, falls back to a composite of the
/// stable-ish fields plus an occurrence ordinal.
pub fn dedupe_key(tx: &ApiTransaction, seen: &mut StringHashMap<usize>) -> (r: String)
    requires
        count_in(old(seen)@, tx@.base()) < usize::MAX,
    ensures
        match tx@.bank_reference() {
            Some(e) => r@ == e && final(seen)@ == old(seen)@,
            None => {
                let n = count_in(old(seen)@, tx@.base());
                &&& r@ == tx@.base() + seq!['#'] + decimal::decimal(n as int + 1)
                &&& final(seen)@ == old(seen)@.insert(tx@.base(), (n + 1) as usize)
            },
        },
{
    if let Some(e) = &tx.entry_reference {
        if e.as_str().unicode_len() > 0 {
            return owned(e.as_str());
        }
    }
    let base = tx.base();
    let before: usize = match seen.get(base.as_str()) {
        Some(n) => *n,
        None => 0,
    };
    let ordinal: usize = before + 1;
    let mut key = owned(base.as_str());
    key.push('#');
    push_decimal(&mut key, ordinal as u64);
    assert(key@ == tx@.base() + seq!['#'] + decimal::decimal(ordinal as int));
    seen.insert(base, ordinal);
    key
}

pub proof fn lemma_alike_bound(items: Seq<TransactionView>, n: int, base: Seq<char>)
    requires
        0 <= n,
    ensures
        alike_before(items, n, base) <= n,
    decreases n,
{
    if n > 0 {
        lemma_alike_bound(items, n - 1, base);
    }
}

// ---------------------------------------------------------------------------
// Which transactions are stored
// ---------------------------------------------------------------------------

/// The status of a transaction in capitals, or the given one where there is none.
pub open spec fn status_of(tx: TransactionView, default: Seq<char>) -> Seq<char> {
    text::in_capitals(
        match tx.status {
            Some(s) => s,
            None => default,
        },
    )
}

/// Whether a transaction is booked; one without a status is.
pub open spec fn is_booked() -> spec_fn(TransactionView) -> bool {
    |tx: TransactionView| status_of(tx, "BOOK"@) == "BOOK"@
}

/// Whether a transaction is pending.
pub open spec fn is_pending() -> spec_fn(TransactionView) -> bool {
    |tx: TransactionView| status_of(tx, ""@) == "PDNG"@
}

fn has_status(tx: &ApiTransaction, default: &str, wanted: &str) -> (r: bool)
    ensures
        r == (status_of(tx@, default@) == wanted@),
{
    let upper = match &tx.status {
        Some(s) => to_upper(s.as_str()),
        None => to_upper(default),
    };
    same(upper.as_str(), wanted)
}

#[derive(Debug)]
pub enum IngestError {
    NoAmount,
    NoCurrency,
    Amount(MoneyError),
}

pub enum IngestFault {
    NoAmount,
    NoCurrency,
    /// The amount and what is wrong with it.
    Amount(Seq<char>, MoneyFault),
}

impl View for IngestError {
    type V = IngestFault;

    open spec fn view(&self) -> IngestFault {
        match self {
            IngestError::NoAmount => IngestFault::NoAmount,
            IngestError::NoCurrency => IngestFault::NoCurrency,
            IngestError::Amount(e) => IngestFault::Amount(e.amount(), e.fault()),
        }
    }
}

/// What keeps a transaction from being stored.
pub open spec fn fault_in(tx: TransactionView) -> Option<IngestFault> {
    match (tx.amount, tx.currency) {
        (None, _) => Some(IngestFault::NoAmount),
        (Some(_), None) => Some(IngestFault::NoCurrency),
        (Some(amount), Some(currency)) => match money::minor_of(amount, places(currency)) {
            Ok(_) => None,
            Err(f) => Some(IngestFault::Amount(amount, f)),
        },
    }
}

/// The first fault among some transactions.
pub open spec fn first_fault(items: Seq<TransactionView>) -> Option<IngestFault>
    decreases items.len(),
{
    if items.len() == 0 {
        None
    } else {
        match first_fault(items.drop_last()) {
            Some(f) => Some(f),
            None => fault_in(items.last()),
        }
    }
}

/// The amount of a transaction that has none of those faults: whatever sign the
/// bank writes, money that leaves the account is negative.
pub open spec fn signed_minor(tx: TransactionView) -> int {
    let size = decimal::magnitude(money::minor_of(tx.amount->0, places(tx.currency->0))->Ok_0);
    if tx.debit() {
        -size
    } else {
        size
    }
}

/// The balance after a transaction, where the bank states one that can be read.
pub open spec fn balance_after(tx: TransactionView) -> Option<i64> {
    match tx.balance_after {
        Some(b) => match money::minor_of(b, places(tx.currency->0)) {
            Ok(m) => Some(m as i64),
            Err(_) => None,
        },
        None => None,
    }
}

/// A transaction as it is stored.
#[derive(Debug)]
pub struct TransactionRecord {
    pub entry_reference: Option<String>,
    pub dedupe_key: String,
    pub booking_date: Option<String>,
    pub value_date: Option<String>,
    pub transaction_date: Option<String>,
    pub amount_minor: i64,
    pub amount_text: String,
    pub currency: String,
    pub credit_debit: &'static str,
    pub counterparty_name: Option<String>,
    pub counterparty_account: Option<String>,
    pub reference: Option<String>,
    pub bank_transaction_code: Option<String>,
    pub merchant_category_code: Option<String>,
    pub balance_after_minor: Option<i64>,
    pub raw_json: String,
}

/// A transaction as it is stored, as plain values.
#[verifier::ext_equal]
pub struct RecordView {
    pub entry_reference: Option<Seq<char>>,
    pub dedupe_key: Seq<char>,
    pub booking_date: Option<Seq<char>>,
    pub value_date: Option<Seq<char>>,
    pub transaction_date: Option<Seq<char>>,
    pub amount_minor: i64,
    pub amount_text: Seq<char>,
    pub currency: Seq<char>,
    pub credit_debit: Seq<char>,
    pub counterparty_name: Option<Seq<char>>,
    pub counterparty_account: Option<Seq<char>>,
    pub reference: Option<Seq<char>>,
    pub bank_transaction_code: Option<Seq<char>>,
    pub merchant_category_code: Option<Seq<char>>,
    pub balance_after_minor: Option<i64>,
    pub raw_json: Seq<char>,
}

impl View for TransactionRecord {
    type V = RecordView;

    open spec fn view(&self) -> RecordView {
        RecordView {
            entry_reference: text::opt(self.entry_reference),
            dedupe_key: self.dedupe_key@,
            booking_date: text::opt(self.booking_date),
            value_date: text::opt(self.value_date),
            transaction_date: text::opt(self.transaction_date),
            amount_minor: self.amount_minor,
            amount_text: self.amount_text@,
            currency: self.currency@,
            credit_debit: self.credit_debit@,
            counterparty_name: text::opt(self.counterparty_name),
            counterparty_account: text::opt(self.counterparty_account),
            reference: text::opt(self.reference),
            bank_transaction_code: text::opt(self.bank_transaction_code),
            merchant_category_code: text::opt(self.merchant_category_code),
            balance_after_minor: self.balance_after_minor,
            raw_json: self.raw_json@,
        }
    }
}

/// Some records as plain values.
pub open spec fn record_views(rows: Seq<TransactionRecord>) -> Seq<RecordView> {
    Seq::new(rows.len(), |i: int| rows[i]@)
}

/// Whether a transaction is stored as it should be, under the given key.
pub open spec fn records(r: TransactionRecord, tx: TransactionView, key: Seq<char>) -> bool {
    &&& text::opt(r.entry_reference) == tx.entry_reference
    &&& r.dedupe_key@ == key
    &&& text::opt(r.booking_date) == tx.booking_date
    &&& text::opt(r.value_date) == tx.value_date
    &&& text::opt(r.transaction_date) == tx.transaction_date
    &&& r.amount_minor == signed_minor(tx)
    &&& tx.amount == Some(r.amount_text@)
    &&& tx.currency == Some(r.currency@)
    &&& r.credit_debit@ == (if tx.debit() {
        "DBIT"@
    } else {
        "CRDT"@
    })
    &&& text::opt(r.counterparty_name) == tx.counterparty()
    &&& text::opt(r.counterparty_account) == tx.counterparty_account()
    &&& text::opt(r.reference) == tx.reference()
    &&& text::opt(r.bank_transaction_code) == tx.bank_transaction_code
    &&& text::opt(r.merchant_category_code) == tx.merchant_category_code
    &&& r.balance_after_minor == balance_after(tx)
    &&& r.raw_json@ == tx.raw_json
}

/// The record of a transaction, under the given key.
pub fn record(tx: &ApiTransaction, key: String) -> (r: Result<TransactionRecord, IngestError>)
    ensures
        match r {
            Ok(rec) => fault_in(tx@) is None && records(rec, tx@, key@),
            Err(e) => fault_in(tx@) == Some(e@),
        },
{
    let amount = match &tx.amount {
        Some(a) => a,
        None => {
            return Err(IngestError::NoAmount);
        },
    };
    let currency = match &tx.currency {
        Some(c) => c,
        None => {
            return Err(IngestError::NoCurrency);
        },
    };
    let minor: i64 = match to_minor(amount.as_str(), currency.as_str()) {
        Ok(m) => m,
        Err(e) => {
            return Err(IngestError::Amount(e));
        },
    };
    proof {
        money::lemma_minor_bound(amount@, places(currency@));
    }
    let size: i64 = if minor < 0 {
        -minor
    } else {
        minor
    };
    let debit = tx.is_debit();
    let balance_after_minor = match &tx.balance_after {
        Some(b) => match to_minor(b.as_str(), currency.as_str()) {
            Ok(m) => Some(m),
            Err(_) => None,
        },
        None => None,
    };
    Ok(
        TransactionRecord {
            entry_reference: copy_opt(&tx.entry_reference),
            dedupe_key: key,
            booking_date: copy_opt(&tx.booking_date),
            value_date: copy_opt(&tx.value_date),
            transaction_date: copy_opt(&tx.transaction_date),
            amount_minor: if debit {
                -size
            } else {
                size
            },
            amount_text: owned(amount.as_str()),
            currency: owned(currency.as_str()),
            credit_debit: if debit {
                "DBIT"
            } else {
                "CRDT"
            },
            counterparty_name: tx.counterparty_name(),
            counterparty_account: tx.counterparty_account(),
            reference: tx.remittance(),
            bank_transaction_code: copy_opt(&tx.bank_transaction_code),
            merchant_category_code: copy_opt(&tx.merchant_category_code),
            balance_after_minor,
            raw_json: owned(tx.raw_json.as_str()),
        },
    )
}

/// Whether some records are those of the chosen transactions, or tell the first
/// fault among them.
pub open spec fn ingests(
    r: Result<Vec<TransactionRecord>, IngestError>,
    chosen: Seq<TransactionView>,
) -> bool {
    match first_fault(chosen) {
        Some(f) => r matches Err(e) && e@ == f,
        None => {
            &&& r is Ok
            &&& r->Ok_0@.len() == chosen.len()
            &&& forall|i: int|
                0 <= i < chosen.len() ==> records(
                    #[trigger] r->Ok_0@[i],
                    chosen[i],
                    key_at(chosen, i),
                )
        },
    }
}

proof fn lemma_first_fault_take(items: Seq<TransactionView>, n: int)
    requires
        0 <= n <= items.len(),
        first_fault(items.take(n)) is Some,
    ensures
        first_fault(items) == first_fault(items.take(n)),
    decreases items.len() - n,
{
    if n < items.len() {
        assert(items.take(n + 1).drop_last() == items.take(n));
        lemma_first_fault_take(items, n + 1);
    } else {
        assert(items.take(n) == items);
    }
}

proof fn lemma_filter_push(
    items: Seq<TransactionView>,
    n: int,
    f: spec_fn(TransactionView) -> bool,
)
    requires
        0 <= n < items.len(),
    ensures
        items.take(n + 1).filter(f) == (if f(items[n]) {
            items.take(n).filter(f).push(items[n])
        } else {
            items.take(n).filter(f)
        }),
        items.take(n).filter(f).len() <= n,
    decreases n,
{
    reveal(Seq::filter);
    assert(items.take(n + 1).drop_last() == items.take(n));
    assert(items.take(n + 1).last() == items[n]);
    if n > 0 {
        lemma_filter_push(items, n - 1, f);
    } else {
        assert(items.take(0).len() == 0);
    }
}

proof fn lemma_filter_prefix(
    items: Seq<TransactionView>,
    n: int,
    f: spec_fn(TransactionView) -> bool,
)
    requires
        0 <= n <= items.len(),
    ensures
        items.take(n).filter(f).len() <= items.filter(f).len(),
        items.filter(f).take(items.take(n).filter(f).len() as int) == items.take(n).filter(f),
    decreases items.len() - n,
{
    if n < items.len() {
        lemma_filter_prefix(items, n + 1, f);
        lemma_filter_push(items, n, f);
        let (a, b) = (items.take(n).filter(f), items.take(n + 1).filter(f));
        assert(items.filter(f).take(a.len() as int) == b.take(a.len() as int));
        assert(b.take(a.len() as int) == a);
    } else {
        assert(items.take(n) == items);
    }
}

/// The records of the transactions that have the wanted status.
fn ingest(items: &[ApiTransaction], booked: bool) -> (r: Result<
    (Vec<TransactionRecord>, u64),
    IngestError,
>)
    ensures
        ({
            let all = transaction_views(items@);
            let f = if booked {
                is_booked()
            } else {
                is_pending()
            };
            match r {
                Ok((recs, skipped)) => ingests(Ok(recs), all.filter(f)) && skipped == all.len()
                    - all.filter(f).len(),
                Err(e) => ingests(Err(e), all.filter(f)),
            }
        }),
{
    let ghost all = transaction_views(items@);
    let ghost f = if booked {
        is_booked()
    } else {
        is_pending()
    };
    let ghost chosen = all.filter(f);
    let mut seen: StringHashMap<usize> = StringHashMap::new();
    let mut recs: Vec<TransactionRecord> = Vec::new();
    let mut skipped: u64 = 0;
    let count: usize = items.len();
    let mut i: usize = 0;
    reveal(Seq::filter);
    assert(all.take(0).filter(f) == Seq::<TransactionView>::empty());
    while i < count
        invariant
            count == items@.len(),
            i <= count,
            all == transaction_views(items@),
            f == (if booked {
                is_booked()
            } else {
                is_pending()
            }),
            chosen == all.filter(f),
            recs@.len() == all.take(i as int).filter(f).len(),
            recs@.len() <= i,
            skipped == i - recs@.len(),
            first_fault(all.take(i as int).filter(f)) is None,
            forall|j: int|
                0 <= j < recs@.len() ==> records(#[trigger] recs@[j], chosen[j], key_at(chosen, j)),
            forall|s: Seq<char>|
                #![trigger count_in(seen@, s)]
                count_in(seen@, s) == alike_before(chosen, recs@.len() as int, s),
        decreases count - i,
    {
        let tx = &items[i];
        let ghost before = all.take(i as int).filter(f);
        let ghost n = recs@.len() as int;
        assert(all[i as int] == tx@);
        proof {
            lemma_filter_push(all, i as int, f);
            lemma_filter_prefix(all, i as int, f);
            lemma_filter_prefix(all, i + 1, f);
        }
        let wanted = if booked {
            has_status(tx, "BOOK", "BOOK")
        } else {
            has_status(tx, "", "PDNG")
        };
        assert(wanted == f(tx@));
        i = i + 1;
        if wanted {
            let ghost now = before.push(tx@);
            assert(all.take(i as int).filter(f) == now);
            assert(chosen.take(n + 1) == now);
            assert(chosen[n] == chosen.take(n + 1)[n]);
            assert(chosen[n] == tx@);
            assert(now.drop_last() == before);
            assert(count_in(seen@, tx@.base()) == alike_before(chosen, n, tx@.base()));
            proof {
                lemma_alike_bound(chosen, n, tx@.base());
            }
            let ghost was = seen@;
            let key = dedupe_key(tx, &mut seen);
            assert(key@ == key_at(chosen, n));
            match record(tx, key) {
                Ok(rec) => {
                    recs.push(rec);
                },
                Err(e) => {
                    proof {
                        assert(first_fault(now) == Some(e@));
                        lemma_first_fault_take(chosen, n + 1);
                    }
                    return Err(e);
                },
            }
            assert forall|s: Seq<char>|
                #![trigger count_in(seen@, s)]
                count_in(seen@, s) == alike_before(chosen, n + 1, s) by {
                assert(count_in(was, s) == alike_before(chosen, n, s));
            }
        } else {
            skipped = skipped + 1;
        }
    }
    assert(all.take(i as int) == all);
    Ok((recs, skipped))
}

/// What is stored of the booked transactions of a sync.
#[derive(Debug)]
pub struct BookedPlan {
    pub rows: Vec<TransactionRecord>,
    /// How many transactions are not booked.
    pub skipped: u64,
}

/// The records of the booked transactions among some. Re-running a sync over
/// overlapping dates updates rather than duplicates, because the keys agree.
pub fn plan_booked(items: &[ApiTransaction]) -> (r: Result<BookedPlan, IngestError>)
    ensures
        ({
            let all = transaction_views(items@);
            let chosen = all.filter(is_booked());
            match r {
                Ok(plan) => books(plan, all),
                Err(e) => ingests(Err(e), chosen),
            }
        }),
{
    match ingest(items, true) {
        Ok((rows, skipped)) => Ok(BookedPlan { rows, skipped }),
        Err(e) => Err(e),
    }
}

/// The records of the pending transactions among some. Pending transactions
/// mutate and vanish, and usually carry no entry reference, so they are never
/// merged: the whole pending set of an account is replaced on each sync.
pub fn plan_pending(items: &[ApiTransaction]) -> (r: Result<Vec<TransactionRecord>, IngestError>)
    ensures
        ingests(r, transaction_views(items@).filter(is_pending())),
{
    match ingest(items, false) {
        Ok((rows, _)) => Ok(rows),
        Err(e) => Err(e),
    }
}

#[derive(Debug)]
pub struct IngestStats {
    pub inserted: u64,
    pub updated: u64,
    pub skipped: u64,
}

impl Default for IngestStats {
    fn default() -> (r: IngestStats)
        ensures
            r.inserted == 0,
            r.updated == 0,
            r.skipped == 0,
    {
        IngestStats { inserted: 0, updated: 0, skipped: 0 }
    }
}

/// How many of some numbers are not zero.
pub open spec fn nonzero(numbers: Seq<u64>) -> nat
    decreases numbers.len(),
{
    if numbers.len() == 0 {
        0
    } else if numbers.last() > 0 {
        nonzero(numbers.drop_last()) + 1
    } else {
        nonzero(numbers.drop_last())
    }
}

/// The figures of an ingest, from how many rows each statement changed. SQLite
/// reports one row for an insert and for an update alike, so both count as
/// inserted.
pub fn ingest_stats(skipped: u64, affected: &[u64]) -> (r: IngestStats)
    ensures
        r.inserted == nonzero(affected@),
        r.updated == 0,
        r.skipped == skipped,
{
    let mut stats = IngestStats::default();
    stats.skipped = skipped;
    let count: usize = affected.len();
    let mut i: usize = 0;
    assert(affected@.take(0) == Seq::<u64>::empty());
    while i < count
        invariant
            count == affected@.len(),
            i <= count,
            stats.inserted == nonzero(affected@.take(i as int)),
            stats.inserted <= i,
            stats.updated == 0,
            stats.skipped == skipped,
        decreases count - i,
    {
        assert(affected@.take(i + 1).drop_last() == affected@.take(i as int));
        if affected[i] > 0 {
            stats.inserted = stats.inserted + 1;
        }
        i = i + 1;
    }
    assert(affected@.take(i as int) == affected@);
    stats
}

// ---------------------------------------------------------------------------
// Balances
// ---------------------------------------------------------------------------

/// A balance as the API gives it.
#[derive(Debug)]
pub struct ApiBalance {
    pub amount: Option<String>,
    pub currency: Option<String>,
    pub balance_type: Option<String>,
    pub reference_date: Option<String>,
    pub raw_json: String,
}

#[verifier::ext_equal]
pub struct BalanceView {
    pub amount: Option<Seq<char>>,
    pub currency: Option<Seq<char>>,
    pub balance_type: Option<Seq<char>>,
    pub reference_date: Option<Seq<char>>,
    pub raw_json: Seq<char>,
}

impl View for ApiBalance {
    type V = BalanceView;

    open spec fn view(&self) -> BalanceView {
        BalanceView {
            amount: text::opt(self.amount),
            currency: text::opt(self.currency),
            balance_type: text::opt(self.balance_type),
            reference_date: text::opt(self.reference_date),
            raw_json: self.raw_json@,
        }
    }
}

/// The balance that a JSON value describes.
pub open spec fn balance_in(tree: Tree) -> BalanceView {
    BalanceView {
        amount: json::text_within(tree, "balance_amount"@, "amount"@),
        currency: json::text_within(tree, "balance_amount"@, "currency"@),
        balance_type: json::text_at(tree, "balance_type"@),
        reference_date: json::text_at(tree, "reference_date"@),
        raw_json: json::text_for(tree),
    }
}

pub fn read_balance(value: &serde_json::Value) -> (r: ApiBalance)
    ensures
        r@ == balance_in(json::tree_of(*value)),
{
    ApiBalance {
        amount: read_text_within(value, "balance_amount", "amount"),
        currency: read_text_within(value, "balance_amount", "currency"),
        balance_type: read_text(value, "balance_type"),
        reference_date: read_text(value, "reference_date"),
        raw_json: json_text(value),
    }
}

pub open spec fn balance_views(items: Seq<ApiBalance>) -> Seq<BalanceView> {
    Seq::new(items.len(), |i: int| items[i]@)
}

/// A balance as it is stored.
#[derive(Debug)]
pub struct BalanceRecord {
    pub balance_type: String,
    pub amount_minor: i64,
    pub amount_text: String,
    pub currency: String,
    pub reference_date: Option<String>,
    pub raw_json: String,
}

/// The currency of a balance; one that names none has the code for no currency.
pub open spec fn balance_currency(b: BalanceView) -> Seq<char> {
    match b.currency {
        Some(c) => c,
        None => "XXX"@,
    }
}

pub open spec fn balance_minor(b: BalanceView) -> Result<int, MoneyFault> {
    money::minor_of(b.amount->0, places(balance_currency(b)))
}

/// Whether a balance is stored as it should be.
pub open spec fn records_balance(r: BalanceRecord, b: BalanceView) -> bool {
    &&& r.balance_type@ == (match b.balance_type {
        Some(t) => t,
        None => "OTHR"@,
    })
    &&& balance_minor(b) == Ok::<int, MoneyFault>(r.amount_minor as int)
    &&& b.amount == Some(r.amount_text@)
    &&& r.currency@ == balance_currency(b)
    &&& text::opt(r.reference_date) == b.reference_date
    &&& r.raw_json@ == b.raw_json
}

/// Whether a balance has an amount.
pub open spec fn has_amount() -> spec_fn(BalanceView) -> bool {
    |b: BalanceView| b.amount is Some
}

/// The balances up to the first whose amount cannot be read.
pub open spec fn readable_balances(items: Seq<BalanceView>) -> Seq<BalanceView>
    decreases items.len(),
{
    if items.len() == 0 {
        seq![]
    } else if balance_minor(items[0]) is Err {
        seq![]
    } else {
        seq![items[0]] + readable_balances(items.drop_first())
    }
}

/// What is stored of some balances: all up to the first whose amount cannot be
/// read, and that one's error.
#[derive(Debug)]
pub struct BalancePlan {
    pub rows: Vec<BalanceRecord>,
    pub error: Option<MoneyError>,
}

/// Whether a plan is that of some balances. Those without an amount are passed
/// over.
pub open spec fn plans_balances(plan: BalancePlan, items: Seq<BalanceView>) -> bool {
    let stated = items.filter(has_amount());
    let good = readable_balances(stated);
    &&& plan.rows@.len() == good.len()
    &&& forall|i: int|
        0 <= i < good.len() ==> records_balance(#[trigger] plan.rows@[i], good[i])
    &&& match plan.error {
        None => good.len() == stated.len(),
        Some(e) => good.len() < stated.len() && stated[good.len() as int].amount == Some(e.amount())
            && balance_minor(stated[good.len() as int]) == Err::<int, MoneyFault>(e.fault()),
    }
}

proof fn lemma_readable(items: Seq<BalanceView>, n: int)
    requires
        0 <= n <= items.len(),
        forall|i: int| 0 <= i < n ==> balance_minor(#[trigger] items[i]) is Ok,
        n < items.len() ==> balance_minor(items[n]) is Err,
    ensures
        readable_balances(items) == items.take(n),
    decreases n,
{
    if n > 0 {
        let rest = items.drop_first();
        assert forall|i: int| 0 <= i < n - 1 implies balance_minor(#[trigger] rest[i]) is Ok by {
            assert(rest[i] == items[i + 1]);
        }
        lemma_readable(rest, n - 1);
        assert(balance_minor(items[0]) is Ok);
        assert(seq![items[0]] + rest.take(n - 1) == items.take(n));
    } else {
        assert(items.take(0) == Seq::<BalanceView>::empty());
    }
}

proof fn lemma_balance_filter(items: Seq<BalanceView>, n: int)
    requires
        0 <= n < items.len(),
    ensures
        items.take(n + 1).filter(has_amount()) == (if items[n].amount is Some {
            items.take(n).filter(has_amount()).push(items[n])
        } else {
            items.take(n).filter(has_amount())
        }),
{
    reveal(Seq::filter);
    assert(items.take(n + 1).drop_last() == items.take(n));
    assert(items.take(n + 1).last() == items[n]);
}

proof fn lemma_balance_prefix(items: Seq<BalanceView>, n: int)
    requires
        0 <= n <= items.len(),
    ensures
        ({
            let f = has_amount();
            let a = items.take(n).filter(f);
            &&& a.len() <= items.filter(f).len()
            &&& items.filter(f).take(a.len() as int) == a
        }),
    decreases items.len() - n,
{
    let f = has_amount();
    if n < items.len() {
        lemma_balance_prefix(items, n + 1);
        lemma_balance_filter(items, n);
        let (a, b) = (items.take(n).filter(f), items.take(n + 1).filter(f));
        assert(items.filter(f).take(a.len() as int) == b.take(a.len() as int));
        assert(b.take(a.len() as int) == a);
    } else {
        assert(items.take(n) == items);
    }
}

pub fn plan_balances(items: &[ApiBalance]) -> (r: BalancePlan)
    ensures
        plans_balances(r, balance_views(items@)),
{
    let ghost all = balance_views(items@);
    let ghost f = has_amount();
    let ghost stated = all.filter(f);
    let mut rows: Vec<BalanceRecord> = Vec::new();
    let mut i: usize = 0;
    reveal(Seq::filter);
    assert(all.take(0).filter(f) == Seq::<BalanceView>::empty());
    while i < items.len()
        invariant
            i <= items@.len(),
            all == balance_views(items@),
            f == has_amount(),
            stated == all.filter(f),
            rows@.len() == all.take(i as int).filter(f).len(),
            forall|j: int|
                0 <= j < rows@.len() ==> records_balance(#[trigger] rows@[j], stated[j]),
        decreases items@.len() - i,
    {
        let b = &items[i];
        let ghost n = rows@.len() as int;
        assert(all[i as int] == b@);
        proof {
            lemma_balance_filter(all, i as int);
            lemma_balance_prefix(all, i as int);
            lemma_balance_prefix(all, i + 1);
        }
        i = i + 1;
        if let Some(amount) = &b.amount {
            assert(stated.take(n + 1)[n] == b@);
            assert(stated[n] == b@);
            let currency = match &b.currency {
                Some(c) => owned(c.as_str()),
                None => owned("XXX"),
            };
            match to_minor(amount.as_str(), currency.as_str()) {
                Ok(amount_minor) => {
                    let balance_type = match &b.balance_type {
                        Some(t) => owned(t.as_str()),
                        None => owned("OTHR"),
                    };
                    rows.push(
                        BalanceRecord {
                            balance_type,
                            amount_minor,
                            amount_text: owned(amount.as_str()),
                            currency,
                            reference_date: copy_opt(&b.reference_date),
                            raw_json: owned(b.raw_json.as_str()),
                        },
                    );
                },
                Err(e) => {
                    proof {
                        assert forall|j: int| 0 <= j < n implies balance_minor(
                            #[trigger] stated[j],
                        ) is Ok by {
                            assert(records_balance(rows@[j], stated[j]));
                        }
                        lemma_readable(stated, n);
                    }
                    return BalancePlan { rows, error: Some(e) };
                },
            }
        }
    }
    proof {
        assert(all.take(i as int) == all);
        let n = rows@.len() as int;
        assert forall|j: int| 0 <= j < n implies balance_minor(#[trigger] stated[j]) is Ok by {
            assert(records_balance(rows@[j], stated[j]));
        }
        lemma_readable(stated, n);
        assert(stated.take(n) == stated);
    }
    BalancePlan { rows, error: None }
}

// ---------------------------------------------------------------------------
// Sessions and accounts
// ---------------------------------------------------------------------------

#[derive(Debug)]
pub struct SavedSession {
    pub session_row_id: i64,
    /// (accounts.id, session-scoped uid) pairs, ready for transaction fetching.
    pub accounts: Vec<(i64, String)>,
}

/// An account of a session as the API gives it.
#[derive(Debug)]
pub struct ApiAccount {
    pub uid: Option<String>,
    pub identification_hash: Option<String>,
    pub currency: Option<String>,
    pub name: Option<String>,
    pub product: Option<String>,
    pub cash_account_type: Option<String>,
    pub usage: Option<String>,
    pub iban: Option<String>,
    pub masked_pan: Option<String>,
    pub bban: Option<String>,
    pub raw_json: String,
}

#[verifier::ext_equal]
pub struct ApiAccountView {
    pub uid: Option<Seq<char>>,
    pub identification_hash: Option<Seq<char>>,
    pub currency: Option<Seq<char>>,
    pub name: Option<Seq<char>>,
    pub product: Option<Seq<char>>,
    pub cash_account_type: Option<Seq<char>>,
    pub usage: Option<Seq<char>>,
    pub iban: Option<Seq<char>>,
    pub masked_pan: Option<Seq<char>>,
    pub bban: Option<Seq<char>>,
    pub raw_json: Seq<char>,
}

impl View for ApiAccount {
    type V = ApiAccountView;

    open spec fn view(&self) -> ApiAccountView {
        ApiAccountView {
            uid: text::opt(self.uid),
            identification_hash: text::opt(self.identification_hash),
            currency: text::opt(self.currency),
            name: text::opt(self.name),
            product: text::opt(self.product),
            cash_account_type: text::opt(self.cash_account_type),
            usage: text::opt(self.usage),
            iban: text::opt(self.iban),
            masked_pan: text::opt(self.masked_pan),
            bban: text::opt(self.bban),
            raw_json: self.raw_json@,
        }
    }
}

/// The account that a JSON value describes.
pub open spec fn account_in(tree: Tree) -> ApiAccountView {
    ApiAccountView {
        uid: json::text_at(tree, "uid"@),
        identification_hash: json::text_at(tree, "identification_hash"@),
        currency: json::text_at(tree, "currency"@),
        name: json::text_at(tree, "name"@),
        product: json::text_at(tree, "product"@),
        cash_account_type: json::text_at(tree, "cash_account_type"@),
        usage: json::text_at(tree, "usage"@),
        iban: json::text_within(tree, "account_id"@, "iban"@),
        masked_pan: json::text_within(tree, "account_id"@, "masked_pan"@),
        bban: json::text_within(tree, "account_id"@, "bban"@),
        raw_json: json::text_for(tree),
    }
}

pub fn read_account(value: &serde_json::Value) -> (r: ApiAccount)
    ensures
        r@ == account_in(json::tree_of(*value)),
{
    ApiAccount {
        uid: read_text(value, "uid"),
        identification_hash: read_text(value, "identification_hash"),
        currency: read_text(value, "currency"),
        name: read_text(value, "name"),
        product: read_text(value, "product"),
        cash_account_type: read_text(value, "cash_account_type"),
        usage: read_text(value, "usage"),
        iban: read_text_within(value, "account_id", "iban"),
        masked_pan: read_text_within(value, "account_id", "masked_pan"),
        bban: read_text_within(value, "account_id", "bban"),
        raw_json: json_text(value),
    }
}

/// A session as the API gives it.
#[derive(Debug)]
pub struct ApiSession {
    pub session_id: Option<String>,
    pub status: Option<String>,
    pub valid_until: Option<String>,
    pub authorized: Option<String>,
    pub accounts: Vec<ApiAccount>,
    pub raw_json: String,
}

pub open spec fn api_account_views(accounts: Seq<ApiAccount>) -> Seq<ApiAccountView> {
    Seq::new(accounts.len(), |i: int| accounts[i]@)
}

/// The accounts that some JSON values describe.
pub open spec fn accounts_in(items: Seq<Tree>) -> Seq<ApiAccountView> {
    Seq::new(items.len(), |i: int| account_in(items[i]))
}

/// Whether a session is the one that a JSON value describes.
pub open spec fn is_session_in(s: ApiSession, tree: Tree) -> bool {
    &&& text::opt(s.session_id) == json::text_at(tree, "session_id"@)
    &&& text::opt(s.status) == json::text_at(tree, "status"@)
    &&& text::opt(s.valid_until) == json::text_within(tree, "access"@, "valid_until"@)
    &&& text::opt(s.authorized) == json::text_at(tree, "authorized"@)
    &&& api_account_views(s.accounts@) == accounts_in(json::elements_at(tree, "accounts"@))
    &&& s.raw_json@ == json::text_for(tree)
}

fn read_accounts(items: &Vec<serde_json::Value>) -> (r: Vec<ApiAccount>)
    ensures
        api_account_views(r@) == accounts_in(json::trees_of(items@)),
{
    let mut r: Vec<ApiAccount> = Vec::new();
    let mut i: usize = 0;
    while i < items.len()
        invariant
            i <= items@.len(),
            r@.len() == i,
            forall|j: int|
                0 <= j < i ==> (#[trigger] r@[j])@ == account_in(json::tree_of(items@[j])),
        decreases items@.len() - i,
    {
        r.push(read_account(&items[i]));
        i = i + 1;
    }
    assert(api_account_views(r@) == accounts_in(json::trees_of(items@)));
    r
}

/// The session in the response to a request for one.
pub fn read_session(value: &serde_json::Value) -> (r: ApiSession)
    ensures
        is_session_in(r, json::tree_of(*value)),
{
    let accounts = match member(value, "accounts") {
        Some(v) => match elements(v) {
            Some(items) => read_accounts(items),
            None => Vec::new(),
        },
        None => Vec::new(),
    };
    let ghost tree = json::tree_of(*value);
    assert(api_account_views(accounts@) == accounts_in(json::elements_at(tree, "accounts"@)));
    ApiSession {
        session_id: read_text(value, "session_id"),
        status: read_text(value, "status"),
        valid_until: read_text_within(value, "access", "valid_until"),
        authorized: read_text(value, "authorized"),
        accounts,
        raw_json: json_text(value),
    }
}

/// An account as it is stored. It is matched on its identification hash, so that
/// re-authorising it updates the existing row instead of creating a duplicate,
/// and its transaction history stays attached.
#[derive(Debug)]
pub struct AccountRecord {
    pub uid: String,
    pub identification_hash: String,
    pub currency: Option<String>,
    pub name: Option<String>,
    pub product: Option<String>,
    pub cash_account_type: Option<String>,
    pub usage: Option<String>,
    pub iban: Option<String>,
    pub masked_pan: Option<String>,
    pub bban: Option<String>,
    pub raw_json: String,
}

/// Whether an account is stored as it should be.
pub open spec fn records_account(r: AccountRecord, a: ApiAccountView) -> bool {
    &&& a.uid == Some(r.uid@)
    &&& a.identification_hash == Some(r.identification_hash@)
    &&& text::opt(r.currency) == a.currency
    &&& text::opt(r.name) == a.name
    &&& text::opt(r.product) == a.product
    &&& text::opt(r.cash_account_type) == a.cash_account_type
    &&& text::opt(r.usage) == a.usage
    &&& text::opt(r.iban) == a.iban
    &&& text::opt(r.masked_pan) == a.masked_pan
    &&& text::opt(r.bban) == a.bban
    &&& r.raw_json@ == a.raw_json
}

/// A session as it is stored.
#[derive(Debug)]
pub struct SessionRecord {
    pub provider_session_id: String,
    pub status: String,
    pub valid_until: Option<String>,
    pub authorized_at: Option<String>,
    pub accounts: Vec<AccountRecord>,
    /// The whole response: some of it is only ever shown once.
    pub raw_json: String,
}

#[derive(Debug, Clone, Copy, PartialEq, Eq, Structural)]
pub enum SessionError {
    NoSessionId,
    /// An account has no uid.
    NoUid,
    /// An account has no identification hash: without the stable cross-session
    /// identity a re-authorised account cannot be told from a new one.
    NoIdentificationHash,
}

/// What keeps an account from being stored.
pub open spec fn account_fault(a: ApiAccountView) -> Option<SessionError> {
    if a.uid is None {
        Some(SessionError::NoUid)
    } else if a.identification_hash is None {
        Some(SessionError::NoIdentificationHash)
    } else {
        None
    }
}

/// The first fault among some accounts.
pub open spec fn first_account_fault(accounts: Seq<ApiAccountView>) -> Option<SessionError>
    decreases accounts.len(),
{
    if accounts.len() == 0 {
        None
    } else if account_fault(accounts[0]) is Some {
        account_fault(accounts[0])
    } else {
        first_account_fault(accounts.drop_first())
    }
}

/// What keeps a session from being stored.
pub open spec fn session_fault(s: ApiSession) -> Option<SessionError> {
    if s.session_id is None {
        Some(SessionError::NoSessionId)
    } else {
        first_account_fault(api_account_views(s.accounts@))
    }
}

/// Whether a session is stored as it should be. One that states no status is
/// authorized.
pub open spec fn records_session(r: SessionRecord, s: ApiSession) -> bool {
    &&& text::opt(s.session_id) == Some(r.provider_session_id@)
    &&& r.status@ == (match s.status {
        Some(t) => t@,
        None => "AUTHORIZED"@,
    })
    &&& text::opt(r.valid_until) == text::opt(s.valid_until)
    &&& text::opt(r.authorized_at) == text::opt(s.authorized)
    &&& r.raw_json@ == s.raw_json@
    &&& r.accounts@.len() == s.accounts@.len()
    &&& forall|i: int|
        0 <= i < r.accounts@.len() ==> records_account(#[trigger] r.accounts@[i], s.accounts@[i]@)
}

fn record_account(a: &ApiAccount) -> (r: Result<AccountRecord, SessionError>)
    ensures
        match r {
            Ok(rec) => account_fault(a@) is None && records_account(rec, a@),
            Err(e) => account_fault(a@) == Some(e),
        },
{
    let uid = match &a.uid {
        Some(u) => owned(u.as_str()),
        None => {
            return Err(SessionError::NoUid);
        },
    };
    let identification_hash = match &a.identification_hash {
        Some(h) => owned(h.as_str()),
        None => {
            return Err(SessionError::NoIdentificationHash);
        },
    };
    Ok(
        AccountRecord {
            uid,
            identification_hash,
            currency: copy_opt(&a.currency),
            name: copy_opt(&a.name),
            product: copy_opt(&a.product),
            cash_account_type: copy_opt(&a.cash_account_type),
            usage: copy_opt(&a.usage),
            iban: copy_opt(&a.iban),
            masked_pan: copy_opt(&a.masked_pan),
            bban: copy_opt(&a.bban),
            raw_json: owned(a.raw_json.as_str()),
        },
    )
}

/// What is stored of a session.
pub fn plan_session(s: &ApiSession) -> (r: Result<SessionRecord, SessionError>)
    ensures
        match r {
            Ok(rec) => session_fault(*s) is None && records_session(rec, *s),
            Err(e) => session_fault(*s) == Some(e),
        },
{
    let provider_session_id = match &s.session_id {
        Some(id) => owned(id.as_str()),
        None => {
            return Err(SessionError::NoSessionId);
        },
    };
    let ghost views = api_account_views(s.accounts@);
    let mut accounts: Vec<AccountRecord> = Vec::new();
    let mut i: usize = 0;
    assert(views.skip(0) == views);
    while i < s.accounts.len()
        invariant
            i <= s.accounts@.len(),
            s.session_id is Some,
            views == api_account_views(s.accounts@),
            accounts@.len() == i,
            first_account_fault(views.skip(i as int)) == first_account_fault(views),
            forall|j: int|
                0 <= j < i ==> records_account(#[trigger] accounts@[j], s.accounts@[j]@),
        decreases s.accounts@.len() - i,
    {
        assert(views.skip(i as int)[0] == s.accounts@[i as int]@);
        assert(views.skip(i as int).drop_first() == views.skip(i + 1));
        match record_account(&s.accounts[i]) {
            Ok(rec) => {
                accounts.push(rec);
            },
            Err(e) => {
                return Err(e);
            },
        }
        i = i + 1;
    }
    let status = match &s.status {
        Some(t) => owned(t.as_str()),
        None => owned("AUTHORIZED"),
    };
    Ok(
        SessionRecord {
            provider_session_id,
            status,
            valid_until: copy_opt(&s.valid_until),
            authorized_at: copy_opt(&s.authorized),
            accounts,
            raw_json: owned(s.raw_json.as_str()),
        },
    )
}

// ---------------------------------------------------------------------------
// Sync bookkeeping
// ---------------------------------------------------------------------------

/// Whether the history of an account is still to be fetched: where nothing is
/// stored of its syncs, or no backfill among it.
pub fn needs_backfill(state: Option<Option<String>>) -> (r: bool)
    ensures
        r == !(state matches Some(Some(_))),
{
    match state {
        Some(backfilled_at) => backfilled_at.is_none(),
        None => true,
    }
}

// ---------------------------------------------------------------------------
// Laws
// ---------------------------------------------------------------------------

proof fn lemma_alike_grows(items: Seq<TransactionView>, i: int, j: int)
    requires
        0 <= i < j <= items.len(),
        items[i].bank_reference() is None,
    ensures
        alike_before(items, i, items[i].base()) < alike_before(items, j, items[i].base()),
    decreases j - i,
{
    if i + 1 < j {
        lemma_alike_grows(items, i, j - 1);
    }
}

proof fn lemma_decimal_lacks(n: int, c: char)
    requires
        n >= 0,
        !text::is_digit(c),
    ensures
        !decimal::decimal(n).contains(c),
{
    decimal::lemma_decimal(n);
}

/// Two transactions without a reference of the bank's never share a key, though
/// they agree on every field: identical purchases are not collapsed into one.
pub proof fn law_identical_purchases_stay_apart(items: Seq<TransactionView>, i: int, j: int)
    requires
        0 <= i < j < items.len(),
        items[i].bank_reference() is None,
        items[j].bank_reference() is None,
    ensures
        key_at(items, i) != key_at(items, j),
{
    let (a, b) = (items[i].base(), items[j].base());
    let m = alike_before(items, i, a) as int + 1;
    let n = alike_before(items, j, b) as int + 1;
    if key_at(items, i) == key_at(items, j) {
        lemma_decimal_lacks(m, '#');
        lemma_decimal_lacks(n, '#');
        text::lemma_cut_last(a, decimal::decimal(m), b, decimal::decimal(n), '#');
        decimal::lemma_decimal(m);
        decimal::lemma_decimal(n);
        lemma_alike_grows(items, i, j);
    }
}

/// Whether a transaction has no reference of the bank's and looks like another.
pub open spec fn looks_like(base: Seq<char>) -> spec_fn(TransactionView) -> bool {
    |tx: TransactionView| tx.bank_reference() is None && tx.base() == base
}

proof fn lemma_alike_counts(items: Seq<TransactionView>, n: int, base: Seq<char>)
    requires
        0 <= n <= items.len(),
    ensures
        alike_before(items, n, base) == items.take(n).filter(looks_like(base)).len(),
    decreases n,
{
    reveal(Seq::filter);
    if n > 0 {
        lemma_alike_counts(items, n - 1, base);
        lemma_filter_push(items, n - 1, looks_like(base));
    } else {
        assert(items.take(0).len() == 0);
    }
}

/// The key of a transaction is the same in every sync that holds as many earlier
/// ones that look like it, whatever else it holds: fetching it again updates
/// what is stored.
pub proof fn law_keys_agree_between_syncs(
    items: Seq<TransactionView>,
    i: int,
    other: Seq<TransactionView>,
    j: int,
)
    requires
        0 <= i < items.len(),
        0 <= j < other.len(),
        items[i] == other[j],
        items.take(i).filter(looks_like(items[i].base())).len() == other.take(j).filter(
            looks_like(items[i].base()),
        ).len(),
    ensures
        key_at(items, i) == key_at(other, j),
{
    lemma_alike_counts(items, i, items[i].base());
    lemma_alike_counts(other, j, items[i].base());
}

/// A debit is never stored as money coming in, nor a credit as money going out.
pub proof fn law_sign_follows_the_indicator(tx: TransactionView)
    requires
        fault_in(tx) is None,
    ensures
        tx.debit() ==> signed_minor(tx) <= 0,
        !tx.debit() ==> signed_minor(tx) >= 0,
{
}

// ---------------------------------------------------------------------------
// Storing booked transactions again
// ---------------------------------------------------------------------------

/// A later value, or where it has none, the one before.
pub open spec fn latest_of<A>(held: Option<A>, new: Option<A>) -> Option<A> {
    if new is Some {
        new
    } else {
        held
    }
}

/// What a booked transaction becomes when it is stored where one of the same key
/// may be held: dates, amount and text are the new ones; the counterparty, the
/// reference and the balance are too, where they are known; the rest stays.
pub open spec fn merged(held: Option<RecordView>, new: RecordView) -> RecordView {
    match held {
        None => new,
        Some(old_row) => RecordView {
            booking_date: new.booking_date,
            value_date: new.value_date,
            amount_minor: new.amount_minor,
            amount_text: new.amount_text,
            counterparty_name: latest_of(old_row.counterparty_name, new.counterparty_name),
            reference: latest_of(old_row.reference, new.reference),
            balance_after_minor: latest_of(old_row.balance_after_minor, new.balance_after_minor),
            raw_json: new.raw_json,
            ..old_row
        },
    }
}

/// The booked transactions that are stored, by account and key. When each was first
/// and last seen is left out.
pub type Booked = Map<(int, Seq<char>), RecordView>;

/// The transaction held under a key of an account, if any.
pub open spec fn held_at(table: Booked, account: int, key: Seq<char>) -> Option<RecordView> {
    if table.contains_key((account, key)) {
        Some(table[(account, key)])
    } else {
        None
    }
}

/// What is stored once some booked transactions of an account have been, one after
/// the other.
pub open spec fn upserted(table: Booked, account: int, rows: Seq<RecordView>) -> Booked
    decreases rows.len(),
{
    if rows.len() == 0 {
        table
    } else {
        let before = upserted(table, account, rows.drop_last());
        let row = rows.last();
        before.insert(
            (account, row.dedupe_key),
            merged(held_at(before, account, row.dedupe_key), row),
        )
    }
}

/// What some transactions of one key come to.
spec fn summary(rows: Seq<RecordView>, key: Seq<char>) -> Option<RecordView>
    decreases rows.len(),
{
    if rows.len() == 0 {
        None
    } else if rows.last().dedupe_key == key {
        Some(merged(summary(rows.drop_last(), key), rows.last()))
    } else {
        summary(rows.drop_last(), key)
    }
}

/// Under each key stands what was held there merged with what the transactions of
/// that key come to.
proof fn lemma_upserted_at(
    table: Booked,
    account: int,
    rows: Seq<RecordView>,
    whose: int,
    key: Seq<char>,
)
    ensures
        held_at(upserted(table, account, rows), whose, key) == (if whose == account && summary(
            rows,
            key,
        ) is Some {
            Some(merged(held_at(table, whose, key), summary(rows, key)->0))
        } else {
            held_at(table, whose, key)
        }),
    decreases rows.len(),
{
    if rows.len() > 0 {
        let front = rows.drop_last();
        lemma_upserted_at(table, account, front, whose, key);
        if whose == account && rows.last().dedupe_key == key {
            if let Some(s) = summary(front, key) {
                let held = held_at(table, whose, key);
                assert(merged(Some(merged(held, s)), rows.last()) =~= merged(
                    held,
                    merged(Some(s), rows.last()),
                ));
            }
        }
    }
}

/// The same transactions stored again change nothing.
proof fn lemma_upserting_again(table: Booked, account: int, rows: Seq<RecordView>)
    ensures
        upserted(upserted(table, account, rows), account, rows) == upserted(table, account, rows),
{
    let once = upserted(table, account, rows);
    let twice = upserted(once, account, rows);
    assert forall|at: (int, Seq<char>)|
        #![trigger twice.contains_key(at)]
        #![trigger once.contains_key(at)]
        twice.contains_key(at) == once.contains_key(at) && (once.contains_key(at) ==> twice[at]
            == once[at]) by {
        let (whose, key) = at;
        lemma_upserted_at(table, account, rows, whose, key);
        lemma_upserted_at(once, account, rows, whose, key);
        assert(held_at(twice, whose, key) is Some == twice.contains_key(at));
        assert(held_at(once, whose, key) is Some == once.contains_key(at));
        if whose == account {
            if let Some(s) = summary(rows, key) {
                let held = held_at(table, whose, key);
                assert(merged(Some(merged(held, s)), s) =~= merged(held, s));
            }
        }
    }
    assert(twice =~= once);
}

/// A transaction that no later one shares its key with stands with its amount.
proof fn lemma_last_amount_stands(table: Booked, account: int, rows: Seq<RecordView>, i: int)
    requires
        0 <= i < rows.len(),
        forall|j: int|
            i < j < rows.len() ==> (#[trigger] rows[j]).dedupe_key != rows[i].dedupe_key,
    ensures
        held_at(upserted(table, account, rows), account, rows[i].dedupe_key) matches Some(row)
            && row.amount_minor == rows[i].amount_minor,
    decreases rows.len(),
{
    if i < rows.len() - 1 {
        let front = rows.drop_last();
        assert(rows[rows.len() - 1].dedupe_key != rows[i].dedupe_key);
        assert forall|j: int| i < j < front.len() implies (#[trigger] front[j]).dedupe_key
            != front[i].dedupe_key by {
            assert(rows[j].dedupe_key != rows[i].dedupe_key);
        }
        lemma_last_amount_stands(table, account, front, i);
    }
}

proof fn lemma_not_chosen(items: Seq<TransactionView>)
    ensures
        items.filter(|tx: TransactionView| !is_booked()(tx)).len() == items.len() - items.filter(
            is_booked(),
        ).len(),
    decreases items.len(),
{
    reveal(Seq::filter);
    if items.len() > 0 {
        lemma_not_chosen(items.drop_last());
    }
}

proof fn lemma_all_nonzero(numbers: Seq<u64>)
    requires
        forall|i: int| 0 <= i < numbers.len() ==> (#[trigger] numbers[i]) > 0,
    ensures
        nonzero(numbers) == numbers.len(),
    decreases numbers.len(),
{
    if numbers.len() > 0 {
        assert(numbers[numbers.len() - 1] > 0);
        lemma_all_nonzero(numbers.drop_last());
    }
}

/// Whether a plan is that of the booked transactions among some.
pub open spec fn books(plan: BookedPlan, all: Seq<TransactionView>) -> bool {
    &&& ingests(Ok(plan.rows), all.filter(is_booked()))
    &&& plan.skipped == all.len() - all.filter(is_booked()).len()
}

/// Storing the same transactions again changes nothing: no booked transaction
/// appears, disappears or changes, but for when it was last seen. Each time those
/// that are not booked are skipped, and where every statement changes a row, as an
/// insert and an update alike do, each time the booked ones are counted.
pub proof fn law_storing_again_changes_nothing(
    table: Booked,
    account: int,
    all: Seq<TransactionView>,
    plan: BookedPlan,
    again: BookedPlan,
    changed: Seq<u64>,
    changed_again: Seq<u64>,
)
    requires
        books(plan, all),
        books(again, all),
        changed.len() == plan.rows@.len(),
        changed_again.len() == again.rows@.len(),
        forall|i: int| 0 <= i < changed.len() ==> (#[trigger] changed[i]) > 0,
        forall|i: int| 0 <= i < changed_again.len() ==> (#[trigger] changed_again[i]) > 0,
    ensures
        ({
            let once = upserted(table, account, record_views(plan.rows@));
            upserted(once, account, record_views(again.rows@)) == once
        }),
        nonzero(changed) == all.filter(is_booked()).len(),
        nonzero(changed_again) == nonzero(changed),
        plan.skipped == all.filter(|tx: TransactionView| !is_booked()(tx)).len(),
        again.skipped == plan.skipped,
{
    let chosen = all.filter(is_booked());
    let (rows, rows_again) = (record_views(plan.rows@), record_views(again.rows@));
    assert forall|i: int| 0 <= i < rows.len() implies #[trigger] rows[i] == rows_again[i] by {
        assert(records(plan.rows@[i], chosen[i], key_at(chosen, i)));
        assert(records(again.rows@[i], chosen[i], key_at(chosen, i)));
        assert(rows[i] =~= rows_again[i]);
    }
    assert(rows =~= rows_again);
    lemma_upserting_again(table, account, rows);
    lemma_not_chosen(all);
    lemma_all_nonzero(changed);
    lemma_all_nonzero(changed_again);
}

/// What is stored of a booked transaction is signed by its direction, whatever sign
/// the bank writes: money that leaves the account is negative, and the size is that
/// of the stated amount. Of several with one key the last counts.
pub proof fn law_stored_amounts_are_signed(
    table: Booked,
    account: int,
    all: Seq<TransactionView>,
    plan: BookedPlan,
    i: int,
)
    requires
        books(plan, all),
        0 <= i < all.filter(is_booked()).len(),
        forall|j: int|
            i < j < all.filter(is_booked()).len() ==> #[trigger] key_at(
                all.filter(is_booked()),
                j,
            ) != key_at(all.filter(is_booked()), i),
    ensures
        ({
            let tx = all.filter(is_booked())[i];
            let key = key_at(all.filter(is_booked()), i);
            let size = decimal::magnitude(
                money::minor_of(tx.amount->0, places(tx.currency->0))->Ok_0,
            );
            held_at(upserted(table, account, record_views(plan.rows@)), account, key) matches Some(
                row,
            ) && row.amount_minor == (if tx.debit() {
                -size
            } else {
                size
            })
        }),
{
    let chosen = all.filter(is_booked());
    let rows = record_views(plan.rows@);
    assert(records(plan.rows@[i], chosen[i], key_at(chosen, i)));
    assert forall|j: int| i < j < rows.len() implies (#[trigger] rows[j]).dedupe_key
        != rows[i].dedupe_key by {
        assert(records(plan.rows@[j], chosen[j], key_at(chosen, j)));
        assert(key_at(chosen, j) != key_at(chosen, i));
    }
    lemma_last_amount_stands(table, account, rows, i);
}

// ---------------------------------------------------------------------------
// What is stored is what was said
// ---------------------------------------------------------------------------

/// The currencies without minor units.
pub open spec fn whole_currencies() -> Set<Seq<char>> {
    set![
        "JPY"@, "KRW"@, "ISK"@, "CLP"@, "VND"@, "XOF"@, "XAF"@, "PYG"@, "UGX"@, "RWF"@,
    ]
}

/// The currencies with a thousand minor units.
pub open spec fn thousandth_currencies() -> Set<Seq<char>> {
    set!["BHD"@, "KWD"@, "JOD"@, "OMR"@, "TND"@, "IQD"@, "LYD"@]
}

/// An amount that is written with two places comes to as many hundredths, but in the
/// currencies that have other minor units: there it comes to whole units, or to
/// thousandths.
pub proof fn law_amounts_by_currency(minor: i64, currency: Seq<char>)
    requires
        minor > i64::MIN,
        -i64::MAX <= 10 * minor <= i64::MAX,
    ensures
        ({
            let read = money::minor_of(decimal::hundredths(minor as int), places(currency));
            if whole_currencies().contains(currency) {
                read == Ok::<int, MoneyFault>(money::quotient(minor as int, 100))
            } else if thousandth_currencies().contains(currency) {
                read == Ok::<int, MoneyFault>(10 * minor)
            } else {
                read == Ok::<int, MoneyFault>(minor as int)
            }
        }),
{
    money::law_two_places_round_trip(minor);
    money::law_other_places(minor);
}

/// A text that a member of a value holds.
pub open spec fn said(tree: Tree, name: Seq<char>) -> Option<Seq<char>> {
    match json::member_of(tree, name) {
        Some(Tree::Text(t)) => Some(t),
        _ => None,
    }
}

/// A text that a member of a member of a value holds.
pub open spec fn said_in(tree: Tree, outer: Seq<char>, name: Seq<char>) -> Option<Seq<char>> {
    match json::member_of(tree, outer) {
        Some(inner) => said(inner, name),
        None => None,
    }
}

/// Whether the indicator of a transaction says that money leaves the account.
pub open spec fn goes_out(indicator: Option<Seq<char>>) -> bool {
    indicator matches Some(i) && i.map_values(|c: char| text::ascii_upper(c)) == "DBIT"@
}

proof fn lemma_goes_out(tx: TransactionView)
    ensures
        tx.debit() == goes_out(tx.indicator),
{
    reveal_strlit("DBIT");
    if let Some(i) = tx.indicator {
        text::law_alike_but_for_capitals(i, "DBIT"@);
        assert("DBIT"@.map_values(|c: char| text::ascii_upper(c)) =~= "DBIT"@);
    }
}

/// Whether a text is one of the ways in which a party's account is named: the IBAN
/// where there is one, or else the next way that is there.
pub open spec fn names_account(party: PartyView, named: Option<Seq<char>>) -> bool {
    &&& named is None <==> party.iban is None && party.bban is None && party.masked_pan is None
        && party.other is None
    &&& party.iban is Some ==> named == party.iban
    &&& party.iban is None && party.bban is Some ==> named == party.bban
    &&& party.iban is None && party.bban is None && party.masked_pan is Some ==> named
        == party.masked_pan
    &&& party.iban is None && party.bban is None && party.masked_pan is None ==> named
        == party.other
}

/// The counterparty is the other side: the creditor of money that goes out, and the
/// debtor of money that comes in. Name and account are of that same side, and the
/// user's own side does not count.
pub proof fn law_counterparty_is_the_other_side(tx: TransactionView, own: TransactionView)
    ensures
        goes_out(tx.indicator) ==> tx.counterparty() == tx.creditor_name && names_account(
            tx.creditor_account,
            tx.counterparty_account(),
        ),
        !goes_out(tx.indicator) ==> tx.counterparty() == tx.debtor_name && names_account(
            tx.debtor_account,
            tx.counterparty_account(),
        ),
        ({
            let other = if goes_out(tx.indicator) {
                TransactionView {
                    debtor_name: own.debtor_name,
                    debtor_account: own.debtor_account,
                    ..tx
                }
            } else {
                TransactionView {
                    creditor_name: own.creditor_name,
                    creditor_account: own.creditor_account,
                    ..tx
                }
            };
            tx.counterparty() == other.counterparty() && tx.counterparty_account()
                == other.counterparty_account()
        }),
{
    lemma_goes_out(tx);
}

/// The same payment, seen from the other side.
pub open spec fn seen_from_the_other_side(tx: TransactionView) -> TransactionView {
    TransactionView {
        creditor_name: tx.debtor_name,
        debtor_name: tx.creditor_name,
        creditor_account: tx.debtor_account,
        debtor_account: tx.creditor_account,
        ..tx
    }
}

/// Turning a payment round and exchanging the sides leaves the counterparty, and
/// turns the sign of the amount.
pub proof fn law_turned_round(tx: TransactionView)
    requires
        tx.indicator is Some,
        fault_in(tx) is None,
    ensures
        ({
            let back = TransactionView {
                indicator: Some(
                    if goes_out(tx.indicator) {
                        "CRDT"@
                    } else {
                        "DBIT"@
                    },
                ),
                ..seen_from_the_other_side(tx)
            };
            &&& back.counterparty() == tx.counterparty()
            &&& back.counterparty_account() == tx.counterparty_account()
            &&& signed_minor(back) == -signed_minor(tx)
        }),
{
    reveal_strlit("DBIT");
    reveal_strlit("CRDT");
    let back = TransactionView {
        indicator: Some(
            if goes_out(tx.indicator) {
                "CRDT"@
            } else {
                "DBIT"@
            },
        ),
        ..seen_from_the_other_side(tx)
    };
    lemma_goes_out(tx);
    lemma_goes_out(back);
    assert("DBIT"@.map_values(|c: char| text::ascii_upper(c)) =~= "DBIT"@);
    assert("CRDT"@.map_values(|c: char| text::ascii_upper(c))[0] == 'C');
    assert("DBIT"@[0] == 'D');
}

/// What is stored of a transaction is what the bank said of it, under the names by
/// which the bank says it. The amount has the size that was stated, and is negative
/// exactly where money goes out and it is not zero; the balance keeps its sign.
pub proof fn law_stored_as_said(tree: Tree, r: TransactionRecord, key: Seq<char>)
    requires
        fault_in(transaction_in(tree)) is None,
        records(r, transaction_in(tree), key),
    ensures
        ({
            let out = goes_out(said(tree, "credit_debit_indicator"@));
            let other = if out {
                "creditor"@
            } else {
                "debtor"@
            };
            let account = if out {
                "creditor_account"@
            } else {
                "debtor_account"@
            };
            &&& r.dedupe_key@ == key
            &&& text::opt(r.entry_reference) == said(tree, "entry_reference"@)
            &&& text::opt(r.booking_date) == said(tree, "booking_date"@)
            &&& text::opt(r.value_date) == said(tree, "value_date"@)
            &&& text::opt(r.transaction_date) == said(tree, "transaction_date"@)
            &&& said_in(tree, "transaction_amount"@, "amount"@) == Some(r.amount_text@)
            &&& said_in(tree, "transaction_amount"@, "currency"@) == Some(r.currency@)
            &&& money::minor_of(r.amount_text@, places(r.currency@)) matches Ok(stated) && (
            r.amount_minor == stated || r.amount_minor == -stated)
            &&& out ==> r.amount_minor <= 0 && r.credit_debit@ == "DBIT"@
            &&& !out ==> r.amount_minor >= 0 && r.credit_debit@ == "CRDT"@
            &&& text::opt(r.counterparty_name) == said_in(tree, other, "name"@)
            &&& names_account(
                PartyView {
                    iban: said_in(tree, account, "iban"@),
                    bban: said_in(tree, account, "bban"@),
                    masked_pan: said_in(tree, account, "masked_pan"@),
                    other: said_in(tree, account, "other"@),
                },
                text::opt(r.counterparty_account),
            )
            &&& text::opt(r.bank_transaction_code) == said_in(
                tree,
                "bank_transaction_code"@,
                "description"@,
            )
            &&& text::opt(r.merchant_category_code) == said(tree, "merchant_category_code"@)
            &&& match r.balance_after_minor {
                Some(b) => said_in(tree, "balance_after_transaction"@, "amount"@) matches Some(s)
                    && money::minor_of(s, places(r.currency@)) == Ok::<int, MoneyFault>(b as int),
                None => said_in(tree, "balance_after_transaction"@, "amount"@) matches Some(s)
                    ==> money::minor_of(s, places(r.currency@)) is Err,
            }
            &&& r.raw_json@ == json::text_for(tree)
        }),
{
    let tx = transaction_in(tree);
    lemma_goes_out(tx);
    if let Some(b) = tx.balance_after {
        money::lemma_minor_bound(b, places(tx.currency->0));
    }
    assert(PartyView {
        iban: said_in(tree, "creditor_account"@, "iban"@),
        bban: said_in(tree, "creditor_account"@, "bban"@),
        masked_pan: said_in(tree, "creditor_account"@, "masked_pan"@),
        other: said_in(tree, "creditor_account"@, "other"@),
    } == tx.creditor_account);
    assert(PartyView {
        iban: said_in(tree, "debtor_account"@, "iban"@),
        bban: said_in(tree, "debtor_account"@, "bban"@),
        masked_pan: said_in(tree, "debtor_account"@, "masked_pan"@),
        other: said_in(tree, "debtor_account"@, "other"@),
    } == tx.debtor_account);
}

/// What a payment is for is the text that is given, or the texts among those that
/// are listed, in order, with single spaces between them; where none is given or
/// nothing is said in them, nothing.
pub proof fn law_reference_is_what_was_said(tree: Tree, front: Seq<Tree>, back: Seq<Tree>)
    ensures
        said(tree, "remittance_information"@) matches Some(t) ==> transaction_in(tree).reference()
            == Some(t),
        json::member_of(tree, "remittance_information"@) is None ==> transaction_in(
            tree,
        ).reference() is None,
        json::member_of(tree, "remittance_information"@) == Some(Tree::List(front + back))
            ==> match transaction_in(tree).reference() {
            Some(line) => line.len() > 0 && line == text::joined(
                texts_among(front) + texts_among(back),
                " "@,
            ),
            None => text::joined(texts_among(front) + texts_among(back), " "@).len() == 0,
        },
        forall|t: Seq<char>| #[trigger] texts_among(seq![Tree::Text(t)]) == seq![t],
{
    lemma_texts_among(front, back);
    assert forall|t: Seq<char>| #[trigger] texts_among(seq![Tree::Text(t)]) == seq![t] by {
        let one = seq![Tree::Text(t)];
        assert(one.drop_last() == Seq::<Tree>::empty());
        assert(texts_among(one.drop_last()) == Seq::<Seq<char>>::empty());
    }
}

proof fn lemma_texts_among(front: Seq<Tree>, back: Seq<Tree>)
    ensures
        texts_among(front + back) == texts_among(front) + texts_among(back),
    decreases back.len(),
{
    let all = front + back;
    if back.len() == 0 {
        assert(all == front);
    } else {
        lemma_texts_among(front, back.drop_last());
        assert(all.drop_last() == front + back.drop_last());
        assert(all.last() == back.last());
    }
}

/// A transaction without a status is booked. One that has a status is booked where
/// it is "BOOK" and pending where it is "PDNG", in capitals or not, and none is
/// both.
pub proof fn law_booked_and_pending_are_apart(tx: TransactionView)
    ensures
        tx.status is None ==> is_booked()(tx) && !is_pending()(tx),
        tx.status matches Some(s) ==> (is_booked()(tx) <==> text::in_capitals(s) == "BOOK"@),
        tx.status matches Some(s) ==> (is_pending()(tx) <==> text::in_capitals(s) == "PDNG"@),
        !(is_booked()(tx) && is_pending()(tx)),
{
    reveal_strlit("BOOK");
    reveal_strlit("PDNG");
    reveal_strlit("");
    assert("BOOK"@[0] == 'B' && "PDNG"@[0] == 'P');
    assert(utf8::is_ascii_chars("BOOK"@));
    assert(text::in_capitals("BOOK"@) =~= "BOOK"@);
    assert(utf8::is_ascii_chars(""@));
    assert(text::in_capitals(""@).len() == 0);
}

/// Whether a text lacks the character that divides the parts of a key.
pub open spec fn undivided(s: Seq<char>) -> bool {
    !s.contains('|')
}

/// Transactions that the bank gives no reference of and that look the same in their
/// keys agree on the date, the amount, the currency, the direction, the counterparty
/// and the purpose. Texts that hold the dividing character are left out: they can
/// hide where one part ends.
pub proof fn law_keys_hold_what_they_are_made_of(a: TransactionView, b: TransactionView)
    requires
        a.base() == b.base(),
        undivided(or_empty(a.amount)),
        undivided(or_empty(b.amount)),
        undivided(or_empty(a.currency)),
        undivided(or_empty(b.currency)),
        undivided(or_empty(a.indicator)),
        undivided(or_empty(b.indicator)),
        undivided(or_empty(a.counterparty())),
        undivided(or_empty(b.counterparty())),
        undivided(or_empty(a.reference())),
        undivided(or_empty(b.reference())),
    ensures
        or_empty(a.booking_date) == or_empty(b.booking_date),
        or_empty(a.amount) == or_empty(b.amount),
        or_empty(a.currency) == or_empty(b.currency),
        or_empty(a.indicator) == or_empty(b.indicator),
        or_empty(a.counterparty()) == or_empty(b.counterparty()),
        or_empty(a.reference()) == or_empty(b.reference()),
{
    let bar = seq!['|'];
    let (a1, b1) = ("syn:"@ + or_empty(a.booking_date), "syn:"@ + or_empty(b.booking_date));
    let (a2, b2) = (a1 + bar + or_empty(a.amount), b1 + bar + or_empty(b.amount));
    let (a3, b3) = (a2 + bar + or_empty(a.currency), b2 + bar + or_empty(b.currency));
    let (a4, b4) = (a3 + bar + or_empty(a.indicator), b3 + bar + or_empty(b.indicator));
    let (a5, b5) = (a4 + bar + or_empty(a.counterparty()), b4 + bar + or_empty(b.counterparty()));
    text::lemma_cut_last(a5, or_empty(a.reference()), b5, or_empty(b.reference()), '|');
    text::lemma_cut_last(a4, or_empty(a.counterparty()), b4, or_empty(b.counterparty()), '|');
    text::lemma_cut_last(a3, or_empty(a.indicator), b3, or_empty(b.indicator), '|');
    text::lemma_cut_last(a2, or_empty(a.currency), b2, or_empty(b.currency), '|');
    text::lemma_cut_last(a1, or_empty(a.amount), b1, or_empty(b.amount), '|');
    let n = "syn:"@.len() as int;
    assert(a1.skip(n) == or_empty(a.booking_date));
    assert(b1.skip(n) == or_empty(b.booking_date));
}

/// What is stored of a balance is what the bank said of it, with its sign; the type
/// and the currency have stand-ins where nothing is said of them.
pub proof fn law_balance_stored_as_said(tree: Tree, r: BalanceRecord)
    requires
        records_balance(r, balance_in(tree)),
    ensures
        said_in(tree, "balance_amount"@, "amount"@) == Some(r.amount_text@),
        money::minor_of(r.amount_text@, places(r.currency@)) == Ok::<int, MoneyFault>(
            r.amount_minor as int,
        ),
        said_in(tree, "balance_amount"@, "currency"@) matches Some(c) ==> r.currency@ == c,
        said_in(tree, "balance_amount"@, "currency"@) is None ==> r.currency@ == "XXX"@,
        said(tree, "balance_type"@) matches Some(t) ==> r.balance_type@ == t,
        said(tree, "balance_type"@) is None ==> r.balance_type@ == "OTHR"@,
        text::opt(r.reference_date) == said(tree, "reference_date"@),
        r.raw_json@ == json::text_for(tree),
{
}

/// What is stored of a session is what the bank said of it, and every account with
/// what was said of that account, in order.
pub proof fn law_session_stored_as_said(tree: Tree, s: ApiSession, r: SessionRecord, i: int)
    requires
        is_session_in(s, tree),
        records_session(r, s),
    ensures
        said(tree, "session_id"@) == Some(r.provider_session_id@),
        said(tree, "status"@) matches Some(t) ==> r.status@ == t,
        said(tree, "status"@) is None ==> r.status@ == "AUTHORIZED"@,
        text::opt(r.valid_until) == said_in(tree, "access"@, "valid_until"@),
        text::opt(r.authorized_at) == said(tree, "authorized"@),
        r.raw_json@ == json::text_for(tree),
        r.accounts@.len() == json::elements_at(tree, "accounts"@).len(),
        0 <= i < r.accounts@.len() ==> {
            let said_of = json::elements_at(tree, "accounts"@)[i];
            let a = r.accounts@[i];
            &&& said(said_of, "uid"@) == Some(a.uid@)
            &&& said(said_of, "identification_hash"@) == Some(a.identification_hash@)
            &&& text::opt(a.currency) == said(said_of, "currency"@)
            &&& text::opt(a.name) == said(said_of, "name"@)
            &&& text::opt(a.product) == said(said_of, "product"@)
            &&& text::opt(a.cash_account_type) == said(said_of, "cash_account_type"@)
            &&& text::opt(a.usage) == said(said_of, "usage"@)
            &&& text::opt(a.iban) == said_in(said_of, "account_id"@, "iban"@)
            &&& text::opt(a.masked_pan) == said_in(said_of, "account_id"@, "masked_pan"@)
            &&& text::opt(a.bban) == said_in(said_of, "account_id"@, "bban"@)
            &&& a.raw_json@ == json::text_for(said_of)
        },
{
    let trees = json::elements_at(tree, "accounts"@);
    assert(api_account_views(s.accounts@).len() == s.accounts@.len());
    assert(accounts_in(trees).len() == trees.len());
    if 0 <= i < r.accounts@.len() {
        assert(records_account(r.accounts@[i], s.accounts@[i]@));
        assert(api_account_views(s.accounts@)[i] == s.accounts@[i]@);
        assert(accounts_in(trees)[i] == account_in(trees[i]));
    }
}

/// A session can be stored exactly where it has an id and every account has a uid
/// and an identification hash.
pub proof fn law_sessions_that_can_be_stored(s: ApiSession)
    ensures
        session_fault(s) is None <==> s.session_id is Some && forall|i: int|
            0 <= i < s.accounts@.len() ==> (#[trigger] s.accounts@[i]).uid is Some
                && s.accounts@[i].identification_hash is Some,
{
    let views = api_account_views(s.accounts@);
    lemma_account_faults(views);
    assert forall|i: int| 0 <= i < s.accounts@.len() implies (account_fault(
        #[trigger] views[i],
    ) is None) == (s.accounts@[i].uid is Some && s.accounts@[i].identification_hash is Some) by {
        assert(views[i] == s.accounts@[i]@);
    }
    if session_fault(s) is None {
        assert forall|i: int| 0 <= i < s.accounts@.len() implies (
        #[trigger] s.accounts@[i]).uid is Some && s.accounts@[i].identification_hash is Some by {
            assert(account_fault(views[i]) is None);
        }
    }
    if s.session_id is Some && forall|i: int|
        0 <= i < s.accounts@.len() ==> (#[trigger] s.accounts@[i]).uid is Some
            && s.accounts@[i].identification_hash is Some {
        assert forall|i: int| 0 <= i < views.len() implies account_fault(
            #[trigger] views[i],
        ) is None by {
            assert(s.accounts@[i].uid is Some);
        }
    }
}

proof fn lemma_account_faults(accounts: Seq<ApiAccountView>)
    ensures
        first_account_fault(accounts) is None <==> forall|i: int|
            0 <= i < accounts.len() ==> account_fault(#[trigger] accounts[i]) is None,
    decreases accounts.len(),
{
    if accounts.len() > 0 && account_fault(accounts[0]) is None {
        let rest = accounts.drop_first();
        lemma_account_faults(rest);
        assert forall|i: int| 0 < i < accounts.len() implies #[trigger] accounts[i] == rest[i
            - 1] by {
        }
        if first_account_fault(accounts) is None {
            assert forall|i: int| 0 <= i < accounts.len() implies account_fault(
                #[trigger] accounts[i],
            ) is None by {
                if i > 0 {
                    assert(account_fault(rest[i - 1]) is None);
                }
            }
        } else {
            let j = choose|j: int| 0 <= j < rest.len() && account_fault(
                #[trigger] rest[j],
            ) is Some;
            assert(account_fault(accounts[j + 1]) is Some);
        }
    }
}

/// Where transactions cannot be stored, it is for the first of them that cannot be,
/// and for what is wrong with that one; where they can be, nothing is wrong with any.
pub proof fn law_the_first_fault_is_told(items: Seq<TransactionView>)
    ensures
        match first_fault(items) {
            Some(f) => exists|k: int|
                0 <= k < items.len() && fault_in(#[trigger] items[k]) == Some(f) && forall|j: int|
                    0 <= j < k ==> fault_in(#[trigger] items[j]) is None,
            None => forall|j: int| 0 <= j < items.len() ==> fault_in(#[trigger] items[j]) is None,
        },
    decreases items.len(),
{
    if items.len() > 0 {
        let front = items.drop_last();
        let n = front.len() as int;
        law_the_first_fault_is_told(front);
        assert forall|j: int| 0 <= j < n implies #[trigger] items[j] == front[j] by {
        }
        match first_fault(front) {
            Some(f) => {
                let k = choose|k: int|
                    0 <= k < front.len() && fault_in(#[trigger] front[k]) == Some(f) && forall|
                        j: int,
                    |
                        0 <= j < k ==> fault_in(#[trigger] front[j]) is None;
                assert(fault_in(items[k]) == Some(f));
                assert forall|j: int| 0 <= j < k implies fault_in(#[trigger] items[j]) is None by {
                    assert(fault_in(front[j]) is None);
                }
            },
            None => {
                assert(items[n] == items.last());
                assert forall|j: int| 0 <= j < n implies fault_in(#[trigger] items[j]) is None by {
                    assert(fault_in(front[j]) is None);
                }
            },
        }
    }
}

/// A transaction can be stored exactly where it has an amount and a currency, and the
/// amount can be read in that currency.
pub proof fn law_transactions_that_can_be_stored(tx: TransactionView)
    ensures
        fault_in(tx) is None <==> (tx.amount matches Some(a) && tx.currency matches Some(c)
            && money::minor_of(a, places(c)) is Ok),
        tx.amount is None ==> fault_in(tx) == Some(IngestFault::NoAmount),
        tx.amount is Some && tx.currency is None ==> fault_in(tx) == Some(IngestFault::NoCurrency),
{
}

/// Balances are stored in order up to the first that cannot be read, and no further.
pub proof fn law_balances_up_to_the_first_that_cannot_be_read(items: Seq<BalanceView>)
    ensures
        readable_balances(items).is_prefix_of(items),
        forall|i: int|
            0 <= i < readable_balances(items).len() ==> balance_minor(#[trigger] items[i]) is Ok,
        readable_balances(items).len() < items.len() ==> balance_minor(
            items[readable_balances(items).len() as int],
        ) is Err,
    decreases items.len(),
{
    if items.len() > 0 && balance_minor(items[0]) is Ok {
        let rest = items.drop_first();
        law_balances_up_to_the_first_that_cannot_be_read(rest);
        let good = readable_balances(items);
        let tail = readable_balances(rest);
        assert(good == seq![items[0]] + tail);
        assert forall|i: int| 0 <= i < good.len() implies good[i] == items[i] && balance_minor(
            #[trigger] items[i],
        ) is Ok by {
            if i > 0 {
                assert(items[i] == rest[i - 1]);
                assert(balance_minor(rest[i - 1]) is Ok);
            }
        }
        assert(good =~= items.take(good.len() as int));
        if good.len() < items.len() {
            assert(items[good.len() as int] == rest[tail.len() as int]);
        }
    }
}

} // verus!
