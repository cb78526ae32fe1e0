use argus::calendar::Date;
use argus::csv_import;
use argus::statements;
use argus::statements::rows::{
    assign_ordinals, ensure_chronological, has_balance_chain, verify_chain, AccountType,
    ParsedAccount, ParsedRow,
};
use argus::statements::{
    parse_date, AmexCsv, LloydsCsv, RevolutCsv, StatementError, StatementParser,
};

fn day(year: i32, month: u32, day: u32) -> Date {
    Date { year, month, day }
}

fn row(date: Date, description: &str, amount: i64, balance: Option<i64>) -> ParsedRow {
    ParsedRow {
        date,
        description: description.into(),
        category: None,
        reference: None,
        external_id: None,
        details: None,
        amount_text: amount.to_string(),
        amount_minor: amount,
        currency: "GBP".into(),
        base_amount_minor: None,
        base_currency: None,
        balance_minor: balance,
        fee_minor: 0,
        is_internal: false,
        is_pending: false,
        ordinal: 0,
    }
}

fn account(rows: Vec<ParsedRow>, opening: Option<i64>) -> ParsedAccount {
    let mut a = ParsedAccount::new("k", "Bank", "GBP", "Name", AccountType::Current);
    a.rows = rows;
    a.opening_balance_minor = opening;
    a
}

#[test]
fn uk_dates_are_day_first() {
    // 3 April, never 4 March.
    assert_eq!(parse_date("03/04/2026"), Some(day(2026, 4, 3)));
    assert_eq!(parse_date("1 Jul 2026"), Some(day(2026, 7, 1)));
}

#[test]
fn parses_unpadded_dates() {
    assert_eq!(csv_import::parse_date("\"1 Jul 2026\""), Some(day(2026, 7, 1)));
    assert_eq!(csv_import::parse_date("19 Jul 2026"), Some(day(2026, 7, 19)));
}

#[test]
fn september_with_four_letters() {
    assert_eq!(parse_date("9 Sept 2025"), Some(day(2025, 9, 9)));
    assert_eq!(csv_import::parse_date("9 Sept 2025"), Some(day(2025, 9, 9)));
    assert_eq!(parse_date("9 Sep 2025"), Some(day(2025, 9, 9)));
    assert_eq!(parse_date("9 September 2025"), Some(day(2025, 9, 9)));
}

#[test]
fn every_date_format() {
    assert_eq!(parse_date(" \"2026-02-28\" "), Some(day(2026, 2, 28)));
    assert_eq!(parse_date("28/02/26"), Some(day(26, 2, 28)));
    assert_eq!(parse_date("28-02-2026"), Some(day(2026, 2, 28)));
    assert_eq!(parse_date("28 February 2026"), Some(day(2026, 2, 28)));
    assert_eq!(parse_date("31/02/2026"), None);
    assert_eq!(parse_date("Total"), None);
    assert_eq!(csv_import::parse_date("2026-02-28"), None);
}

/// The two identical SHANA transfers on 9 Aug 2026 differ only by
/// ordinal, and that ordinal must not depend on the file's date range.
#[test]
fn row_keys_are_stable_and_distinct() {
    let make = |ordinal: usize| csv_import::ParsedRow {
        date: day(2026, 8, 9),
        description: "Transfer to SHANA".into(),
        category: "Others".into(),
        amount_text: "-14.00".into(),
        amount_minor: -1400,
        currency: "EUR".into(),
        base_amount_minor: None,
        base_currency: None,
        balance_minor: Some(3845),
        fee_minor: 0,
        ordinal,
    };

    assert_ne!(make(0).row_key(), make(1).row_key());
    assert_eq!(make(0).row_key(), make(0).row_key());
    assert_eq!(
        make(1).row_key(),
        "revolut_csv:2026-08-09:-14.00:3845:Transfer to SHANA:1"
    );
}

#[test]
fn a_missing_balance_in_keys() {
    let mut r = row(day(2026, 8, 9), "X", -5, None);
    assert_eq!(r.row_key("lloyds_csv"), "lloyds_csv:2026-08-09:-5:-:X:0");
    r.external_id = Some(String::new());
    assert_eq!(r.row_key("lloyds_csv"), "lloyds_csv:2026-08-09:-5:-:X:0");
    r.external_id = Some("AT1".into());
    assert_eq!(r.row_key("amex_csv"), "amex_csv:id:AT1");
}

#[test]
fn ordinals_count_within_a_day() {
    let d = day(2026, 8, 9);
    let mut short = vec![row(d, "A", -5, None), row(d, "A", -5, None)];
    let mut long = vec![
        row(day(2026, 8, 8), "A", -5, None),
        row(d, "A", -5, None),
        row(d, "B", -5, None),
        row(d, "A", -5, None),
    ];
    assign_ordinals(&mut short);
    assign_ordinals(&mut long);
    assert_eq!(short[1].ordinal, 1);
    assert_eq!(
        long.iter().map(|r| r.ordinal).collect::<Vec<_>>(),
        vec![0, 0, 0, 1]
    );
    assert_eq!(short[1].row_key("s"), long[3].row_key("s"));
    assert_ne!(long[1].row_key("s"), long[3].row_key("s"));
}

#[test]
fn newest_first_is_turned_around() {
    let mut rows = vec![
        row(day(2026, 3, 2), "B", 1, None),
        row(day(2026, 3, 2), "C", 1, None),
        row(day(2026, 3, 1), "A", 1, None),
    ];
    assert!(ensure_chronological(&mut rows));
    let names: Vec<&str> = rows.iter().map(|r| r.description.as_str()).collect();
    assert_eq!(names, vec!["A", "C", "B"]);
    assert!(!ensure_chronological(&mut rows));
    assert!(!ensure_chronological(&mut Vec::new()));
}

#[test]
fn balances_are_inferred() {
    let mut a = account(
        vec![
            row(day(2026, 3, 1), "A", 150, Some(1150)),
            row(day(2026, 3, 2), "B", -50, Some(1100)),
        ],
        None,
    );
    a.infer_balances();
    assert_eq!(a.opening_balance_minor, Some(1000));
    assert_eq!(a.closing_balance_minor, Some(1100));
    assert_eq!(a.period(), Some((day(2026, 3, 1), day(2026, 3, 2))));
    assert_eq!(account(vec![], None).period(), None);
}

#[test]
fn a_whole_chain_and_a_broken_one() {
    let rows = || {
        vec![
            row(day(2026, 3, 1), "A", 150, Some(1150)),
            row(day(2026, 3, 2), "B", -50, Some(1100)),
            row(day(2026, 3, 3), "C", 7, Some(1107)),
        ]
    };
    let whole = account(rows(), Some(1000));
    assert!(verify_chain(&whole).is_empty());
    assert!(has_balance_chain(&whole));
    // Each balance is the opening one plus every amount up to its row.
    let mut running = whole.opening_balance_minor.unwrap();
    for r in &whole.rows {
        running += r.amount_minor;
        assert_eq!(r.balance_minor, Some(running));
    }

    let mut dropped = rows();
    dropped.remove(1);
    assert_eq!(
        verify_chain(&account(dropped, Some(1000))),
        vec!["2026-03-03 C: expected 11.57, file says 11.07".to_string()]
    );
    let silent = account(vec![row(day(2026, 3, 1), "A", 1, None)], Some(5));
    assert!(verify_chain(&silent).is_empty());
    assert!(!has_balance_chain(&silent));
}

#[test]
fn account_types_are_stored_by_name() {
    assert_eq!(AccountType::Current.as_str(), "current");
    assert_eq!(AccountType::Savings.as_str(), "savings");
    assert_eq!(AccountType::CreditCard.as_str(), "credit_card");
}

const LLOYDS: &str = "Transaction Date,Transaction Type,Sort Code,Account Number,\
Transaction Description,Debit Amount,Credit Amount,Balance\n\
02/03/2026,DEB,'30-99-62,12345678,COFFEE,3.50,,96.50\n\
02/03/2026,DEB,'30-99-62,12345678,NOTHING,,,96.50\n\
01/03/2026,FPI,'30-99-62,12345678,SALARY,,100.00,100.00\n\
oops,FPI,'30-99-62,12345678,LOST,,1.00,1.00\n";

#[test]
fn a_lloyds_statement() {
    let d = match statements::parse_file(LLOYDS.as_bytes()) {
        Ok(d) => d,
        Err(_) => panic!("not read"),
    };
    assert_eq!(d.source, "lloyds_csv");
    assert_eq!(d.label, "Lloyds");
    assert_eq!(d.accounts.len(), 1);
    let a = &d.accounts[0];
    assert_eq!(a.account_key, "lloyds:gb:30996212345678");
    assert_eq!(a.display_name, "Lloyds ...5678");
    assert_eq!(a.identifier_tail, Some("5678".into()));
    assert_eq!(a.rows.len(), 2);
    assert_eq!(a.rows[0].description, "SALARY");
    assert_eq!(a.rows[0].amount_minor, 10000);
    assert_eq!(a.rows[1].amount_minor, -350);
    assert_eq!(a.rows[1].amount_text, "-3.50");
    assert_eq!(a.rows[1].category, Some("DEB".into()));
    assert_eq!(a.opening_balance_minor, Some(0));
    assert_eq!(a.closing_balance_minor, Some(9650));
    assert!(verify_chain(a).is_empty());
    assert_eq!(
        a.skipped,
        vec![
            "02/03/2026 | DEB | '30-99-62 | 12345678 | NOTHING |  |  | 96.50".to_string(),
            "oops | FPI | '30-99-62 | 12345678 | LOST |  | 1.00 | 1.00".to_string(),
        ]
    );
}

const AMEX: &str = "Date,Description,Amount,Extended Details,Reference,Category\n\
05/03/2026,\"BOOK\n  SHOP\",12.50,Foreign Spend Amount: 15 EUR,'AT1,General-Books\n\
04/03/2026,PAYMENT RECEIVED - THANK YOU,-100.00,,'AT0,\n\
04/03/2026,BAD,x,,'AT2,\n";

#[test]
fn an_amex_statement() {
    let d = match statements::parse_file(AMEX.as_bytes()) {
        Ok(d) => d,
        Err(_) => panic!("not read"),
    };
    assert_eq!(d.source, "amex_csv");
    let a = &d.accounts[0];
    assert_eq!(a.account_key, "amex:gb:card");
    assert_eq!(a.account_type, AccountType::CreditCard);
    assert_eq!(a.rows.len(), 2);
    let (payment, purchase) = (&a.rows[0], &a.rows[1]);
    assert_eq!(payment.amount_minor, 10000);
    assert!(payment.is_internal);
    assert_eq!(payment.category, None);
    assert_eq!(purchase.amount_minor, -1250);
    assert_eq!(purchase.amount_text, "-12.50");
    assert_eq!(purchase.description, "BOOK SHOP");
    assert_eq!(purchase.external_id, Some("AT1".into()));
    assert_eq!(purchase.details, Some("Foreign Spend Amount: 15 EUR".into()));
    assert!(!purchase.is_internal);
    assert!(!has_balance_chain(a));
    assert_eq!(a.skipped.len(), 1);
}

#[test]
fn amex_statement_wording_stands_in_for_the_description() {
    let text = "Date,Amount,appears on your statement as\n05/03/2026,1.00,cafe online payment\n";
    let d = match statements::parse_file(text.as_bytes()) {
        Ok(d) => d,
        Err(_) => panic!("not read"),
    };
    assert_eq!(d.accounts[0].rows[0].description, "cafe online payment");
    // The wording is in small letters, the marker in capitals.
    assert!(d.accounts[0].rows[0].is_internal);
}

const REVOLUT: &str = "Summary\n\
Current Accounts Transaction Statements\n\
Personal Account (EUR)\n\
Date,Description,Category,Money in/out,Money in/out,Balance,Balance,Fees\n\
9 Sept 2025,Transfer to SHANA,Others,-€14.00,-£12.00,€38.45,£33.00,€0.00\n\
9 Sept 2025,Top up,Top up,€14.00,£12.00,€52.45,£45.00,€0.50\n\
9 Sept 2025,Transfer to SHANA,Others,-€14.00,-£12.00,€38.45,£33.00,€0.00\n\
Total,,,\n\
---------\n\
later,x,y,z\n\
Personal Account (GBP)\n\
Date,Description,Category,Money in/out,Balance,Fees\n\
10 Sept 2025,Swap,Exchange,5.00,5.00,0.00\n\
Personal Account (PLN)\n\
Date,Description,Category,Money in/out,Balance,Fees\n";

#[test]
fn a_revolut_statement() {
    let d = match statements::parse_file(REVOLUT.as_bytes()) {
        Ok(d) => d,
        Err(_) => panic!("not read"),
    };
    assert_eq!(d.source, "revolut_csv");
    assert_eq!(d.accounts.len(), 2);
    let eur = &d.accounts[0];
    assert_eq!(eur.account_key, "revolut:gb:EUR");
    assert_eq!(eur.rows.len(), 3);
    assert_eq!(eur.rows[0].base_amount_minor, Some(-1200));
    assert_eq!(eur.rows[0].base_currency, Some("GBP".into()));
    assert_eq!(eur.rows[0].balance_minor, Some(3845));
    assert_eq!(eur.rows[1].fee_minor, 50);
    assert_eq!(eur.rows[2].ordinal, 1);
    assert_eq!(eur.skipped, vec!["later | x | y | z".to_string()]);
    assert_eq!(eur.opening_balance_minor, Some(5245));
    let gbp = &d.accounts[1];
    assert!(gbp.rows[0].is_internal);
    assert_eq!(gbp.rows[0].currency, "GBP");
    assert_eq!(gbp.rows[0].amount_minor, 500);
}

#[test]
fn a_revolut_statement_by_its_own_importer() {
    let s = match csv_import::parse_file(REVOLUT.as_bytes()) {
        Ok(s) => s,
        Err(_) => panic!("not read"),
    };
    // The bare amounts of the second wallet name no currency.
    assert_eq!(s.accounts.len(), 1);
    let eur = &s.accounts[0];
    assert_eq!(eur.currency, "EUR");
    assert_eq!(eur.rows.len(), 3);
    assert_eq!(eur.rows[2].ordinal, 1);
    assert_ne!(eur.rows[0].row_key(), eur.rows[2].row_key());
    assert_eq!(eur.opening_balance_minor, Some(5245));
    assert_eq!(eur.closing_balance_minor, Some(3845));
    assert!(csv_import::verify_chain(eur).is_empty());
}

#[test]
fn files_that_are_no_statements() {
    assert!(matches!(
        statements::parse_file(b"a,b\n1,2\n"),
        Err(StatementError::Unrecognised)
    ));
    assert!(matches!(
        statements::parse_file(b"a,\xff\n"),
        Err(StatementError::Unreadable(_))
    ));
    assert!(matches!(
        statements::parse_file(b"Debit Amount,Credit Amount\n1,2\n"),
        Err(StatementError::Header("Lloyds header missing required columns"))
    ));
    assert!(matches!(
        csv_import::parse_file(b"a,b\n"),
        Err(csv_import::CsvImportError::NoSection)
    ));
    assert!(matches!(
        csv_import::parse_file(b"a,\xff\n"),
        Err(csv_import::CsvImportError::Unreadable(_))
    ));
}

#[test]
fn amex_gets_what_nobody_else_claims() {
    let text = "Date,Amount,Debit Amount,Credit Amount\n05/03/2026,1.00,2.00,\n";
    let records = match statements::read_records(text.as_bytes()) {
        Ok(r) => r,
        Err(_) => panic!("not read"),
    };
    let claims: Vec<bool> = statements::parsers()
        .iter()
        .map(|p| p.detect(&records))
        .collect();
    assert_eq!(claims, vec![false, true, false]);
    let d = match statements::parse_records(&records) {
        Ok(d) => d,
        Err(_) => panic!("not read"),
    };
    assert_eq!(d.label, "Lloyds");
    assert_eq!(d.accounts[0].rows[0].amount_minor, -200);
    assert_eq!(d.accounts[0].account_key, "lloyds:gb:unknown");
}

#[test]
fn headers_without_their_columns() {
    let records: Vec<Vec<String>> = vec![vec!["x".into()]];
    assert!(matches!(LloydsCsv.parse(&records), Err("no Lloyds header row found")));
    assert!(matches!(AmexCsv.parse(&records), Err("no Amex header row found")));
    match RevolutCsv.parse(&records) {
        Ok(accounts) => assert!(accounts.is_empty()),
        Err(m) => panic!("{}", m),
    }
    assert_eq!(RevolutCsv.source(), "revolut_csv");
    assert_eq!(RevolutCsv.label(), "Revolut");
}

fn skipped_in(text: &str) -> Vec<String> {
    match statements::parse_file(text.as_bytes()) {
        Ok(d) => {
            assert_eq!(d.accounts.len(), 1);
            assert!(d.unread.is_empty());
            d.accounts[0].skipped.clone()
        }
        Err(_) => panic!("not read"),
    }
}

#[test]
fn a_blank_date_cell_is_reported() {
    let lloyds = "Transaction Date,Transaction Description,Debit Amount,Credit Amount,Balance\n\
01/03/2026,SALARY,,100.00,100.00\n\
,TESCO,5.00,,95.00\n\
 , ,,,\n\
02/03/2026,COFFEE,3.50,,91.50\n";
    assert_eq!(skipped_in(lloyds), vec![" | TESCO | 5.00 |  | 95.00".to_string()]);

    let amex = "Date,Description,Amount\n\
05/03/2026,BOOKS,12.50\n\
,TESCO,5.00\n\
,,\n";
    assert_eq!(skipped_in(amex), vec![" | TESCO | 5.00".to_string()]);
}

#[test]
fn every_row_of_a_table_is_accounted_for() {
    let text = "Current Accounts Transaction Statements\n\
Joint Account (GBP)\n\
---------\n\
Personal Account (GBP)\n\
Transaction statement\n\
Date,Description,Category,Money in/out,Balance\n\
10 Sep 2025,Cafe,Others,-5.00,5.00\n\
never,Cafe,Others,-5.00,0.00\n\
,Undated,Others,-5.00,0.00\n\
,,,\n\
Total,,,-5.00\n\
Personal Account (EUR)\n\
Date,Description,Category,Money out,Balance\n\
11 Sep 2025,Bar,Others,-1.00,1.00\n\
Personal Account (PLN)\n\
Date,Description,Category,Money in/out,Balance\n";
    let d = match statements::parse_file(text.as_bytes()) {
        Ok(d) => d,
        Err(_) => panic!("not read"),
    };
    assert_eq!(d.accounts.len(), 1);
    assert_eq!(d.accounts[0].rows.len(), 1);
    // What stands before any wallet is listed by the first.
    assert_eq!(
        d.accounts[0].skipped,
        vec![
            "Joint Account (GBP)".to_string(),
            "never | Cafe | Others | -5.00 | 0.00".to_string(),
            " | Undated | Others | -5.00 | 0.00".to_string(),
        ]
    );
    // The header of the second lacks a column; the third has nothing to report.
    assert_eq!(d.unread.len(), 1);
    assert_eq!(d.unread[0].display_name, "Revolut EUR");
    assert!(d.unread[0].rows.is_empty());
    assert_eq!(
        d.unread[0].skipped,
        vec!["11 Sep 2025 | Bar | Others | -1.00 | 1.00".to_string()]
    );
}

#[test]
fn wallets_are_told_apart() {
    let text = "Current Accounts Transaction Statements\n\
Personal Account (GBP)\n\
Date,Description,Category,Money in/out,Balance\n\
9 Aug 2026,Swap,Exchange,-£5.00,£5.00\n\
9 Aug 2026,Card,Top up,£5.00,£10.00\n\
Personal Account (EUR)\n\
Date,Description,Category,Money in/out,Balance\n\
9 Aug 2026,Swap,Exchange,€6.00,€6.00\n\
9 Aug 2026,Bar,exchange,-€1.00,€5.00\n";
    let accounts = match statements::parse_file(text.as_bytes()) {
        Ok(d) => d.accounts,
        Err(_) => panic!("not read"),
    };
    assert_eq!(accounts.len(), 2);
    for account in &accounts {
        assert_eq!(account.account_key, format!("revolut:gb:{}", account.currency));
        for row in &account.rows {
            assert_eq!(row.is_internal, row.category.as_deref() == Some("Exchange"));
        }
    }
    assert!(accounts[0].rows[0].is_internal && !accounts[0].rows[1].is_internal);
    // Where there is no wallet, one account lists what was skipped.
    let lost = match statements::parse_file(b"Current Accounts Transaction Statements\n9 Aug 2026,x\n") {
        Ok(d) => d.unread,
        Err(_) => panic!("not read"),
    };
    assert_eq!(lost.len(), 1);
    assert_eq!(lost[0].account_key, "revolut:gb:unknown");
    assert!(lost[0].rows.is_empty());
}
