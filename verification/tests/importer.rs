use argus::calendar::Date;
use argus::cli::report_text;
use argus::csv_import;
use argus::importer::{direction, minor_to_text, plan_file, report_on, ImportError, ImportReport};
use argus::statements;
use argus::statements::StatementError;

const LLOYDS: &str = "Transaction Date,Transaction Type,Sort Code,Account Number,\
Transaction Description,Debit Amount,Credit Amount,Balance\n\
03/03/2026,DEB,'30-99-62,12345678,COFFEE,3.50,,96.50\n\
01/03/2026,FPI,'30-99-62,12345678,SALARY,,100.00,100.00\n";

const AMEX: &str = "Date,Description,Amount,Extended Details,Reference\n\
05/03/2026,\"CAF\u{e9} \"\"X\"\"\",12.50,Foreign Spend Amount: 15 EUR,'AT1\n";

#[test]
fn what_a_statement_writes() {
    let planned = match plan_file(LLOYDS.as_bytes(), "march.csv") {
        Ok(v) => v,
        Err(_) => panic!("not planned"),
    };
    assert_eq!(planned.len(), 1);
    let plan = planned[0].plan.as_ref().unwrap();
    assert_eq!(plan.institution, "Lloyds");
    assert_eq!(plan.country, "GB");
    assert_eq!(plan.account_type, "current");
    assert_eq!(plan.filename, "march.csv");
    assert_eq!(plan.source, "lloyds_csv");
    assert_eq!(plan.period_start, Some("2026-03-01".into()));
    assert_eq!(plan.period_end, Some("2026-03-03".into()));
    assert_eq!(plan.rows_parsed, 2);
    assert_eq!(plan.opening_balance, Some("0.00".into()));
    assert_eq!(plan.closing_balance, Some("96.50".into()));
    assert_eq!(plan.chain_verified, 1);
    assert_eq!(plan.chain_breaks, 0);
    assert!(plan.records_balances);
    let coffee = &plan.rows[1];
    assert_eq!(coffee.row_key, "lloyds_csv:2026-03-03:-3.50:9650:COFFEE:0");
    assert_eq!(coffee.booking_date, "2026-03-03");
    assert_eq!(coffee.direction, "DBIT");
    assert_eq!(plan.rows[0].direction, "CRDT");
    assert_eq!(coffee.is_internal, 0);
    assert_eq!(
        coffee.raw_json,
        "{\"amount\":\"-3.50\",\"balance_minor\":9650,\"category\":\"DEB\",\"currency\":\"GBP\",\
         \"date\":\"2026-03-03\",\"description\":\"COFFEE\",\"details\":null,\"fee_minor\":0}"
    );
}

#[test]
fn every_written_row_lies_in_the_period() {
    let planned = match plan_file(LLOYDS.as_bytes(), "f") {
        Ok(v) => v,
        Err(_) => panic!("not planned"),
    };
    let plan = planned[0].plan.as_ref().unwrap();
    for row in &plan.rows {
        assert!(plan.period_start.as_ref().unwrap() <= &row.booking_date);
        assert!(&row.booking_date <= plan.period_end.as_ref().unwrap());
    }
}

#[test]
fn details_can_be_mined() {
    let planned = match plan_file(AMEX.as_bytes(), "f") {
        Ok(v) => v,
        Err(_) => panic!("not planned"),
    };
    let plan = planned[0].plan.as_ref().unwrap();
    let raw: serde_json::Value = serde_json::from_str(&plan.rows[0].raw_json).unwrap();
    assert_eq!(raw["details"], "Foreign Spend Amount: 15 EUR");
    assert_eq!(raw["description"], "CAF\u{e9} \"X\"");
    assert_eq!(raw["balance_minor"], serde_json::Value::Null);
    assert_eq!(plan.chain_verified, 0);
    assert!(!plan.records_balances);
}

#[test]
fn imports_that_fail() {
    assert!(matches!(
        plan_file(b"a,b\n", "f"),
        Err(ImportError::Statement(StatementError::Unrecognised))
    ));
    assert!(matches!(
        plan_file(b"\xff", "f"),
        Err(ImportError::Statement(StatementError::Unreadable(_)))
    ));
    assert!(matches!(
        plan_file(b"Date,Amount\n", "f"),
        Err(ImportError::NoTransactions("Amex", _))
    ));
    assert!(matches!(
        plan_file(b"Debit Amount,Credit Amount\n", "f"),
        Err(ImportError::Statement(StatementError::Header(_)))
    ));
}

#[test]
fn what_is_printed_of_an_import() {
    let mut d = match statements::parse_file(LLOYDS.as_bytes()) {
        Ok(d) => d,
        Err(_) => panic!("not read"),
    };
    let mut report = report_on(&d.accounts[0], d.label);
    assert_eq!(
        report_text(&report, true),
        vec![
            "  [Lloyds] Lloyds ...5678      2 rows  2026-03-01 to 2026-03-03".to_string(),
            "       balance chain verified, closing 96.50".to_string(),
        ]
    );
    report.inserted = 2;
    report.replaced = 1;
    assert_eq!(
        report_text(&report, false)[0],
        "  [Lloyds] Lloyds ...5678      2 rows  2026-03-01 to 2026-03-03  (2 written, 1 replaced)"
    );
    d.accounts[0].rows.remove(0);
    d.accounts[0].skipped.push("a | b".into());
    let broken = report_on(&d.accounts[0], d.label);
    assert_eq!(
        report_text(&broken, true),
        vec![
            "  [Lloyds] Lloyds ...5678      1 rows  2026-03-03 to 2026-03-03".to_string(),
            "       1 ROW(S) NOT PARSED:".to_string(),
            "         a | b".to_string(),
            "       BALANCE CHAIN BROKEN at 1 point(s):".to_string(),
            "         2026-03-03 COFFEE: expected -3.50, file says 96.50".to_string(),
        ]
    );
}

#[test]
fn an_import_without_a_balance_column() {
    let planned = match plan_file(AMEX.as_bytes(), "f") {
        Ok(v) => v,
        Err(_) => panic!("not planned"),
    };
    let lines = report_text(&planned[0].report, true);
    assert_eq!(lines[1], "       no balance column — completeness unverified");
    let mut unknown = report_on(
        &statements::ParsedAccount::new("k", "i", "GBP", "n", statements::AccountType::Savings),
        "L",
    );
    unknown.chain_available = true;
    assert_eq!(
        report_text(&unknown, true),
        vec![
            "  [L] n                   0 rows  unknown period".to_string(),
            "       balance chain verified".to_string(),
        ]
    );
}

const REVOLUT: &str = "Current Accounts Transaction Statements\n\
Personal Account (EUR)\n\
Date,Description,Category,Money in/out,Balance,Fees\n\
9 Aug 2026,Swap,Exchange,€5.00,€5.00,€0.00\n\
8 Aug 2026,Odd,Others,€1.00,€9.00,€0.00\n";

#[test]
fn what_a_revolut_statement_writes() {
    let planned = match csv_import::plan_file(REVOLUT.as_bytes(), "r.csv") {
        Ok(v) => v,
        Err(_) => panic!("not planned"),
    };
    let (plan, report) = (&planned[0].plan, &planned[0].report);
    assert_eq!(plan.account_key, "revolut:gb:EUR");
    assert_eq!(plan.display_name, "Revolut EUR");
    // The file runs newest first; its period does not.
    assert_eq!(plan.period_start, Some("2026-08-08".into()));
    assert_eq!(plan.period_end, Some("2026-08-09".into()));
    assert_eq!(plan.rows[0].is_internal, 1);
    assert_eq!(plan.rows[1].is_internal, 0);
    assert_eq!(plan.rows[0].source_category, Some("Exchange".into()));
    assert_eq!(plan.chain_verified, 0);
    assert_eq!(plan.chain_breaks, 1);
    assert!(plan.records_balances);
    assert_eq!(
        report.chain_breaks,
        vec!["2026-08-08 Odd: expected 6.00, file says 9.00".to_string()]
    );
    assert_eq!(report.period, Some((
        Date { year: 2026, month: 8, day: 8 },
        Date { year: 2026, month: 8, day: 9 },
    )));
    assert_eq!(report.closing_balance, Some(900));
    assert_eq!(
        plan.rows[0].raw_json,
        "{\"amount\":\"5.00\",\"balance_minor\":500,\"category\":\"Exchange\",\
         \"currency\":\"EUR\",\"date\":\"2026-08-09\",\"description\":\"Swap\",\"fee_minor\":0}"
    );
}

#[test]
fn revolut_imports_that_fail() {
    assert!(matches!(
        csv_import::plan_file(b"Current Accounts Transaction Statements\n", "f"),
        Err(csv_import::ImportError::NoTransactions)
    ));
    assert!(matches!(
        csv_import::plan_file(b"x\n", "f"),
        Err(csv_import::ImportError::Statement(csv_import::CsvImportError::NoSection))
    ));
    assert!(matches!(
        csv_import::plan_file(b"\xff", "f"),
        Err(csv_import::ImportError::Statement(csv_import::CsvImportError::Unreadable(_)))
    ));
}

#[test]
fn small_pieces_of_what_is_stored() {
    assert_eq!(direction(-1), "DBIT");
    assert_eq!(direction(0), "CRDT");
    assert_eq!(minor_to_text(-105), "-1.05");
}

const ONE_LOST_WALLET: &str = "Current Accounts Transaction Statements\n\
Personal Account (EUR)\n\
Date,Description,Category,Money in/out,Balance\n\
9 Aug 2026,Bar,Others,five euros,?\n\
Personal Account (GBP)\n\
Date,Description,Category,Money in/out,Balance\n\
9 Aug 2026,Cafe,Others,-£5.00,£5.00\n";

#[test]
fn a_wallet_of_which_nothing_was_read_is_reported() {
    let planned = match plan_file(ONE_LOST_WALLET.as_bytes(), "r.csv") {
        Ok(v) => v,
        Err(_) => panic!("not planned"),
    };
    assert_eq!(planned.len(), 2);
    assert_eq!(planned[0].report.account, "Revolut GBP");
    assert!(planned[0].report.skipped.is_empty());
    assert!(planned[0].plan.is_some());
    let lost = &planned[1];
    assert_eq!(lost.report.account, "Revolut EUR");
    assert_eq!(lost.report.parsed, 0);
    assert_eq!(
        lost.report.skipped,
        vec!["9 Aug 2026 | Bar | Others | five euros | ?".to_string()]
    );
    // There is nothing to write of it.
    assert!(lost.plan.is_none());
    assert_eq!(
        report_text(&lost.report, true)[1..3],
        [
            "       1 ROW(S) NOT PARSED:".to_string(),
            "         9 Aug 2026 | Bar | Others | five euros | ?".to_string(),
        ]
    );

    assert_eq!(report_text(&lost.report, true).len(), 3);
}

fn lost_in(text: &str) -> (&'static str, Vec<ImportReport>) {
    match plan_file(text.as_bytes(), "f") {
        Err(ImportError::NoTransactions(label, lost)) => (label, lost),
        _ => panic!("no such failure"),
    }
}

#[test]
fn a_failed_import_lists_what_was_skipped() {
    let (label, lost) = lost_in("Date,Amount\nsoon,1.00\n");
    assert_eq!((label, lost.len()), ("Amex", 1));
    assert_eq!(lost[0].skipped, vec!["soon | 1.00".to_string()]);

    // No row has a date, so nothing is known of the account.
    let (label, lost) = lost_in("Date,Sort Code,Debit Amount,Credit Amount\nsoon,1,2.00,\n");
    assert_eq!((label, lost.len()), ("Lloyds", 1));
    assert_eq!(lost[0].account, "Lloyds");
    assert_eq!(lost[0].skipped, vec!["soon | 1 | 2.00 | ".to_string()]);

    // No wallet was found at all.
    let (label, lost) =
        lost_in("Current Accounts Transaction Statements\nJoint Account (GBP)\nDate,x\n1 Jul 2026,2\n");
    assert_eq!((label, lost.len()), ("Revolut", 1));
    assert_eq!(lost[0].account, "Revolut");
    assert_eq!(
        lost[0].skipped,
        vec!["Joint Account (GBP)".to_string(), "1 Jul 2026 | 2".to_string()]
    );

    assert!(lost_in("Date,Amount\n").1.is_empty());
    assert!(lost_in("Date,Debit Amount,Credit Amount\n , ,\n").1.is_empty());
}

#[test]
fn importing_again_writes_the_same() {
    let twice: Vec<_> = (0..2)
        .map(|_| match plan_file(LLOYDS.as_bytes(), "f") {
            Ok(mut v) => v.remove(0).plan.unwrap(),
            Err(_) => panic!("not planned"),
        })
        .collect();
    assert_eq!(twice[0].period_start, twice[1].period_start);
    assert_eq!(twice[0].period_end, twice[1].period_end);
    assert_eq!(format!("{:?}", twice[0].rows), format!("{:?}", twice[1].rows));
}

#[test]
fn a_wallet_in_any_order_replaces_its_period() {
    let row = |day: u32| format!("{day} Aug 2026,A,Others,€1.00,€1.00,€0.00\n");
    for days in [[8, 9, 10], [10, 9, 8], [9, 8, 10], [9, 10, 8]] {
        let text = format!(
            "Current Accounts Transaction Statements\nPersonal Account (EUR)\n\
             Date,Description,Category,Money in/out,Balance,Fees\n{}{}{}",
            row(days[0]),
            row(days[1]),
            row(days[2])
        );
        let planned = match csv_import::plan_file(text.as_bytes(), "r.csv") {
            Ok(v) => v,
            Err(_) => panic!("not planned"),
        };
        let plan = &planned[0].plan;
        assert_eq!(plan.period_start, Some("2026-08-08".into()));
        assert_eq!(plan.period_end, Some("2026-08-10".into()));
        for row in &plan.rows {
            assert!(plan.period_start.as_ref().unwrap() <= &row.booking_date);
            assert!(&row.booking_date <= plan.period_end.as_ref().unwrap());
        }
    }
}

fn told(r: &ImportReport) -> String {
    format!(
        "{} {} {} {:?} {:?} {:?} {} {:?}",
        r.label,
        r.account,
        r.parsed,
        r.period,
        r.skipped,
        r.chain_breaks,
        r.chain_available,
        r.closing_balance
    )
}

#[test]
fn dry_and_real_runs_agree() {
    for text in [LLOYDS, AMEX, REVOLUT, ONE_LOST_WALLET] {
        let run = || match plan_file(text.as_bytes(), "f") {
            Ok(v) => v,
            Err(_) => panic!("not planned"),
        };
        let (dry, full) = (run(), run());
        assert_eq!(dry.len(), full.len());
        for (shown, written) in dry.into_iter().zip(full) {
            assert!(shown.to_write(true).is_none());
            assert_eq!(written.to_write(false).is_some(), written.plan.is_some());
            let had_plan = written.plan.is_some();
            let (shown, written) = (shown.done(true, 7, 3), written.done(false, 7, 3));
            assert_eq!(told(&shown), told(&written));
            assert_eq!((shown.inserted, shown.replaced), (0, 0));
            let counts = if had_plan { (7, 3) } else { (0, 0) };
            assert_eq!((written.inserted, written.replaced), counts);
        }
    }
    let run = || match csv_import::plan_file(REVOLUT.as_bytes(), "f") {
        Ok(mut v) => v.remove(0),
        Err(_) => panic!("not planned"),
    };
    assert!(run().to_write(true).is_none());
    assert!(run().to_write(false).is_some());
    let (shown, written) = (run().done(true, 7, 3), run().done(false, 7, 3));
    assert_eq!((shown.inserted, shown.replaced), (0, 0));
    assert_eq!((written.inserted, written.replaced), (7, 3));
    assert_eq!((&shown.currency, shown.parsed), (&written.currency, written.parsed));
    assert_eq!(shown.period, written.period);
}

#[test]
fn empty_reports() {
    let r = ImportReport::default();
    assert_eq!((r.parsed, r.inserted, r.replaced), (0, 0, 0));
    assert!(r.label.is_empty() && r.account.is_empty() && r.skipped.is_empty());
    assert!(r.chain_breaks.is_empty() && !r.chain_available);
    assert_eq!((r.period, r.closing_balance), (None, None));
    let c = csv_import::ImportReport::default();
    assert_eq!((c.parsed, c.inserted, c.replaced), (0, 0, 0));
    assert!(c.currency.is_empty() && c.chain_breaks.is_empty());
    assert!(csv_import::ParsedStatement::default().accounts.is_empty());
    let a = csv_import::ParsedAccount::default();
    assert!(a.currency.is_empty() && a.rows.is_empty());
    assert_eq!((a.opening_balance_minor, a.closing_balance_minor), (None, None));
}
