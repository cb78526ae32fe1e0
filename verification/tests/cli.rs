use argus::calendar::Date;
use argus::cli::{
    account_listing, batch_listing, command, flag_value, has_flag, inspect_row, is_csv, months,
    parser_line, positionals, showable, verdict, Command,
};
use argus::text::comes_before;

fn args(a: &[&str]) -> Vec<String> {
    a.iter().map(|s| s.to_string()).collect()
}

#[test]
fn flags_and_their_values() {
    let a = args(&["report", "--months", "6", "--out", "--dry-run"]);
    assert_eq!(flag_value(&a, "--months"), Some("6".into()));
    assert_eq!(flag_value(&a, "--out"), None);
    assert_eq!(flag_value(&a, "--dry-run"), None);
    assert!(has_flag(&a, "--dry-run"));
    assert!(!has_flag(&a, "--reset"));
    assert_eq!(positionals(&a), vec!["report".to_string(), "6".to_string()]);
    assert_eq!(months(&a), 6);
    assert_eq!(months(&args(&["--months", "x"])), 12);
    assert_eq!(months(&[]), 12);
}

#[test]
fn commands() {
    assert!(matches!(command(&args(&["import", "x.csv"])), Ok(Command::Import(t)) if t == "x.csv"));
    assert!(matches!(
        command(&args(&["import"])),
        Err("usage: import <file.csv | directory> [--dry-run]")
    ));
    assert!(matches!(command(&args(&["inspect", "f"])), Ok(Command::Inspect(_))));
    assert!(matches!(command(&args(&["inspect"])), Err("usage: inspect <file.csv>")));
    assert!(matches!(command(&args(&["categorize"])), Ok(Command::Categorise)));
    assert!(matches!(
        command(&args(&["tag", "7", "Food"])),
        Ok(Command::Tag(7, c)) if c == "Food"
    ));
    assert!(matches!(command(&args(&["tag", "x"])), Err("transaction id must be a number")));
    assert!(matches!(
        command(&args(&["tag", "7"])),
        Err("usage: tag <transaction-id> <category>")
    ));
    assert!(matches!(
        command(&args(&["tag"])),
        Err("usage: tag <transaction-id> <category>")
    ));
    assert!(matches!(command(&args(&["report"])), Ok(Command::Report)));
    assert!(matches!(command(&args(&["accounts"])), Ok(Command::Accounts)));
    assert!(matches!(command(&args(&["batches"])), Ok(Command::Batches)));
    assert!(matches!(command(&[]), Ok(Command::Usage)));
    assert!(matches!(command(&args(&["what"])), Ok(Command::Usage)));
}

#[test]
fn files_to_import() {
    assert!(is_csv("a.csv"));
    assert!(is_csv("a.b.CSV"));
    assert!(!is_csv(".csv"));
    assert!(!is_csv("csv"));
    assert!(!is_csv("a.csv.txt"));
}

#[test]
fn rows_of_an_unknown_file() {
    assert_eq!(
        inspect_row(3, &args(&[" a ", "123456789012345678901234567"])),
        "    3: a | 123456789012345678901234…"
    );
    assert!(showable("éééééééééééé"));
    assert!(!showable("aéééééééééééé"));
    assert_eq!(parser_line("Amex", true), "  Amex       MATCHES");
    assert_eq!(parser_line("Lloyds", false), "  Lloyds     no");
}

#[test]
fn stored_accounts_and_imports() {
    assert_eq!(
        account_listing("Amex", "Card", "credit_card", 12, &Some("2026-01-01".into()), &None),
        format!(
            "  {:<10} {:<18} {:<12} {:>5} txns  2026-01-01 to -",
            "Amex", "Card", "credit_card", 12
        )
    );
    assert_eq!(verdict(2, 1), "2 CHAIN BREAKS");
    assert_eq!(verdict(0, 1), "verified");
    assert_eq!(verdict(0, 0), "unverified");
    assert_eq!(
        batch_listing("2026-03-01T10:11:12.000Z", "Card", &None, &Some("2026-02-01".into()), 7, 0, 0),
        format!("  2026-03-01T10:11  {:<16}  to 2026-02-01  {:>4} rows  unverified", "Card", 7)
    );
}

#[test]
fn days_and_their_texts_sort_alike() {
    let days = [
        Date { year: 0, month: 1, day: 1 },
        Date { year: 1999, month: 12, day: 31 },
        Date { year: 2000, month: 2, day: 29 },
        Date { year: 2000, month: 10, day: 1 },
        Date { year: 9999, month: 12, day: 31 },
    ];
    for a in &days {
        for b in &days {
            assert_eq!(a.is_before(b), comes_before(&a.to_iso(), &b.to_iso()));
        }
    }
    assert_eq!(Date { year: 12026, month: 3, day: 4 }.to_iso(), "+12026-03-04");
    assert_eq!(Date { year: -5, month: 3, day: 4 }.to_iso(), "-0005-03-04");
}
