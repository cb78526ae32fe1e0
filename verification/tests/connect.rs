use argus::calendar::Date;
use argus::callback::{reply, AuthCallback};
use argus::connect::{
    account_line, bank_command, bank_heading, bank_listing, callback_port, consent_line,
    consent_note, country_code, database_path, days_left, find_bank, judge, parse_query, pasted,
    percent_decode, sort_banks, unknown_bank, BankCommand, PortError, Verdict,
};
use argus::enable_banking::Aspsp;

#[test]
fn percent_encoding() {
    assert_eq!(percent_decode("a%20b+c"), "a b c");
    assert_eq!(percent_decode("caf%C3%A9"), "café");
    assert_eq!(percent_decode("plain-é"), "plain-é");
    assert_eq!(percent_decode("100%"), "100%");
    assert_eq!(percent_decode("%zz%4"), "%zz%4");
    assert_eq!(percent_decode("%+f"), "\u{f}");
    assert_eq!(percent_decode("%ff"), "\u{fffd}");
}

#[test]
fn queries() {
    assert_eq!(
        parse_query("code=a%20b&x&state=s=t&"),
        vec![
            ("code".to_string(), "a b".to_string()),
            ("state".to_string(), "s=t".to_string()),
        ]
    );
    assert!(parse_query("").is_empty());
}

#[test]
fn pasted_values() {
    let c = pasted("  ABC123\n").unwrap();
    assert_eq!(c.code, Some("ABC123".into()));
    assert_eq!(c.state, None);
    let c = pasted("https://x/cb?code=1&state=s&code=2").unwrap();
    assert_eq!(c.code, Some("2".into()));
    assert_eq!(c.state, Some("s".into()));
    let c = pasted("error=denied&error_description=no+way").unwrap();
    assert_eq!(c.error, Some("denied".into()));
    assert_eq!(c.error_description, Some("no way".into()));
    assert_eq!(c.code, None);
    assert!(pasted(" \n").is_none());
}

fn callback(code: Option<&str>, state: Option<&str>, error: Option<&str>) -> AuthCallback {
    AuthCallback {
        code: code.map(str::to_string),
        state: state.map(str::to_string),
        error: error.map(str::to_string),
        error_description: None,
    }
}

#[test]
fn only_the_expected_state_goes_on() {
    match judge(callback(Some("c"), Some("s"), None), Some(7), 7, false) {
        Verdict::GoOn(code, checked) => assert_eq!((code.as_str(), checked), ("c", true)),
        other => panic!("{:?}", other),
    }
    match judge(callback(Some("c"), None, None), None, 7, true) {
        Verdict::GoOn(code, checked) => assert_eq!((code.as_str(), checked), ("c", false)),
        other => panic!("{:?}", other),
    }
    assert!(matches!(
        judge(callback(Some("c"), Some("s"), None), Some(8), 7, true),
        Verdict::StateMismatch
    ));
    assert!(matches!(
        judge(callback(Some("c"), Some("s"), None), None, 7, false),
        Verdict::StateMismatch
    ));
    assert!(matches!(
        judge(callback(Some("c"), None, None), None, 7, false),
        Verdict::MissingState
    ));
    assert!(matches!(
        judge(callback(None, Some("s"), None), Some(7), 7, false),
        Verdict::MissingCode(true)
    ));
    match judge(callback(Some("c"), Some("s"), Some("denied")), Some(7), 7, false) {
        Verdict::Refused(e, d) => assert_eq!((e.as_str(), d.as_str()), ("denied", "")),
        other => panic!("{:?}", other),
    }
}

#[test]
fn pages_that_answer_callbacks() {
    assert_eq!(reply(&callback(None, None, Some("x"))).0, "Authorization failed");
    assert_eq!(reply(&callback(None, None, None)).1, "You can close this window.");
}

fn bank(name: &str, limit: Option<i64>, beta: bool) -> Aspsp {
    Aspsp {
        name: name.into(),
        country: "GB".into(),
        psu_types: vec!["personal".into(), "business".into()],
        maximum_consent_validity: limit,
        beta,
    }
}

#[test]
fn banks_are_found_and_sorted() {
    let banks = vec![
        bank("Lloyds", Some(86_400), false),
        bank("Amex", None, true),
        bank("lloyds", Some(-86_401), false),
    ];
    assert_eq!(find_bank(&banks, "LLOYDS"), Some(0));
    assert_eq!(find_bank(&banks, "Monzo"), None);
    assert_eq!(
        unknown_bank(&banks, "Monzo", "GB"),
        "'Monzo' not found in GB. Available: Lloyds, Amex, lloyds"
    );
    assert_eq!(
        bank_listing(&banks[0]),
        format!("  {:<45} consent {:<5} personal/business", "Lloyds", "1d")
    );
    assert_eq!(
        bank_listing(&banks[1]),
        format!("  {:<45} consent {:<5} personal/business  [beta]", "Amex", "?")
    );
    assert!(bank_listing(&banks[2]).contains("consent -1d "));
    assert_eq!(bank_heading(banks.len(), "gb"), "3 ASPSPs in GB");
    assert_eq!(country_code("gb"), "GB");
    let sorted = sort_banks(banks);
    let names: Vec<&str> = sorted.iter().map(|b| b.name.as_str()).collect();
    assert_eq!(names, vec!["Amex", "Lloyds", "lloyds"]);
}

#[test]
fn ports() {
    assert_eq!(callback_port("http://localhost:8080/callback"), Ok(8080));
    assert_eq!(callback_port("https://example.com/cb"), Ok(443));
    assert_eq!(callback_port("http://example.com"), Ok(80));
    assert_eq!(callback_port("localhost:80"), Err(PortError::NoScheme));
    assert_eq!(callback_port("http://h:99999/"), Err(PortError::BadPort));
    assert_eq!(callback_port("http://a://b"), Ok(80));
    assert_eq!(callback_port("http://h:+81"), Ok(81));
}

#[test]
fn database_files() {
    assert_eq!(database_path("sqlite://data/spending.db?mode=rwc"), "data/spending.db");
    assert_eq!(database_path("sqlite:spending.db"), "spending.db");
    assert_eq!(database_path("sqlite://sqlite://x"), "x");
    assert_eq!(database_path("x.db"), "x.db");
}

#[test]
fn consents_that_run_out() {
    let today = Date { year: 2026, month: 3, day: 10 };
    assert_eq!(days_left("2026-03-09T00:00:00Z", today), Some(-1));
    assert_eq!(days_left("2026-04-09", today), Some(30));
    assert_eq!(days_left("2026-04", today), None);
    assert_eq!(days_left("not a date", today), None);
    assert_eq!(consent_note(Some(-1)), "  EXPIRED — run `connect` again");
    assert_eq!(consent_note(Some(14)), "  14 days left — renew soon");
    assert_eq!(consent_note(Some(15)), "  15 days left");
    assert_eq!(consent_note(None), "");
    assert_eq!(
        consent_line(&Some("2026-04-09T00:00:00Z".into()), "  30 days left"),
        format!("  {:<20} consent until 2026-04-09  30 days left", "")
    );
    assert_eq!(
        consent_line(&None, ""),
        format!("  {:<20} consent expiry not reported by this ASPSP", "")
    );
    assert_eq!(
        account_line("Bank", "Main", "GBP", 12, &None),
        format!("  {:<20} {:<28} {:<4} {:>6} txns since -", "Bank", "Main", "GBP", 12)
    );
}

#[test]
fn bank_commands() {
    let args = |a: &[&str]| a.iter().map(|s| s.to_string()).collect::<Vec<String>>();
    match bank_command(&args(&["connect", "Lloyds"]), "Mock", "GB") {
        BankCommand::Connect(b, c) => assert_eq!((b.as_str(), c.as_str()), ("Lloyds", "GB")),
        other => panic!("{:?}", other),
    }
    match bank_command(&args(&["banks"]), "Mock", "GB") {
        BankCommand::Banks(c) => assert_eq!(c, "GB"),
        other => panic!("{:?}", other),
    }
    assert!(matches!(bank_command(&args(&["sync"]), "", ""), BankCommand::Sync));
    assert!(matches!(bank_command(&args(&["accounts"]), "", ""), BankCommand::Accounts));
    assert!(matches!(bank_command(&args(&[]), "", ""), BankCommand::Usage));
    assert!(matches!(bank_command(&args(&["x"]), "", ""), BankCommand::Usage));
}
