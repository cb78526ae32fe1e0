use argus::store::{
    dedupe_key, ingest_stats, needs_backfill, plan_balances, plan_booked, plan_pending,
    plan_session, read_balance, read_session, read_transaction, ApiTransaction, IngestError,
    Remittance, SessionError,
};

fn transaction(json: &str) -> ApiTransaction {
    read_transaction(&serde_json::from_str(json).unwrap())
}

const PURCHASE: &str = "{\"booking_date\":\"2026-03-01\",\"credit_debit_indicator\":\"dbit\",\
\"transaction_amount\":{\"amount\":\"3.50\",\"currency\":\"GBP\"},\
\"creditor\":{\"name\":\"Cafe\"},\"debtor\":{\"name\":\"Me\"},\
\"creditor_account\":{\"other\":\"X1\",\"bban\":\"B1\"},\
\"remittance_information\":[\"table\",5,\"four\"],\
\"bank_transaction_code\":{\"description\":\"card\"},\
\"balance_after_transaction\":{\"amount\":\"96.5\"}}";

#[test]
fn what_is_read_of_a_transaction() {
    let tx = transaction(PURCHASE);
    assert!(tx.is_debit());
    assert_eq!(tx.counterparty_name(), Some("Cafe".into()));
    assert_eq!(tx.counterparty_account(), Some("B1".into()));
    assert_eq!(tx.remittance(), Some("table four".into()));
    assert_eq!(tx.status, None);
    assert_eq!(tx.bank_transaction_code, Some("card".into()));
    let raw: serde_json::Value = serde_json::from_str(&tx.raw_json).unwrap();
    assert_eq!(raw["remittance_information"][1], 5);
}

#[test]
fn the_ways_to_say_what_a_payment_is_for() {
    let mut tx = transaction("{\"remittance_information\":\"\"}");
    assert_eq!(tx.remittance(), Some(String::new()));
    tx.remittance = Remittance::Parts(vec![]);
    assert_eq!(tx.remittance(), None);
    let tx = transaction("{\"remittance_information\":7,\"debtor\":{\"name\":\"Boss\"}}");
    assert_eq!(tx.remittance(), None);
    assert_eq!(tx.counterparty_name(), Some("Boss".into()));
    assert_eq!(tx.counterparty_account(), None);
}

#[test]
fn identical_purchases_have_different_keys() {
    let plan = plan_booked(&[transaction(PURCHASE), transaction(PURCHASE)]).unwrap();
    assert_eq!(
        plan.rows[0].dedupe_key,
        "syn:2026-03-01|3.50|GBP|dbit|Cafe|table four#1"
    );
    assert_eq!(
        plan.rows[1].dedupe_key,
        "syn:2026-03-01|3.50|GBP|dbit|Cafe|table four#2"
    );
    let again = plan_booked(&[transaction(PURCHASE)]).unwrap();
    assert_eq!(again.rows[0].dedupe_key, plan.rows[0].dedupe_key);
}

#[test]
fn the_banks_reference_is_the_key() {
    let mut tx = transaction(PURCHASE);
    tx.entry_reference = Some("R7".into());
    let mut seen = vstd::hash_map::StringHashMap::new();
    assert_eq!(dedupe_key(&tx, &mut seen), "R7");
    tx.entry_reference = Some(String::new());
    assert!(dedupe_key(&tx, &mut seen).ends_with("#1"));
}

#[test]
fn what_is_stored_of_a_booked_transaction() {
    let plan = plan_booked(&[transaction(PURCHASE)]).unwrap();
    let r = &plan.rows[0];
    assert_eq!(r.amount_minor, -350);
    assert_eq!(r.amount_text, "3.50");
    assert_eq!(r.credit_debit, "DBIT");
    assert_eq!(r.balance_after_minor, Some(9650));
    assert_eq!(r.reference, Some("table four".into()));
    assert_eq!(plan.skipped, 0);
}

#[test]
fn booked_and_pending_are_told_apart() {
    let mut pending = transaction(PURCHASE);
    pending.status = Some("pdng".into());
    let mut credit = transaction(PURCHASE);
    credit.indicator = Some("CRDT".into());
    credit.amount = Some("-3.50".into());
    credit.status = Some("book".into());
    let mut other = transaction(PURCHASE);
    other.status = Some("INFO".into());
    let all = [pending, credit, other];
    let booked = plan_booked(&all).unwrap();
    assert_eq!(booked.rows.len(), 1);
    assert_eq!(booked.skipped, 2);
    assert_eq!(booked.rows[0].amount_minor, 350);
    assert_eq!(booked.rows[0].credit_debit, "CRDT");
    let pending = plan_pending(&all).unwrap();
    assert_eq!(pending.len(), 1);
    assert_eq!(pending[0].amount_minor, -350);
    // A transaction without a status is booked, not pending.
    assert!(plan_pending(&[transaction(PURCHASE)]).unwrap().is_empty());
}

#[test]
fn transactions_that_cannot_be_stored() {
    let mut tx = transaction(PURCHASE);
    tx.currency = None;
    assert!(matches!(plan_booked(&[tx]), Err(IngestError::NoCurrency)));
    let mut tx = transaction(PURCHASE);
    tx.amount = None;
    assert!(matches!(plan_booked(&[tx]), Err(IngestError::NoAmount)));
    let mut tx = transaction(PURCHASE);
    tx.amount = Some("x".into());
    assert!(matches!(plan_booked(&[tx]), Err(IngestError::Amount(_))));
    let mut tx = transaction(PURCHASE);
    tx.balance_after = Some("x".into());
    assert_eq!(plan_booked(&[tx]).unwrap().rows[0].balance_after_minor, None);
}

#[test]
fn storing_again_plans_the_same() {
    let mut other = transaction(PURCHASE);
    other.status = Some("PDNG".into());
    let mut named = transaction(PURCHASE);
    named.entry_reference = Some("R7".into());
    let all = [transaction(PURCHASE), other, named, transaction(PURCHASE)];
    let plan = plan_booked(&all).unwrap();
    let again = plan_booked(&all).unwrap();
    assert_eq!(format!("{:?}", plan.rows), format!("{:?}", again.rows));
    let keys: Vec<&str> = plan.rows.iter().map(|r| r.dedupe_key.as_str()).collect();
    assert_eq!(keys[1], "R7");
    assert!(keys[0].ends_with("#1") && keys[2].ends_with("#2"));
    let once = ingest_stats(plan.skipped, &[1, 1, 1]);
    let twice = ingest_stats(again.skipped, &[1, 1, 1]);
    assert_eq!((once.inserted, once.skipped), (3, 1));
    assert_eq!((twice.inserted, twice.skipped), (3, 1));
}

#[test]
fn figures_of_an_ingest() {
    let stats = ingest_stats(4, &[1, 0, 2]);
    assert_eq!((stats.inserted, stats.updated, stats.skipped), (2, 0, 4));
}

#[test]
fn balances_up_to_the_first_that_cannot_be_read() {
    let read = |json: &str| read_balance(&serde_json::from_str(json).unwrap());
    let all = [
        read("{\"balance_amount\":{\"amount\":\"12.34\",\"currency\":\"JPY\"},\"balance_type\":\"CLBD\"}"),
        read("{\"balance_amount\":{\"currency\":\"GBP\"}}"),
        read("{\"balance_amount\":{\"amount\":\"-0.5\"},\"reference_date\":\"2026-03-01\"}"),
        read("{\"balance_amount\":{\"amount\":\"bad\"}}"),
        read("{\"balance_amount\":{\"amount\":\"1\"}}"),
    ];
    let plan = plan_balances(&all);
    assert_eq!(plan.rows.len(), 2);
    assert_eq!(plan.rows[0].amount_minor, 12);
    assert_eq!(plan.rows[0].balance_type, "CLBD");
    assert_eq!(plan.rows[1].amount_minor, -50);
    assert_eq!(plan.rows[1].balance_type, "OTHR");
    assert_eq!(plan.rows[1].currency, "XXX");
    assert_eq!(plan.rows[1].reference_date, Some("2026-03-01".into()));
    assert!(plan.error.is_some());
    assert!(plan_balances(&all[..3]).error.is_none());
}

const SESSION: &str = "{\"session_id\":\"S1\",\"access\":{\"valid_until\":\"2026-09-01T00:00:00Z\"},\
\"accounts\":[{\"uid\":\"U1\",\"identification_hash\":\"H1\",\"currency\":\"GBP\",\
\"account_id\":{\"iban\":\"GB00\"}}]}";

#[test]
fn what_is_stored_of_a_session() {
    let session = read_session(&serde_json::from_str(SESSION).unwrap());
    let record = plan_session(&session).unwrap();
    assert_eq!(record.provider_session_id, "S1");
    assert_eq!(record.status, "AUTHORIZED");
    assert_eq!(record.valid_until, Some("2026-09-01T00:00:00Z".into()));
    assert_eq!(record.accounts[0].uid, "U1");
    assert_eq!(record.accounts[0].iban, Some("GB00".into()));
    assert_eq!(record.accounts[0].name, None);
    // The whole response, as serde_json writes it: members by name, no space.
    let written: serde_json::Value = serde_json::from_str(&record.raw_json).unwrap();
    assert_eq!(written["access"]["valid_until"], "2026-09-01T00:00:00Z");
    assert!(record.raw_json.starts_with("{\"access\":{\"valid_until\":"));
}

#[test]
fn sessions_that_cannot_be_stored() {
    let plan = |json: &str| plan_session(&read_session(&serde_json::from_str(json).unwrap()));
    assert_eq!(plan("{}").err(), Some(SessionError::NoSessionId));
    assert_eq!(plan("[1]").err(), Some(SessionError::NoSessionId));
    assert_eq!(
        plan("{\"session_id\":\"S\",\"accounts\":[{}]}").err(),
        Some(SessionError::NoUid)
    );
    assert_eq!(
        plan("{\"session_id\":\"S\",\"accounts\":[{\"uid\":\"U\"}]}").err(),
        Some(SessionError::NoIdentificationHash)
    );
    let empty = plan("{\"session_id\":\"S\",\"status\":\"X\",\"accounts\":3}").unwrap();
    assert!(empty.accounts.is_empty());
    assert_eq!(empty.status, "X");
}

#[test]
fn when_a_backfill_is_due() {
    assert!(needs_backfill(None));
    assert!(needs_backfill(Some(None)));
    assert!(!needs_backfill(Some(Some("2026-03-01".into()))));
}
