use argus::calendar::Date;
use argus::clock::{day_text, now_iso, rfc3339_text};
use argus::enable_banking::{ApiError, CallError, PageRun};
use argus::store::read_transaction;
use argus::sync::{
    announce, failure_of, incremental_start, next_window, outcome_of, plan_sync, resume_from,
    retryable, strategy, window_query, windows, Remedy, SyncOutcome,
};

fn day(year: i32, month: u32, day: u32) -> Date {
    Date { year, month, day }
}

fn api(status: u16, code: &str) -> CallError {
    CallError::Api(ApiError::from_response(
        status,
        &format!("{{\"code\":\"{}\"}}", code),
    ))
}

#[test]
fn a_summary_on_one_line() {
    let mut o = SyncOutcome::default();
    assert_eq!(o.summary(), "0 page(s), 0 transactions (0 booked, 0 pending)");
    o.pages = 2;
    o.fetched = 15;
    o.booked = 14;
    o.pending = 1;
    o.earliest = Some("2026-01-01".into());
    assert_eq!(o.summary(), "2 page(s), 15 transactions (14 booked, 1 pending)");
    o.latest = Some("2026-03-01".into());
    o.truncated = true;
    assert_eq!(
        o.summary(),
        "2 page(s), 15 transactions (14 booked, 1 pending)  2026-01-01 to 2026-03-01  \
         [TRUNCATED — page cap hit, history incomplete]"
    );
}

#[test]
fn outcomes_show_the_dates_that_came_back() {
    let tx = |d: &str| {
        read_transaction(&serde_json::from_str(&format!("{{\"booking_date\":{}}}", d)).unwrap())
    };
    let items = [tx("\"2026-02-01\""), tx("null"), tx("\"2026-01-05\""), tx("\"2026-01-31\"")];
    let o = outcome_of(PageRun { pages: 3, truncated: true }, &items, 4, 0);
    assert_eq!(o.fetched, 4);
    assert_eq!(o.earliest, Some("2026-01-05".into()));
    assert_eq!(o.latest, Some("2026-02-01".into()));
    assert!(o.truncated);
    let none = outcome_of(PageRun { pages: 1, truncated: false }, &[], 0, 0);
    assert_eq!(none.earliest, None);
}

#[test]
fn where_a_sync_resumes() {
    let today = day(2026, 3, 10);
    assert_eq!(
        incremental_start(&Some("2026-03-03".into()), today),
        Some(day(2026, 2, 24))
    );
    assert_eq!(incremental_start(&None, today), Some(day(2025, 12, 11)));
    assert_eq!(incremental_start(&Some("junk".into()), today), Some(day(2025, 12, 11)));
    // Never after today.
    assert_eq!(incremental_start(&Some("2030-01-01".into()), today), Some(today));
    assert_eq!(resume_from(Some(day(-262143, 1, 3)), today), None);
}

#[test]
fn windows_get_narrower() {
    let today = day(2026, 3, 31);
    let w = windows(Some(day(2025, 1, 1)), false, today);
    assert_eq!(
        w,
        vec![
            Some(day(2025, 1, 1)),
            Some(day(2026, 1, 1)),
            Some(day(2026, 1, 30)),
            Some(day(2026, 3, 1)),
        ]
    );
    assert_eq!(windows(None, true, today), vec![None]);
    let wrong = api(422, "WRONG_TRANSACTIONS_PERIOD");
    assert!(retryable(&wrong));
    assert_eq!(next_window(&w, 1, &wrong), Some(Some(day(2026, 1, 1))));
    assert_eq!(next_window(&w, 4, &wrong), None);
    assert_eq!(next_window(&w, 1, &api(500, "X")), None);
    let q = window_query(w[1], strategy(false));
    assert_eq!(q.strategy, Some("default"));
    assert_eq!(q.date_from, Some(day(2026, 1, 1)));
    assert_eq!(strategy(true), "longest");
}

#[test]
fn what_is_done_about_failures() {
    let f = failure_of(&api(429, "RATE_LIMIT"));
    assert_eq!((f.label, f.remedy), ("RATE_LIMITED", Remedy::BackOff(6)));
    let f = failure_of(&api(400, "EXPIRED_SESSION"));
    assert_eq!((f.label, f.remedy), ("EXPIRED_SESSION", Remedy::ExpireSession));
    let f = failure_of(&api(500, "ASPSP_ERROR"));
    assert_eq!((f.label, f.remedy), ("ASPSP_ERROR", Remedy::BackOff(1)));
    let f = failure_of(&api(401, ""));
    assert_eq!((f.label, f.remedy), ("UNAUTHORIZED", Remedy::Nothing));
    let f = failure_of(&api(500, ""));
    assert_eq!((f.label, f.note), ("ERROR", "unhandled error"));
    let f = failure_of(&CallError::Other("x".into()));
    assert_eq!(f.label, "ERROR");
}

#[test]
fn announcements() {
    assert_eq!(announce(true, None), "  initial backfill sync");
    assert_eq!(
        announce(false, Some(day(2026, 3, 1))),
        "  incremental sync from 2026-03-01"
    );
}

#[test]
fn instants() {
    assert_eq!(
        now_iso(1_767_225_600, 5_000_000),
        Some("2026-01-01T00:00:00.005Z".into())
    );
    assert_eq!(day_text(1_767_225_599, 0), Some("2025-12-31".into()));
    assert_eq!(
        rfc3339_text(1_767_225_600, 0),
        Some("2026-01-01T00:00:00+00:00".into())
    );
    assert_eq!(now_iso(i64::MAX, 0), None);
    // Before 1970, within a leap second, and beyond four digits of a year.
    assert_eq!(now_iso(-1, 999_999_999), Some("1969-12-31T23:59:59.999Z".into()));
    assert_eq!(now_iso(59, 1_500_000_000), Some("1970-01-01T00:00:60.500Z".into()));
    assert_eq!(now_iso(58, 1_500_000_000), None);
    assert_eq!(now_iso(59, 2_000_000_000), None);
    assert_eq!(day_text(253_402_300_800, 0), Some("+10000-01-01".into()));
    assert_eq!(day_text(-62_167_219_201, 0), Some("-0001-12-31".into()));
    assert_eq!(rfc3339_text(3_661, 7_000), Some("1970-01-01T01:01:01.000007+00:00".into()));
    assert_eq!(rfc3339_text(0, 20_000_000), Some("1970-01-01T00:00:00.020+00:00".into()));
    assert_eq!(rfc3339_text(0, 1), Some("1970-01-01T00:00:00.000000001+00:00".into()));
    assert_eq!(rfc3339_text(59, 1_000_000_000), Some("1970-01-01T00:00:60+00:00".into()));
    // The first and the last instants that can be held.
    assert_eq!(day_text(-8_334_601_228_800, 0), Some("-262143-01-01".into()));
    assert_eq!(day_text(-8_334_601_228_801, 0), None);
    assert_eq!(day_text(8_210_266_876_799, 0), Some("+262142-12-31".into()));
    assert_eq!(day_text(8_210_266_876_800, 0), None);
}

#[test]
fn a_plan_names_what_is_asked_for() {
    let today = day(2026, 3, 31);
    let first = plan_sync(true, &Some("2026-03-03".into()), today).unwrap();
    assert_eq!(first.strategy, "longest");
    assert_eq!(first.date_from, None);
    assert_eq!(first.windows, vec![None]);
    let next = plan_sync(false, &Some("2026-03-03".into()), today).unwrap();
    assert_eq!(next.strategy, "default");
    assert_eq!(next.date_from, Some(day(2026, 2, 24)));
    assert_eq!(
        next.windows,
        vec![
            Some(day(2026, 2, 24)),
            Some(day(2026, 1, 1)),
            Some(day(2026, 1, 30)),
            Some(day(2026, 3, 1)),
        ]
    );
    // Days before the first that can be held are not asked for.
    assert!(plan_sync(false, &Some("2026-03-03".into()), day(-262143, 3, 30)).is_none());
    assert!(plan_sync(false, &Some("2026-03-03".into()), day(-262143, 3, 31)).is_some());
    assert!(plan_sync(true, &None, day(-262143, 1, 1)).is_some());
}
