//! Syncs of accounts through the banking API: what to ask for, what to do when
//! it fails, and what to report.
use crate::calendar;
use crate::calendar::{days_before, parse_by, Date};
use crate::decimal;
use crate::decimal::push_decimal;
use crate::enable_banking::{api_error, ApiErrorKind, CallError, PageRun, TransactionQuery};
use crate::store;
use crate::store::ApiTransaction;
use crate::text;
use crate::text::{comes_before, owned};
use vstd::prelude::*;

verus! {

/// Re-fetch this many days of already-seen history on every sync. Cheap
/// insurance against late-arriving and amended entries; the upsert makes it
/// idempotent.
pub const OVERLAP_DAYS: u32 = 7;

/// How far back a sync reaches when nothing has been stored, which is inside the
/// window virtually every ASPSP supports.
pub const FIRST_WINDOW_DAYS: u32 = 89;

pub const MAX_PAGES: usize = 200;

// ---------------------------------------------------------------------------
// Outcomes
// ---------------------------------------------------------------------------

#[derive(Debug)]
pub struct SyncOutcome {
    pub pages: usize,
    pub fetched: usize,
    pub booked: u64,
    pub pending: u64,
    /// Booking dates actually returned, so silent truncation by the ASPSP is
    /// visible rather than invisible.
    pub earliest: Option<String>,
    pub latest: Option<String>,
    /// Page cap reached with more data still pending.
    pub truncated: bool,
}

impl Default for SyncOutcome {
    fn default() -> (r: SyncOutcome)
        ensures
            r.pages == 0,
            r.fetched == 0,
            r.booked == 0,
            r.pending == 0,
            r.earliest is None,
            r.latest is None,
            !r.truncated,
    {
        SyncOutcome {
            pages: 0,
            fetched: 0,
            booked: 0,
            pending: 0,
            earliest: None,
            latest: None,
            truncated: false,
        }
    }
}

impl SyncOutcome {
    /// The outcome on one line.
    pub open spec fn line(self) -> Seq<char> {
        let range = match (self.earliest, self.latest) {
            (Some(from), Some(to)) => "  "@ + from@ + " to "@ + to@,
            _ => Seq::empty(),
        };
        let note = if self.truncated {
            "  [TRUNCATED — page cap hit, history incomplete]"@
        } else {
            Seq::empty()
        };
        decimal::decimal(self.pages as int) + " page(s), "@ + decimal::decimal(self.fetched as int)
            + " transactions ("@ + decimal::decimal(self.booked as int) + " booked, "@
            + decimal::decimal(self.pending as int) + " pending)"@ + range + note
    }

    pub fn summary(&self) -> (r: String)
        ensures
            r@ == self.line(),
    {
        let mut s = String::new();
        push_decimal(&mut s, self.pages as u64);
        s.append(" page(s), ");
        push_decimal(&mut s, self.fetched as u64);
        s.append(" transactions (");
        push_decimal(&mut s, self.booked);
        s.append(" booked, ");
        push_decimal(&mut s, self.pending);
        s.append(" pending)");
        if let (Some(from), Some(to)) = (&self.earliest, &self.latest) {
            s.append("  ");
            s.append(from.as_str());
            s.append(" to ");
            s.append(to.as_str());
        }
        if self.truncated {
            s.append("  [TRUNCATED — page cap hit, history incomplete]");
        }
        assert(s@ == self.line());
        s
    }
}

/// The booking dates of some transactions.
pub open spec fn dates_of(items: Seq<store::TransactionView>) -> Seq<Seq<char>>
    decreases items.len(),
{
    if items.len() == 0 {
        seq![]
    } else {
        match items.last().booking_date {
            Some(d) => dates_of(items.drop_last()).push(d),
            None => dates_of(items.drop_last()),
        }
    }
}

/// Whether a text is the first of some in the order of a dictionary.
pub open spec fn is_first(first: Option<Seq<char>>, all: Seq<Seq<char>>) -> bool {
    match first {
        Some(f) => all.contains(f) && forall|i: int|
            0 <= i < all.len() ==> !text::sorts_before(#[trigger] all[i], f),
        None => all.len() == 0,
    }
}

/// Whether a text is the last of some in the order of a dictionary.
pub open spec fn is_last(last: Option<Seq<char>>, all: Seq<Seq<char>>) -> bool {
    match last {
        Some(l) => all.contains(l) && forall|i: int|
            0 <= i < all.len() ==> !text::sorts_before(l, #[trigger] all[i]),
        None => all.len() == 0,
    }
}

/// Whether an outcome is that of a run in which some transactions were fetched.
pub open spec fn is_outcome(
    r: SyncOutcome,
    run: PageRun,
    items: Seq<store::TransactionView>,
    booked: u64,
    pending: u64,
) -> bool {
    &&& r.pages == run.pages
    &&& r.truncated == run.truncated
    &&& r.fetched == items.len()
    &&& r.booked == booked
    &&& r.pending == pending
    &&& is_first(text::opt(r.earliest), dates_of(items))
    &&& is_last(text::opt(r.latest), dates_of(items))
}

proof fn lemma_first_push(first: Seq<char>, all: Seq<Seq<char>>, d: Seq<char>)
    requires
        is_first(Some(first), all),
    ensures
        text::sorts_before(d, first) ==> is_first(Some(d), all.push(d)),
        !text::sorts_before(d, first) ==> is_first(Some(first), all.push(d)),
{
    let more = all.push(d);
    assert(more[all.len() as int] == d);
    let k = choose|k: int| 0 <= k < all.len() && all[k] == first;
    assert(more[k] == first);
    text::lemma_sorts_irreflexive(d);
    assert forall|i: int| 0 <= i < more.len() && text::sorts_before(d, first) implies
        !text::sorts_before(#[trigger] more[i], d) by {
        if i < all.len() && text::sorts_before(all[i], d) {
            text::lemma_sorts_transitive(all[i], d, first);
        }
    }
}

proof fn lemma_last_push(last: Seq<char>, all: Seq<Seq<char>>, d: Seq<char>)
    requires
        is_last(Some(last), all),
    ensures
        text::sorts_before(last, d) ==> is_last(Some(d), all.push(d)),
        !text::sorts_before(last, d) ==> is_last(Some(last), all.push(d)),
{
    let more = all.push(d);
    assert(more[all.len() as int] == d);
    let k = choose|k: int| 0 <= k < all.len() && all[k] == last;
    assert(more[k] == last);
    text::lemma_sorts_irreflexive(d);
    assert forall|i: int| 0 <= i < more.len() && text::sorts_before(last, d) implies
        !text::sorts_before(d, #[trigger] more[i]) by {
        if i < all.len() && text::sorts_before(d, all[i]) {
            text::lemma_sorts_transitive(last, d, all[i]);
        }
    }
}

/// The outcome of a run in which some transactions were fetched.
pub fn outcome_of(run: PageRun, items: &[ApiTransaction], booked: u64, pending: u64) -> (r:
    SyncOutcome)
    ensures
        is_outcome(r, run, store::transaction_views(items@), booked, pending),
{
    let ghost all = store::transaction_views(items@);
    let mut earliest: Option<String> = None;
    let mut latest: Option<String> = None;
    let mut i: usize = 0;
    assert(all.take(0) == Seq::<store::TransactionView>::empty());
    while i < items.len()
        invariant
            i <= items@.len(),
            all == store::transaction_views(items@),
            is_first(text::opt(earliest), dates_of(all.take(i as int))),
            is_last(text::opt(latest), dates_of(all.take(i as int))),
        decreases items@.len() - i,
    {
        let ghost before = dates_of(all.take(i as int));
        assert(all.take(i + 1).drop_last() == all.take(i as int));
        assert(all.take(i + 1).last() == items@[i as int]@);
        if let Some(d) = &items[i].booking_date {
            assert(dates_of(all.take(i + 1)) == before.push(d@));
            assert(before.push(d@)[before.len() as int] == d@);
            proof {
                text::lemma_sorts_irreflexive(d@);
            }
            let first = match &earliest {
                Some(f) => {
                    proof {
                        lemma_first_push(f@, before, d@);
                    }
                    comes_before(d.as_str(), f.as_str())
                },
                None => true,
            };
            if first {
                earliest = Some(owned(d.as_str()));
            }
            let last = match &latest {
                Some(l) => {
                    proof {
                        lemma_last_push(l@, before, d@);
                    }
                    comes_before(l.as_str(), d.as_str())
                },
                None => true,
            };
            if last {
                latest = Some(owned(d.as_str()));
            }
        }
        i = i + 1;
    }
    assert(all.take(i as int) == all);
    SyncOutcome {
        pages: run.pages,
        fetched: items.len(),
        booked,
        pending,
        earliest,
        latest,
        truncated: run.truncated,
    }
}

// ---------------------------------------------------------------------------
// What to ask for
// ---------------------------------------------------------------------------

/// The strategy of a sync: all the history there is at first, and after that
/// what the bank gives by default.
pub open spec fn strategy_of(backfill: bool) -> Seq<char> {
    if backfill {
        "longest"@
    } else {
        "default"@
    }
}

pub fn strategy(backfill: bool) -> (r: &'static str)
    ensures
        r@ == strategy_of(backfill),
{
    if backfill {
        "longest"
    } else {
        "default"
    }
}

/// The number of the day at which a sync resumes: some days before the last that
/// is stored, and never after today.
pub open spec fn resume_number(last: Option<Date>, today: Date) -> int {
    let start = match last {
        Some(d) => d.day_number() - OVERLAP_DAYS,
        None => today.day_number() - FIRST_WINDOW_DAYS,
    };
    if start > today.day_number() {
        today.day_number()
    } else {
        start
    }
}

/// The day at which a sync resumes, given the last day that is stored; nothing
/// where it lies before the first day that can be held.
pub fn resume_from(last: Option<Date>, today: Date) -> (r: Option<Date>)
    requires
        today.valid(),
        last matches Some(d) ==> d.valid(),
    ensures
        match r {
            Some(s) => s.valid() && s.day_number() == resume_number(last, today),
            None => resume_number(last, today) < calendar::first_date().day_number(),
        },
{
    let start = match last {
        Some(d) => days_before(d, OVERLAP_DAYS),
        None => days_before(today, FIRST_WINDOW_DAYS),
    };
    match start {
        Some(s) => {
            proof {
                calendar::law_day_number_order(today, s);
            }
            if today.is_before(&s) {
                Some(today)
            } else {
                Some(s)
            }
        },
        None => {
            proof {
                calendar::law_first_date(today);
            }
            None
        },
    }
}

/// The last day that is stored, where its text can be read.
pub open spec fn last_day(stored: Option<Seq<char>>) -> Option<Date> {
    match stored {
        Some(s) => calendar::date_by(s, "%Y-%m-%d"@),
        None => None,
    }
}

/// Where to resume from, given the last booking date that is stored.
pub fn incremental_start(stored: &Option<String>, today: Date) -> (r: Option<Date>)
    requires
        today.valid(),
    ensures
        match r {
            Some(s) => s.valid() && s.day_number() == resume_number(
                last_day(text::opt(*stored)),
                today,
            ),
            None => resume_number(last_day(text::opt(*stored)), today)
                < calendar::first_date().day_number(),
        },
        stored matches Some(s) ==> forall|d: Date|
            d.valid() && s@ == #[trigger] d.iso() ==> last_day(text::opt(*stored)) == Some(d),
{
    let last = match stored {
        Some(s) => parse_by(s.as_str(), "%Y-%m-%d"),
        None => None,
    };
    resume_from(last, today)
}

/// The windows to try after the first: progressively narrower.
pub open spec fn fallback_days() -> Seq<u32> {
    seq![89, 60, 30]
}

/// Whether some windows are those of a sync: the one that was asked for and, for
/// the default strategy alone, those that reach back fewer and fewer days. Only
/// the default strategy can be told that its period is wrong; the longest just
/// returns what it can.
pub open spec fn are_windows(
    r: Seq<Option<Date>>,
    date_from: Option<Date>,
    backfill: bool,
    today: Date,
) -> bool {
    if backfill {
        r == seq![date_from]
    } else {
        &&& r.len() == 1 + fallback_days().len()
        &&& r[0] == date_from
        &&& forall|i: int|
            1 <= i < r.len() ==> (#[trigger] r[i] matches Some(d) && d.valid() && d.day_number()
                == today.day_number() - fallback_days()[i - 1])
    }
}

/// Whether every window to fall back to starts on a day that can be held.
pub open spec fn reaches_back(today: Date) -> bool {
    today.day_number() - fallback_days()[0] >= calendar::first_date().day_number()
}

/// The windows of a sync.
pub fn windows(date_from: Option<Date>, backfill: bool, today: Date) -> (r: Vec<Option<Date>>)
    requires
        today.valid(),
        backfill || reaches_back(today),
    ensures
        are_windows(r@, date_from, backfill, today),
{
    let mut r: Vec<Option<Date>> = Vec::new();
    r.push(date_from);
    if !backfill {
        r.push(days_before(today, 89));
        r.push(days_before(today, 60));
        r.push(days_before(today, 30));
    }
    assert(backfill ==> r@ == seq![date_from]);
    r
}

/// Each window to fall back to starts later than the one before it.
pub proof fn law_windows_narrow(
    r: Seq<Option<Date>>,
    date_from: Option<Date>,
    today: Date,
    i: int,
    j: int,
)
    requires
        today.valid(),
        are_windows(r, date_from, false, today),
        1 <= i < j < r.len(),
    ensures
        r[i]->0.precedes(r[j]->0),
        r[j]->0.precedes(today),
{
    assert(r[i] matches Some(d) && d.valid());
    assert(r[j] matches Some(d) && d.valid());
    calendar::law_day_number_order(r[i]->0, r[j]->0);
    calendar::law_day_number_order(r[j]->0, today);
}

/// A sync never resumes after today, nor after what is stored less the overlap.
pub proof fn law_resume_overlaps(last: Option<Date>, today: Date)
    ensures
        resume_number(last, today) <= today.day_number(),
        last matches Some(d) ==> resume_number(last, today) <= d.day_number() - OVERLAP_DAYS,
{
}

/// The query of a window.
pub fn window_query(window: Option<Date>, strategy: &'static str) -> (r: TransactionQuery)
    ensures
        r.date_from == window,
        r.date_to is None,
        r.strategy == Some(strategy),
{
    TransactionQuery { date_from: window, date_to: None, strategy: Some(strategy) }
}

/// The line that announces a sync.
pub open spec fn start_line(backfill: bool, date_from: Option<Date>) -> Seq<char> {
    let what = if backfill {
        "initial backfill"@
    } else {
        "incremental"@
    };
    let from = match date_from {
        Some(d) => " from "@ + d.iso(),
        None => Seq::empty(),
    };
    "  "@ + what + " sync"@ + from
}

pub fn announce(backfill: bool, date_from: Option<Date>) -> (r: String)
    requires
        date_from matches Some(d) ==> d.valid(),
    ensures
        r@ == start_line(backfill, date_from),
{
    let mut s = owned("  ");
    if backfill {
        s.append("initial backfill");
    } else {
        s.append("incremental");
    }
    s.append(" sync");
    if let Some(d) = &date_from {
        s.append(" from ");
        d.push_iso(&mut s);
    }
    assert(s@ == start_line(backfill, date_from));
    s
}

// ---------------------------------------------------------------------------
// Failures
// ---------------------------------------------------------------------------

/// The kind of a failure, where the API told it.
pub open spec fn kind_of(error: CallError) -> Option<ApiErrorKind> {
    match error {
        CallError::Api(e) => Some(e.kind),
        _ => None,
    }
}

fn error_kind(error: &CallError) -> (r: Option<ApiErrorKind>)
    ensures
        r == kind_of(*error),
{
    match api_error(error) {
        Some(e) => Some(e.kind),
        None => None,
    }
}

/// Whether a failed window is followed by a shorter one.
pub fn retryable(error: &CallError) -> (r: bool)
    ensures
        r == (kind_of(*error) == Some(ApiErrorKind::WrongTransactionsPeriod)),
{
    match error_kind(error) {
        Some(ApiErrorKind::WrongTransactionsPeriod) => true,
        _ => false,
    }
}

/// What is done about a failed sync.
#[derive(Debug, Clone, Copy, PartialEq, Eq, Structural)]
pub enum Remedy {
    /// Leave the account alone for so many hours.
    BackOff(i64),
    /// Mark the session as expired.
    ExpireSession,
    Nothing,
}

/// How a failed sync is recorded and reported.
#[derive(Debug)]
pub struct Failure {
    pub label: &'static str,
    pub note: &'static str,
    pub remedy: Remedy,
}

/// Whether a failure is that of the given kind of error.
pub open spec fn is_failure(f: Failure, kind: Option<ApiErrorKind>) -> bool {
    match kind {
        Some(ApiErrorKind::RateLimited) => f.label@ == "RATE_LIMITED"@ && f.note@
            == "rate limited, backing off 6h"@ && f.remedy == Remedy::BackOff(6),
        Some(ApiErrorKind::ExpiredSession) => f.label@ == "EXPIRED_SESSION"@ && f.note@
            == "session expired, re-authorisation needed"@ && f.remedy == Remedy::ExpireSession,
        Some(ApiErrorKind::AspspError) => f.label@ == "ASPSP_ERROR"@ && f.note@
            == "bank-side error, retry later"@ && f.remedy == Remedy::BackOff(1),
        Some(ApiErrorKind::Unauthorized) => f.label@ == "UNAUTHORIZED"@ && f.note@
            == "authentication rejected — check the app ID, the private key, and your system clock"@
            && f.remedy == Remedy::Nothing,
        _ => f.label@ == "ERROR"@ && f.note@ == "unhandled error"@ && f.remedy == Remedy::Nothing,
    }
}

pub fn failure_of(error: &CallError) -> (r: Failure)
    ensures
        is_failure(r, kind_of(*error)),
{
    match error_kind(error) {
        Some(ApiErrorKind::RateLimited) => Failure {
            label: "RATE_LIMITED",
            note: "rate limited, backing off 6h",
            remedy: Remedy::BackOff(6),
        },
        Some(ApiErrorKind::ExpiredSession) => Failure {
            label: "EXPIRED_SESSION",
            note: "session expired, re-authorisation needed",
            remedy: Remedy::ExpireSession,
        },
        Some(ApiErrorKind::AspspError) => Failure {
            label: "ASPSP_ERROR",
            note: "bank-side error, retry later",
            remedy: Remedy::BackOff(1),
        },
        Some(ApiErrorKind::Unauthorized) => Failure {
            label: "UNAUTHORIZED",
            note: "authentication rejected — check the app ID, the private key, and your system clock",
            remedy: Remedy::Nothing,
        },
        _ => Failure { label: "ERROR", note: "unhandled error", remedy: Remedy::Nothing },
    }
}

/// The window to try after one has failed: the next, if the bank rejected the
/// period and there is one. Where there is none, the failure stands.
pub fn next_window(windows: &Vec<Option<Date>>, tried: usize, error: &CallError) -> (r: Option<
    Option<Date>,
>)
    ensures
        r == (if kind_of(*error) == Some(ApiErrorKind::WrongTransactionsPeriod) && tried
            < windows@.len() {
            Some(windows@[tried as int])
        } else {
            None
        }),
{
    if retryable(error) && tried < windows.len() {
        Some(windows[tried])
    } else {
        None
    }
}

/// What a sync asks for.
#[derive(Debug)]
pub struct SyncPlan {
    pub strategy: &'static str,
    pub date_from: Option<Date>,
    pub windows: Vec<Option<Date>>,
}

/// Whether a plan is right. With the longest strategy the API works out the
/// earliest available point itself, so a backfill names no date.
pub open spec fn is_plan(
    p: SyncPlan,
    backfill: bool,
    stored: Option<Seq<char>>,
    today: Date,
) -> bool {
    &&& p.strategy@ == strategy_of(backfill)
    &&& if backfill {
        p.date_from is None
    } else {
        p.date_from matches Some(d) && d.valid() && d.day_number() == resume_number(
            last_day(stored),
            today,
        )
    }
    &&& are_windows(p.windows@, p.date_from, backfill, today)
}

/// What a sync asks for, given the last booking date that is stored; nothing
/// where the day to resume from, or one to fall back to, lies before the first
/// that can be held.
pub fn plan_sync(backfill: bool, stored: &Option<String>, today: Date) -> (r: Option<SyncPlan>)
    requires
        today.valid(),
    ensures
        match r {
            Some(p) => is_plan(p, backfill, text::opt(*stored), today),
            None => !backfill && (!reaches_back(today) || resume_number(
                last_day(text::opt(*stored)),
                today,
            ) < calendar::first_date().day_number()),
        },
        !backfill && !reaches_back(today) ==> r is None,
{
    let date_from = if backfill {
        None
    } else {
        let furthest = days_before(today, 89);
        proof {
            if let Some(d) = furthest {
                calendar::law_first_date(d);
            }
        }
        if furthest.is_none() {
            return None;
        }
        match incremental_start(stored, today) {
            Some(d) => Some(d),
            None => {
                return None;
            },
        }
    };
    Some(
        SyncPlan {
            strategy: strategy(backfill),
            date_from,
            windows: windows(date_from, backfill, today),
        },
    )
}

// ---------------------------------------------------------------------------
// Laws
// ---------------------------------------------------------------------------

/// A sync resumes a week before the last day that is stored, or, where nothing is
/// stored, 89 days ago; and today where that would be later.
pub proof fn law_resume_is_a_week_back(last: Option<Date>, today: Date)
    ensures
        last matches Some(d) && d.day_number() - 7 <= today.day_number() ==> resume_number(
            last,
            today,
        ) == last->0.day_number() - 7,
        last matches Some(d) && d.day_number() - 7 > today.day_number() ==> resume_number(
            last,
            today,
        ) == today.day_number(),
        last is None ==> resume_number(last, today) == today.day_number() - 89,
{
}

/// Nothing that is stored up to today goes unasked for: each later day is at or
/// after the day at which a sync resumes, with a week to spare.
pub proof fn law_no_day_is_passed_over(last: Date, day: Date, today: Date)
    requires
        last.valid(),
        day.valid(),
        today.valid(),
        day.day_number() > last.day_number(),
        day.day_number() <= today.day_number(),
    ensures
        resume_number(Some(last), today) + 7 < day.day_number(),
{
}

/// Where the first window is refused, the next ones reach back 89, 60 and 30 days.
/// All the history there is, is asked for only once, and without a date.
pub proof fn law_windows_reach_back(
    r: Seq<Option<Date>>,
    date_from: Option<Date>,
    backfill: bool,
    today: Date,
)
    requires
        are_windows(r, date_from, backfill, today),
    ensures
        r.len() > 0 && r[0] == date_from,
        backfill ==> r.len() == 1,
        !backfill ==> {
            &&& r.len() == 4
            &&& r[1] matches Some(d) && today.day_number() - d.day_number() == 89
            &&& r[2] matches Some(d) && today.day_number() - d.day_number() == 60
            &&& r[3] matches Some(d) && today.day_number() - d.day_number() == 30
        },
{
    if !backfill {
        assert(r[1] is Some);
        assert(r[2] is Some);
        assert(r[3] is Some);
    }
}

/// A backfill asks for the longest history and names no date; any other sync asks
/// for the default one, from the day at which it resumes.
pub proof fn law_plans_ask_for_what_is_missing(
    p: SyncPlan,
    backfill: bool,
    stored: Option<Seq<char>>,
    today: Date,
)
    requires
        is_plan(p, backfill, stored, today),
    ensures
        p.strategy@ == "longest"@ <==> backfill,
        p.strategy@ == "default"@ <==> !backfill,
        p.date_from is None <==> backfill,
        p.windows@.len() > 0 && p.windows@[0] == p.date_from,
        p.date_from matches Some(d) ==> d.valid() && d.day_number() <= today.day_number() && (
        last_day(stored) matches Some(last) ==> d.day_number() <= last.day_number() - 7),
{
    reveal_strlit("longest");
    reveal_strlit("default");
    assert("longest"@[0] == 'l' && "default"@[0] == 'd');
}

/// An outcome covers all that was fetched: every booking date lies between the
/// earliest and the latest, which are dates of transactions that were fetched; and
/// its numbers are those of the run.
pub proof fn law_outcome_covers_what_was_fetched(
    r: SyncOutcome,
    run: PageRun,
    items: Seq<store::TransactionView>,
    booked: u64,
    pending: u64,
    i: int,
)
    requires
        is_outcome(r, run, items, booked, pending),
        0 <= i < items.len(),
    ensures
        r.fetched == items.len(),
        r.pages == run.pages,
        r.truncated == run.truncated,
        r.booked == booked,
        r.pending == pending,
        items[i].booking_date matches Some(d) ==> {
            &&& r.earliest matches Some(e) && !text::sorts_before(d, e@)
            &&& r.latest matches Some(l) && !text::sorts_before(l@, d)
        },
        r.earliest matches Some(e) ==> exists|k: int|
            0 <= k < items.len() && (#[trigger] items[k]).booking_date == Some(e@),
        r.latest matches Some(l) ==> exists|k: int|
            0 <= k < items.len() && (#[trigger] items[k]).booking_date == Some(l@),
{
    let dates = dates_of(items);
    if let Some(d) = items[i].booking_date {
        lemma_date_is_listed(items, i);
        let k = choose|k: int| 0 <= k < dates.len() && dates[k] == d;
        assert(dates[k] == d);
    }
    if let Some(e) = r.earliest {
        lemma_listed_is_a_date(items, e@);
    }
    if let Some(l) = r.latest {
        lemma_listed_is_a_date(items, l@);
    }
}

proof fn lemma_date_is_listed(items: Seq<store::TransactionView>, i: int)
    requires
        0 <= i < items.len(),
        items[i].booking_date is Some,
    ensures
        dates_of(items).contains(items[i].booking_date->0),
    decreases items.len(),
{
    let front = items.drop_last();
    let (before, after) = (dates_of(front), dates_of(items));
    let d = items[i].booking_date->0;
    if i < front.len() {
        lemma_date_is_listed(front, i);
        let k = choose|k: int| 0 <= k < before.len() && before[k] == d;
        assert(after[k] == d);
    } else {
        assert(after[after.len() - 1] == d);
    }
}

proof fn lemma_listed_is_a_date(items: Seq<store::TransactionView>, d: Seq<char>)
    requires
        dates_of(items).contains(d),
    ensures
        exists|k: int| 0 <= k < items.len() && (#[trigger] items[k]).booking_date == Some(d),
    decreases items.len(),
{
    if items.len() > 0 {
        let front = items.drop_last();
        let (before, after) = (dates_of(front), dates_of(items));
        let j = choose|j: int| 0 <= j < after.len() && after[j] == d;
        if j < before.len() {
            assert(before[j] == d);
            lemma_listed_is_a_date(front, d);
            let k = choose|k: int| 0 <= k < front.len() && (#[trigger] front[k]).booking_date
                == Some(d);
            assert(items[k].booking_date == Some(d));
        } else {
            assert(items[items.len() - 1].booking_date == Some(d));
        }
    }
}

/// An account is left alone after a rate limit and after an error of the bank's, and
/// after a rate limit for longer; only an expired session is marked as expired, and
/// nothing is done about any other failure. No two of these are recorded alike.
pub proof fn law_remedies_fit_the_failure(
    f: Failure,
    g: Failure,
    kind: Option<ApiErrorKind>,
    other: Option<ApiErrorKind>,
)
    requires
        is_failure(f, kind),
        is_failure(g, other),
    ensures
        f.remedy == Remedy::ExpireSession <==> kind == Some(ApiErrorKind::ExpiredSession),
        f.remedy is BackOff <==> kind == Some(ApiErrorKind::RateLimited) || kind == Some(
            ApiErrorKind::AspspError,
        ),
        f.remedy matches Remedy::BackOff(hours) ==> hours > 0,
        kind == Some(ApiErrorKind::RateLimited) && other == Some(ApiErrorKind::AspspError) ==> (
        f.remedy matches Remedy::BackOff(long) && g.remedy matches Remedy::BackOff(short) && short
            < long),
        f.label@ == g.label@ ==> f.remedy == g.remedy,
{
    reveal_strlit("RATE_LIMITED");
    reveal_strlit("EXPIRED_SESSION");
    reveal_strlit("ASPSP_ERROR");
    reveal_strlit("UNAUTHORIZED");
    reveal_strlit("ERROR");
    assert("RATE_LIMITED"@[0] == 'R' && "UNAUTHORIZED"@[0] == 'U');
    assert("RATE_LIMITED"@.len() == 12 && "UNAUTHORIZED"@.len() == 12);
    assert("EXPIRED_SESSION"@.len() == 15 && "ASPSP_ERROR"@.len() == 11 && "ERROR"@.len() == 5);
}

/// The summary of an outcome, of its parts.
pub open spec fn summary_parts(
    pages: Seq<char>,
    fetched: Seq<char>,
    booked: Seq<char>,
    pending: Seq<char>,
    tail: Seq<char>,
) -> Seq<char> {
    pages + " page(s), "@ + fetched + " transactions ("@ + booked + " booked, "@ + pending
        + " pending)"@ + tail
}

/// The summary says how many pages, transactions, booked and pending ones there were,
/// the range of their dates where there is one, and that history is missing exactly
/// where the run was cut short.
pub proof fn law_summary_says_the_figures(r: SyncOutcome)
    ensures
        exists|p: Seq<char>, f: Seq<char>, b: Seq<char>, q: Seq<char>, tail: Seq<char>|
            r.line() == #[trigger] summary_parts(p, f, b, q, tail) && decimal::number(p) == r.pages
                && decimal::number(f) == r.fetched && decimal::number(b) == r.booked
                && decimal::number(q) == r.pending && (r.earliest is Some && r.latest is Some ==> (
            "  "@ + r.earliest->0@ + " to "@ + r.latest->0@).is_prefix_of(tail)) && (!r.truncated
                && (r.earliest is None || r.latest is None) ==> tail.len() == 0) && (r.truncated
                ==> tail.len() >= "  [TRUNCATED — page cap hit, history incomplete]"@.len()
                && tail.skip(
                tail.len() - "  [TRUNCATED — page cap hit, history incomplete]"@.len(),
            ) == "  [TRUNCATED — page cap hit, history incomplete]"@),
{
    decimal::lemma_decimal(r.pages as int);
    decimal::lemma_decimal(r.fetched as int);
    decimal::lemma_decimal(r.booked as int);
    decimal::lemma_decimal(r.pending as int);
    let range = match (r.earliest, r.latest) {
        (Some(from), Some(to)) => "  "@ + from@ + " to "@ + to@,
        _ => Seq::empty(),
    };
    let cut = "  [TRUNCATED — page cap hit, history incomplete]"@;
    let note = if r.truncated {
        cut
    } else {
        Seq::empty()
    };
    let tail = range + note;
    assert(r.line() == summary_parts(
        decimal::decimal(r.pages as int),
        decimal::decimal(r.fetched as int),
        decimal::decimal(r.booked as int),
        decimal::decimal(r.pending as int),
        tail,
    ));
    assert(range.is_prefix_of(tail));
    assert(tail.skip(tail.len() - note.len()) == note);
}

/// The line that announces a sync says which kind it is, and from which day, where it
/// is from one.
pub proof fn law_announcement_says_the_kind(backfill: bool, date_from: Option<Date>)
    ensures
        "  initial backfill sync"@.is_prefix_of(start_line(backfill, date_from)) <==> backfill,
        "  incremental sync"@.is_prefix_of(start_line(backfill, date_from)) <==> !backfill,
        date_from matches Some(d) ==> start_line(backfill, date_from).skip(
            start_line(backfill, date_from).len() - d.iso().len(),
        ) == d.iso(),
{
    reveal_strlit("  initial backfill sync");
    reveal_strlit("  incremental sync");
    reveal_strlit("  ");
    reveal_strlit("initial backfill");
    reveal_strlit("incremental");
    reveal_strlit(" sync");
    let s = start_line(backfill, date_from);
    assert(s[4] == (if backfill {
        'i'
    } else {
        'c'
    }));
    assert("  initial backfill sync"@[4] == 'i' && "  incremental sync"@[4] == 'c');
    assert(backfill ==> s.take("  initial backfill sync"@.len() as int)
        == "  initial backfill sync"@);
    assert(!backfill ==> s.take("  incremental sync"@.len() as int) == "  incremental sync"@);
    if let Some(d) = date_from {
        assert(s.skip(s.len() - d.iso().len()) == d.iso());
    }
}

} // verus!
