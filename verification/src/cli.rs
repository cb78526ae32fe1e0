//! The command line: what is asked for, and what is printed.
use crate::calendar::Date;
use crate::decimal;
use crate::decimal::{decimal_text, hundredths_text, push_decimal, read_signed, signed_text};
use crate::importer::ImportReport;
use crate::money;
use crate::spending;
use crate::text;
use crate::text::{
    can_cut, chars_of, count_bytes, find_last, first_bytes, join, matches_ignoring_case, owned,
    pad_left, pad_right, same, starts_with, trimmed_copy,
};
use vstd::prelude::*;
use vstd::slice::slice_subrange;

verus! {

// ---------------------------------------------------------------------------
// Arguments
// ---------------------------------------------------------------------------

/// Whether an argument is a flag.
pub open spec fn is_flag(arg: Seq<char>) -> bool {
    "--"@.is_prefix_of(arg)
}

fn flag(arg: &str) -> (r: bool)
    ensures
        r == is_flag(arg@),
{
    let c = chars_of(arg);
    starts_with(c.as_slice(), "--")
}

/// The place of the first argument that is the given one.
pub open spec fn place_of_arg(args: Seq<Seq<char>>, arg: Seq<char>) -> Option<int>
    decreases args.len(),
{
    if args.len() == 0 {
        None
    } else if args[0] == arg {
        Some(0)
    } else {
        match place_of_arg(args.drop_first(), arg) {
            Some(k) => Some(k + 1),
            None => None,
        }
    }
}

fn find_arg(args: &[String], arg: &str) -> (r: Option<usize>)
    ensures
        match r {
            Some(k) => k < args@.len() && place_of_arg(text::views(args@), arg@) == Some(k as int),
            None => place_of_arg(text::views(args@), arg@) is None,
        },
{
    let ghost all = text::views(args@);
    let mut i: usize = 0;
    assert(all.skip(0) == all);
    while i < args.len()
        invariant
            i <= args@.len(),
            all == text::views(args@),
            match place_of_arg(all.skip(i as int), arg@) {
                Some(k) => place_of_arg(all, arg@) == Some(k + i),
                None => place_of_arg(all, arg@) is None,
            },
        decreases args@.len() - i,
    {
        assert(all.skip(i as int)[0] == args@[i as int]@);
        assert(all.skip(i as int).drop_first() == all.skip(i + 1));
        if same(args[i].as_str(), arg) {
            return Some(i);
        }
        i = i + 1;
    }
    None
}

/// Whether a flag is given.
pub fn has_flag(args: &[String], name: &str) -> (r: bool)
    ensures
        r == (place_of_arg(text::views(args@), name@) is Some),
{
    find_arg(args, name).is_some()
}

/// The value that follows a flag, unless it is a flag itself.
pub open spec fn value_after(args: Seq<Seq<char>>, name: Seq<char>) -> Option<Seq<char>> {
    match place_of_arg(args, name) {
        Some(k) => if k + 1 < args.len() && !is_flag(args[k + 1]) {
            Some(args[k + 1])
        } else {
            None
        },
        None => None,
    }
}

/// Reads `--flag value` out of the raw argument list.
pub fn flag_value(args: &[String], name: &str) -> (r: Option<String>)
    ensures
        text::opt(r) == value_after(text::views(args@), name@),
{
    let count: usize = args.len();
    match find_arg(args, name) {
        Some(k) => if k + 1 < count && !flag(args[k + 1].as_str()) {
            Some(owned(args[k + 1].as_str()))
        } else {
            None
        },
        None => None,
    }
}

/// The arguments that are no flags.
pub open spec fn positional(args: Seq<Seq<char>>) -> Seq<Seq<char>>
    decreases args.len(),
{
    if args.len() == 0 {
        seq![]
    } else if is_flag(args.last()) {
        positional(args.drop_last())
    } else {
        positional(args.drop_last()).push(args.last())
    }
}

pub fn positionals(args: &[String]) -> (r: Vec<String>)
    ensures
        text::views(r@) == positional(text::views(args@)),
{
    let ghost all = text::views(args@);
    let mut r: Vec<String> = Vec::new();
    let mut i: usize = 0;
    assert(all.take(0) == Seq::<Seq<char>>::empty());
    assert(text::views(r@) == Seq::<Seq<char>>::empty());
    while i < args.len()
        invariant
            i <= args@.len(),
            all == text::views(args@),
            text::views(r@) == positional(all.take(i as int)),
        decreases args@.len() - i,
    {
        assert(all.take(i + 1).drop_last() == all.take(i as int));
        assert(all.take(i + 1).last() == args@[i as int]@);
        let ghost before = r@;
        if !flag(args[i].as_str()) {
            r.push(owned(args[i].as_str()));
            assert(text::views(r@) == text::views(before).push(args@[i as int]@));
        }
        i = i + 1;
    }
    assert(all.take(i as int) == all);
    r
}

/// The window of a report where none is given, in months.
pub const DEFAULT_MONTHS: i64 = 12;

/// The window of a report: the value of `--months`, if it is a number.
pub open spec fn months_of(args: Seq<Seq<char>>) -> int {
    match value_after(args, "--months"@) {
        Some(v) => match decimal::signed_in(v) {
            Some(n) => n,
            None => DEFAULT_MONTHS as int,
        },
        None => DEFAULT_MONTHS as int,
    }
}

pub fn months(args: &[String]) -> (r: i64)
    ensures
        r == months_of(text::views(args@)),
{
    match flag_value(args, "--months") {
        Some(v) => {
            let c = chars_of(v.as_str());
            match read_signed(c.as_slice()) {
                Some(n) => n,
                None => DEFAULT_MONTHS,
            }
        },
        None => DEFAULT_MONTHS,
    }
}

/// What is asked for.
#[derive(Debug)]
pub enum Command {
    Import(String),
    Inspect(String),
    Categorise,
    Tag(i64, String),
    Report,
    Accounts,
    Batches,
    Usage,
}

pub enum CommandView {
    Import(Seq<char>),
    Inspect(Seq<char>),
    Categorise,
    Tag(i64, Seq<char>),
    Report,
    Accounts,
    Batches,
    Usage,
}

impl View for Command {
    type V = CommandView;

    open spec fn view(&self) -> CommandView {
        match self {
            Command::Import(t) => CommandView::Import(t@),
            Command::Inspect(t) => CommandView::Inspect(t@),
            Command::Categorise => CommandView::Categorise,
            Command::Tag(id, c) => CommandView::Tag(*id, c@),
            Command::Report => CommandView::Report,
            Command::Accounts => CommandView::Accounts,
            Command::Batches => CommandView::Batches,
            Command::Usage => CommandView::Usage,
        }
    }
}

/// What the arguments ask for, or what is wrong with them.
pub open spec fn command_in(args: Seq<Seq<char>>) -> Result<CommandView, Seq<char>> {
    if args.len() == 0 {
        Ok(CommandView::Usage)
    } else if args[0] == "import"@ {
        if args.len() > 1 {
            Ok(CommandView::Import(args[1]))
        } else {
            Err("usage: import <file.csv | directory> [--dry-run]"@)
        }
    } else if args[0] == "inspect"@ {
        if args.len() > 1 {
            Ok(CommandView::Inspect(args[1]))
        } else {
            Err("usage: inspect <file.csv>"@)
        }
    } else if args[0] == "categorise"@ || args[0] == "categorize"@ {
        Ok(CommandView::Categorise)
    } else if args[0] == "tag"@ {
        if args.len() < 2 {
            Err("usage: tag <transaction-id> <category>"@)
        } else {
            match decimal::signed_in(args[1]) {
                None => Err("transaction id must be a number"@),
                Some(id) => if args.len() > 2 {
                    Ok(CommandView::Tag(id as i64, args[2]))
                } else {
                    Err("usage: tag <transaction-id> <category>"@)
                },
            }
        }
    } else if args[0] == "report"@ {
        Ok(CommandView::Report)
    } else if args[0] == "accounts"@ {
        Ok(CommandView::Accounts)
    } else if args[0] == "batches"@ {
        Ok(CommandView::Batches)
    } else {
        Ok(CommandView::Usage)
    }
}

/// What the arguments that are no flags ask for.
pub fn command(args: &[String]) -> (r: Result<Command, &'static str>)
    ensures
        match r {
            Ok(c) => command_in(text::views(args@)) == Ok::<CommandView, Seq<char>>(c@),
            Err(m) => command_in(text::views(args@)) == Err::<CommandView, Seq<char>>(m@),
        },
{
    let ghost all = text::views(args@);
    if args.len() == 0 {
        return Ok(Command::Usage);
    }
    let first = args[0].as_str();
    assert(all[0] == first@);
    if same(first, "import") {
        if args.len() > 1 {
            Ok(Command::Import(owned(args[1].as_str())))
        } else {
            Err("usage: import <file.csv | directory> [--dry-run]")
        }
    } else if same(first, "inspect") {
        if args.len() > 1 {
            Ok(Command::Inspect(owned(args[1].as_str())))
        } else {
            Err("usage: inspect <file.csv>")
        }
    } else if same(first, "categorise") || same(first, "categorize") {
        Ok(Command::Categorise)
    } else if same(first, "tag") {
        if args.len() < 2 {
            return Err("usage: tag <transaction-id> <category>");
        }
        let c = chars_of(args[1].as_str());
        match read_signed(c.as_slice()) {
            None => Err("transaction id must be a number"),
            Some(id) => if args.len() > 2 {
                Ok(Command::Tag(id, owned(args[2].as_str())))
            } else {
                Err("usage: tag <transaction-id> <category>")
            },
        }
    } else if same(first, "report") {
        Ok(Command::Report)
    } else if same(first, "accounts") {
        Ok(Command::Accounts)
    } else if same(first, "batches") {
        Ok(Command::Batches)
    } else {
        Ok(Command::Usage)
    }
}

// ---------------------------------------------------------------------------
// Import
// ---------------------------------------------------------------------------

/// The ending of a file name: what follows its last point, unless that is its
/// first character.
pub open spec fn extension_of(name: Seq<char>) -> Option<Seq<char>> {
    let k = text::last_at(name, '.');
    if k > 0 {
        Some(name.skip(k + 1))
    } else {
        None
    }
}

/// Whether a file is one to import, by its name.
pub fn is_csv(name: &str) -> (r: bool)
    ensures
        r == (extension_of(name@) matches Some(e) && text::alike(e, "csv"@)),
{
    let c = chars_of(name);
    let count: usize = c.len();
    match find_last(c.as_slice(), '.') {
        Some(k) => if k > 0 {
            let e = slice_subrange(c.as_slice(), k + 1, count);
            assert(e@ == name@.skip(k + 1));
            matches_ignoring_case(e, "csv")
        } else {
            false
        },
        None => false,
    }
}

/// How many skipped rows or breaks are shown.
pub const SHOWN: usize = 5;

/// The first few of some lines, each behind a margin.
pub open spec fn shown(lines: Seq<Seq<char>>) -> Seq<Seq<char>> {
    Seq::new(
        if lines.len() < SHOWN {
            lines.len()
        } else {
            SHOWN as nat
        },
        |i: int| "         "@ + lines[i],
    )
}

fn push_shown(out: &mut Vec<String>, lines: &Vec<String>)
    ensures
        text::views(final(out)@) == text::views(old(out)@) + shown(text::views(lines@)),
{
    let ghost before = text::views(out@);
    let ghost all = text::views(lines@);
    let mut i: usize = 0;
    assert(before + shown(all).take(0) == before);
    while i < lines.len() && i < SHOWN
        invariant
            i <= lines@.len(),
            i <= SHOWN,
            all == text::views(lines@),
            text::views(out@) == before + shown(all).take(i as int),
        decreases SHOWN - i,
    {
        let ghost was = text::views(out@);
        let mut s = owned("         ");
        s.append(lines[i].as_str());
        assert(s@ == shown(all)[i as int]);
        out.push(s);
        assert(text::views(out@) == was.push(shown(all)[i as int]));
        assert(shown(all).take(i + 1) == shown(all).take(i as int).push(shown(all)[i as int]));
        i = i + 1;
    }
    assert(shown(all).take(i as int) == shown(all));
}

/// The period of a report.
pub open spec fn period_text(period: Option<(Date, Date)>) -> Seq<char> {
    match period {
        Some((from, to)) => from.iso() + " to "@ + to.iso(),
        None => "unknown period"@,
    }
}

fn push_period(out: &mut String, period: &Option<(Date, Date)>)
    requires
        *period matches Some((from, to)) ==> from.valid() && to.valid(),
    ensures
        final(out)@ == old(out)@ + period_text(*period),
{
    match period {
        Some((from, to)) => {
            from.push_iso(out);
            out.append(" to ");
            to.push_iso(out);
            assert(out@ == old(out)@ + period_text(*period));
        },
        None => {
            out.append("unknown period");
        },
    }
}

/// The first line on an account: its bank, its name, how many rows it has, its
/// period, and what was written.
pub open spec fn account_line(report: ImportReport, dry_run: bool) -> Seq<char> {
    let written = if dry_run {
        Seq::empty()
    } else {
        "  ("@ + decimal::decimal(report.inserted as int) + " written, "@ + decimal::decimal(
            report.replaced as int,
        ) + " replaced)"@
    };
    "  ["@ + report.label@ + "] "@ + text::padded_right(report.account@, 16) + seq![' ']
        + text::padded_left(decimal::decimal(report.parsed as int), 4) + " rows  "@ + period_text(
        report.period,
    ) + written
}

fn account_text(report: &ImportReport, dry_run: bool) -> (r: String)
    requires
        report.period matches Some((from, to)) ==> from.valid() && to.valid(),
    ensures
        r@ == account_line(*report, dry_run),
{
    let mut s = owned("  [");
    s.append(report.label.as_str());
    s.append("] ");
    let name = pad_right(report.account.as_str(), 16);
    s.append(name.as_str());
    s.push(' ');
    let parsed = decimal_text(report.parsed as u64);
    let count = pad_left(parsed.as_str(), 4);
    s.append(count.as_str());
    s.append(" rows  ");
    push_period(&mut s, &report.period);
    if !dry_run {
        s.append("  (");
        push_decimal(&mut s, report.inserted);
        s.append(" written, ");
        push_decimal(&mut s, report.replaced);
        s.append(" replaced)");
    }
    assert(s@ == account_line(*report, dry_run));
    s
}

/// The lines on the balances of an account. Credit card exports have no running
/// balance, so a dropped row cannot be detected; that is said rather than
/// implying that the import was verified. Of an account of which no row was read
/// there is nothing to say.
pub open spec fn chain_lines(report: ImportReport) -> Seq<Seq<char>> {
    if !report.chain_available {
        if report.parsed == 0 {
            seq![]
        } else {
            seq!["       no balance column — completeness unverified"@]
        }
    } else if report.chain_breaks@.len() == 0 {
        seq![
            "       balance chain verified"@ + (match report.closing_balance {
                Some(b) => ", closing "@ + decimal::hundredths(b as int),
                None => Seq::empty(),
            }),
        ]
    } else {
        seq![
            "       BALANCE CHAIN BROKEN at "@ + decimal::decimal(report.chain_breaks@.len() as int)
                + " point(s):"@,
        ] + shown(text::views(report.chain_breaks@))
    }
}

/// The lines on the rows of an account that were not parsed.
pub open spec fn skipped_lines(report: ImportReport) -> Seq<Seq<char>> {
    if report.skipped@.len() == 0 {
        seq![]
    } else {
        seq![
            "       "@ + decimal::decimal(report.skipped@.len() as int) + " ROW(S) NOT PARSED:"@,
        ] + shown(text::views(report.skipped@))
    }
}

/// All the lines on an account.
pub open spec fn report_lines(report: ImportReport, dry_run: bool) -> Seq<Seq<char>> {
    seq![account_line(report, dry_run)] + skipped_lines(report) + chain_lines(report)
}

fn push_line(out: &mut Vec<String>, line: String)
    ensures
        text::views(final(out)@) == text::views(old(out)@) + seq![line@],
{
    out.push(line);
    assert(text::views(out@) == text::views(old(out)@) + seq![line@]);
}

/// What is printed of the import of an account.
pub fn report_text(report: &ImportReport, dry_run: bool) -> (r: Vec<String>)
    requires
        report.period matches Some((from, to)) ==> from.valid() && to.valid(),
    ensures
        text::views(r@) == report_lines(*report, dry_run),
{
    let mut out: Vec<String> = Vec::new();
    assert(text::views(out@) == Seq::<Seq<char>>::empty());
    push_line(&mut out, account_text(report, dry_run));
    let ghost first = text::views(out@);
    assert(first == seq![account_line(*report, dry_run)]);
    if report.skipped.len() > 0 {
        let mut s = owned("       ");
        push_decimal(&mut s, report.skipped.len() as u64);
        s.append(" ROW(S) NOT PARSED:");
        push_line(&mut out, s);
        push_shown(&mut out, &report.skipped);
    }
    assert(text::views(out@) == first + skipped_lines(*report));
    let ghost second = text::views(out@);
    if !report.chain_available {
        if report.parsed > 0 {
            push_line(&mut out, owned("       no balance column — completeness unverified"));
        }
    } else if report.chain_breaks.len() == 0 {
        let mut s = owned("       balance chain verified");
        if let Some(b) = report.closing_balance {
            s.append(", closing ");
            let t = hundredths_text(b);
            s.append(t.as_str());
        }
        assert(s@ == chain_lines(*report)[0]);
        push_line(&mut out, s);
    } else {
        let mut s = owned("       BALANCE CHAIN BROKEN at ");
        push_decimal(&mut s, report.chain_breaks.len() as u64);
        s.append(" point(s):");
        push_line(&mut out, s);
        push_shown(&mut out, &report.chain_breaks);
    }
    assert(text::views(out@) == second + chain_lines(*report));
    assert(text::views(out@) == report_lines(*report, dry_run));
    out
}

// ---------------------------------------------------------------------------
// Inspect
// ---------------------------------------------------------------------------

/// How many rows of a file are shown, and how many bytes of a cell.
pub const SHOWN_ROWS: usize = 12;

pub const SHOWN_BYTES: usize = 24;

/// Whether a cell can be shown: it is short, or can be cut.
pub open spec fn can_show(cell: Seq<char>) -> bool {
    text::byte_len(text::trimmed(cell)) <= SHOWN_BYTES || text::cuts_at(
        text::trimmed(cell),
        SHOWN_BYTES as int,
    )
}

/// A cell as it is shown: without the space around it, and cut where it is long.
pub open spec fn cell_text(cell: Seq<char>) -> Seq<char> {
    let t = text::trimmed(cell);
    if text::byte_len(t) > SHOWN_BYTES {
        text::byte_prefix(t, SHOWN_BYTES as int) + "…"@
    } else {
        t
    }
}

/// Whether a cell can be shown.
pub fn showable(cell: &str) -> (r: bool)
    ensures
        r == can_show(cell@),
{
    let t = trimmed_copy(cell);
    count_bytes(t.as_str()) <= SHOWN_BYTES || can_cut(t.as_str(), SHOWN_BYTES)
}

fn show_cell(cell: &str) -> (r: String)
    requires
        can_show(cell@),
    ensures
        r@ == cell_text(cell@),
{
    let t = trimmed_copy(cell);
    if count_bytes(t.as_str()) > SHOWN_BYTES {
        let mut s = owned(first_bytes(t.as_str(), SHOWN_BYTES));
        s.append("…");
        s
    } else {
        t
    }
}

/// The cells of a row as they are shown.
pub open spec fn cell_texts(row: Seq<Seq<char>>) -> Seq<Seq<char>> {
    Seq::new(row.len(), |i: int| cell_text(row[i]))
}

/// The line on a row of a file.
pub open spec fn row_line(index: int, row: Seq<Seq<char>>) -> Seq<char> {
    "  "@ + text::padded_left(decimal::decimal(index), 3) + ": "@ + text::joined(
        cell_texts(row),
        " | "@,
    )
}

/// What is shown of a row of a file, without printing amounts and merchant names
/// in full.
pub fn inspect_row(index: usize, row: &[String]) -> (r: String)
    requires
        forall|i: int| 0 <= i < row@.len() ==> can_show((#[trigger] row@[i])@),
    ensures
        r@ == row_line(index as int, text::views(row@)),
{
    let mut cells: Vec<String> = Vec::new();
    let mut i: usize = 0;
    while i < row.len()
        invariant
            i <= row@.len(),
            cells@.len() == i,
            forall|j: int| 0 <= j < row@.len() ==> can_show((#[trigger] row@[j])@),
            forall|j: int| 0 <= j < i ==> (#[trigger] cells@[j])@ == cell_text(row@[j]@),
        decreases row@.len() - i,
    {
        cells.push(show_cell(row[i].as_str()));
        i = i + 1;
    }
    assert(text::views(cells@) == cell_texts(text::views(row@)));
    let mut s = owned("  ");
    let n = decimal_text(index as u64);
    let padded = pad_left(n.as_str(), 3);
    s.append(padded.as_str());
    s.append(": ");
    let line = join(cells.as_slice(), " | ");
    s.append(line.as_str());
    s
}

/// The line on a reader: whether it claims a file.
pub open spec fn claim_line(label: Seq<char>, claims: bool) -> Seq<char> {
    "  "@ + text::padded_right(label, 10) + seq![' '] + (if claims {
        "MATCHES"@
    } else {
        "no"@
    })
}

pub fn parser_line(label: &str, claims: bool) -> (r: String)
    ensures
        r@ == claim_line(label@, claims),
{
    let mut s = owned("  ");
    let padded = pad_right(label, 10);
    s.append(padded.as_str());
    s.push(' ');
    if claims {
        s.append("MATCHES");
    } else {
        s.append("no");
    }
    assert(s@ == "  "@ + text::padded_right(label@, 10) + seq![' '] + (if claims {
        "MATCHES"@
    } else {
        "no"@
    }));
    s
}

// ---------------------------------------------------------------------------
// Accounts and batches
// ---------------------------------------------------------------------------

/// A text, or another where there is none.
pub open spec fn text_or(o: Option<Seq<char>>, default: Seq<char>) -> Seq<char> {
    match o {
        Some(s) => s,
        None => default,
    }
}

fn push_or(out: &mut String, o: &Option<String>, default: &str)
    ensures
        final(out)@ == old(out)@ + text_or(text::opt(*o), default@),
{
    match o {
        Some(s) => out.append(s.as_str()),
        None => out.append(default),
    }
}

/// The line on a stored account.
pub open spec fn stored_line(
    bank: Seq<char>,
    label: Seq<char>,
    account_type: Seq<char>,
    n: int,
    first: Option<Seq<char>>,
    last: Option<Seq<char>>,
) -> Seq<char> {
    "  "@ + text::padded_right(bank, 10) + seq![' '] + text::padded_right(label, 18) + seq![' ']
        + text::padded_right(account_type, 12) + seq![' '] + text::padded_left(
        decimal::signed(n),
        5,
    ) + " txns  "@ + text_or(first, "-"@) + " to "@ + text_or(last, "-"@)
}

pub fn account_listing(
    bank: &str,
    label: &str,
    account_type: &str,
    n: i64,
    first: &Option<String>,
    last: &Option<String>,
) -> (r: String)
    ensures
        r@ == stored_line(
            bank@,
            label@,
            account_type@,
            n as int,
            text::opt(*first),
            text::opt(*last),
        ),
{
    let mut s = owned("  ");
    let b = pad_right(bank, 10);
    s.append(b.as_str());
    s.push(' ');
    let l = pad_right(label, 18);
    s.append(l.as_str());
    s.push(' ');
    let t = pad_right(account_type, 12);
    s.append(t.as_str());
    s.push(' ');
    let count = signed_text(n);
    let c = pad_left(count.as_str(), 5);
    s.append(c.as_str());
    s.append(" txns  ");
    push_or(&mut s, first, "-");
    s.append(" to ");
    push_or(&mut s, last, "-");
    assert(s@ == stored_line(
        bank@,
        label@,
        account_type@,
        n as int,
        text::opt(*first),
        text::opt(*last),
    ));
    s
}

/// How far an import was checked. Breaks speak louder than the flag.
pub open spec fn check_text(breaks: int, verified: int) -> Seq<char> {
    if breaks > 0 {
        decimal::signed(breaks) + " CHAIN BREAKS"@
    } else if verified == 1 {
        "verified"@
    } else {
        "unverified"@
    }
}

pub fn verdict(breaks: i64, verified: i64) -> (r: String)
    ensures
        r@ == check_text(breaks as int, verified as int),
{
    if breaks > 0 {
        let mut s = signed_text(breaks);
        s.append(" CHAIN BREAKS");
        s
    } else if verified == 1 {
        owned("verified")
    } else {
        owned("unverified")
    }
}

/// How many bytes of an instant are shown: up to its minutes.
pub const MINUTE_BYTES: usize = 16;

/// The line on an import.
pub open spec fn batch_line(
    imported_at: Seq<char>,
    label: Seq<char>,
    start: Option<Seq<char>>,
    end: Option<Seq<char>>,
    n: int,
    breaks: int,
    verified: int,
) -> Seq<char> {
    "  "@ + text::byte_prefix(imported_at, MINUTE_BYTES as int) + "  "@ + text::padded_right(
        label,
        16,
    ) + seq![' '] + text_or(start, Seq::empty()) + " to "@ + text_or(end, Seq::empty()) + "  "@
        + text::padded_left(decimal::signed(n), 4) + " rows  "@ + check_text(breaks, verified)
}

pub fn batch_listing(
    imported_at: &str,
    label: &str,
    start: &Option<String>,
    end: &Option<String>,
    n: i64,
    breaks: i64,
    verified: i64,
) -> (r: String)
    requires
        text::cuts_at(imported_at@, MINUTE_BYTES as int),
    ensures
        r@ == batch_line(
            imported_at@,
            label@,
            text::opt(*start),
            text::opt(*end),
            n as int,
            breaks as int,
            verified as int,
        ),
{
    let mut s = owned("  ");
    s.append(first_bytes(imported_at, MINUTE_BYTES));
    s.append("  ");
    let l = pad_right(label, 16);
    s.append(l.as_str());
    s.push(' ');
    proof {
        reveal_strlit("");
        assert(""@ == Seq::<char>::empty());
    }
    push_or(&mut s, start, "");
    s.append(" to ");
    push_or(&mut s, end, "");
    s.append("  ");
    let count = signed_text(n);
    let c = pad_left(count.as_str(), 4);
    s.append(c.as_str());
    s.append(" rows  ");
    let v = verdict(breaks, verified);
    s.append(v.as_str());
    assert(s@ == batch_line(
        imported_at@,
        label@,
        text::opt(*start),
        text::opt(*end),
        n as int,
        breaks as int,
        verified as int,
    ));
    s
}

// ---------------------------------------------------------------------------
// Laws
// ---------------------------------------------------------------------------

proof fn lemma_place_of_arg(args: Seq<Seq<char>>, arg: Seq<char>)
    ensures
        match place_of_arg(args, arg) {
            Some(k) => 0 <= k < args.len() && args[k] == arg && forall|i: int|
                0 <= i < k ==> (#[trigger] args[i]) != arg,
            None => forall|i: int| 0 <= i < args.len() ==> (#[trigger] args[i]) != arg,
        },
    decreases args.len(),
{
    if args.len() > 0 && args[0] != arg {
        let rest = args.drop_first();
        lemma_place_of_arg(rest, arg);
        assert forall|i: int| 0 < i < args.len() implies #[trigger] args[i] == rest[i - 1] by {
        }
    }
}

/// A flag is given exactly where it is among the arguments, and its value is the
/// argument behind its first place, unless that begins with two hyphens.
pub proof fn law_flags_are_followed_by_their_value(
    front: Seq<Seq<char>>,
    name: Seq<char>,
    value: Seq<char>,
    back: Seq<Seq<char>>,
)
    requires
        !front.contains(name),
    ensures
        !"--"@.is_prefix_of(value) ==> value_after(front.push(name).push(value) + back, name)
            == Some(value),
        "--"@.is_prefix_of(value) ==> value_after(front.push(name).push(value) + back, name) is None,
        value_after(front.push(name), name) is None,
        value_after(front, name) is None,
        place_of_arg(front.push(name).push(value) + back, name) is Some,
        place_of_arg(front, name) is None,
{
    let args = front.push(name).push(value) + back;
    let n = front.len() as int;
    lemma_place_of_arg(args, name);
    lemma_place_of_arg(front.push(name), name);
    lemma_place_of_arg(front, name);
    assert(args[n] == name && args[n + 1] == value);
    assert(front.push(name)[n] == name);
    assert forall|i: int| 0 <= i < n implies (#[trigger] args[i]) != name by {
        assert(front.contains(front[i]));
    }
    assert forall|i: int| 0 <= i < n implies (#[trigger] front.push(name)[i]) != name by {
        assert(front.contains(front[i]));
    }
    if place_of_arg(front, name) is Some {
        assert(front.contains(front[place_of_arg(front, name)->0]));
    }
}

/// The arguments that are no flags stand in their order; what begins with two hyphens
/// is left out, and nothing else.
pub proof fn law_flags_are_left_out(
    front: Seq<Seq<char>>,
    back: Seq<Seq<char>>,
    arg: Seq<char>,
)
    ensures
        positional(front + back) == positional(front) + positional(back),
        "--"@.is_prefix_of(arg) ==> positional(seq![arg]) == Seq::<Seq<char>>::empty(),
        !"--"@.is_prefix_of(arg) ==> positional(seq![arg]) == seq![arg],
    decreases back.len(),
{
    let one = seq![arg];
    assert(one.drop_last() == Seq::<Seq<char>>::empty());
    assert(positional(one.drop_last()) == Seq::<Seq<char>>::empty());
    if back.len() == 0 {
        assert(front + back == front);
    } else {
        let all = front + back;
        law_flags_are_left_out(front, back.drop_last(), arg);
        assert(all.drop_last() == front + back.drop_last());
        assert(all.last() == back.last());
    }
}

/// A report goes over as many months as are asked for, and over twelve where none are,
/// or where what is asked for is no number.
pub proof fn law_months_are_those_asked_for(
    front: Seq<Seq<char>>,
    n: i64,
    value: Seq<char>,
    back: Seq<Seq<char>>,
)
    requires
        !front.contains("--months"@),
    ensures
        n >= 0 ==> months_of(front.push("--months"@).push(decimal::signed(n as int)) + back) == n,
        decimal::signed_in(value) is None ==> months_of(
            front.push("--months"@).push(value) + back,
        ) == 12,
        months_of(front) == 12,
{
    reveal_strlit("--");
    law_flags_are_followed_by_their_value(
        front,
        "--months"@,
        decimal::signed(n as int),
        back,
    );
    law_flags_are_followed_by_their_value(front, "--months"@, value, back);
    decimal::law_signed_round_trip(n);
    if n >= 0 {
        decimal::lemma_decimal(n as int);
        assert(text::is_digit(decimal::signed(n as int)[0]));
        assert("--"@[0] == '-');
    }
}

/// Each command is known by its name and takes the arguments behind it: a file or a
/// directory, a file, or the number of a transaction and a category. A command that
/// lacks one of these is refused; one that is not known is answered with what is
/// known.
pub proof fn law_commands_take_their_arguments(args: Seq<Seq<char>>, id: i64)
    requires
        args.len() > 0,
    ensures
        args[0] == "import"@ && args.len() > 1 ==> command_in(args) == Ok::<
            CommandView,
            Seq<char>,
        >(CommandView::Import(args[1])),
        args[0] == "inspect"@ && args.len() > 1 ==> command_in(args) == Ok::<
            CommandView,
            Seq<char>,
        >(CommandView::Inspect(args[1])),
        args[0] == "tag"@ && args.len() > 2 && args[1] == decimal::signed(id as int) ==> command_in(
            args,
        ) == Ok::<CommandView, Seq<char>>(CommandView::Tag(id, args[2])),
        args[0] == "report"@ ==> command_in(args) matches Ok(CommandView::Report),
        args[0] == "accounts"@ ==> command_in(args) matches Ok(CommandView::Accounts),
        args[0] == "batches"@ ==> command_in(args) matches Ok(CommandView::Batches),
        args[0] == "categorise"@ || args[0] == "categorize"@ ==> command_in(args) matches Ok(
            CommandView::Categorise,
        ),
        command_in(args) is Err <==> (args[0] == "import"@ || args[0] == "inspect"@) && args.len()
            == 1 || args[0] == "tag"@ && (args.len() < 3 || decimal::signed_in(args[1]) is None),
        command_in(Seq::empty()) matches Ok(CommandView::Usage),
{
    reveal_strlit("import");
    reveal_strlit("inspect");
    reveal_strlit("categorise");
    reveal_strlit("categorize");
    reveal_strlit("tag");
    reveal_strlit("report");
    reveal_strlit("accounts");
    reveal_strlit("batches");
    assert("import"@[0] == 'i' && "report"@[0] == 'r' && "batches"@[0] == 'b');
    assert("inspect"@[0] == 'i' && "tag"@[0] == 't' && "accounts"@[0] == 'a');
    assert("categorise"@[0] == 'c' && "categorize"@[0] == 'c');
    assert("import"@.len() == 6 && "inspect"@.len() == 7);
    decimal::law_signed_round_trip(id);
}

/// The ending of a name is what follows its last point; a name that only begins with
/// a point has none, nor has one without a point.
pub proof fn law_endings_follow_the_last_point(stem: Seq<char>, ending: Seq<char>)
    requires
        !ending.contains('.'),
    ensures
        stem.len() > 0 ==> extension_of(stem + seq!['.'] + ending) == Some(ending),
        extension_of(seq!['.'] + ending) is None,
        extension_of(ending) is None,
{
    let name = stem + seq!['.'] + ending;
    let hidden = seq!['.'] + ending;
    let n = stem.len() as int;
    assert forall|i: int| 0 <= i < ending.len() implies (#[trigger] ending[i]) != '.' by {
        assert(ending.contains(ending[i]));
    }
    assert forall|i: int| n < i < name.len() implies (#[trigger] name[i]) != '.' by {
        assert(name[i] == ending[i - n - 1]);
    }
    assert forall|i: int| 0 < i < hidden.len() implies (#[trigger] hidden[i]) != '.' by {
        assert(hidden[i] == ending[i - 1]);
    }
    money::lemma_last_char(name, '.', n);
    money::lemma_last_char(hidden, '.', 0);
    money::lemma_no_char(ending, '.');
    assert(name.skip(n + 1) == ending);
}

/// The first line on an account, of its parts.
pub open spec fn account_parts(
    label: Seq<char>,
    name: Seq<char>,
    parsed: Seq<char>,
    period: Seq<char>,
    tail: Seq<char>,
) -> Seq<char> {
    "  ["@ + label + "] "@ + name + seq![' '] + parsed + " rows  "@ + period + tail
}

/// What is said of what was written, of its parts.
pub open spec fn written_parts(inserted: Seq<char>, replaced: Seq<char>) -> Seq<char> {
    "  ("@ + inserted + " written, "@ + replaced + " replaced)"@
}

/// What is printed of an account begins with its bank, its name, the number of its
/// rows and its period, with what was written and what it replaced, and with nothing
/// of that on a dry run.
pub proof fn law_report_says_what_was_written(report: ImportReport, dry_run: bool)
    ensures
        report_lines(report, dry_run).len() > 0,
        exists|name: Seq<char>, n: Seq<char>, period: Seq<char>, tail: Seq<char>|
            report_lines(report, dry_run)[0] == #[trigger] account_parts(
                report.label@,
                name,
                n,
                period,
                tail,
            ) && report.account@.is_prefix_of(name) && spending::says_number(n, report.parsed as int)
                && (report.period matches Some((from, to)) ==> period == from.iso() + " to "@
                + to.iso()) && (dry_run ==> tail.len() == 0) && (!dry_run ==> exists|
                a: Seq<char>,
                b: Seq<char>,
            |
                tail == #[trigger] written_parts(a, b) && decimal::number(a) == report.inserted
                    && decimal::number(b) == report.replaced),
{
    let lines = report_lines(report, dry_run);
    let name = text::padded_right(report.account@, 16);
    let n = text::padded_left(decimal::decimal(report.parsed as int), 4);
    let tail = if dry_run {
        Seq::empty()
    } else {
        written_parts(
            decimal::decimal(report.inserted as int),
            decimal::decimal(report.replaced as int),
        )
    };
    decimal::lemma_decimal(report.inserted as int);
    decimal::lemma_decimal(report.replaced as int);
    spending::lemma_padded_number(report.parsed as int, 4);
    assert(report.account@.is_prefix_of(name));
    assert(lines[0] == account_line(report, dry_run));
    assert(lines[0] == account_parts(report.label@, name, n, period_text(report.period), tail));
}

/// An import is said to be verified exactly where it has balances and none breaks the
/// chain, and then with its closing balance; it is said to be broken exactly where
/// some break, with how many there are; and where there are rows and no balances, it
/// is said that nothing was checked. Rows that were not parsed are said to be so, with
/// how many there are.
pub proof fn law_report_says_how_it_was_checked(report: ImportReport)
    requires
        report.closing_balance matches Some(b) ==> b > i64::MIN,
    ensures
        report.chain_available && report.chain_breaks@.len() == 0 ==> chain_lines(report).len() == 1
            && "       balance chain verified"@.is_prefix_of(chain_lines(report)[0]),
        report.chain_available && report.chain_breaks@.len() == 0
            && report.closing_balance is Some ==> money::minor_of(
            chain_lines(report)[0].skip(39),
            2,
        ) == Ok::<int, money::MoneyFault>(report.closing_balance->0 as int),
        report.chain_available && report.chain_breaks@.len() > 0 ==> {
            let lines = chain_lines(report);
            &&& lines.len() == 1 + (if report.chain_breaks@.len() < 5 {
                report.chain_breaks@.len()
            } else {
                5
            })
            &&& "       BALANCE CHAIN BROKEN at "@.is_prefix_of(lines[0])
            &&& exists|n: Seq<char>|
                lines[0] == "       BALANCE CHAIN BROKEN at "@ + n + " point(s):"@
                    && #[trigger] decimal::number(n) == report.chain_breaks@.len()
        },
        !report.chain_available ==> chain_lines(report).len() == (if report.parsed == 0 {
            0nat
        } else {
            1nat
        }),
        !report.chain_available && report.parsed > 0 ==> chain_lines(report)[0]
            == "       no balance column — completeness unverified"@,
        report.skipped@.len() == 0 <==> skipped_lines(report).len() == 0,
        report.skipped@.len() > 0 ==> exists|n: Seq<char>|
            skipped_lines(report)[0] == "       "@ + n + " ROW(S) NOT PARSED:"@
                && #[trigger] decimal::number(n) == report.skipped@.len(),
        forall|i: int|
            0 <= i < report.skipped@.len() && i < 5 ==> #[trigger] skipped_lines(report)[i + 1]
                == "         "@ + report.skipped@[i]@,
        forall|i: int|
            report.chain_available && 0 <= i < report.chain_breaks@.len() && i < 5
                ==> #[trigger] chain_lines(report)[i + 1] == "         "@
                + report.chain_breaks@[i]@,
{
    reveal_strlit("       balance chain verified");
    reveal_strlit(", closing ");
    let (broken, lost) = (report.chain_breaks@.len() as int, report.skipped@.len() as int);
    decimal::lemma_decimal(broken);
    decimal::lemma_decimal(lost);
    assert(text::views(report.chain_breaks@).len() == broken);
    assert(text::views(report.skipped@).len() == lost);
    if report.chain_available && broken == 0 {
        let line = chain_lines(report)[0];
        assert(line.take(29) =~= "       balance chain verified"@);
        if let Some(b) = report.closing_balance {
            money::law_two_places_round_trip(b);
            assert(line.skip(39) =~= decimal::hundredths(b as int));
        }
    }
    if report.chain_available && broken > 0 {
        let line = chain_lines(report)[0];
        let n = decimal::decimal(broken);
        assert(line == "       BALANCE CHAIN BROKEN at "@ + n + " point(s):"@);
        assert("       BALANCE CHAIN BROKEN at "@.is_prefix_of(line));
    }
    if lost > 0 {
        assert(skipped_lines(report)[0] == "       "@ + decimal::decimal(lost)
            + " ROW(S) NOT PARSED:"@);
    }
    assert forall|i: int| 0 <= i < lost && i < 5 implies #[trigger] skipped_lines(report)[i + 1]
        == "         "@ + report.skipped@[i]@ by {
        assert(text::views(report.skipped@)[i] == report.skipped@[i]@);
        assert(skipped_lines(report)[i + 1] == shown(text::views(report.skipped@))[i]);
    }
    assert forall|i: int|
        report.chain_available && 0 <= i < broken && i < 5 implies #[trigger] chain_lines(report)[i
        + 1] == "         "@ + report.chain_breaks@[i]@ by {
        assert(text::views(report.chain_breaks@)[i] == report.chain_breaks@[i]@);
        assert(chain_lines(report)[i + 1] == shown(text::views(report.chain_breaks@))[i]);
    }
}

/// An import is listed as verified exactly where it was and nothing breaks its chain;
/// where something does, that is said, with how often.
pub proof fn law_imports_are_listed_as_checked(breaks: i64, verified: i64)
    ensures
        check_text(breaks as int, verified as int) == "verified"@ <==> breaks <= 0 && verified == 1,
        check_text(breaks as int, verified as int) == "unverified"@ <==> breaks <= 0 && verified
            != 1,
        breaks > 0 ==> exists|n: Seq<char>|
            check_text(breaks as int, verified as int) == n + " CHAIN BREAKS"@
                && #[trigger] decimal::signed_in(n) == Some(breaks as int),
{
    reveal_strlit("verified");
    reveal_strlit("unverified");
    assert("verified"@[0] == 'v' && "unverified"@[0] == 'u');
    decimal::law_signed_round_trip(breaks);
    if breaks > 0 {
        decimal::lemma_decimal(breaks as int);
        let n = decimal::signed(breaks as int);
        assert(text::is_digit(n[0]));
        assert((n + " CHAIN BREAKS"@)[0] == n[0]);
        assert(check_text(breaks as int, verified as int) == n + " CHAIN BREAKS"@);
    }
}

/// The line on a stored account, of its parts.
pub open spec fn stored_parts(
    bank: Seq<char>,
    label: Seq<char>,
    account_type: Seq<char>,
    n: Seq<char>,
    first: Seq<char>,
    last: Seq<char>,
) -> Seq<char> {
    "  "@ + bank + seq![' '] + label + seq![' '] + account_type + seq![' '] + n + " txns  "@ + first
        + " to "@ + last
}

/// The line on a stored account says its bank, its name and its type, how many
/// transactions it has, and the first and the last day of them, where there are any.
pub proof fn law_accounts_are_listed_with_their_figures(
    bank: Seq<char>,
    label: Seq<char>,
    account_type: Seq<char>,
    n: i64,
    first: Option<Seq<char>>,
    last: Option<Seq<char>>,
)
    ensures
        exists|b: Seq<char>, l: Seq<char>, t: Seq<char>, k: Seq<char>, from: Seq<char>, to: Seq<char>|
            stored_line(bank, label, account_type, n as int, first, last)
                == #[trigger] stored_parts(b, l, t, k, from, to) && bank.is_prefix_of(b)
                && label.is_prefix_of(l) && account_type.is_prefix_of(t) && spending::says_count(
                k,
                n as int,
            ) && (first matches Some(f) ==> from == f) && (last matches Some(e) ==> to == e) && (
            first is None ==> from == "-"@) && (last is None ==> to == "-"@),
{
    spending::law_columns_say_their_count(n, 5);
    let (b, l, t) = (
        text::padded_right(bank, 10),
        text::padded_right(label, 18),
        text::padded_right(account_type, 12),
    );
    assert(bank.is_prefix_of(b) && label.is_prefix_of(l) && account_type.is_prefix_of(t));
    assert(stored_line(bank, label, account_type, n as int, first, last) == stored_parts(
        b,
        l,
        t,
        spending::count_column(n as int, 5),
        text_or(first, "-"@),
        text_or(last, "-"@),
    ));
}

/// The line on an import, of its parts.
pub open spec fn batch_parts(
    at: Seq<char>,
    label: Seq<char>,
    start: Seq<char>,
    end: Seq<char>,
    n: Seq<char>,
    checked: Seq<char>,
) -> Seq<char> {
    "  "@ + at + "  "@ + label + seq![' '] + start + " to "@ + end + "  "@ + n + " rows  "@ + checked
}

/// The line on an import says when it was, whose it was, its period, how many rows it
/// wrote, and how far it was checked.
pub proof fn law_imports_are_listed_with_their_figures(
    imported_at: Seq<char>,
    label: Seq<char>,
    start: Option<Seq<char>>,
    end: Option<Seq<char>>,
    n: i64,
    breaks: i64,
    verified: i64,
)
    ensures
        exists|l: Seq<char>, from: Seq<char>, to: Seq<char>, k: Seq<char>|
            batch_line(
                imported_at,
                label,
                start,
                end,
                n as int,
                breaks as int,
                verified as int,
            ) == #[trigger] batch_parts(
                text::byte_prefix(imported_at, 16),
                l,
                from,
                to,
                k,
                check_text(breaks as int, verified as int),
            ) && label.is_prefix_of(l) && spending::says_count(k, n as int) && (start matches Some(s)
                ==> from == s) && (end matches Some(e) ==> to == e) && (start is None ==> from.len()
                == 0) && (end is None ==> to.len() == 0),
{
    spending::law_columns_say_their_count(n, 4);
    let l = text::padded_right(label, 16);
    assert(label.is_prefix_of(l));
    assert(batch_line(
        imported_at,
        label,
        start,
        end,
        n as int,
        breaks as int,
        verified as int,
    ) == batch_parts(
        text::byte_prefix(imported_at, 16),
        l,
        text_or(start, Seq::empty()),
        text_or(end, Seq::empty()),
        spending::count_column(n as int, 4),
        check_text(breaks as int, verified as int),
    ));
}

/// The line on a reader says its name, and that it matches exactly where it does.
pub proof fn law_readers_are_listed_with_their_claim(label: Seq<char>, claims: bool)
    ensures
        ("  "@ + label).is_prefix_of(claim_line(label, claims)),
        claims ==> claim_line(label, claims).skip(claim_line(label, claims).len() - 7)
            == "MATCHES"@,
        !claims ==> claim_line(label, claims).skip(claim_line(label, claims).len() - 3) == " no"@,
{
    reveal_strlit("  ");
    reveal_strlit("MATCHES");
    reveal_strlit("no");
    reveal_strlit(" no");
    let s = claim_line(label, claims);
    assert(text::padded_right(label, 10).take(label.len() as int) == label);
    assert(s.take(2 + label.len() as int) =~= "  "@ + label);
    if claims {
        assert(s.skip(s.len() - 7) =~= "MATCHES"@);
    } else {
        assert(s.skip(s.len() - 3) =~= " no"@);
    }
}

/// What is shown of a row is its number and its cells, in order, with bars between
/// them, each without the space around it; a cell that is short is shown whole, and of
/// a long one no more than the first bytes.
pub proof fn law_rows_are_shown_by_their_cells(index: u64, row: Seq<Seq<char>>, cell: Seq<char>)
    ensures
        exists|n: Seq<char>|
            row_line(index as int, row) == "  "@ + n + ": "@ + text::joined(cell_texts(row), " | "@)
                && #[trigger] spending::says_number(n, index as int),
        cell_texts(row).len() == row.len(),
        text::byte_len(text::trimmed(cell)) <= 24 ==> cell_text(cell) == text::trimmed(cell),
        text::byte_len(text::trimmed(cell)) > 24 ==> cell_text(cell) == text::byte_prefix(
            text::trimmed(cell),
            24,
        ) + "…"@,
{
    spending::lemma_padded_number(index as int, 3);
    let n = text::padded_left(decimal::decimal(index as int), 3);
    assert(row_line(index as int, row) == "  "@ + n + ": "@ + text::joined(
        cell_texts(row),
        " | "@,
    ));
}

} // verus!
