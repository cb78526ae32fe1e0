//! Spending breakdown, printed as plain text.
//!
//! Two rules applied throughout:
//!   * Amounts aggregate on the statement's own GBP conversion where it exists.
//!     Summing raw amounts across accounts adds euros to pounds.
//!   * Internal movements and excluded categories are dropped. Moving money
//!     between your own accounts is not spending.
use crate::decimal;
use crate::decimal::{hundredths_text, push_signed, signed_text};
use crate::money;
use crate::money::{divide, minus, plus};
use crate::text;
use crate::text::{chars_of, owned, pad_left, pad_right, same, string_of};
use vstd::prelude::*;
use vstd::slice::slice_subrange;

verus! {

// ---------------------------------------------------------------------------
// Pieces of lines
// ---------------------------------------------------------------------------

/// An amount with two places, in a column of ten.
pub open spec fn money_column(minor: int) -> Seq<char> {
    text::padded_left(decimal::hundredths(minor), 10)
}

pub fn money(minor: i64) -> (r: String)
    ensures
        r@ == money_column(minor as int),
{
    let t = hundredths_text(minor);
    pad_left(t.as_str(), 10)
}

/// A text, cut to so many characters where it is longer.
pub open spec fn cut_to(s: Seq<char>, max: nat) -> Seq<char> {
    if s.len() <= max {
        s
    } else {
        s.take(max - 1) + "…"@
    }
}

/// Cuts a text to at most so many characters. A text that
/// holds any character cannot be cut to none.
pub fn truncate(s: &str, max: usize) -> (r: String)
    requires
        max > 0 || s@.len() == 0,
    ensures
        r@ == cut_to(s@, max as nat),
{
    let c = chars_of(s);
    if c.len() <= max {
        return owned(s);
    }
    let mut r = string_of(slice_subrange(c.as_slice(), 0, max - 1));
    r.append("…");
    assert(r@ == cut_to(s@, max as nat));
    r
}

/// A text that is cut has exactly the length that was asked for.
pub proof fn law_cut_text_fits(s: Seq<char>, max: nat)
    requires
        max > 0 || s.len() == 0,
    ensures
        cut_to(s, max).len() == (if s.len() <= max {
            s.len()
        } else {
            max
        }),
{
    reveal_strlit("…");
}

/// A count in a column.
pub open spec fn count_column(n: int, width: nat) -> Seq<char> {
    text::padded_left(decimal::signed(n), width)
}

fn count(n: i64, width: usize) -> (r: String)
    ensures
        r@ == count_column(n as int, width as nat),
{
    let t = signed_text(n);
    pad_left(t.as_str(), width)
}

// ---------------------------------------------------------------------------
// Overview and months
// ---------------------------------------------------------------------------

/// The months of an overview, of which there is at least one.
pub open spec fn at_least_one(n: int) -> int {
    if n < 1 {
        1
    } else {
        n
    }
}

fn one_or_more(n: i64) -> (r: i64)
    ensures
        r == at_least_one(n as int),
{
    if n < 1 {
        1
    } else {
        n
    }
}

/// The lines of an overview that are about amounts.
pub open spec fn overview_lines(
    first_day: Seq<char>,
    last_day: Seq<char>,
    months: int,
    n: int,
    spent: int,
    received: int,
) -> Seq<Seq<char>> {
    let m = at_least_one(months);
    seq![
        "  "@ + first_day + " to "@ + last_day + "   ("@ + decimal::signed(m) + " months, "@
            + decimal::signed(n) + " transactions)"@,
        "  Spent      "@ + money_column(spent),
        "  Received   "@ + money_column(received),
        "  Net        "@ + money_column(money::wrapped(received - spent)),
        "  Per month  "@ + money_column(money::quotient(spent, m)),
    ]
}

fn labelled(label: &str, minor: i64) -> (r: String)
    ensures
        r@ == label@ + money_column(minor as int),
{
    let mut s = owned(label);
    let m = money(minor);
    s.append(m.as_str());
    s
}

/// The lines of an overview that are about amounts.
pub fn overview(
    first_day: &str,
    last_day: &str,
    months: i64,
    n: i64,
    spent: i64,
    received: i64,
) -> (r: Vec<String>)
    ensures
        text::views(r@) == overview_lines(
            first_day@,
            last_day@,
            months as int,
            n as int,
            spent as int,
            received as int,
        ),
{
    let m: i64 = one_or_more(months);
    let mut s = owned("  ");
    s.append(first_day);
    s.append(" to ");
    s.append(last_day);
    s.append("   (");
    push_signed(&mut s, m);
    s.append(" months, ");
    push_signed(&mut s, n);
    s.append(" transactions)");
    let ghost first = "  "@ + first_day@ + " to "@ + last_day@ + "   ("@ + decimal::signed(m as int)
        + " months, "@ + decimal::signed(n as int) + " transactions)"@;
    assert(s@ == first);
    let mut r: Vec<String> = Vec::new();
    r.push(s);
    r.push(labelled("  Spent      ", spent));
    r.push(labelled("  Received   ", received));
    r.push(labelled("  Net        ", minus(received, spent)));
    r.push(labelled("  Per month  ", divide(spent, m)));
    let ghost expected = overview_lines(
        first_day@,
        last_day@,
        months as int,
        n as int,
        spent as int,
        received as int,
    );
    assert(expected[0] == first);
    assert(text::views(r@) == expected);
    r
}

/// The front of the line on a month: its figures.
pub open spec fn month_line(month: Seq<char>, spent: int, received: int, n: int) -> Seq<char> {
    "  "@ + month + "  "@ + money_column(spent) + seq![' '] + money_column(received) + seq![' ']
        + money_column(money::wrapped(received - spent)) + "  "@ + count_column(n, 4) + "  "@
}

pub fn month_front(month: &str, spent: i64, received: i64, n: i64) -> (r: String)
    ensures
        r@ == month_line(month@, spent as int, received as int, n as int),
{
    let mut s = owned("  ");
    s.append(month);
    s.append("  ");
    let a = money(spent);
    s.append(a.as_str());
    s.push(' ');
    let b = money(received);
    s.append(b.as_str());
    s.push(' ');
    let c = money(minus(received, spent));
    s.append(c.as_str());
    s.append("  ");
    let k = count(n, 4);
    s.append(k.as_str());
    s.append("  ");
    assert(s@ == month_line(month@, spent as int, received as int, n as int));
    s
}

// ---------------------------------------------------------------------------
// Categories
// ---------------------------------------------------------------------------

/// What was spent in one category, with the category above it.
#[derive(Debug)]
pub struct CategoryRow {
    pub top: Option<String>,
    pub category: Option<String>,
    pub spent: i64,
    pub n: i64,
}

#[verifier::ext_equal]
pub struct CategoryView {
    pub top: Option<Seq<char>>,
    pub category: Option<Seq<char>>,
    pub spent: i64,
    pub n: i64,
}

impl View for CategoryRow {
    type V = CategoryView;

    open spec fn view(&self) -> CategoryView {
        CategoryView {
            top: text::opt(self.top),
            category: text::opt(self.category),
            spent: self.spent,
            n: self.n,
        }
    }
}

pub open spec fn category_views(rows: Seq<CategoryRow>) -> Seq<CategoryView> {
    Seq::new(rows.len(), |i: int| rows[i]@)
}

/// The name under which a row is totalled.
pub open spec fn top_name(row: CategoryView) -> Seq<char> {
    match row.top {
        Some(t) => t,
        None => "Uncategorised"@,
    }
}

fn top_text(row: &CategoryRow) -> (r: String)
    ensures
        r@ == top_name(row@),
{
    match &row.top {
        Some(t) => owned(t.as_str()),
        None => owned("Uncategorised"),
    }
}

/// A category with what was spent in it and in those under it.
#[derive(Debug)]
pub struct Parent {
    pub name: String,
    pub spent: i64,
    pub n: i64,
}

#[verifier::ext_equal]
pub struct ParentView {
    pub name: Seq<char>,
    pub spent: i64,
    pub n: i64,
}

impl View for Parent {
    type V = ParentView;

    open spec fn view(&self) -> ParentView {
        ParentView { name: self.name@, spent: self.spent, n: self.n }
    }
}

pub open spec fn parent_views(parents: Seq<Parent>) -> Seq<ParentView> {
    Seq::new(parents.len(), |i: int| parents[i]@)
}

/// The place of the first parent of that name.
pub open spec fn place_of_parent(parents: Seq<ParentView>, name: Seq<char>) -> Option<int>
    decreases parents.len(),
{
    if parents.len() == 0 {
        None
    } else if parents[0].name == name {
        Some(0)
    } else {
        match place_of_parent(parents.drop_first(), name) {
            Some(k) => Some(k + 1),
            None => None,
        }
    }
}

/// A parent with one more row.
pub open spec fn with_row(p: ParentView, row: CategoryView) -> ParentView {
    ParentView {
        name: p.name,
        spent: money::wrapped(p.spent + row.spent) as i64,
        n: money::wrapped(p.n + row.n) as i64,
    }
}

/// The parents with one more row: added to its parent's figures, or a parent of
/// its own.
pub open spec fn with_category(parents: Seq<ParentView>, row: CategoryView) -> Seq<ParentView> {
    match place_of_parent(parents, top_name(row)) {
        Some(k) => parents.update(k, with_row(parents[k], row)),
        None => parents.push(ParentView { name: top_name(row), spent: row.spent, n: row.n }),
    }
}

/// The rows rolled into their parents, in the order in which those first appear.
pub open spec fn rolled(rows: Seq<CategoryView>) -> Seq<ParentView>
    decreases rows.len(),
{
    if rows.len() == 0 {
        seq![]
    } else {
        with_category(rolled(rows.drop_last()), rows.last())
    }
}

proof fn lemma_place_of_parent(parents: Seq<ParentView>, name: Seq<char>)
    ensures
        match place_of_parent(parents, name) {
            Some(k) => 0 <= k < parents.len() && parents[k].name == name && forall|i: int|
                0 <= i < k ==> (#[trigger] parents[i]).name != name,
            None => forall|i: int| 0 <= i < parents.len() ==> (#[trigger] parents[i]).name != name,
        },
    decreases parents.len(),
{
    if parents.len() > 0 && parents[0].name != name {
        let rest = parents.drop_first();
        lemma_place_of_parent(rest, name);
        assert(forall|i: int| 0 < i < parents.len() ==> parents[i] == rest[i - 1]);
    }
}

fn find_parent(parents: &Vec<Parent>, name: &str) -> (r: Option<usize>)
    ensures
        match r {
            Some(k) => k < parents@.len() && place_of_parent(parent_views(parents@), name@) == Some(
                k as int,
            ),
            None => place_of_parent(parent_views(parents@), name@) is None,
        },
{
    let ghost all = parent_views(parents@);
    let mut i: usize = 0;
    assert(all.skip(0) == all);
    while i < parents.len()
        invariant
            i <= parents@.len(),
            all == parent_views(parents@),
            match place_of_parent(all.skip(i as int), name@) {
                Some(k) => place_of_parent(all, name@) == Some(k + i),
                None => place_of_parent(all, name@) is None,
            },
        decreases parents@.len() - i,
    {
        assert(all.skip(i as int)[0] == parents@[i as int]@);
        assert(all.skip(i as int).drop_first() == all.skip(i + 1));
        if same(parents[i].name.as_str(), name) {
            return Some(i);
        }
        i = i + 1;
    }
    None
}

/// Rolls rows into their parents.
pub fn roll_up(rows: &[CategoryRow]) -> (r: Vec<Parent>)
    ensures
        parent_views(r@) == rolled(category_views(rows@)),
{
    let ghost all = category_views(rows@);
    let mut parents: Vec<Parent> = Vec::new();
    let mut i: usize = 0;
    assert(all.take(0) == Seq::<CategoryView>::empty());
    assert(parent_views(parents@) == Seq::<ParentView>::empty());
    while i < rows.len()
        invariant
            i <= rows@.len(),
            all == category_views(rows@),
            parent_views(parents@) == rolled(all.take(i as int)),
        decreases rows@.len() - i,
    {
        let row = &rows[i];
        assert(all.take(i + 1).drop_last() == all.take(i as int));
        assert(all.take(i + 1).last() == row@);
        let ghost before = parent_views(parents@);
        let top = top_text(row);
        match find_parent(&parents, top.as_str()) {
            Some(k) => {
                parents[k].spent = plus(parents[k].spent, row.spent);
                parents[k].n = plus(parents[k].n, row.n);
                assert(parent_views(parents@) == before.update(
                    k as int,
                    with_row(before[k as int], row@),
                ));
            },
            None => {
                let p = Parent { name: top, spent: row.spent, n: row.n };
                let ghost view = p@;
                parents.push(p);
                assert(parent_views(parents@) == before.push(view));
            },
        }
        i = i + 1;
    }
    assert(all.take(i as int) == all);
    parents
}

/// The place at which a parent is set among parents that are in order: behind all
/// those that spent no less.
pub open spec fn place_for(parents: Seq<ParentView>, p: ParentView) -> int
    decreases parents.len(),
{
    if parents.len() == 0 || parents.last().spent >= p.spent {
        parents.len() as int
    } else {
        place_for(parents.drop_last(), p)
    }
}

/// The parents with the most spent first; those that spent the same as they
/// stood.
pub open spec fn ranked(parents: Seq<ParentView>) -> Seq<ParentView>
    decreases parents.len(),
{
    if parents.len() == 0 {
        seq![]
    } else {
        let front = ranked(parents.drop_last());
        front.insert(place_for(front, parents.last()), parents.last())
    }
}

fn find_place(parents: &Vec<Parent>, p: &Parent) -> (r: usize)
    ensures
        r == place_for(parent_views(parents@), p@),
        r <= parents@.len(),
{
    let ghost all = parent_views(parents@);
    let mut n: usize = parents.len();
    assert(all.take(n as int) == all);
    while n > 0 && parents[n - 1].spent < p.spent
        invariant
            n <= parents@.len(),
            all == parent_views(parents@),
            place_for(all.take(n as int), p@) == place_for(all, p@),
        decreases n,
    {
        assert(all.take(n as int).drop_last() == all.take(n - 1));
        assert(all.take(n as int).last() == parents@[n - 1]@);
        n = n - 1;
    }
    proof {
        if n > 0 {
            assert(all.take(n as int).last() == parents@[n - 1]@);
        }
    }
    n
}

/// Ranks parents by what was spent.
pub fn rank(parents: Vec<Parent>) -> (r: Vec<Parent>)
    ensures
        parent_views(r@) == ranked(parent_views(parents@)),
{
    let ghost all = parent_views(parents@);
    let mut left = parents;
    let mut sorted: Vec<Parent> = Vec::new();
    assert(all.skip(0) == all);
    assert(all.take(0) == Seq::<ParentView>::empty());
    assert(parent_views(sorted@) == Seq::<ParentView>::empty());
    while left.len() > 0
        invariant
            left@.len() <= all.len(),
            parent_views(left@) == all.skip(all.len() - left@.len()),
            parent_views(sorted@) == ranked(all.take(all.len() - left@.len())),
        decreases left@.len(),
    {
        let ghost done = all.len() - left@.len();
        let ghost before = left@;
        let ghost was = parent_views(sorted@);
        assert(all.take(done + 1).drop_last() == all.take(done));
        assert(all.take(done + 1).last() == all[done]);
        assert(parent_views(before)[0] == before[0]@);
        assert(all.skip(done)[0] == all[done]);
        let p = left.remove(0);
        assert(parent_views(left@) == parent_views(before).skip(1));
        assert(all.skip(done).skip(1) == all.skip(done + 1));
        let k: usize = find_place(&sorted, &p);
        let ghost view = p@;
        sorted.insert(k, p);
        assert(parent_views(sorted@) == was.insert(k as int, view));
    }
    assert(all.take(all.len() as int) == all);
    sorted
}

/// What was spent in all of some parents.
pub open spec fn spent_in(parents: Seq<ParentView>) -> int
    decreases parents.len(),
{
    if parents.len() == 0 {
        0
    } else {
        spent_in(parents.drop_last()) + parents.last().spent
    }
}

/// The total of some parents.
pub fn grand_total(parents: &Vec<Parent>) -> (r: i64)
    ensures
        r == money::wrapped(spent_in(parent_views(parents@))),
{
    let ghost all = parent_views(parents@);
    let mut total: i64 = 0;
    let mut i: usize = 0;
    assert(all.take(0) == Seq::<ParentView>::empty());
    while i < parents.len()
        invariant
            i <= parents@.len(),
            all == parent_views(parents@),
            total == money::wrapped(spent_in(all.take(i as int))),
        decreases parents@.len() - i,
    {
        assert(all.take(i + 1).drop_last() == all.take(i as int));
        assert(all.take(i + 1).last() == parents@[i as int]@);
        proof {
            money::lemma_wrapped_sum(
                spent_in(all.take(i as int)),
                parents@[i as int].spent as int,
            );
        }
        total = plus(total, parents[i].spent);
        i = i + 1;
    }
    assert(all.take(i as int) == all);
    total
}

/// The front of the line on a category: its name and figures.
pub open spec fn parent_line(p: ParentView, months: int) -> Seq<char> {
    "  "@ + text::padded_right(p.name, 18) + seq![' '] + money_column(p.spent as int) + seq![' ']
        + money_column(money::quotient(p.spent as int, at_least_one(months))) + seq![' ']
}

pub fn parent_front(p: &Parent, months: i64) -> (r: String)
    ensures
        r@ == parent_line(p@, months as int),
{
    let mut s = owned("  ");
    let name = pad_right(p.name.as_str(), 18);
    s.append(name.as_str());
    s.push(' ');
    let a = money(p.spent);
    s.append(a.as_str());
    s.push(' ');
    let b = money(divide(p.spent, one_or_more(months)));
    s.append(b.as_str());
    s.push(' ');
    assert(s@ == parent_line(p@, months as int));
    s
}

/// Whether a row is listed under a parent: it belongs to it, and is not the
/// parent's own.
pub open spec fn is_child(row: CategoryView, name: Seq<char>) -> bool {
    row.top == Some(name) && row.category != Some(name) && child_name(row) != name
}

/// The name of a row that is listed under its parent.
pub open spec fn child_name(row: CategoryView) -> Seq<char> {
    match row.category {
        Some(c) => c,
        None => "?"@,
    }
}

/// The line on a row under its parent.
pub open spec fn child_line(row: CategoryView) -> Seq<char> {
    "    └ "@ + text::padded_right(child_name(row), 14) + seq![' '] + money_column(row.spent as int)
        + seq![' '] + text::padded_left(seq!['('] + decimal::signed(row.n as int) + seq![')'], 19)
}

/// The lines on the rows under a parent.
pub open spec fn child_lines(rows: Seq<CategoryView>, name: Seq<char>) -> Seq<Seq<char>>
    decreases rows.len(),
{
    if rows.len() == 0 {
        seq![]
    } else if is_child(rows.last(), name) {
        child_lines(rows.drop_last(), name).push(child_line(rows.last()))
    } else {
        child_lines(rows.drop_last(), name)
    }
}

fn is_same(o: &Option<String>, name: &str) -> (r: bool)
    ensures
        r == (text::opt(*o) == Some(name@)),
{
    match o {
        Some(s) => same(s.as_str(), name),
        None => false,
    }
}

fn child_text(row: &CategoryRow) -> (r: String)
    ensures
        r@ == child_line(row@),
{
    let mut s = owned("    └ ");
    let name = match &row.category {
        Some(c) => pad_right(c.as_str(), 14),
        None => pad_right("?", 14),
    };
    s.append(name.as_str());
    s.push(' ');
    let m = money(row.spent);
    s.append(m.as_str());
    s.push(' ');
    let mut n = String::new();
    n.push('(');
    push_signed(&mut n, row.n);
    n.push(')');
    assert(n@ == seq!['('] + decimal::signed(row.n as int) + seq![')']);
    let padded = pad_left(n.as_str(), 19);
    s.append(padded.as_str());
    assert(s@ == child_line(row@));
    s
}

/// The lines on the rows under a parent, where the parent rolled up more than
/// itself.
pub fn children(rows: &[CategoryRow], name: &str) -> (r: Vec<String>)
    ensures
        text::views(r@) == child_lines(category_views(rows@), name@),
{
    let ghost all = category_views(rows@);
    let mut r: Vec<String> = Vec::new();
    let mut i: usize = 0;
    assert(all.take(0) == Seq::<CategoryView>::empty());
    assert(text::views(r@) == Seq::<Seq<char>>::empty());
    while i < rows.len()
        invariant
            i <= rows@.len(),
            all == category_views(rows@),
            text::views(r@) == child_lines(all.take(i as int), name@),
        decreases rows@.len() - i,
    {
        let row = &rows[i];
        assert(all.take(i + 1).drop_last() == all.take(i as int));
        assert(all.take(i + 1).last() == row@);
        let ghost before = r@;
        let unnamed = row.category.is_none() && same("?", name);
        if is_same(&row.top, name) && !is_same(&row.category, name) && !unnamed {
            r.push(child_text(row));
            assert(text::views(r@) == text::views(before).push(child_line(row@)));
        }
        i = i + 1;
    }
    assert(all.take(i as int) == all);
    r
}

/// The line on the total of all categories.
pub open spec fn total_text(grand: int) -> Seq<char> {
    "  "@ + text::padded_right("TOTAL"@, 18) + seq![' '] + money_column(grand)
}

pub fn total_line(grand: i64) -> (r: String)
    ensures
        r@ == total_text(grand as int),
{
    let mut s = owned("  ");
    let name = pad_right("TOTAL", 18);
    s.append(name.as_str());
    s.push(' ');
    let m = money(grand);
    s.append(m.as_str());
    assert(s@ == "  "@ + text::padded_right("TOTAL"@, 18) + seq![' '] + money_column(
        grand as int,
    ));
    s
}

// ---------------------------------------------------------------------------
// Merchants
// ---------------------------------------------------------------------------

/// How many characters of a merchant's name are shown.
pub const MERCHANT_CHARS: usize = 28;

/// The line on what is not yet categorised.
pub open spec fn gap_text(spent: int, n: int, description: Seq<char>) -> Seq<char> {
    "  "@ + money_column(spent) + seq![' '] + count_column(n, 4) + "x  "@ + description
}

/// The line on a merchant.
pub open spec fn merchant_text(
    spent: int,
    n: int,
    description: Seq<char>,
    category: Seq<char>,
) -> Seq<char> {
    "  "@ + money_column(spent) + seq![' '] + count_column(n, 4) + "x  "@ + text::padded_right(
        cut_to(description, MERCHANT_CHARS as nat),
        28,
    ) + seq![' '] + category
}

pub fn merchant_line(spent: i64, n: i64, description: &str, category: &str) -> (r: String)
    ensures
        r@ == merchant_text(spent as int, n as int, description@, category@),
{
    let mut s = gap_line(spent, n, "");
    proof {
        reveal_strlit("");
    }
    let name = truncate(description, MERCHANT_CHARS);
    let padded = pad_right(name.as_str(), 28);
    s.append(padded.as_str());
    s.push(' ');
    s.append(category);
    assert(s@ == "  "@ + money_column(spent as int) + seq![' '] + count_column(n as int, 4) + "x  "@
        + text::padded_right(cut_to(description@, MERCHANT_CHARS as nat), 28) + seq![' ']
        + category@);
    s
}

pub fn gap_line(spent: i64, n: i64, description: &str) -> (r: String)
    ensures
        r@ == gap_text(spent as int, n as int, description@),
{
    let mut s = owned("  ");
    let m = money(spent);
    s.append(m.as_str());
    s.push(' ');
    let k = count(n, 4);
    s.append(k.as_str());
    s.append("x  ");
    s.append(description);
    assert(s@ == "  "@ + money_column(spent as int) + seq![' '] + count_column(n as int, 4) + "x  "@
        + description@);
    s
}

// ---------------------------------------------------------------------------
// Laws
// ---------------------------------------------------------------------------

/// What was spent in the rows of one parent.
pub open spec fn spent_under(rows: Seq<CategoryView>, name: Seq<char>) -> int
    decreases rows.len(),
{
    if rows.len() == 0 {
        0
    } else if top_name(rows.last()) == name {
        spent_under(rows.drop_last(), name) + rows.last().spent
    } else {
        spent_under(rows.drop_last(), name)
    }
}

/// What was spent in all rows.
pub open spec fn spent_on_rows(rows: Seq<CategoryView>) -> int
    decreases rows.len(),
{
    if rows.len() == 0 {
        0
    } else {
        spent_on_rows(rows.drop_last()) + rows.last().spent
    }
}

/// The total of a parent is what was spent in its rows: a child's spend is
/// counted in its parent's, once, and no parent is listed twice.
pub proof fn law_parents_total_their_rows(rows: Seq<CategoryView>)
    ensures
        forall|i: int|
            0 <= i < rolled(rows).len() ==> (#[trigger] rolled(rows)[i]).spent == money::wrapped(
                spent_under(rows, rolled(rows)[i].name),
            ),
        forall|i: int, j: int|
            0 <= i < j < rolled(rows).len() ==> (#[trigger] rolled(rows)[i]).name != (
            #[trigger] rolled(rows)[j]).name,
        forall|k: int|
            0 <= k < rows.len() ==> place_of_parent(
                rolled(rows),
                top_name(#[trigger] rows[k]),
            ) is Some,
    decreases rows.len(),
{
    if rows.len() > 0 {
        let front = rows.drop_last();
        let row = rows.last();
        let name = top_name(row);
        let before = rolled(front);
        let after = rolled(rows);
        law_parents_total_their_rows(front);
        lemma_place_of_parent(before, name);
        lemma_place_of_parent(after, name);
        assert forall|i: int| 0 <= i < after.len() implies (#[trigger] after[i]).spent
            == money::wrapped(spent_under(rows, after[i].name)) by {
            match place_of_parent(before, name) {
                Some(k) => {
                    assert(before[i].name == after[i].name);
                    if i == k {
                        money::lemma_wrapped_sum(spent_under(front, name), row.spent as int);
                        lemma_wrapped_i64(before[k].spent + row.spent);
                    } else {
                        assert(i < k ==> before[i].name != name);
                        assert(before[i].name != before[k].name);
                    }
                },
                None => {
                    if i < before.len() {
                        assert(after[i] == before[i]);
                        assert(before[i].name != name);
                    } else {
                        lemma_none_under(front, name);
                        money::lemma_wrapped_in_range(row.spent as int);
                    }
                },
            }
        }
        assert forall|i: int, j: int| 0 <= i < j < after.len() implies (#[trigger] after[i]).name
            != (#[trigger] after[j]).name by {
            match place_of_parent(before, name) {
                Some(k) => {
                    assert(before[i].name == after[i].name && before[j].name == after[j].name);
                },
                None => {
                    assert(after[i] == before[i]);
                    if j < before.len() {
                        assert(after[j] == before[j]);
                    }
                },
            }
        }
        assert forall|k: int| 0 <= k < rows.len() implies place_of_parent(
            after,
            top_name(#[trigger] rows[k]),
        ) is Some by {
            let wanted = top_name(rows[k]);
            lemma_place_of_parent(after, wanted);
            if k < front.len() {
                assert(front[k] == rows[k]);
                lemma_place_of_parent(before, wanted);
                let p = place_of_parent(before, wanted)->0;
                assert(after[p].name == before[p].name);
            } else {
                match place_of_parent(before, name) {
                    Some(p) => {
                        assert(after[p].name == name);
                    },
                    None => {
                        assert(after[before.len() as int].name == name);
                    },
                }
            }
        }
    }
}

proof fn lemma_wrapped_i64(n: int)
    ensures
        money::wrapped(n) as i64 == money::wrapped(n),
{
}

/// Where no parent has a name, nothing was spent under it.
proof fn lemma_none_under(rows: Seq<CategoryView>, name: Seq<char>)
    requires
        place_of_parent(rolled(rows), name) is None,
    ensures
        spent_under(rows, name) == 0,
    decreases rows.len(),
{
    if rows.len() > 0 {
        let before = rolled(rows.drop_last());
        let after = rolled(rows);
        let row = rows.last();
        lemma_place_of_parent(after, name);
        lemma_place_of_parent(before, name);
        lemma_place_of_parent(before, top_name(row));
        match place_of_parent(before, top_name(row)) {
            Some(k) => {
                assert(after[k].name == top_name(row));
                if let Some(p) = place_of_parent(before, name) {
                    assert(after[p].name == before[p].name);
                }
            },
            None => {
                assert(after[before.len() as int].name == top_name(row));
                if let Some(p) = place_of_parent(before, name) {
                    assert(after[p] == before[p]);
                }
            },
        }
        lemma_none_under(rows.drop_last(), name);
    }
}

proof fn lemma_spent_update(parents: Seq<ParentView>, k: int, p: ParentView)
    requires
        0 <= k < parents.len(),
    ensures
        spent_in(parents.update(k, p)) == spent_in(parents) - parents[k].spent + p.spent,
    decreases parents.len(),
{
    let all = parents.update(k, p);
    if k == parents.len() - 1 {
        assert(all.drop_last() == parents.drop_last());
    } else {
        lemma_spent_update(parents.drop_last(), k, p);
        assert(all.drop_last() == parents.drop_last().update(k, p));
    }
}

proof fn lemma_spent_insert(parents: Seq<ParentView>, k: int, p: ParentView)
    requires
        0 <= k <= parents.len(),
    ensures
        spent_in(parents.insert(k, p)) == spent_in(parents) + p.spent,
    decreases parents.len(),
{
    let all = parents.insert(k, p);
    if k == parents.len() {
        assert(all.drop_last() == parents);
    } else {
        lemma_spent_insert(parents.drop_last(), k, p);
        assert(all.drop_last() == parents.drop_last().insert(k, p));
        assert(all.last() == parents.last());
    }
}

proof fn lemma_place_for_bounds(parents: Seq<ParentView>, p: ParentView)
    ensures
        0 <= place_for(parents, p) <= parents.len(),
        forall|i: int|
            place_for(parents, p) <= i < parents.len() ==> (#[trigger] parents[i]).spent < p.spent,
        place_for(parents, p) > 0 ==> parents[place_for(parents, p) - 1].spent >= p.spent,
    decreases parents.len(),
{
    if parents.len() > 0 && parents.last().spent < p.spent {
        let front = parents.drop_last();
        lemma_place_for_bounds(front, p);
        assert forall|i: int| place_for(parents, p) <= i < parents.len() implies (
        #[trigger] parents[i]).spent < p.spent by {
            if i < front.len() {
                assert(parents[i] == front[i]);
            }
        }
    }
}

/// Ranking puts more spending first; the same parents come out, so no total
/// changes.
pub proof fn law_ranking_orders(parents: Seq<ParentView>)
    ensures
        forall|i: int, j: int|
            0 <= i < j < ranked(parents).len() ==> (#[trigger] ranked(parents)[i]).spent >= (
            #[trigger] ranked(parents)[j]).spent,
        ranked(parents).len() == parents.len(),
        ranked(parents).to_multiset() == parents.to_multiset(),
        spent_in(ranked(parents)) == spent_in(parents),
    decreases parents.len(),
{
    if parents.len() == 0 {
        assert(parents == Seq::<ParentView>::empty());
    } else {
        let p = parents.last();
        let front = ranked(parents.drop_last());
        law_ranking_orders(parents.drop_last());
        lemma_place_for_bounds(front, p);
        let k = place_for(front, p);
        lemma_spent_insert(front, k, p);
        let all = front.insert(k, p);
        vstd::seq_lib::to_multiset_insert(front, k, p);
        vstd::seq_lib::to_multiset_build(parents.drop_last(), p);
        assert(parents.drop_last().push(p) == parents);
        assert forall|i: int, j: int| 0 <= i < j < all.len() implies (#[trigger] all[i]).spent >= (
        #[trigger] all[j]).spent by {
            if j < k {
                assert(all[i] == front[i] && all[j] == front[j]);
            } else if i > k {
                assert(all[i] == front[i - 1] && all[j] == front[j - 1]);
            } else if i < k && j > k {
                assert(all[i] == front[i] && all[j] == front[j - 1]);
            } else if i < k {
                assert(all[i] == front[i]);
                if i < k - 1 {
                    assert(front[i].spent >= front[k - 1].spent);
                }
            } else {
                assert(all[j] == front[j - 1]);
            }
        }
    }
}

/// The total of all categories is what was spent in all rows.
pub proof fn law_nothing_is_lost_in_rolling_up(rows: Seq<CategoryView>)
    ensures
        money::wrapped(spent_in(ranked(rolled(rows)))) == money::wrapped(spent_on_rows(rows)),
{
    law_ranking_orders(rolled(rows));
    lemma_rolled_total(rows);
}

proof fn lemma_rolled_total(rows: Seq<CategoryView>)
    ensures
        money::wrapped(spent_in(rolled(rows))) == money::wrapped(spent_on_rows(rows)),
    decreases rows.len(),
{
    if rows.len() > 0 {
        let front = rows.drop_last();
        let row = rows.last();
        let before = rolled(front);
        lemma_rolled_total(front);
        lemma_place_of_parent(before, top_name(row));
        let spent = row.spent as int;
        match place_of_parent(before, top_name(row)) {
            Some(k) => {
                let p = with_row(before[k], row);
                lemma_spent_update(before, k, p);
                let rest = spent_in(before) - before[k].spent;
                lemma_wrapped_i64(before[k].spent + spent);
                money::lemma_wrapped_sum(before[k].spent + spent, rest);
            },
            None => {
                let p = ParentView { name: top_name(row), spent: row.spent, n: row.n };
                assert(before.push(p).drop_last() == before);
            },
        }
        money::lemma_wrapped_sum(spent_in(before), spent);
        money::lemma_wrapped_sum(spent_on_rows(front), spent);
    }
}

// ---------------------------------------------------------------------------
// What the lines say
// ---------------------------------------------------------------------------

/// Whether a text, read as an amount, is so many minor units.
pub open spec fn says_amount(s: Seq<char>, minor: int) -> bool {
    money::minor_of(s, 2) == Ok::<int, money::MoneyFault>(minor)
}

/// Whether a text, read as a number, is that number.
pub open spec fn says_count(s: Seq<char>, n: int) -> bool {
    decimal::signed_in(text::trimmed(s)) == Some(n)
}

proof fn lemma_padding_is_trimmed(s: Seq<char>, width: nat)
    requires
        s.len() > 0,
        !text::is_space(s[0]),
        !text::is_space(s.last()),
    ensures
        text::trimmed(text::padded_left(s, width)) == s,
        text::trimmed(text::padded_right(s, width)) == s,
{
    money::lemma_trimmed_same(s);
    if s.len() < width {
        lemma_spaces_before(s, (width - s.len()) as nat);
        lemma_spaces_behind(s, (width - s.len()) as nat);
    }
}

proof fn lemma_spaces_before(s: Seq<char>, k: nat)
    requires
        s.len() > 0,
        !text::is_space(s[0]),
    ensures
        text::trimmed_start(Seq::new(k, |i: int| ' ') + s) == s,
    decreases k,
{
    let all = Seq::new(k, |i: int| ' ') + s;
    if k == 0 {
        assert(all == s);
    } else {
        let less = Seq::new((k - 1) as nat, |i: int| ' ') + s;
        lemma_spaces_before(s, (k - 1) as nat);
        assert(all.drop_first() == less);
    }
}

proof fn lemma_spaces_behind(s: Seq<char>, k: nat)
    requires
        s.len() > 0,
        !text::is_space(s[0]),
        !text::is_space(s.last()),
    ensures
        text::trimmed(s + Seq::new(k, |i: int| ' ')) == s,
    decreases k,
{
    let all = s + Seq::new(k, |i: int| ' ');
    assert(all[0] == s[0]);
    if k == 0 {
        assert(all == s);
    } else {
        let less = s + Seq::new((k - 1) as nat, |i: int| ' ');
        assert(less[0] == s[0]);
        lemma_spaces_behind(s, (k - 1) as nat);
        assert(all.drop_last() == less);
        assert(all.last() == ' ');
    }
}

/// An amount in its column reads as itself, and the column is at least ten wide.
pub proof fn law_columns_say_their_amount(minor: i64)
    requires
        minor > i64::MIN,
    ensures
        says_amount(money_column(minor as int), minor as int),
        money_column(minor as int).len() >= 10,
{
    let s = decimal::hundredths(minor as int);
    money::law_two_places_round_trip(minor);
    let m = decimal::magnitude(minor as int);
    decimal::lemma_decimal(m / 100);
    let w = decimal::decimal(m / 100);
    assert(text::is_digit(w[0]));
    assert(minor >= 0 ==> s[0] == w[0]);
    assert(s.last() == decimal::two_digits(m % 100)[1]);
    money::lemma_trimmed_same(s);
    lemma_padding_is_trimmed(s, 10);
}

/// A count in its column reads as itself.
pub proof fn law_columns_say_their_count(n: i64, width: nat)
    ensures
        says_count(count_column(n as int, width), n as int),
        count_column(n as int, width).len() >= width,
{
    let s = decimal::signed(n as int);
    decimal::law_signed_round_trip(n);
    decimal::lemma_decimal(decimal::magnitude(n as int));
    let w = decimal::decimal(decimal::magnitude(n as int));
    assert(text::is_digit(w[0]) && text::is_digit(w[w.len() - 1]));
    assert(s.last() == w.last());
    lemma_padding_is_trimmed(s, width);
}

/// Whether an amount is the whole part of an even share of another, which is never
/// larger than what it is a share of, and short of it by less than one unit each.
pub open spec fn is_share(spent: int, months: int, share: int) -> bool {
    let m = if months < 1 {
        1
    } else {
        months
    };
    if spent >= 0 {
        0 <= share && share * m <= spent < (share + 1) * m
    } else {
        share <= 0 && (share - 1) * m < spent <= share * m
    }
}

proof fn lemma_share(spent: int, months: int)
    ensures
        is_share(spent, months, money::quotient(spent, at_least_one(months))),
        decimal::magnitude(money::quotient(spent, at_least_one(months))) <= decimal::magnitude(
            spent,
        ),
{
    let m = at_least_one(months);
    let a = decimal::magnitude(spent);
    let q = a / m;
    vstd::arithmetic::div_mod::lemma_fundamental_div_mod(a, m);
    vstd::arithmetic::div_mod::lemma_div_pos_is_pos(a, m);
    assert(0 <= a % m < m) by (nonlinear_arith)
        requires
            m >= 1,
    ;
    assert(a == m * q + a % m);
    assert(q * m <= a < (q + 1) * m) by (nonlinear_arith)
        requires
            a == m * q + a % m,
            0 <= a % m < m,
    ;
    assert(q <= a) by (nonlinear_arith)
        requires
            q * m <= a,
            m >= 1,
            q >= 0,
    ;
    assert((-q) * m == -(q * m)) by (nonlinear_arith);
    assert((-q - 1) * m == -((q + 1) * m)) by (nonlinear_arith);
}

/// The first line of an overview, of its parts.
pub open spec fn heading(
    first_day: Seq<char>,
    last_day: Seq<char>,
    months: Seq<char>,
    n: Seq<char>,
) -> Seq<char> {
    "  "@ + first_day + " to "@ + last_day + "   ("@ + months + " months, "@ + n
        + " transactions)"@
}

/// The overview shows what was spent and received, and with them a net amount that
/// makes up the difference, so that it is negative exactly where more was spent than
/// received; and an even share of what was spent for each month, of which there is
/// at least one.
pub proof fn law_overview_adds_up(
    first_day: Seq<char>,
    last_day: Seq<char>,
    months: i64,
    n: i64,
    spent: i64,
    received: i64,
)
    requires
        spent > i64::MIN,
        received > i64::MIN,
        -i64::MAX <= received - spent <= i64::MAX,
    ensures
        ({
            let lines = overview_lines(
                first_day,
                last_day,
                months as int,
                n as int,
                spent as int,
                received as int,
            );
            &&& lines.len() == 5
            &&& exists|m: Seq<char>, k: Seq<char>|
                lines[0] == #[trigger] heading(first_day, last_day, m, k) && says_count(k, n as int)
                    && (decimal::signed_in(m) matches Some(over) && over >= 1 && (months >= 1
                    ==> over == months))
            &&& "  Spent      "@.is_prefix_of(lines[1]) && says_amount(lines[1].skip(13), spent as int)
            &&& "  Received   "@.is_prefix_of(lines[2]) && says_amount(lines[2].skip(13), received as int)
            &&& "  Net        "@.is_prefix_of(lines[3]) && (money::minor_of(lines[3].skip(13), 2) matches Ok(
                net,
            ) && net + spent == received)
            &&& "  Per month  "@.is_prefix_of(lines[4]) && (money::minor_of(lines[4].skip(13), 2) matches Ok(
                share,
            ) && is_share(spent as int, months as int, share))
        }),
{
    let m = at_least_one(months as int);
    let lines = overview_lines(
        first_day,
        last_day,
        months as int,
        n as int,
        spent as int,
        received as int,
    );
    reveal_strlit("  Spent      ");
    reveal_strlit("  Received   ");
    reveal_strlit("  Net        ");
    reveal_strlit("  Per month  ");
    money::lemma_wrapped_in_range(received - spent);
    let net = (received - spent) as i64;
    lemma_share(spent as int, months as int);
    let share = money::quotient(spent as int, m) as i64;
    law_columns_say_their_amount(spent);
    law_columns_say_their_amount(received);
    law_columns_say_their_amount(net);
    law_columns_say_their_amount(share);
    decimal::law_signed_round_trip(m as i64);
    law_columns_say_their_count(n, 0);
    assert(count_column(n as int, 0) == decimal::signed(n as int));
    assert(lines[0] == heading(
        first_day,
        last_day,
        decimal::signed(m),
        decimal::signed(n as int),
    ));
    assert(lines[1].skip(13) == money_column(spent as int));
    assert(lines[2].skip(13) == money_column(received as int));
    assert(lines[3].skip(13) == money_column(net as int));
    assert(lines[4].skip(13) == money_column(share as int));
}

/// The front of the line on a month, of its parts.
pub open spec fn month_parts(
    month: Seq<char>,
    spent: Seq<char>,
    received: Seq<char>,
    net: Seq<char>,
    n: Seq<char>,
) -> Seq<char> {
    "  "@ + month + "  "@ + spent + seq![' '] + received + seq![' '] + net + "  "@ + n + "  "@
}

/// The line on a month shows what was spent and received in it, the net amount that
/// makes up the difference, and the number of transactions.
pub proof fn law_month_adds_up(month: Seq<char>, spent: i64, received: i64, n: i64)
    requires
        spent > i64::MIN,
        received > i64::MIN,
        -i64::MAX <= received - spent <= i64::MAX,
    ensures
        exists|a: Seq<char>, b: Seq<char>, c: Seq<char>, d: Seq<char>|
            month_line(month, spent as int, received as int, n as int)
                == #[trigger] month_parts(month, a, b, c, d) && says_amount(a, spent as int)
                && says_amount(b, received as int) && (money::minor_of(c, 2) matches Ok(net) && net
                + spent == received) && says_count(d, n as int),
{
    money::lemma_wrapped_in_range(received - spent);
    let net = (received - spent) as i64;
    law_columns_say_their_amount(spent);
    law_columns_say_their_amount(received);
    law_columns_say_their_amount(net);
    law_columns_say_their_count(n, 4);
    assert(month_line(month, spent as int, received as int, n as int) == month_parts(
        month,
        money_column(spent as int),
        money_column(received as int),
        money_column(net as int),
        count_column(n as int, 4),
    ));
}

/// The front of the line on a category, of its parts.
pub open spec fn parent_parts(name: Seq<char>, spent: Seq<char>, share: Seq<char>) -> Seq<char> {
    "  "@ + name + seq![' '] + spent + seq![' '] + share + seq![' ']
}

/// The line on a category shows its name, what was spent in it, and an even share of
/// that for each month.
pub proof fn law_category_line_adds_up(p: ParentView, months: i64)
    requires
        p.spent > i64::MIN,
    ensures
        exists|name: Seq<char>, a: Seq<char>, b: Seq<char>|
            parent_line(p, months as int) == #[trigger] parent_parts(name, a, b)
                && p.name.is_prefix_of(name) && name.len() >= 18 && says_amount(a, p.spent as int)
                && (money::minor_of(b, 2) matches Ok(share) && is_share(
                p.spent as int,
                months as int,
                share,
            )),
{
    lemma_share(p.spent as int, months as int);
    let share = money::quotient(p.spent as int, at_least_one(months as int)) as i64;
    law_columns_say_their_amount(p.spent);
    law_columns_say_their_amount(share);
    let name = text::padded_right(p.name, 18);
    assert(p.name.is_prefix_of(name));
    assert(parent_line(p, months as int) == parent_parts(
        name,
        money_column(p.spent as int),
        money_column(share as int),
    ));
}

/// The line on a row under its parent, of its parts.
pub open spec fn child_parts(name: Seq<char>, spent: Seq<char>, n: Seq<char>) -> Seq<char> {
    "    └ "@ + name + seq![' '] + spent + seq![' '] + n
}

/// The line on a row under its parent shows the name of its category, what was spent
/// in it, and the number of transactions in brackets.
pub proof fn law_child_line_shows_its_row(row: CategoryView)
    requires
        row.spent > i64::MIN,
    ensures
        exists|name: Seq<char>, a: Seq<char>, n: Seq<char>|
            child_line(row) == #[trigger] child_parts(name, a, n) && (row.category matches Some(c)
                ==> c.is_prefix_of(name)) && name.len() >= 14 && says_amount(a, row.spent as int)
                && text::trimmed(n) == seq!['('] + decimal::signed(row.n as int) + seq![')'],
{
    law_columns_say_their_amount(row.spent);
    let name = text::padded_right(child_name(row), 14);
    assert(child_name(row).is_prefix_of(name));
    let count = seq!['('] + decimal::signed(row.n as int) + seq![')'];
    lemma_padding_is_trimmed(count, 19);
    assert(child_line(row) == child_parts(
        name,
        money_column(row.spent as int),
        text::padded_left(count, 19),
    ));
}

/// The line on the total shows the total.
pub proof fn law_total_line_shows_the_total(grand: i64)
    requires
        grand > i64::MIN,
    ensures
        "  TOTAL"@.is_prefix_of(total_text(grand as int)),
        says_amount(total_text(grand as int).skip(20), grand as int),
{
    reveal_strlit("  ");
    reveal_strlit("TOTAL");
    reveal_strlit("  TOTAL");
    law_columns_say_their_amount(grand);
    let s = total_text(grand as int);
    assert(s.skip(21) == money_column(grand as int));
    assert(s.skip(20) == seq![' '] + money_column(grand as int));
    lemma_one_more_space(money_column(grand as int));
}

proof fn lemma_one_more_space(s: Seq<char>)
    ensures
        text::trimmed(seq![' '] + s) == text::trimmed(s),
{
    assert((seq![' '] + s).drop_first() == s);
}

/// The lines on a merchant and on what is not yet categorised show what was spent,
/// how often, and on what: of a merchant as much of the name as fits, and the
/// category.
pub proof fn law_merchant_lines_show_their_figures(
    spent: i64,
    n: i64,
    description: Seq<char>,
    category: Seq<char>,
)
    requires
        spent > i64::MIN,
    ensures
        exists|a: Seq<char>, k: Seq<char>|
            gap_text(spent as int, n as int, description) == #[trigger] spent_parts(
                a,
                k,
                description,
            ) && says_amount(a, spent as int) && says_count(k, n as int),
        exists|a: Seq<char>, k: Seq<char>, name: Seq<char>|
            merchant_text(spent as int, n as int, description, category) == #[trigger] spent_parts(
                a,
                k,
                name,
            ) + seq![' '] + category && says_amount(a, spent as int) && says_count(k, n as int)
                && name.len() == 28 && (description.len() <= 28 ==> description.is_prefix_of(name))
                && (description.len() > 28 ==> name.take(27) == description.take(27) && name[27]
                == '…'),
{
    law_columns_say_their_amount(spent);
    law_columns_say_their_count(n, 4);
    let (a, k) = (money_column(spent as int), count_column(n as int, 4));
    assert(gap_text(spent as int, n as int, description) == spent_parts(a, k, description));
    let cut = cut_to(description, 28);
    let name = text::padded_right(cut, 28);
    law_cut_text_fits(description, 28);
    reveal_strlit("…");
    assert(name.len() == 28);
    assert(description.len() <= 28 ==> description.is_prefix_of(name));
    if description.len() > 28 {
        assert(name == description.take(27) + "…"@);
        assert(name.take(27) == description.take(27));
    }
    assert(merchant_text(spent as int, n as int, description, category) == spent_parts(a, k, name)
        + seq![' '] + category);
}

/// The line on what was spent on something, of its parts.
pub open spec fn spent_parts(spent: Seq<char>, n: Seq<char>, what: Seq<char>) -> Seq<char> {
    "  "@ + spent + seq![' '] + n + "x  "@ + what
}

/// Under a parent stand all its rows that are of another category, and no others.
pub proof fn law_children_are_listed(rows: Seq<CategoryView>, name: Seq<char>, k: int)
    requires
        0 <= k < rows.len(),
    ensures
        rows[k].top == Some(name) && (rows[k].category matches Some(c) && c != name)
            ==> child_lines(rows, name).contains(child_line(rows[k])),
        child_lines(rows, name).len() <= rows.filter(
            |row: CategoryView| row.top == Some(name) && row.category != Some(name),
        ).len(),
    decreases rows.len(),
{
    let f = |row: CategoryView| row.top == Some(name) && row.category != Some(name);
    reveal(Seq::filter);
    let front = rows.drop_last();
    let (before, after) = (child_lines(front, name), child_lines(rows, name));
    if front.len() > 0 {
        let j = if k < front.len() {
            k
        } else {
            0
        };
        law_children_are_listed(front, name, j);
        if k < front.len() {
            assert(front[k] == rows[k]);
            if before.contains(child_line(rows[k])) {
                let i = choose|i: int| 0 <= i < before.len() && before[i] == child_line(rows[k]);
                assert(after[i] == before[i]);
            }
        }
    } else {
        assert(before.len() == 0);
    }
    if k == rows.len() - 1 && is_child(rows[k], name) {
        assert(after[after.len() - 1] == child_line(rows[k]));
    }
}

/// The number of transactions in all of some parents.
pub open spec fn counted_in(parents: Seq<ParentView>) -> int
    decreases parents.len(),
{
    if parents.len() == 0 {
        0
    } else {
        counted_in(parents.drop_last()) + parents.last().n
    }
}

/// The number of transactions in all rows.
pub open spec fn counted_on_rows(rows: Seq<CategoryView>) -> int
    decreases rows.len(),
{
    if rows.len() == 0 {
        0
    } else {
        counted_on_rows(rows.drop_last()) + rows.last().n
    }
}

proof fn lemma_counted_update(parents: Seq<ParentView>, k: int, p: ParentView)
    requires
        0 <= k < parents.len(),
    ensures
        counted_in(parents.update(k, p)) == counted_in(parents) - parents[k].n + p.n,
    decreases parents.len(),
{
    let all = parents.update(k, p);
    if k == parents.len() - 1 {
        assert(all.drop_last() == parents.drop_last());
    } else {
        lemma_counted_update(parents.drop_last(), k, p);
        assert(all.drop_last() == parents.drop_last().update(k, p));
    }
}

/// No transaction is lost or counted twice in rolling up.
pub proof fn law_every_transaction_is_counted_once(rows: Seq<CategoryView>)
    ensures
        money::wrapped(counted_in(rolled(rows))) == money::wrapped(counted_on_rows(rows)),
    decreases rows.len(),
{
    if rows.len() > 0 {
        let front = rows.drop_last();
        let row = rows.last();
        let before = rolled(front);
        law_every_transaction_is_counted_once(front);
        lemma_place_of_parent(before, top_name(row));
        let n = row.n as int;
        match place_of_parent(before, top_name(row)) {
            Some(k) => {
                let p = with_row(before[k], row);
                lemma_counted_update(before, k, p);
                let rest = counted_in(before) - before[k].n;
                lemma_wrapped_i64(before[k].n + n);
                money::lemma_wrapped_sum(before[k].n + n, rest);
            },
            None => {
                let p = ParentView { name: top_name(row), spent: row.spent, n: row.n };
                assert(before.push(p).drop_last() == before);
            },
        }
        money::lemma_wrapped_sum(counted_in(before), n);
        money::lemma_wrapped_sum(counted_on_rows(front), n);
    }
}

/// A number in its column reads as itself.
pub proof fn lemma_padded_number(n: int, width: nat)
    requires
        0 <= n <= u64::MAX,
    ensures
        says_number(text::padded_left(decimal::decimal(n), width), n),
        n <= i64::MAX ==> says_count(text::padded_left(decimal::decimal(n), width), n),
{
    decimal::lemma_decimal(n);
    let w = decimal::decimal(n);
    assert(text::is_digit(w[0]) && text::is_digit(w[w.len() - 1]));
    lemma_padding_is_trimmed(w, width);
    if n <= i64::MAX {
        decimal::law_signed_round_trip(n as i64);
    }
}

/// Whether a text, read as digits, is that number.
pub open spec fn says_number(s: Seq<char>, n: int) -> bool {
    text::all_digits(text::trimmed(s)) && decimal::number(text::trimmed(s)) == n
}

} // verus!
