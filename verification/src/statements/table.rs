//! A statement as a table of cells: finding columns, and reading cells.
use super::rows;
use super::{money_minor, parse_date};
use crate::calendar::Date;
use crate::money;
use crate::statements;
use crate::text;
use crate::text::{chars_of, matches_ignoring_case, trim, trimmed_copy};
use vstd::prelude::*;

verus! {

/// The cells of a list of records.
pub open spec fn cells(records: Seq<Vec<String>>) -> Seq<Seq<Seq<char>>> {
    Seq::new(records.len(), |i: int| text::views(records[i]@))
}

/// The cell of a row at a place.
pub open spec fn cell_at(row: Seq<Seq<char>>, i: int) -> Option<Seq<char>> {
    if 0 <= i < row.len() {
        Some(row[i])
    } else {
        None
    }
}

/// The cell of a row in a column that may be missing.
pub open spec fn cell_in(row: Seq<Seq<char>>, column: Option<usize>) -> Option<Seq<char>> {
    match column {
        Some(i) => cell_at(row, i as int),
        None => None,
    }
}

pub open spec fn str_opt(o: Option<&str>) -> Option<Seq<char>> {
    match o {
        Some(s) => Some(s@),
        None => None,
    }
}

pub fn cell<'a>(row: &'a [String], column: Option<usize>) -> (r: Option<&'a str>)
    ensures
        str_opt(r) == cell_in(text::views(row@), column),
{
    match column {
        Some(i) => if i < row.len() {
            Some(row[i].as_str())
        } else {
            None
        },
        None => None,
    }
}

/// A cell without the space around it.
pub open spec fn trimmed_in(row: Seq<Seq<char>>, column: Option<usize>) -> Option<Seq<char>> {
    match cell_in(row, column) {
        Some(c) => Some(text::trimmed(c)),
        None => None,
    }
}

pub fn trimmed_cell(row: &[String], column: Option<usize>) -> (r: Option<String>)
    ensures
        text::opt(r) == trimmed_in(text::views(row@), column),
{
    match cell(row, column) {
        Some(c) => Some(trimmed_copy(c)),
        None => None,
    }
}

/// A text where it is not empty.
pub open spec fn filled(o: Option<Seq<char>>) -> Option<Seq<char>> {
    match o {
        Some(s) => if s.len() > 0 {
            Some(s)
        } else {
            None
        },
        None => None,
    }
}

pub fn only_filled(o: Option<String>) -> (r: Option<String>)
    ensures
        text::opt(r) == filled(text::opt(o)),
{
    match o {
        Some(s) => if s.as_str().unicode_len() > 0 {
            Some(s)
        } else {
            None
        },
        None => None,
    }
}

/// A text, or an empty one where there is none.
pub open spec fn or_empty(o: Option<Seq<char>>) -> Seq<char> {
    match o {
        Some(s) => s,
        None => seq![],
    }
}

pub fn or_blank(o: Option<String>) -> (r: String)
    ensures
        r@ == or_empty(text::opt(o)),
{
    match o {
        Some(s) => s,
        None => String::new(),
    }
}

/// The date in a cell.
pub open spec fn date_of(row: Seq<Seq<char>>, column: Option<usize>) -> Option<Date> {
    match cell_in(row, column) {
        Some(c) => statements::statement_date(c),
        None => None,
    }
}

pub fn date_cell(row: &[String], column: Option<usize>) -> (r: Option<Date>)
    ensures
        r == date_of(text::views(row@), column),
        r matches Some(d) ==> d.valid(),
{
    match cell(row, column) {
        Some(c) => parse_date(c),
        None => None,
    }
}

/// The money in a cell: minor units, amount and currency.
pub open spec fn money_of(
    row: Seq<Seq<char>>,
    column: Option<usize>,
    default_currency: Seq<char>,
) -> Option<(int, Seq<char>, Seq<char>)> {
    match cell_in(row, column) {
        Some(c) => statements::minor_in(c, default_currency),
        None => None,
    }
}

pub fn money_cell(row: &[String], column: Option<usize>, default_currency: &str) -> (r: Option<
    (i64, String, String),
>)
    ensures
        statements::minor_view(r) == money_of(text::views(row@), column, default_currency@),
        r matches Some((m, _, _)) ==> m > i64::MIN,
{
    match cell(row, column) {
        Some(c) => money_minor(c, default_currency),
        None => None,
    }
}

/// An amount that was read can stand in a key without being cut.
pub proof fn lemma_money_lacks_colon(
    row: Seq<Seq<char>>,
    column: Option<usize>,
    default_currency: Seq<char>,
)
    ensures
        money_of(row, column, default_currency) matches Some((_, amount, _))
            ==> rows::lacks_colon(amount),
{
    if let Some(c) = cell_in(row, column) {
        if let Some((amount, _)) = statements::money_text(c, default_currency) {
            assert forall|i: int| 0 <= i < amount.len() implies amount[i] != ':' by {
                money::lemma_amount_characters(c, true, i);
            }
        }
    }
}

/// The minor units of the money in a cell.
pub open spec fn units_of(
    row: Seq<Seq<char>>,
    column: Option<usize>,
    default_currency: Seq<char>,
) -> Option<i64> {
    match money_of(row, column, default_currency) {
        Some((m, _, _)) => Some(m as i64),
        None => None,
    }
}

pub fn units_cell(row: &[String], column: Option<usize>, default_currency: &str) -> (r: Option<i64>)
    ensures
        r == units_of(text::views(row@), column, default_currency@),
{
    match money_cell(row, column, default_currency) {
        Some((m, _, _)) => Some(m),
        None => None,
    }
}

/// Whether a row holds nothing but space. Any other row that gives no
/// transaction is reported.
pub open spec fn is_blank(row: Seq<Seq<char>>) -> bool {
    forall|i: int| 0 <= i < row.len() ==> text::trimmed(#[trigger] row[i]).len() == 0
}

pub fn blank(row: &[String]) -> (r: bool)
    ensures
        r == is_blank(text::views(row@)),
{
    let ghost all = text::views(row@);
    let mut i: usize = 0;
    while i < row.len()
        invariant
            i <= row@.len(),
            all == text::views(row@),
            forall|j: int| 0 <= j < i ==> text::trimmed(#[trigger] all[j]).len() == 0,
        decreases row@.len() - i,
    {
        assert(all[i as int] == row@[i as int]@);
        let t = trimmed_copy(row[i].as_str());
        if t.as_str().unicode_len() > 0 {
            return false;
        }
        i = i + 1;
    }
    true
}

/// One more item is one more of those that are picked, if it is picked.
pub proof fn lemma_filter_last<A>(items: Seq<A>, picked: spec_fn(A) -> bool)
    requires
        items.len() > 0,
    ensures
        items.filter(picked).len() == items.drop_last().filter(picked).len() + (if picked(
            items.last(),
        ) {
            1nat
        } else {
            0nat
        }),
{
    reveal(Seq::filter);
}

// ---------------------------------------------------------------------------
// Headers
// ---------------------------------------------------------------------------

/// Whether a header cell has the given name, in capitals or not.
pub open spec fn is_named(cell: Seq<char>, name: Seq<char>) -> bool {
    text::alike(text::trimmed(cell), name)
}

/// The place of the first header cell with the given name.
pub open spec fn place(header: Seq<Seq<char>>, name: Seq<char>) -> Option<int>
    decreases header.len(),
{
    if header.len() == 0 {
        None
    } else if is_named(header[0], name) {
        Some(0)
    } else {
        match place(header.drop_first(), name) {
            Some(k) => Some(k + 1),
            None => None,
        }
    }
}

/// A place as the number of a column.
pub open spec fn column(place: Option<int>) -> Option<usize> {
    match place {
        Some(k) => Some(k as usize),
        None => None,
    }
}

/// The column whose header has the given name.
pub fn find(header: &[String], name: &str) -> (r: Option<usize>)
    ensures
        r == column(place(text::views(header@), name@)),
        (r is Some) == (place(text::views(header@), name@) is Some),
{
    let ghost all = text::views(header@);
    let mut i: usize = 0;
    assert(all.skip(0) == all);
    while i < header.len()
        invariant
            i <= header@.len(),
            all == text::views(header@),
            match place(all.skip(i as int), name@) {
                Some(k) => place(all, name@) == Some(k + i),
                None => place(all, name@) is None,
            },
        decreases header@.len() - i,
    {
        assert(all.skip(i as int)[0] == header@[i as int]@);
        assert(all.skip(i as int).drop_first() == all.skip(i + 1));
        let c = chars_of(header[i].as_str());
        if matches_ignoring_case(trim(c.as_slice()), name) {
            return Some(i);
        }
        i = i + 1;
    }
    None
}

/// Whether some header cell has the given name.
pub fn has(header: &[String], name: &str) -> (r: bool)
    ensures
        r == (place(text::views(header@), name@) is Some),
{
    find(header, name).is_some()
}

/// The first of two columns that there is.
pub open spec fn either(a: Option<usize>, b: Option<usize>) -> Option<usize> {
    if a is Some {
        a
    } else {
        b
    }
}

/// How many rows may stand before a header.
pub const HEADER_ROWS: usize = 10;

/// The first of the rows from `i` on, within the first ten, that looks like a
/// header.
pub open spec fn header_from(
    records: Seq<Seq<Seq<char>>>,
    i: int,
    is_header: spec_fn(Seq<Seq<char>>) -> bool,
) -> Option<int>
    decreases HEADER_ROWS - i,
{
    if i >= HEADER_ROWS || i >= records.len() {
        None
    } else if is_header(records[i]) {
        Some(i)
    } else {
        header_from(records, i + 1, is_header)
    }
}

/// The place of the header: of the first row, within the first ten, that has both
/// of the given names.
pub open spec fn header_place(
    records: Seq<Seq<Seq<char>>>,
    one: Seq<char>,
    other: Seq<char>,
) -> Option<int> {
    header_from(
        records,
        0,
        |row: Seq<Seq<char>>| place(row, one) is Some && place(row, other) is Some,
    )
}

pub fn header_row(records: &[Vec<String>], one: &str, other: &str) -> (r: Option<usize>)
    ensures
        match r {
            Some(k) => header_place(cells(records@), one@, other@) == Some(k as int) && k
                < records@.len(),
            None => header_place(cells(records@), one@, other@) is None,
        },
{
    let ghost all = cells(records@);
    let ghost f = |row: Seq<Seq<char>>| place(row, one@) is Some && place(row, other@) is Some;
    let mut i: usize = 0;
    while i < records.len() && i < HEADER_ROWS
        invariant
            i <= records@.len(),
            i <= HEADER_ROWS,
            all == cells(records@),
            f == (|row: Seq<Seq<char>>| place(row, one@) is Some && place(row, other@) is Some),
            header_from(all, i as int, f) == header_place(all, one@, other@),
        decreases records@.len() - i,
    {
        let row = records[i].as_slice();
        assert(all[i as int] == text::views(row@));
        if has(row, one) && has(row, other) {
            return Some(i);
        }
        i = i + 1;
    }
    None
}

// ---------------------------------------------------------------------------
// What cells say
// ---------------------------------------------------------------------------

/// Whether a row has a cell in a column.
pub open spec fn has_cell(row: Seq<Seq<char>>, column: Option<usize>) -> bool {
    column is Some && column->0 < row.len()
}

/// The text of the cell of a row in a column that it has.
pub open spec fn text_at(row: Seq<Seq<char>>, column: Option<usize>) -> Seq<char> {
    row[column->0 as int]
}

/// Whether a value is the money that a cell shows, sign and all, or is missing
/// where the cell is or shows none.
pub open spec fn shows(
    row: Seq<Seq<char>>,
    column: Option<usize>,
    default_currency: Seq<char>,
    value: Option<i64>,
) -> bool {
    match value {
        Some(minor) => {
            &&& has_cell(row, column)
            &&& statements::minor_in(text_at(row, column), default_currency) matches Some(
                (shown, _, _),
            )
            &&& shown == minor
            &&& minor < 0 ==> statements::says_negative(text_at(row, column))
            &&& minor > 0 ==> !statements::says_negative(text_at(row, column))
        },
        None => !has_cell(row, column) || statements::minor_in(
            text_at(row, column),
            default_currency,
        ) is None,
    }
}

/// The money that a cell is read as is the money that it shows.
pub proof fn law_money_is_as_shown(
    row: Seq<Seq<char>>,
    column: Option<usize>,
    default_currency: Seq<char>,
)
    ensures
        shows(row, column, default_currency, units_of(row, column, default_currency)),
        match money_of(row, column, default_currency) {
            Some((minor, amount, currency)) => shows(
                row,
                column,
                default_currency,
                Some(minor as i64),
            ) && statements::minor_in(text_at(row, column), default_currency) == Some(
                (minor, amount, currency),
            ) && minor as i64 == minor,
            None => shows(row, column, default_currency, None),
        },
{
    if has_cell(row, column) {
        statements::law_sign_of_a_money_text(text_at(row, column), default_currency);
    }
}

/// A column that is found is the first whose header reads the name, in capitals or
/// not; where none is found, no header does.
pub proof fn law_columns_are_found_by_name(header: Seq<Seq<char>>, name: Seq<char>)
    ensures
        match place(header, name) {
            Some(k) => 0 <= k < header.len() && text::alike(text::trimmed(header[k]), name)
                && forall|i: int|
                0 <= i < k ==> !text::alike(text::trimmed(#[trigger] header[i]), name),
            None => forall|i: int|
                0 <= i < header.len() ==> !text::alike(text::trimmed(#[trigger] header[i]), name),
        },
    decreases header.len(),
{
    if header.len() > 0 && !is_named(header[0], name) {
        let rest = header.drop_first();
        law_columns_are_found_by_name(rest, name);
        assert forall|i: int| 0 < i < header.len() implies #[trigger] header[i] == rest[i - 1] by {
        }
    }
}

/// Whether a column is the first whose header reads the name, or is missing where
/// none does.
pub open spec fn is_column(header: Seq<Seq<char>>, name: Seq<char>, column: Option<usize>) -> bool {
    match column {
        Some(c) => c < header.len() && text::alike(text::trimmed(header[c as int]), name)
            && forall|i: int|
            0 <= i < c ==> !text::alike(text::trimmed(#[trigger] header[i]), name),
        None => forall|i: int|
            0 <= i < header.len() ==> !text::alike(text::trimmed(#[trigger] header[i]), name),
    }
}

/// The column of a name is the first that has it. A row has no more cells than can
/// be counted.
pub proof fn lemma_column_of_name(header: Seq<Seq<char>>, name: Seq<char>)
    requires
        header.len() <= usize::MAX,
    ensures
        is_column(header, name, column(place(header, name))),
{
    law_columns_are_found_by_name(header, name);
}

/// The header is the first row that has both names, and stands among the first
/// ten; where there is none, none of those has both.
pub proof fn law_header_is_the_first(
    records: Seq<Seq<Seq<char>>>,
    one: Seq<char>,
    other: Seq<char>,
)
    ensures
        match header_place(records, one, other) {
            Some(k) => 0 <= k < records.len() && k < 10 && has_names(records[k], one, other)
                && forall|i: int| 0 <= i < k ==> !has_names(#[trigger] records[i], one, other),
            None => forall|i: int|
                0 <= i < records.len() && i < 10 ==> !has_names(#[trigger] records[i], one, other),
        },
{
    lemma_header_from(records, 0, one, other);
}

/// Whether a row has both names among its cells.
pub open spec fn has_names(row: Seq<Seq<char>>, one: Seq<char>, other: Seq<char>) -> bool {
    &&& exists|i: int| 0 <= i < row.len() && text::alike(text::trimmed(#[trigger] row[i]), one)
    &&& exists|i: int| 0 <= i < row.len() && text::alike(text::trimmed(#[trigger] row[i]), other)
}

proof fn lemma_header_from(
    records: Seq<Seq<Seq<char>>>,
    from: int,
    one: Seq<char>,
    other: Seq<char>,
)
    requires
        0 <= from <= 10,
    ensures
        ({
            let f = |row: Seq<Seq<char>>| place(row, one) is Some && place(row, other) is Some;
            match header_from(records, from, f) {
                Some(k) => from <= k < records.len() && k < 10 && has_names(records[k], one, other)
                    && forall|i: int| from <= i < k ==> !has_names(#[trigger] records[i], one, other),
                None => forall|i: int|
                    from <= i < records.len() && i < 10 ==> !has_names(
                        #[trigger] records[i],
                        one,
                        other,
                    ),
            }
        }),
    decreases 10 - from,
{
    if from < 10 && from < records.len() {
        let row = records[from];
        law_columns_are_found_by_name(row, one);
        law_columns_are_found_by_name(row, other);
        lemma_header_from(records, from + 1, one, other);
        assert(has_names(row, one, other) == (place(row, one) is Some && place(row, other) is Some));
    }
}

} // verus!
