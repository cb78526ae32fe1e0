//! Connecting a bank: finding it, reading what it sends back, and deciding
//! whether to go on.
use crate::calendar;
use crate::calendar::{days_since, parse_by, Date};
use crate::callback::AuthCallback;
use crate::decimal;
use crate::decimal::{push_decimal, push_signed, read_unsigned, signed_text};
use crate::enable_banking::Aspsp;
use crate::money;
use crate::money::divide;
use crate::spending;
use crate::text;
use crate::text::{
    can_cut, chars_of, comes_before, count_bytes, find_first, find_last, find_text, first_bytes,
    matches_ignoring_case, owned, pad_left, pad_right, same, starts_with, string_of, to_upper, trim,
};
use vstd::prelude::*;
use vstd::slice::slice_subrange;
use vstd::utf8;

verus! {

// ---------------------------------------------------------------------------
// Percent-encoding
// ---------------------------------------------------------------------------

/// The value of a hexadecimal digit.
pub open spec fn hex_value(b: u8) -> Option<int> {
    if 0x30 <= b <= 0x39 {
        Some(b - 0x30)
    } else if 0x41 <= b <= 0x46 {
        Some(b - 0x41 + 10)
    } else if 0x61 <= b <= 0x66 {
        Some(b - 0x61 + 10)
    } else {
        None
    }
}

/// The value of two bytes as `u8::from_str_radix` reads them in base sixteen:
/// two digits, or a plus sign and a digit.
pub open spec fn hex_pair(a: u8, b: u8) -> Option<int> {
    match hex_value(b) {
        None => None,
        Some(low) => if a == 0x2b {
            Some(low)
        } else {
            match hex_value(a) {
                Some(high) => Some(16 * high + low),
                None => None,
            }
        },
    }
}

fn hex_digit(b: u8) -> (r: Option<u8>)
    ensures
        match r {
            Some(v) => hex_value(b) == Some(v as int) && v < 16,
            None => hex_value(b) is None,
        },
{
    if 0x30 <= b && b <= 0x39 {
        Some(b - 0x30)
    } else if 0x41 <= b && b <= 0x46 {
        Some(b - 0x41 + 10)
    } else if 0x61 <= b && b <= 0x66 {
        Some(b - 0x61 + 10)
    } else {
        None
    }
}

fn read_pair(a: u8, b: u8) -> (r: Option<u8>)
    ensures
        match r {
            Some(v) => hex_pair(a, b) == Some(v as int),
            None => hex_pair(a, b) is None,
        },
{
    match hex_digit(b) {
        None => None,
        Some(low) => if a == 0x2b {
            Some(low)
        } else {
            match hex_digit(a) {
                Some(high) => Some(16 * high + low),
                None => None,
            }
        },
    }
}

/// The bytes that percent-encoded ones stand for. A percent sign with two
/// hexadecimal digits is one byte, a plus sign is a space, and everything else
/// is itself.
pub open spec fn decoded(bytes: Seq<u8>) -> Seq<u8>
    decreases bytes.len(),
{
    if bytes.len() == 0 {
        seq![]
    } else if bytes[0] == 0x25 && bytes.len() > 2 && hex_pair(bytes[1], bytes[2]) is Some {
        seq![hex_pair(bytes[1], bytes[2])->0 as u8] + decoded(bytes.skip(3))
    } else if bytes[0] == 0x2b {
        seq![0x20u8] + decoded(bytes.skip(1))
    } else {
        seq![bytes[0]] + decoded(bytes.skip(1))
    }
}

fn decode(bytes: &[u8]) -> (r: Vec<u8>)
    ensures
        r@ == decoded(bytes@),
{
    let mut out: Vec<u8> = Vec::new();
    let count: usize = bytes.len();
    let mut i: usize = 0;
    assert(bytes@.skip(0) == bytes@);
    assert(out@ + decoded(bytes@) == decoded(bytes@));
    while i < count
        invariant
            count == bytes@.len(),
            i <= count,
            out@ + decoded(bytes@.skip(i as int)) == decoded(bytes@),
        decreases count - i,
    {
        let ghost rest = bytes@.skip(i as int);
        let ghost before = out@;
        assert(rest[0] == bytes@[i as int]);
        assert(rest.skip(1) == bytes@.skip(i + 1));
        let pair = if bytes[i] == 0x25 && count - i > 2 {
            assert(rest[1] == bytes@[i + 1]);
            assert(rest[2] == bytes@[i + 2]);
            assert(rest.skip(3) == bytes@.skip(i + 3));
            read_pair(bytes[i + 1], bytes[i + 2])
        } else {
            None
        };
        match pair {
            Some(byte) => {
                out.push(byte);
                assert(before.push(byte) + decoded(rest.skip(3)) == before + (seq![byte] + decoded(
                    rest.skip(3),
                )));
                i = i + 3;
            },
            None => {
                let byte: u8 = if bytes[i] == 0x2b {
                    0x20
                } else {
                    bytes[i]
                };
                out.push(byte);
                assert(before.push(byte) + decoded(rest.skip(1)) == before + (seq![byte] + decoded(
                    rest.skip(1),
                )));
                i = i + 1;
            },
        }
    }
    assert(out@ + decoded(bytes@.skip(i as int)) == out@);
    out
}

/// What `String::from_utf8_lossy` makes of some bytes.
pub uninterp spec fn lossy(bytes: Seq<u8>) -> Seq<char>;

/// `String::from_utf8_lossy`. What becomes of bytes that are no UTF-8 is left to
/// the name `lossy`; those that are give the text that they encode.
#[verifier::external_body]
fn lossy_text(bytes: &[u8]) -> (r: String)
    ensures
        r@ == lossy(bytes@),
        utf8::valid_utf8(bytes@) ==> r@ == utf8::decode_utf8(bytes@),
{
    String::from_utf8_lossy(bytes).into_owned()
}

/// The text that a percent-encoded one stands for.
pub open spec fn percent_text(s: Seq<char>) -> Seq<char> {
    lossy(decoded(utf8::encode_utf8(s)))
}

/// Minimal percent-decoding. Authorization codes are usually URL-safe, but
/// error_description is prose and will contain encoded spaces.
pub fn percent_decode(input: &str) -> (r: String)
    ensures
        r@ == percent_text(input@),
        utf8::valid_utf8(decoded(utf8::encode_utf8(input@))) ==> r@ == utf8::decode_utf8(
            decoded(utf8::encode_utf8(input@)),
        ),
{
    let bytes = decode(input.as_bytes());
    lossy_text(bytes.as_slice())
}

proof fn lemma_plain_bytes(bytes: Seq<u8>)
    requires
        !bytes.contains(0x25),
        !bytes.contains(0x2b),
    ensures
        decoded(bytes) == bytes,
    decreases bytes.len(),
{
    if bytes.len() > 0 {
        let rest = bytes.skip(1);
        assert(bytes.contains(bytes[0]));
        assert forall|i: int| 0 <= i < rest.len() implies rest[i] != 0x25 && rest[i] != 0x2b by {
            assert(rest[i] == bytes[i + 1]);
        }
        lemma_plain_bytes(rest);
        assert(seq![bytes[0]] + rest == bytes);
    }
}

/// A text whose bytes hold neither a percent nor a plus sign decodes to itself.
pub proof fn law_plain_text_is_itself(s: Seq<char>)
    requires
        !utf8::encode_utf8(s).contains(0x25),
        !utf8::encode_utf8(s).contains(0x2b),
    ensures
        utf8::valid_utf8(decoded(utf8::encode_utf8(s))),
        utf8::decode_utf8(decoded(utf8::encode_utf8(s))) == s,
{
    lemma_plain_bytes(utf8::encode_utf8(s));
    utf8::encode_utf8_valid_utf8(s);
    utf8::encode_utf8_decode_utf8(s);
}

// ---------------------------------------------------------------------------
// Queries
// ---------------------------------------------------------------------------

/// The name and the text of one part of a query; a part without an equals sign
/// is none.
pub open spec fn pair_in(part: Seq<char>) -> Option<(Seq<char>, Seq<char>)> {
    let k = text::first_at(part, '=');
    if k < part.len() {
        Some((part.take(k), percent_text(part.skip(k + 1))))
    } else {
        None
    }
}

/// The pairs in a query, in order. Its parts stand between ampersands.
pub open spec fn pairs_in(query: Seq<char>) -> Seq<(Seq<char>, Seq<char>)>
    decreases query.len(),
{
    let k = text::first_at(query, '&');
    let here = match pair_in(query.take(k)) {
        Some(p) => seq![p],
        None => seq![],
    };
    if 0 <= k < query.len() {
        here + pairs_in(query.skip(k + 1))
    } else {
        here
    }
}

/// Pairs of texts as plain values.
pub open spec fn pair_views(pairs: Seq<(String, String)>) -> Seq<(Seq<char>, Seq<char>)> {
    Seq::new(pairs.len(), |i: int| (pairs[i].0@, pairs[i].1@))
}

pub fn parse_query(query: &str) -> (r: Vec<(String, String)>)
    ensures
        pair_views(r@) == pairs_in(query@),
{
    let all = chars_of(query);
    let count: usize = all.len();
    let mut r: Vec<(String, String)> = Vec::new();
    let mut start: usize = 0;
    assert(all@.skip(0) == all@);
    assert(pair_views(r@) + pairs_in(all@) == pairs_in(all@));
    loop
        invariant
            count == all@.len(),
            all@ == query@,
            start <= count,
            pair_views(r@) + pairs_in(all@.skip(start as int)) == pairs_in(query@),
        decreases count - start,
    {
        let rest = slice_subrange(all.as_slice(), start, count);
        assert(rest@ == all@.skip(start as int));
        let len: usize = rest.len();
        let end: usize = find_first(rest, '&');
        let part = slice_subrange(rest, 0, end);
        assert(part@ == rest@.take(end as int));
        let ghost before = r@;
        let k: usize = find_first(part, '=');
        if k < part.len() {
            let name = string_of(slice_subrange(part, 0, k));
            let value = string_of(slice_subrange(part, k + 1, part.len()));
            assert(value@ == part@.skip(k + 1));
            r.push((name, percent_decode(value.as_str())));
            assert(pair_in(part@) == Some(pair_views(r@)[before.len() as int]));
            assert(pair_views(r@) == pair_views(before) + seq![pair_in(part@)->0]);
        }
        if end >= len {
            assert(pair_views(r@) == pairs_in(query@));
            return r;
        }
        assert(rest@.skip(end + 1) == all@.skip(start + end + 1));
        assert(pair_views(r@) + pairs_in(all@.skip(start + end + 1)) == pairs_in(query@));
        start = start + end + 1;
    }
}

/// The text of the last pair with the given name.
pub open spec fn value_of(pairs: Seq<(Seq<char>, Seq<char>)>, name: Seq<char>) -> Option<Seq<char>>
    decreases pairs.len(),
{
    if pairs.len() == 0 {
        None
    } else if pairs.last().0 == name {
        Some(pairs.last().1)
    } else {
        value_of(pairs.drop_last(), name)
    }
}

fn find_value(pairs: &Vec<(String, String)>, name: &str) -> (r: Option<String>)
    ensures
        text::opt(r) == value_of(pair_views(pairs@), name@),
{
    let ghost views = pair_views(pairs@);
    let mut n: usize = pairs.len();
    assert(views.take(n as int) == views);
    while n > 0
        invariant
            n <= pairs@.len(),
            views == pair_views(pairs@),
            value_of(views.take(n as int), name@) == value_of(views, name@),
        decreases n,
    {
        assert(views.take(n as int).drop_last() == views.take(n - 1));
        assert(views.take(n as int).last() == views[n - 1]);
        if same(pairs[n - 1].0.as_str(), name) {
            return Some(owned(pairs[n - 1].1.as_str()));
        }
        n = n - 1;
    }
    None
}

// ---------------------------------------------------------------------------
// What is pasted
// ---------------------------------------------------------------------------

/// The query of an address, or the whole text where it has no question mark.
pub open spec fn query_of(input: Seq<char>) -> Seq<char> {
    let k = text::first_at(input, '?');
    if k < input.len() {
        input.skip(k + 1)
    } else {
        input
    }
}

/// Whether a callback is what a pasted text says: the whole redirected address,
/// or a bare code.
pub open spec fn is_pasted(c: AuthCallback, input: Seq<char>) -> bool {
    if !input.contains('=') {
        &&& text::opt(c.code) == Some(input)
        &&& c.state is None
        &&& c.error is None
        &&& c.error_description is None
    } else {
        let pairs = pairs_in(query_of(input));
        &&& text::opt(c.code) == value_of(pairs, "code"@)
        &&& text::opt(c.state) == value_of(pairs, "state"@)
        &&& text::opt(c.error) == value_of(pairs, "error"@)
        &&& text::opt(c.error_description) == value_of(pairs, "error_description"@)
    }
}

/// What a pasted line says; nothing where it is blank.
pub fn pasted(line: &str) -> (r: Option<AuthCallback>)
    ensures
        match r {
            Some(c) => text::trimmed(line@).len() > 0 && is_pasted(c, text::trimmed(line@)),
            None => text::trimmed(line@).len() == 0,
        },
{
    let all = chars_of(line);
    let input = trim(all.as_slice());
    let count: usize = input.len();
    if count == 0 {
        return None;
    }
    proof {
        text::lemma_first_at_bounds(input@, '=');
        text::lemma_first_at_bounds(input@, '?');
    }
    if find_first(input, '=') == count {
        assert(!input@.contains('='));
        return Some(
            AuthCallback {
                code: Some(string_of(input)),
                state: None,
                error: None,
                error_description: None,
            },
        );
    }
    assert(input@[text::first_at(input@, '=')] == '=');
    let k: usize = find_first(input, '?');
    let query = if k < count {
        string_of(slice_subrange(input, k + 1, count))
    } else {
        string_of(input)
    };
    assert(query@ == query_of(input@));
    let pairs = parse_query(query.as_str());
    Some(
        AuthCallback {
            code: find_value(&pairs, "code"),
            state: find_value(&pairs, "state"),
            error: find_value(&pairs, "error"),
            error_description: find_value(&pairs, "error_description"),
        },
    )
}

// ---------------------------------------------------------------------------
// Whether to go on
// ---------------------------------------------------------------------------

/// What is done after a callback has arrived.
#[derive(Debug)]
pub enum Verdict {
    /// The bank refused: with this error and this description.
    Refused(String, String),
    /// The state is not that of the authorisation that is waited for.
    StateMismatch,
    /// There is no state, and no human moved the value by hand.
    MissingState,
    /// There is no code. Whether the state was checked.
    MissingCode(bool),
    /// Exchange this code. Whether the state was checked.
    GoOn(String, bool),
}

/// Whether a verdict is right.
///
/// A pasted bare code carries no state. The risk that the state defends against
/// does not apply when a human moved the value by hand, so it is checked when
/// present and passed over when not.
pub open spec fn is_verdict(
    v: Verdict,
    c: AuthCallback,
    pending: Option<i64>,
    expected: i64,
    manual: bool,
) -> bool {
    if c.error is Some {
        v matches Verdict::Refused(e, d) && c.error == Some(e) && d@ == (
        match c.error_description {
            Some(t) => t@,
            None => Seq::empty(),
        })
    } else if c.state is Some && pending != Some(expected) {
        v is StateMismatch
    } else if c.state is None && !manual {
        v is MissingState
    } else if c.code is None {
        v matches Verdict::MissingCode(checked) && checked == (c.state is Some)
    } else {
        v matches Verdict::GoOn(code, checked) && c.code == Some(code) && checked == (c.state
            is Some)
    }
}

/// Judges a callback, given the authorisation that is pending under its state
/// and the one that is waited for.
pub fn judge(callback: AuthCallback, pending: Option<i64>, expected: i64, manual: bool) -> (r:
    Verdict)
    ensures
        is_verdict(r, callback, pending, expected, manual),
{
    if let Some(error) = callback.error {
        let description = match callback.error_description {
            Some(d) => d,
            None => String::new(),
        };
        return Verdict::Refused(error, description);
    }
    let checked = callback.state.is_some();
    if checked {
        let matched = match pending {
            Some(id) => id == expected,
            None => false,
        };
        if !matched {
            return Verdict::StateMismatch;
        }
    } else if !manual {
        return Verdict::MissingState;
    }
    match callback.code {
        Some(code) => Verdict::GoOn(code, checked),
        None => Verdict::MissingCode(checked),
    }
}

/// Nothing is exchanged against a state that is not the expected one, nor, unless
/// a human pasted the value, against no state at all.
pub proof fn law_only_the_expected_state_goes_on(
    v: Verdict,
    c: AuthCallback,
    pending: Option<i64>,
    expected: i64,
    manual: bool,
)
    requires
        is_verdict(v, c, pending, expected, manual),
        v is GoOn,
    ensures
        c.error is None,
        c.state is Some ==> pending == Some(expected),
        c.state is None ==> manual,
        v matches Verdict::GoOn(_, checked) && checked == (c.state is Some),
{
}

// ---------------------------------------------------------------------------
// Banks
// ---------------------------------------------------------------------------

/// The names of some banks.
pub open spec fn names_of(aspsps: Seq<Aspsp>) -> Seq<Seq<char>> {
    Seq::new(aspsps.len(), |i: int| aspsps[i].name@)
}

/// The place of the first bank of that name, in capitals or not.
pub open spec fn place_of_bank(names: Seq<Seq<char>>, name: Seq<char>) -> Option<int>
    decreases names.len(),
{
    if names.len() == 0 {
        None
    } else if text::alike(names[0], name) {
        Some(0)
    } else {
        match place_of_bank(names.drop_first(), name) {
            Some(k) => Some(k + 1),
            None => None,
        }
    }
}

/// The bank of that name. Always looked up fresh: there is no stable identifier
/// and names change on rebrand.
pub fn find_bank(aspsps: &Vec<Aspsp>, name: &str) -> (r: Option<usize>)
    ensures
        match r {
            Some(k) => k < aspsps@.len() && place_of_bank(names_of(aspsps@), name@) == Some(
                k as int,
            ),
            None => place_of_bank(names_of(aspsps@), name@) is None,
        },
{
    let ghost names = names_of(aspsps@);
    let mut i: usize = 0;
    assert(names.skip(0) == names);
    while i < aspsps.len()
        invariant
            i <= aspsps@.len(),
            names == names_of(aspsps@),
            match place_of_bank(names.skip(i as int), name@) {
                Some(k) => place_of_bank(names, name@) == Some(k + i),
                None => place_of_bank(names, name@) is None,
            },
        decreases aspsps@.len() - i,
    {
        assert(names.skip(i as int)[0] == aspsps@[i as int].name@);
        assert(names.skip(i as int).drop_first() == names.skip(i + 1));
        let c = chars_of(aspsps[i].name.as_str());
        if matches_ignoring_case(c.as_slice(), name) {
            return Some(i);
        }
        i = i + 1;
    }
    None
}

fn copy_names(aspsps: &Vec<Aspsp>) -> (r: Vec<String>)
    ensures
        text::views(r@) == names_of(aspsps@),
{
    let mut r: Vec<String> = Vec::new();
    let mut i: usize = 0;
    while i < aspsps.len()
        invariant
            i <= aspsps@.len(),
            r@.len() == i,
            forall|j: int| 0 <= j < i ==> (#[trigger] r@[j])@ == aspsps@[j].name@,
        decreases aspsps@.len() - i,
    {
        r.push(owned(aspsps[i].name.as_str()));
        i = i + 1;
    }
    assert(text::views(r@) == names_of(aspsps@));
    r
}

/// The message that there is no such bank, with those that there are.
pub open spec fn unknown_text(
    names: Seq<Seq<char>>,
    name: Seq<char>,
    country: Seq<char>,
) -> Seq<char> {
    "'"@ + name + "' not found in "@ + country + ". Available: "@ + text::joined(names, ", "@)
}

pub fn unknown_bank(aspsps: &Vec<Aspsp>, name: &str, country: &str) -> (r: String)
    ensures
        r@ == unknown_text(names_of(aspsps@), name@, country@),
{
    let mut s = owned("'");
    s.append(name);
    s.append("' not found in ");
    s.append(country);
    s.append(". Available: ");
    let names = copy_names(aspsps);
    let list = text::join(names.as_slice(), ", ");
    s.append(list.as_str());
    s
}

// ---------------------------------------------------------------------------
// Addresses
// ---------------------------------------------------------------------------

#[derive(Debug, Clone, Copy, PartialEq, Eq, Structural)]
pub enum PortError {
    NoScheme,
    BadPort,
}

/// The part of a text between the first `sep` and the next, if it has one.
pub open spec fn second_part(s: Seq<char>, sep: Seq<char>) -> Option<Seq<char>> {
    match text::place_of(s, sep) {
        Some(k) => {
            let rest = s.skip(k + sep.len());
            match text::place_of(rest, sep) {
                Some(j) => Some(rest.take(j)),
                None => Some(rest),
            }
        },
        None => None,
    }
}

/// The port that an address names, or the one that its scheme implies.
pub open spec fn port_of(url: Seq<char>) -> Result<int, PortError> {
    match second_part(url, "://"@) {
        None => Err(PortError::NoScheme),
        Some(after) => {
            let host = after.take(text::first_at(after, '/'));
            let k = text::last_at(host, ':');
            if k >= 0 {
                match decimal::unsigned_in(host.skip(k + 1), 65535) {
                    Some(p) => Ok(p),
                    None => Err(PortError::BadPort),
                }
            } else if "https"@.is_prefix_of(url) {
                Ok(443)
            } else {
                Ok(80)
            }
        },
    }
}

/// Derive the listen port from the redirect address so the two cannot drift
/// apart.
pub fn callback_port(redirect_url: &str) -> (r: Result<u16, PortError>)
    ensures
        match r {
            Ok(p) => port_of(redirect_url@) == Ok::<int, PortError>(p as int),
            Err(e) => port_of(redirect_url@) == Err::<int, PortError>(e),
        },
{
    let all = chars_of(redirect_url);
    let url = all.as_slice();
    let count: usize = url.len();
    proof {
        reveal_strlit("://");
    }
    let rest = match find_text(url, "://") {
        Some(k) => slice_subrange(url, k + 3, count),
        None => {
            return Err(PortError::NoScheme);
        },
    };
    let after = match find_text(rest, "://") {
        Some(j) => slice_subrange(rest, 0, j),
        None => rest,
    };
    assert(second_part(url@, "://"@) == Some(after@));
    let host = slice_subrange(after, 0, find_first(after, '/'));
    assert(host@ == after@.take(text::first_at(after@, '/')));
    let len: usize = host.len();
    match find_last(host, ':') {
        Some(k) => {
            let port = slice_subrange(host, k + 1, len);
            assert(port@ == host@.skip(k + 1));
            match read_unsigned(port, 65535) {
                Some(p) => Ok(p as u16),
                None => Err(PortError::BadPort),
            }
        },
        None => if starts_with(url, "https") {
            Ok(443)
        } else {
            Ok(80)
        },
    }
}

/// A text without all the `front`s that it begins with.
pub open spec fn without_fronts(s: Seq<char>, front: Seq<char>) -> Seq<char>
    decreases s.len(),
{
    if front.len() > 0 && front.is_prefix_of(s) {
        without_fronts(s.skip(front.len() as int), front)
    } else {
        s
    }
}

/// The file that a database address names.
pub open spec fn path_of(url: Seq<char>) -> Seq<char> {
    let s = without_fronts(without_fronts(url, "sqlite://"@), "sqlite:"@);
    s.take(text::first_at(s, '?'))
}

fn drop_fronts<'a>(s: &'a [char], front: &str, n: usize) -> (r: &'a [char])
    requires
        n == front@.len(),
        n > 0,
    ensures
        r@ == without_fronts(s@, front@),
{
    let mut rest = s;
    while starts_with(rest, front)
        invariant
            n == front@.len(),
            n > 0,
            without_fronts(rest@, front@) == without_fronts(s@, front@),
        decreases rest@.len(),
    {
        let len: usize = rest.len();
        let shorter = slice_subrange(rest, n, len);
        assert(shorter@ == rest@.skip(n as int));
        rest = shorter;
    }
    rest
}

/// The file that a database address names. Creating the database creates the
/// file, not the directory holding it.
pub fn database_path(url: &str) -> (r: String)
    ensures
        r@ == path_of(url@),
{
    let all = chars_of(url);
    proof {
        reveal_strlit("sqlite://");
        reveal_strlit("sqlite:");
    }
    let a = drop_fronts(all.as_slice(), "sqlite://", 9);
    let b = drop_fronts(a, "sqlite:", 7);
    let path = slice_subrange(b, 0, find_first(b, '?'));
    assert(path@ == path_of(url@));
    string_of(path)
}

// ---------------------------------------------------------------------------
// Listings
// ---------------------------------------------------------------------------

/// The place at which a bank is set among banks that are in order: behind all
/// those whose names do not come after its own.
pub open spec fn place_for(banks: Seq<Aspsp>, bank: Aspsp) -> int
    decreases banks.len(),
{
    if banks.len() == 0 || !text::sorts_before(bank.name@, banks.last().name@) {
        banks.len() as int
    } else {
        place_for(banks.drop_last(), bank)
    }
}

/// The banks in the order of their names; those of one name as they stood.
pub open spec fn by_name(banks: Seq<Aspsp>) -> Seq<Aspsp>
    decreases banks.len(),
{
    if banks.len() == 0 {
        seq![]
    } else {
        let front = by_name(banks.drop_last());
        front.insert(place_for(front, banks.last()), banks.last())
    }
}

proof fn lemma_place_for(banks: Seq<Aspsp>, bank: Aspsp)
    ensures
        0 <= place_for(banks, bank) <= banks.len(),
        forall|i: int|
            place_for(banks, bank) <= i < banks.len() ==> text::sorts_before(
                bank.name@,
                (#[trigger] banks[i]).name@,
            ),
        place_for(banks, bank) > 0 ==> !text::sorts_before(
            bank.name@,
            banks[place_for(banks, bank) - 1].name@,
        ),
    decreases banks.len(),
{
    if banks.len() > 0 && text::sorts_before(bank.name@, banks.last().name@) {
        lemma_place_for(banks.drop_last(), bank);
        let front = banks.drop_last();
        assert forall|i: int| place_for(banks, bank) <= i < banks.len() implies text::sorts_before(
            bank.name@,
            (#[trigger] banks[i]).name@,
        ) by {
            if i < front.len() {
                assert(banks[i] == front[i]);
            }
        }
    }
}

fn find_place(banks: &Vec<Aspsp>, bank: &Aspsp) -> (r: usize)
    ensures
        r == place_for(banks@, *bank),
        r <= banks@.len(),
{
    let mut n: usize = banks.len();
    assert(banks@.take(n as int) == banks@);
    while n > 0 && comes_before(bank.name.as_str(), banks[n - 1].name.as_str())
        invariant
            n <= banks@.len(),
            place_for(banks@.take(n as int), *bank) == place_for(banks@, *bank),
        decreases n,
    {
        assert(banks@.take(n as int).drop_last() == banks@.take(n - 1));
        assert(banks@.take(n as int).last() == banks@[n - 1]);
        n = n - 1;
    }
    proof {
        let t = banks@.take(n as int);
        if n > 0 {
            assert(t.last() == banks@[n - 1]);
        }
    }
    n
}

/// Sorts banks by name.
pub fn sort_banks(banks: Vec<Aspsp>) -> (r: Vec<Aspsp>)
    ensures
        r@ == by_name(banks@),
{
    let ghost all = banks@;
    let mut left = banks;
    let mut sorted: Vec<Aspsp> = Vec::new();
    assert(all.skip(0) == all);
    assert(all.take(0) == Seq::<Aspsp>::empty());
    while left.len() > 0
        invariant
            left@.len() <= all.len(),
            left@ == all.skip(all.len() - left@.len()),
            sorted@ == by_name(all.take(all.len() - left@.len())),
        decreases left@.len(),
    {
        let ghost done = all.len() - left@.len();
        assert(all.take(done + 1).drop_last() == all.take(done));
        assert(all.take(done + 1).last() == all[done]);
        let bank = left.remove(0);
        assert(left@ == all.skip(done + 1));
        let k: usize = find_place(&sorted, &bank);
        sorted.insert(k, bank);
    }
    assert(all.take(all.len() as int) == all);
    sorted
}

/// Whether no bank comes before an earlier one.
pub open spec fn in_name_order(banks: Seq<Aspsp>) -> bool {
    forall|i: int, j: int|
        0 <= i < j < banks.len() ==> !text::sorts_before(
            (#[trigger] banks[j]).name@,
            (#[trigger] banks[i]).name@,
        )
}

/// Sorted banks are in the order of their names, and are the same banks.
pub proof fn law_banks_are_sorted(banks: Seq<Aspsp>)
    ensures
        in_name_order(by_name(banks)),
        by_name(banks).to_multiset() == banks.to_multiset(),
    decreases banks.len(),
{
    if banks.len() == 0 {
        assert(banks == Seq::<Aspsp>::empty());
    } else {
        let bank = banks.last();
        let front = by_name(banks.drop_last());
        law_banks_are_sorted(banks.drop_last());
        lemma_place_for(front, bank);
        let k = place_for(front, bank);
        let all = front.insert(k, bank);
        assert forall|i: int, j: int| 0 <= i < j < all.len() implies !text::sorts_before(
            (#[trigger] all[j]).name@,
            (#[trigger] all[i]).name@,
        ) by {
            let (x, y) = (all[i].name@, all[j].name@);
            if i < k && j == k {
                assert(all[i] == front[i]);
                assert(!text::sorts_before(bank.name@, front[k - 1].name@));
                if text::sorts_before(y, x) {
                    if i < k - 1 {
                        assert(!text::sorts_before(front[k - 1].name@, front[i].name@));
                        lemma_not_before(y, front[k - 1].name@, x);
                    }
                }
            } else if i == k {
                assert(all[j] == front[j - 1]);
                assert(text::sorts_before(bank.name@, front[j - 1].name@));
                if text::sorts_before(y, x) {
                    text::lemma_sorts_transitive(x, y, x);
                    text::lemma_sorts_irreflexive(x);
                }
            } else if i < k && j > k {
                assert(all[i] == front[i] && all[j] == front[j - 1]);
            } else if j < k {
                assert(all[i] == front[i] && all[j] == front[j]);
            } else {
                assert(all[i] == front[i - 1] && all[j] == front[j - 1]);
            }
        }
        assert(banks == banks.drop_last().push(bank));
        banks.drop_last().to_multiset_ensures();
        front.to_multiset_ensures();
        vstd::seq_lib::lemma_multiset_commutative(front.take(k), seq![bank] + front.skip(k));
        assert(all == front.take(k) + (seq![bank] + front.skip(k)));
        vstd::seq_lib::lemma_multiset_commutative(seq![bank], front.skip(k));
        vstd::seq_lib::lemma_multiset_commutative(front.take(k), front.skip(k));
        assert(front == front.take(k) + front.skip(k));
        assert(seq![bank] == Seq::<Aspsp>::empty().push(bank));
        Seq::<Aspsp>::empty().to_multiset_ensures();
        assert(all.to_multiset() =~= front.to_multiset().insert(bank));
    }
}

/// A text that does not come before a second, which does not come before a
/// third, does not come before the third.
proof fn lemma_not_before(a: Seq<char>, b: Seq<char>, c: Seq<char>)
    requires
        !text::sorts_before(a, b),
        !text::sorts_before(b, c),
    ensures
        !text::sorts_before(a, c),
{
    text::lemma_sorts_total(a, b);
    text::lemma_sorts_total(b, c);
    if text::sorts_before(a, c) {
        if text::sorts_before(b, a) && text::sorts_before(c, b) {
            text::lemma_sorts_transitive(c, b, a);
            text::lemma_sorts_transitive(c, a, c);
            text::lemma_sorts_irreflexive(c);
        }
    }
}

/// The longest consent of a bank in days, where it is known.
pub open spec fn consent_days(limit: Option<i64>) -> Seq<char> {
    match limit {
        Some(s) => decimal::signed(money::quotient(s as int, 86400)) + seq!['d'],
        None => seq!['?'],
    }
}

/// The line on a bank.
pub open spec fn bank_line(bank: Aspsp) -> Seq<char> {
    "  "@ + text::padded_right(bank.name@, 45) + " consent "@ + text::padded_right(
        consent_days(bank.maximum_consent_validity),
        5,
    ) + seq![' '] + text::joined(text::views(bank.psu_types@), "/"@) + (if bank.beta {
        "  [beta]"@
    } else {
        Seq::empty()
    })
}

pub fn bank_listing(bank: &Aspsp) -> (r: String)
    ensures
        r@ == bank_line(*bank),
{
    let mut s = owned("  ");
    let name = pad_right(bank.name.as_str(), 45);
    s.append(name.as_str());
    s.append(" consent ");
    let mut days = String::new();
    match bank.maximum_consent_validity {
        Some(secs) => {
            push_signed(&mut days, divide(secs, 86400));
            days.push('d');
        },
        None => {
            days.push('?');
        },
    }
    assert(days@ == consent_days(bank.maximum_consent_validity));
    let padded = pad_right(days.as_str(), 5);
    s.append(padded.as_str());
    s.push(' ');
    let types = text::join(bank.psu_types.as_slice(), "/");
    s.append(types.as_str());
    if bank.beta {
        s.append("  [beta]");
    }
    assert(s@ == bank_line(*bank));
    s
}

/// The heading over the banks of a country.
pub fn bank_heading(n: usize, country: &str) -> (r: String)
    ensures
        r@ == decimal::decimal(n as int) + " ASPSPs in "@ + text::in_capitals(country@),
{
    let mut s = String::new();
    push_decimal(&mut s, n as u64);
    s.append(" ASPSPs in ");
    let c = to_upper(country);
    s.append(c.as_str());
    s
}

/// The name of a country as it is sent.
pub fn country_code(country: &str) -> (r: String)
    ensures
        r@ == text::in_capitals(country@),
{
    to_upper(country)
}

/// How many bytes of an instant are its day.
pub const DAY_BYTES: usize = 10;

/// The day until which a consent runs, where its text begins with one.
pub open spec fn consent_day(valid_until: Seq<char>) -> Option<Date> {
    if text::cuts_at(valid_until, DAY_BYTES as int) {
        calendar::date_by(text::byte_prefix(valid_until, DAY_BYTES as int), "%Y-%m-%d"@)
    } else {
        None
    }
}

/// How many days a consent still runs.
pub fn days_left(valid_until: &str, today: Date) -> (r: Option<i64>)
    requires
        today.valid(),
    ensures
        match consent_day(valid_until@) {
            Some(d) => r == Some((d.day_number() - today.day_number()) as i64) && r->0
                == d.day_number() - today.day_number(),
            None => r is None,
        },
{
    if !can_cut(valid_until, DAY_BYTES) {
        return None;
    }
    match parse_by(first_bytes(valid_until, DAY_BYTES), "%Y-%m-%d") {
        Some(d) => Some(days_since(d, today)),
        None => None,
    }
}

/// What is noted of a consent that still runs so many days. Expiry is silent
/// when it arrives: the sync just stops returning new data.
pub open spec fn note_of(days: Option<i64>) -> Seq<char> {
    match days {
        Some(d) => if d < 0 {
            "  EXPIRED — run `connect` again"@
        } else if d <= 14 {
            "  "@ + decimal::signed(d as int) + " days left — renew soon"@
        } else {
            "  "@ + decimal::signed(d as int) + " days left"@
        },
        None => Seq::empty(),
    }
}

pub fn consent_note(days: Option<i64>) -> (r: String)
    ensures
        r@ == note_of(days),
{
    match days {
        Some(d) => if d < 0 {
            owned("  EXPIRED — run `connect` again")
        } else {
            let mut s = owned("  ");
            push_signed(&mut s, d);
            if d <= 14 {
                s.append(" days left — renew soon");
            } else {
                s.append(" days left");
            }
            s
        },
        None => String::new(),
    }
}

/// The first ten bytes of a text, or all of it where it is shorter.
pub open spec fn shown_day(valid_until: Seq<char>) -> Seq<char> {
    if text::byte_len(valid_until) <= DAY_BYTES {
        valid_until
    } else {
        text::byte_prefix(valid_until, DAY_BYTES as int)
    }
}

/// The line on the consent of an account.
pub open spec fn consent_text(valid_until: Option<Seq<char>>, note: Seq<char>) -> Seq<char> {
    match valid_until {
        Some(raw) => "  "@ + text::padded_right(Seq::empty(), 20) + " consent until "@ + shown_day(
            raw,
        ) + note,
        None => "  "@ + text::padded_right(Seq::empty(), 20)
            + " consent expiry not reported by this ASPSP"@,
    }
}

/// The line on the consent of an account. A text that is longer than a day must
/// be one that can be cut behind it.
pub fn consent_line(valid_until: &Option<String>, note: &str) -> (r: String)
    requires
        valid_until matches Some(raw) ==> text::byte_len(raw@) <= DAY_BYTES || text::cuts_at(
            raw@,
            DAY_BYTES as int,
        ),
    ensures
        r@ == consent_text(text::opt(*valid_until), note@),
{
    proof {
        reveal_strlit("");
        assert(""@ == Seq::<char>::empty());
    }
    let mut s = owned("  ");
    let margin = pad_right("", 20);
    s.append(margin.as_str());
    match valid_until {
        Some(raw) => {
            s.append(" consent until ");
            if count_bytes(raw.as_str()) <= DAY_BYTES {
                s.append(raw.as_str());
            } else {
                s.append(first_bytes(raw.as_str(), DAY_BYTES));
            }
            s.append(note);
        },
        None => {
            s.append(" consent expiry not reported by this ASPSP");
        },
    }
    s
}

/// The first line on an account.
pub open spec fn account_text(
    bank: Seq<char>,
    name: Seq<char>,
    currency: Seq<char>,
    count: int,
    earliest: Option<Seq<char>>,
) -> Seq<char> {
    "  "@ + text::padded_right(bank, 20) + seq![' '] + text::padded_right(name, 28) + seq![' ']
        + text::padded_right(currency, 4) + seq![' '] + text::padded_left(
        decimal::signed(count),
        6,
    ) + " txns since "@ + (match earliest {
        Some(e) => e,
        None => "-"@,
    })
}

pub fn account_line(
    bank: &str,
    name: &str,
    currency: &str,
    count: i64,
    earliest: &Option<String>,
) -> (r: String)
    ensures
        r@ == account_text(bank@, name@, currency@, count as int, text::opt(*earliest)),
{
    let mut s = owned("  ");
    let b = pad_right(bank, 20);
    s.append(b.as_str());
    s.push(' ');
    let n = pad_right(name, 28);
    s.append(n.as_str());
    s.push(' ');
    let c = pad_right(currency, 4);
    s.append(c.as_str());
    s.push(' ');
    let number = signed_text(count);
    let k = pad_left(number.as_str(), 6);
    s.append(k.as_str());
    s.append(" txns since ");
    match earliest {
        Some(e) => s.append(e.as_str()),
        None => s.append("-"),
    }
    assert(s@ == "  "@ + text::padded_right(bank@, 20) + seq![' '] + text::padded_right(name@, 28)
        + seq![' '] + text::padded_right(currency@, 4) + seq![' '] + text::padded_left(
        decimal::signed(count as int),
        6,
    ) + " txns since "@ + (match earliest {
        Some(e) => e@,
        None => "-"@,
    }));
    s
}

// ---------------------------------------------------------------------------
// Arguments
// ---------------------------------------------------------------------------

/// What is asked for.
#[derive(Debug)]
pub enum BankCommand {
    Banks(String),
    Connect(String, String),
    Sync,
    Accounts,
    Usage,
}

pub enum BankCommandView {
    Banks(Seq<char>),
    Connect(Seq<char>, Seq<char>),
    Sync,
    Accounts,
    Usage,
}

impl View for BankCommand {
    type V = BankCommandView;

    open spec fn view(&self) -> BankCommandView {
        match self {
            BankCommand::Banks(c) => BankCommandView::Banks(c@),
            BankCommand::Connect(b, c) => BankCommandView::Connect(b@, c@),
            BankCommand::Sync => BankCommandView::Sync,
            BankCommand::Accounts => BankCommandView::Accounts,
            BankCommand::Usage => BankCommandView::Usage,
        }
    }
}

/// The argument at a place, or another text where there is none.
pub open spec fn arg_or(args: Seq<Seq<char>>, i: int, default: Seq<char>) -> Seq<char> {
    if i < args.len() {
        args[i]
    } else {
        default
    }
}

fn argument(args: &[String], i: usize, default: &str) -> (r: String)
    ensures
        r@ == arg_or(text::views(args@), i as int, default@),
{
    if i < args.len() {
        owned(args[i].as_str())
    } else {
        owned(default)
    }
}

/// What the arguments ask for, with the bank and the country that are meant
/// where none is named.
pub open spec fn bank_command_in(
    args: Seq<Seq<char>>,
    bank: Seq<char>,
    country: Seq<char>,
) -> BankCommandView {
    if args.len() == 0 {
        BankCommandView::Usage
    } else if args[0] == "banks"@ {
        BankCommandView::Banks(arg_or(args, 1, country))
    } else if args[0] == "connect"@ {
        BankCommandView::Connect(arg_or(args, 1, bank), arg_or(args, 2, country))
    } else if args[0] == "sync"@ {
        BankCommandView::Sync
    } else if args[0] == "accounts"@ {
        BankCommandView::Accounts
    } else {
        BankCommandView::Usage
    }
}

/// What the arguments that are no flags ask for.
pub fn bank_command(args: &[String], bank: &str, country: &str) -> (r: BankCommand)
    ensures
        r@ == bank_command_in(text::views(args@), bank@, country@),
{
    if args.len() == 0 {
        return BankCommand::Usage;
    }
    let first = args[0].as_str();
    assert(text::views(args@)[0] == first@);
    if same(first, "banks") {
        BankCommand::Banks(argument(args, 1, country))
    } else if same(first, "connect") {
        BankCommand::Connect(argument(args, 1, bank), argument(args, 2, country))
    } else if same(first, "sync") {
        BankCommand::Sync
    } else if same(first, "accounts") {
        BankCommand::Accounts
    } else {
        BankCommand::Usage
    }
}

// ---------------------------------------------------------------------------
// Laws
// ---------------------------------------------------------------------------

/// The hexadecimal digit of a number below sixteen.
pub open spec fn hex_byte(n: int) -> u8 {
    if n < 10 {
        (0x30 + n) as u8
    } else {
        (0x41 + n - 10) as u8
    }
}

/// Bytes with a percent sign and two digits for each.
pub open spec fn encoded(bytes: Seq<u8>) -> Seq<u8>
    decreases bytes.len(),
{
    if bytes.len() == 0 {
        seq![]
    } else {
        seq![0x25u8, hex_byte(bytes[0] as int / 16), hex_byte(bytes[0] as int % 16)] + encoded(
            bytes.drop_first(),
        )
    }
}

/// Bytes that were percent-encoded come back as they were, whatever follows them; a
/// plus sign comes back as a space.
pub proof fn law_encoded_bytes_come_back(bytes: Seq<u8>, rest: Seq<u8>)
    ensures
        decoded(encoded(bytes) + rest) == bytes + decoded(rest),
        decoded(seq![0x2bu8] + rest) == seq![0x20u8] + decoded(rest),
    decreases bytes.len(),
{
    let plus = seq![0x2bu8] + rest;
    assert(plus.skip(1) == rest);
    if bytes.len() == 0 {
        assert(encoded(bytes) + rest == rest);
        assert(bytes + decoded(rest) == decoded(rest));
    } else {
        let b = bytes[0] as int;
        let less = bytes.drop_first();
        law_encoded_bytes_come_back(less, rest);
        let all = encoded(bytes) + rest;
        assert(all[0] == 0x25 && all[1] == hex_byte(b / 16) && all[2] == hex_byte(b % 16));
        assert(all.skip(3) == encoded(less) + rest);
        assert(hex_value(hex_byte(b / 16)) == Some(b / 16));
        assert(hex_value(hex_byte(b % 16)) == Some(b % 16));
        assert(hex_pair(all[1], all[2]) == Some(b));
        assert(seq![bytes[0]] + (less + decoded(rest)) == bytes + decoded(rest));
    }
}

/// A part of a query is a name and a text, divided by the first equals sign, and
/// parts are divided by ampersands; they stand in the order of the query.
pub proof fn law_queries_fall_into_pairs(name: Seq<char>, value: Seq<char>, rest: Seq<char>)
    requires
        !name.contains('='),
        !name.contains('&'),
        !value.contains('&'),
    ensures
        pairs_in(name + seq!['='] + value) == seq![(name, percent_text(value))],
        pairs_in(name + seq!['='] + value + seq!['&'] + rest) == seq![(name, percent_text(value))]
            + pairs_in(rest),
{
    let part = name + seq!['='] + value;
    let query = part + seq!['&'] + rest;
    assert forall|i: int| 0 <= i < name.len() implies part[i] != '=' by {
        assert(name.contains(name[i]));
    }
    text::lemma_first_at(part, '=', name.len() as int);
    assert(part.take(name.len() as int) == name);
    assert(part.skip(name.len() as int + 1) == value);
    assert forall|i: int| 0 <= i < part.len() implies part[i] != '&' by {
        if i < name.len() {
            assert(name.contains(name[i]));
        } else if i > name.len() {
            assert(value.contains(value[i - name.len() - 1]));
        }
    }
    text::lemma_first_at(part, '&', part.len() as int);
    assert(part.take(part.len() as int) == part);
    assert forall|i: int| 0 <= i < part.len() implies query[i] != '&' by {
        assert(query[i] == part[i]);
    }
    assert(query[part.len() as int] == '&');
    text::lemma_first_at(query, '&', part.len() as int);
    assert(query.take(part.len() as int) == part);
    assert(query.skip(part.len() as int + 1) == rest);
}

/// Of several pairs of one name the last counts, and those of other names do not.
pub proof fn law_the_last_value_counts(
    pairs: Seq<(Seq<char>, Seq<char>)>,
    name: Seq<char>,
    other: Seq<char>,
    value: Seq<char>,
)
    ensures
        value_of(pairs.push((name, value)), name) == Some(value),
        other != name ==> value_of(pairs.push((other, value)), name) == value_of(pairs, name),
        value_of(Seq::empty(), name) is None,
{
    assert(pairs.push((name, value)).drop_last() == pairs);
    assert(pairs.push((other, value)).drop_last() == pairs);
}

/// A redirected address that is pasted gives the code and the state that stand in
/// its query, and tells of no error. A text without an equals sign is the code.
pub proof fn law_pasted_address_gives_code_and_state(
    c: AuthCallback,
    base: Seq<char>,
    code: Seq<char>,
    state: Seq<char>,
)
    requires
        !base.contains('?'),
        !code.contains('&'),
        !state.contains('&'),
        is_pasted(c, base + "?code="@ + code + "&state="@ + state),
    ensures
        text::opt(c.code) == Some(percent_text(code)),
        text::opt(c.state) == Some(percent_text(state)),
        c.error is None,
        c.error_description is None,
{
    reveal_strlit("?code=");
    reveal_strlit("&state=");
    reveal_strlit("code");
    reveal_strlit("state");
    reveal_strlit("error");
    reveal_strlit("error_description");
    let input = base + "?code="@ + code + "&state="@ + state;
    let (n, k) = (base.len() as int, code.len() as int);
    assert(input[n] == '?' && input[n + 5] == '=');
    assert forall|i: int| 0 <= i < n implies input[i] != '?' by {
        assert(base.contains(base[i]));
    }
    text::lemma_first_at(input, '?', n);
    let last = "state"@ + seq!['='] + state;
    let query = "code"@ + seq!['='] + code + seq!['&'] + last;
    assert(input.skip(n + 1) =~= query);
    law_queries_fall_into_pairs("code"@, code, last);
    law_queries_fall_into_pairs("state"@, state, seq![]);
    assert("code"@.len() == 4 && "state"@.len() == 5 && "error"@.len() == 5);
    assert("state"@[0] == 's' && "error"@[0] == 'e' && "error_description"@.len() == 17);
    let one = seq![("code"@, percent_text(code))];
    let pairs = one + seq![("state"@, percent_text(state))];
    assert(pairs_in(query) == pairs);
    assert(pairs == one.push(("state"@, percent_text(state))));
    assert(one == Seq::<(Seq<char>, Seq<char>)>::empty().push(("code"@, percent_text(code))));
    let none = Seq::<(Seq<char>, Seq<char>)>::empty();
    law_the_last_value_counts(one, "state"@, "state"@, percent_text(state));
    law_the_last_value_counts(one, "code"@, "state"@, percent_text(state));
    law_the_last_value_counts(one, "error"@, "state"@, percent_text(state));
    law_the_last_value_counts(one, "error_description"@, "state"@, percent_text(state));
    law_the_last_value_counts(none, "code"@, "code"@, percent_text(code));
    law_the_last_value_counts(none, "error"@, "code"@, percent_text(code));
    law_the_last_value_counts(none, "error_description"@, "code"@, percent_text(code));
}

/// A callback is gone on with exactly where it tells of no error, has a code, and has
/// the state that is waited for, or none where a human pasted it; the code is its
/// own. An error is passed on with its description, whatever else there is.
pub proof fn law_right_callbacks_go_on(
    v: Verdict,
    c: AuthCallback,
    pending: Option<i64>,
    expected: i64,
    manual: bool,
)
    requires
        is_verdict(v, c, pending, expected, manual),
    ensures
        v is GoOn <==> c.error is None && c.code is Some && (if c.state is Some {
            pending == Some(expected)
        } else {
            manual
        }),
        v matches Verdict::GoOn(code, _) ==> text::opt(c.code) == Some(code@),
        v is Refused <==> c.error is Some,
        v matches Verdict::Refused(e, d) ==> text::opt(c.error) == Some(e@) && (
        c.error_description matches Some(t) ==> d@ == t@),
        v is StateMismatch <==> c.error is None && c.state is Some && pending != Some(expected),
        v is MissingState <==> c.error is None && c.state is None && !manual,
{
}

/// A bank that is found has the name that was asked for, in capitals or not, and is
/// the first that has; where none is found, none has it.
pub proof fn law_banks_are_found_by_name(names: Seq<Seq<char>>, name: Seq<char>)
    ensures
        match place_of_bank(names, name) {
            Some(k) => 0 <= k < names.len() && text::alike(names[k], name) && forall|i: int|
                0 <= i < k ==> !text::alike(#[trigger] names[i], name),
            None => forall|i: int| 0 <= i < names.len() ==> !text::alike(#[trigger] names[i], name),
        },
    decreases names.len(),
{
    if names.len() > 0 && !text::alike(names[0], name) {
        let rest = names.drop_first();
        law_banks_are_found_by_name(rest, name);
        assert forall|i: int| 0 < i < names.len() implies #[trigger] names[i] == rest[i - 1] by {
        }
    }
}

/// Where a bank is not found, the message says which was asked for and where, and
/// every name that there is.
pub proof fn law_unknown_banks_are_told_with_the_known(
    front: Seq<Seq<char>>,
    back: Seq<Seq<char>>,
    name: Seq<char>,
    country: Seq<char>,
)
    requires
        front.len() > 0,
        back.len() > 0,
    ensures
        unknown_text(front + back, name, country) == unknown_text(front, name, country) + ", "@
            + text::joined(back, ", "@),
        ("'"@ + name + "' not found in "@ + country).is_prefix_of(
            unknown_text(front, name, country),
        ),
{
    text::law_joined_in_parts(front, back, ", "@);
    let start = "'"@ + name + "' not found in "@ + country + ". Available: "@;
    assert(start + (text::joined(front, ", "@) + ", "@ + text::joined(back, ", "@)) == start
        + text::joined(front, ", "@) + ", "@ + text::joined(back, ", "@));
}

/// The port to listen at is the one that the address names; where it names none, it
/// is that of its scheme.
pub proof fn law_port_is_that_of_the_address(
    scheme: Seq<char>,
    host: Seq<char>,
    port: u16,
    path: Seq<char>,
)
    requires
        !scheme.contains(':'),
        !host.contains(':'),
        !host.contains('/'),
        !path.contains(':'),
    ensures
        port_of(
            scheme + "://"@ + host + seq![':'] + decimal::decimal(port as int) + seq!['/'] + path,
        ) == Ok::<int, PortError>(port as int),
        port_of(scheme + "://"@ + host + seq!['/'] + path) == Ok::<int, PortError>(
            if "https"@.is_prefix_of(scheme + "://"@ + host + seq!['/'] + path) {
                443
            } else {
                80
            },
        ),
{
    reveal_strlit("://");
    let digits = decimal::decimal(port as int);
    decimal::lemma_decimal(port as int);
    let named = host + seq![':'] + digits;
    assert forall|i: int| 0 <= i < digits.len() implies #[trigger] digits[i] != '/' && digits[i]
        != ':' by {
        assert(text::is_digit(digits[i]));
    }
    assert forall|i: int| 0 <= i < named.len() implies #[trigger] named[i] != '/' by {
        if i < host.len() {
            assert(host.contains(host[i]));
        } else if i > host.len() {
            assert(named[i] == digits[i - host.len() - 1]);
        }
    }
    assert forall|i: int| 0 <= i < host.len() implies #[trigger] host[i] != '/' && host[i]
        != ':' by {
        assert(host.contains(host[i]));
    }
    let url = scheme + "://"@ + host + seq![':'] + digits + seq!['/'] + path;
    assert(url =~= scheme + "://"@ + (named + seq!['/'] + path));
    let rest = named + seq!['/'] + path;
    assert forall|i: int| 0 <= i && i + 1 < rest.len() implies !(#[trigger] rest[i] == ':' && rest[i
        + 1] == '/') by {
        if rest[i] == ':' {
            if i < host.len() {
                assert(rest[i] == host[i]);
            } else if i == host.len() {
                assert(rest[i + 1] == digits[0]);
            } else if i < named.len() {
                assert(rest[i] == digits[i - host.len() - 1]);
            } else if i > named.len() {
                assert(path.contains(path[i - named.len() - 1]));
            }
        }
    }
    lemma_second_part(scheme, named, path);
    assert(named[host.len() as int] == ':');
    assert forall|i: int| host.len() < i < named.len() implies (#[trigger] named[i]) != ':' by {
        assert(named[i] == digits[i - host.len() - 1]);
    }
    money::lemma_last_char(named, ':', host.len() as int);
    assert(named.skip(host.len() as int + 1) == digits);
    assert(text::is_digit(digits[0]));
    let plain = host + seq!['/'] + path;
    assert(scheme + "://"@ + host + seq!['/'] + path =~= scheme + "://"@ + plain);
    assert forall|i: int| 0 <= i && i + 1 < plain.len() implies !(#[trigger] plain[i] == ':'
        && plain[i + 1] == '/') by {
        if plain[i] == ':' {
            if i < host.len() {
                assert(plain[i] == host[i]);
            } else if i > host.len() {
                assert(path.contains(path[i - host.len() - 1]));
            }
        }
    }
    lemma_second_part(scheme, host, path);
    money::lemma_no_char(host, ':');
}

/// What stands behind the scheme of an address, up to the first slash.
proof fn lemma_second_part(scheme: Seq<char>, host: Seq<char>, path: Seq<char>)
    requires
        !scheme.contains(':'),
        forall|i: int| 0 <= i < host.len() ==> (#[trigger] host[i]) != '/',
        ({
            let rest = host + seq!['/'] + path;
            forall|i: int|
                0 <= i && i + 1 < rest.len() ==> !(#[trigger] rest[i] == ':' && rest[i + 1] == '/')
        }),
    ensures
        ({
            let rest = host + seq!['/'] + path;
            &&& second_part(scheme + "://"@ + rest, "://"@) == Some(rest)
            &&& rest.take(text::first_at(rest, '/')) == host
        }),
{
    reveal_strlit("://");
    let rest = host + seq!['/'] + path;
    let url = scheme + "://"@ + rest;
    let sep = "://"@;
    let n = scheme.len() as int;
    assert(url.subrange(n, n + 3) =~= sep);
    assert(text::stands_at(url, sep, n));
    assert forall|i: int| 0 <= i < n implies !#[trigger] text::stands_at(url, sep, i) by {
        if text::stands_at(url, sep, i) {
            assert(url.subrange(i, i + 3)[0] == ':');
            assert(url[i] == scheme[i]);
            assert(scheme.contains(scheme[i]));
        }
    }
    text::lemma_first_place(url, sep, n);
    assert(url.skip(n + 3) =~= rest);
    if text::holds(rest, sep) {
        let i = choose|i: int| text::stands_at(rest, sep, i);
        assert(rest.subrange(i, i + 3)[0] == ':' && rest.subrange(i, i + 3)[1] == '/');
        assert(rest[i] == ':' && rest[i + 1] == '/');
    }
    text::lemma_no_place(rest, sep);
    assert forall|i: int| 0 <= i < host.len() implies rest[i] != '/' by {
        assert(rest[i] == host[i]);
    }
    assert(rest[host.len() as int] == '/');
    text::lemma_first_at(rest, '/', host.len() as int);
    assert(rest.take(host.len() as int) == host);
}

/// The file of a database is what stands behind the scheme of its address and before
/// its options.
pub proof fn law_database_path_is_that_of_the_address(path: Seq<char>, options: Seq<char>)
    requires
        !path.contains('?'),
        path.len() > 0,
        path[0] != 's',
    ensures
        path_of("sqlite://"@ + path) == path,
        path_of("sqlite://"@ + path + seq!['?'] + options) == path,
        path[0] != '/' ==> path_of("sqlite:"@ + path) == path,
        path_of(path) == path,
{
    reveal_strlit("sqlite://");
    reveal_strlit("sqlite:");
    lemma_path(path, seq![]);
    lemma_path(path, seq!['?'] + options);
    assert(path + Seq::<char>::empty() == path);
    assert("sqlite://"@ + path + seq!['?'] + options =~= "sqlite://"@ + (path + (seq!['?']
        + options)));
    let short = "sqlite:"@ + path;
    assert(short.skip(7) == path);
    assert("sqlite:"@.is_prefix_of(short));
    if path[0] != '/' {
        assert(short[7] == path[0] && "sqlite://"@[7] == '/');
        assert(!"sqlite://"@.is_prefix_of(short));
        assert("sqlite:"@[0] == 's');
        assert(!"sqlite:"@.is_prefix_of(path));
        reveal_with_fuel(without_fronts, 2);
        assert(without_fronts(short, "sqlite://"@) == short);
        assert(without_fronts(short, "sqlite:"@) == path);
        lemma_path(path, seq![]);
    }
}

proof fn lemma_path(path: Seq<char>, tail: Seq<char>)
    requires
        !path.contains('?'),
        path.len() > 0,
        path[0] != 's',
        tail.len() == 0 || tail[0] == '?',
    ensures
        path_of("sqlite://"@ + (path + tail)) == path,
        path_of(path + tail) == path,
{
    reveal_strlit("sqlite://");
    reveal_strlit("sqlite:");
    let rest = path + tail;
    let url = "sqlite://"@ + rest;
    assert(url.skip(9) == rest);
    assert(rest[0] == path[0]);
    assert("sqlite://"@[0] == 's' && "sqlite:"@[0] == 's');
    assert("sqlite://"@.is_prefix_of(url));
    assert(!"sqlite://"@.is_prefix_of(rest));
    assert(!"sqlite:"@.is_prefix_of(rest));
    reveal_with_fuel(without_fronts, 2);
    assert(without_fronts(url, "sqlite://"@) == rest);
    assert(without_fronts(rest, "sqlite:"@) == rest);
    assert forall|i: int| 0 <= i < path.len() implies rest[i] != '?' by {
        assert(path.contains(path[i]));
    }
    text::lemma_first_at(rest, '?', path.len() as int);
    assert(rest.take(path.len() as int) == path);
}

/// A consent that has run out is told as expired; one that runs on is told with the
/// days that are left, and as due for renewal in the last fortnight.
pub proof fn law_consents_are_told_by_their_days(days: i64)
    ensures
        days < 0 <==> note_of(Some(days)) == "  EXPIRED — run `connect` again"@,
        0 <= days <= 14 ==> exists|n: Seq<char>|
            decimal::signed_in(n) == Some(days as int) && note_of(Some(days)) == #[trigger] left(
                n,
                " — renew soon"@,
            ),
        days > 14 ==> exists|n: Seq<char>|
            decimal::signed_in(n) == Some(days as int) && note_of(Some(days)) == #[trigger] left(
                n,
                Seq::empty(),
            ),
        note_of(None).len() == 0,
{
    reveal_strlit("  EXPIRED — run `connect` again");
    reveal_strlit("  ");
    reveal_strlit(" days left");
    reveal_strlit(" days left — renew soon");
    reveal_strlit(" — renew soon");
    decimal::law_signed_round_trip(days);
    if days >= 0 {
        let n = decimal::signed(days as int);
        decimal::lemma_decimal(days as int);
        assert(text::is_digit(n[0]));
        assert(note_of(Some(days))[2] == n[0]);
        assert("  EXPIRED — run `connect` again"@[2] == 'E');
        if days <= 14 {
            assert(note_of(Some(days)) =~= left(n, " — renew soon"@));
        } else {
            assert(note_of(Some(days)) =~= left(n, Seq::empty()));
        }
    }
}

/// The note that so many days are left, with what is said of them.
pub open spec fn left(n: Seq<char>, more: Seq<char>) -> Seq<char> {
    "  "@ + n + " days left"@ + more
}

/// The line on a bank says its name and for how many whole days it gives consent,
/// where that is known, and whether it is in trial.
pub proof fn law_bank_line_says_its_days(bank: Aspsp, secs: i64)
    requires
        bank.maximum_consent_validity == Some(secs),
        secs >= 0,
    ensures
        exists|n: Seq<char>|
            #[trigger] consent_days(Some(secs)) == n + seq!['d'] && (decimal::signed_in(
                n,
            ) matches Some(days) && days * 86400 <= secs < (days + 1) * 86400),
        ("  "@ + bank.name@).is_prefix_of(bank_line(bank)),
        bank.beta ==> bank_line(bank).len() >= 8 && bank_line(bank).skip(bank_line(bank).len() - 8)
            == "  [beta]"@,
{
    reveal_strlit("  [beta]");
    let days = money::quotient(secs as int, 86400) as i64;
    decimal::law_signed_round_trip(days);
    assert(consent_days(Some(secs)) == decimal::signed(days as int) + seq!['d']);
    let line = bank_line(bank);
    assert(text::padded_right(bank.name@, 45).take(bank.name@.len() as int) == bank.name@);
    assert(line.take(2 + bank.name@.len() as int) =~= "  "@ + bank.name@) by {
        reveal_strlit("  ");
    }
    reveal_strlit("  ");
    if bank.beta {
        assert(line.skip(line.len() - 8) =~= "  [beta]"@);
    }
}

/// The first line on an account, of its parts.
pub open spec fn account_parts(
    bank: Seq<char>,
    name: Seq<char>,
    currency: Seq<char>,
    n: Seq<char>,
    since: Seq<char>,
) -> Seq<char> {
    "  "@ + bank + seq![' '] + name + seq![' '] + currency + seq![' '] + n + " txns since "@ + since
}

/// The first line on an account says its bank, its name and its currency, how many
/// transactions are stored of it, and since when.
pub proof fn law_account_line_says_its_figures(
    bank: Seq<char>,
    name: Seq<char>,
    currency: Seq<char>,
    count: i64,
    earliest: Option<Seq<char>>,
)
    ensures
        exists|b: Seq<char>, l: Seq<char>, c: Seq<char>, n: Seq<char>, since: Seq<char>|
            account_text(bank, name, currency, count as int, earliest) == #[trigger] account_parts(
                b,
                l,
                c,
                n,
                since,
            ) && bank.is_prefix_of(b) && name.is_prefix_of(l) && currency.is_prefix_of(c)
                && decimal::signed_in(text::trimmed(n)) == Some(count as int) && (
            earliest matches Some(e) ==> since == e) && (earliest is None ==> since == "-"@),
{
    spending::law_columns_say_their_count(count, 6);
    let (b, l, c) = (
        text::padded_right(bank, 20),
        text::padded_right(name, 28),
        text::padded_right(currency, 4),
    );
    assert(bank.is_prefix_of(b) && name.is_prefix_of(l) && currency.is_prefix_of(c));
    let since = match earliest {
        Some(e) => e,
        None => "-"@,
    };
    assert(account_text(bank, name, currency, count as int, earliest) == account_parts(
        b,
        l,
        c,
        spending::count_column(count as int, 6),
        since,
    ));
}

/// The line on a consent says its day and the note, or that none is known.
pub proof fn law_consent_line_says_the_day(valid_until: Seq<char>, note: Seq<char>)
    ensures
        text::byte_len(valid_until) <= 10 ==> consent_text(Some(valid_until), note).skip(
            consent_text(Some(valid_until), note).len() - valid_until.len() - note.len(),
        ) == valid_until + note,
        consent_text(Some(valid_until), note).len() >= note.len(),
        consent_text(Some(valid_until), note).skip(
            consent_text(Some(valid_until), note).len() - note.len(),
        ) == note,
        consent_text(None, note) == consent_text(None, Seq::empty()),
{
    let s = consent_text(Some(valid_until), note);
    assert(s.skip(s.len() - note.len()) =~= note);
    if text::byte_len(valid_until) <= 10 {
        assert(s.skip(s.len() - valid_until.len() - note.len()) =~= valid_until + note);
    }
}

/// What is named counts, and what is meant where nothing is named counts only there.
pub proof fn law_named_banks_count(
    args: Seq<Seq<char>>,
    bank: Seq<char>,
    country: Seq<char>,
    other: Seq<char>,
)
    requires
        args.len() > 0,
    ensures
        args[0] == "banks"@ && args.len() > 1 ==> bank_command_in(args, bank, country)
            == BankCommandView::Banks(args[1]),
        args[0] == "banks"@ && args.len() == 1 ==> bank_command_in(args, bank, country)
            == BankCommandView::Banks(country),
        args[0] == "connect"@ && args.len() > 2 ==> bank_command_in(args, bank, country)
            == BankCommandView::Connect(args[1], args[2]),
        args[0] == "connect"@ && args.len() == 2 ==> bank_command_in(args, bank, country)
            == BankCommandView::Connect(args[1], country),
        args[0] == "connect"@ && args.len() == 1 ==> bank_command_in(args, bank, country)
            == BankCommandView::Connect(bank, country),
        args[0] == "sync"@ ==> bank_command_in(args, bank, country) is Sync,
        args[0] == "accounts"@ ==> bank_command_in(args, bank, country) is Accounts,
        bank_command_in(args, bank, country) is Usage ==> bank_command_in(args, other, other)
            is Usage,
{
    reveal_strlit("banks");
    reveal_strlit("connect");
    reveal_strlit("sync");
    reveal_strlit("accounts");
    assert("banks"@.len() == 5 && "connect"@.len() == 7);
    assert("sync"@.len() == 4 && "accounts"@.len() == 8);
}

} // verus!
