//! Text as sequences of characters.
//!
//! The specification functions speak of `Seq<char>`; the executable ones work
//! on character slices, so that cutting a piece out of a text copies nothing.
use vstd::prelude::*;
use vstd::slice::slice_subrange;
use vstd::utf8;

verus! {

/// `String::push` appends the given character at the end of the text.
pub assume_specification[ String::push ](s: &mut String, c: char)
    ensures
        final(s)@ == old(s)@.push(c),
;

// ---------------------------------------------------------------------------
// Conversions
// ---------------------------------------------------------------------------

/// The characters of a text.
pub fn chars_of(s: &str) -> (r: Vec<char>)
    ensures
        r@ == s@,
{
    let mut r: Vec<char> = Vec::new();
    for c in it: s.chars()
        invariant
            it.seq() == s@,
            r@ == s@.take(it.index() as int),
    {
        r.push(c);
    }
    r
}

/// The text made of the given characters.
pub fn string_of(s: &[char]) -> (r: String)
    ensures
        r@ == s@,
{
    let mut r = String::new();
    let mut i: usize = 0;
    while i < s.len()
        invariant
            i <= s@.len(),
            r@ == s@.take(i as int),
        decreases s@.len() - i,
    {
        r.push(s[i]);
        i = i + 1;
    }
    r
}

/// A copy of a text.
pub fn owned(s: &str) -> (r: String)
    ensures
        r@ == s@,
{
    let mut r = String::new();
    r.append(s);
    r
}

/// The view of an optional text.
pub open spec fn opt(o: Option<String>) -> Option<Seq<char>> {
    match o {
        Some(s) => Some(s@),
        None => None,
    }
}

/// The views of a list of texts.
pub open spec fn views(v: Seq<String>) -> Seq<Seq<char>> {
    v.map_values(|s: String| s@)
}

// ---------------------------------------------------------------------------
// Character classes
// ---------------------------------------------------------------------------

/// The characters with the Unicode property `White_Space`.
pub open spec fn is_space(c: char) -> bool {
    ||| '\u{9}' <= c <= '\u{d}'
    ||| c == ' '
    ||| c == '\u{85}'
    ||| c == '\u{a0}'
    ||| c == '\u{1680}'
    ||| '\u{2000}' <= c <= '\u{200a}'
    ||| '\u{2028}' <= c <= '\u{2029}'
    ||| c == '\u{202f}'
    ||| c == '\u{205f}'
    ||| c == '\u{3000}'
}

pub fn space(c: char) -> (r: bool)
    ensures
        r == is_space(c),
{
    ('\u{9}' <= c && c <= '\u{d}') || c == ' ' || c == '\u{85}' || c == '\u{a0}' || c == '\u{1680}'
        || ('\u{2000}' <= c && c <= '\u{200a}') || ('\u{2028}' <= c && c <= '\u{2029}') || c
        == '\u{202f}' || c == '\u{205f}' || c == '\u{3000}'
}

pub open spec fn is_digit(c: char) -> bool {
    '0' <= c <= '9'
}

pub fn digit(c: char) -> (r: bool)
    ensures
        r == is_digit(c),
{
    '0' <= c && c <= '9'
}

pub open spec fn is_upper(c: char) -> bool {
    'A' <= c <= 'Z'
}

pub open spec fn all_digits(s: Seq<char>) -> bool {
    forall|i: int| 0 <= i < s.len() ==> is_digit(#[trigger] s[i])
}

pub open spec fn all_upper(s: Seq<char>) -> bool {
    forall|i: int| 0 <= i < s.len() ==> is_upper(#[trigger] s[i])
}

pub fn only_digits(s: &[char]) -> (r: bool)
    ensures
        r == all_digits(s@),
{
    let mut i: usize = 0;
    while i < s.len()
        invariant
            i <= s@.len(),
            forall|j: int| 0 <= j < i ==> is_digit(#[trigger] s@[j]),
        decreases s@.len() - i,
    {
        if !digit(s[i]) {
            return false;
        }
        i = i + 1;
    }
    true
}

/// The texts of exactly three capital letters, such as currency codes.
pub open spec fn is_code(s: Seq<char>) -> bool {
    s.len() == 3 && all_upper(s)
}

pub fn code(s: &[char]) -> (r: bool)
    ensures
        r == is_code(s@),
{
    if s.len() != 3 {
        return false;
    }
    let mut i: usize = 0;
    while i < 3
        invariant
            i <= 3,
            s@.len() == 3,
            forall|j: int| 0 <= j < i ==> is_upper(#[trigger] s@[j]),
        decreases 3 - i,
    {
        let c = s[i];
        if !('A' <= c && c <= 'Z') {
            return false;
        }
        i = i + 1;
    }
    true
}

// ---------------------------------------------------------------------------
// Trimming
// ---------------------------------------------------------------------------

/// What is left of a text once its leading white space is gone.
pub open spec fn trimmed_start(s: Seq<char>) -> Seq<char>
    decreases s.len(),
{
    if s.len() > 0 && is_space(s[0]) {
        trimmed_start(s.drop_first())
    } else {
        s
    }
}

/// What is left of a text once its trailing white space is gone.
pub open spec fn trimmed_end(s: Seq<char>) -> Seq<char>
    decreases s.len(),
{
    if s.len() > 0 && is_space(s.last()) {
        trimmed_end(s.drop_last())
    } else {
        s
    }
}

/// A text without white space at either end.
pub open spec fn trimmed(s: Seq<char>) -> Seq<char> {
    trimmed_end(trimmed_start(s))
}

/// What is left of a text once every leading `c` is gone.
pub open spec fn stripped_start(s: Seq<char>, c: char) -> Seq<char>
    decreases s.len(),
{
    if s.len() > 0 && s[0] == c {
        stripped_start(s.drop_first(), c)
    } else {
        s
    }
}

/// What is left of a text once every trailing `c` is gone.
pub open spec fn stripped_end(s: Seq<char>, c: char) -> Seq<char>
    decreases s.len(),
{
    if s.len() > 0 && s.last() == c {
        stripped_end(s.drop_last(), c)
    } else {
        s
    }
}

/// A cell as a spreadsheet shows it: no outer white space, no outer double
/// quotes, and no white space inside those.
pub open spec fn unquoted(s: Seq<char>) -> Seq<char> {
    trimmed(stripped_end(stripped_start(trimmed(s), '"'), '"'))
}

pub fn trim_start(s: &[char]) -> (r: &[char])
    ensures
        r@ == trimmed_start(s@),
{
    let mut i: usize = 0;
    assert(s@.skip(0) == s@);
    while i < s.len() && space(s[i])
        invariant
            i <= s@.len(),
            trimmed_start(s@.skip(i as int)) == trimmed_start(s@),
        decreases s@.len() - i,
    {
        assert(s@.skip(i as int).drop_first() == s@.skip(i + 1));
        i = i + 1;
    }
    slice_subrange(s, i, s.len())
}

pub fn trim_end(s: &[char]) -> (r: &[char])
    ensures
        r@ == trimmed_end(s@),
{
    let mut n: usize = s.len();
    assert(s@.take(n as int) == s@);
    while n > 0 && space(s[n - 1])
        invariant
            n <= s@.len(),
            trimmed_end(s@.take(n as int)) == trimmed_end(s@),
        decreases n,
    {
        assert(s@.take(n as int).drop_last() == s@.take(n - 1));
        n = n - 1;
    }
    slice_subrange(s, 0, n)
}

pub fn trim(s: &[char]) -> (r: &[char])
    ensures
        r@ == trimmed(s@),
{
    trim_end(trim_start(s))
}

pub fn strip_start(s: &[char], c: char) -> (r: &[char])
    ensures
        r@ == stripped_start(s@, c),
{
    let mut i: usize = 0;
    assert(s@.skip(0) == s@);
    while i < s.len() && s[i] == c
        invariant
            i <= s@.len(),
            stripped_start(s@.skip(i as int), c) == stripped_start(s@, c),
        decreases s@.len() - i,
    {
        assert(s@.skip(i as int).drop_first() == s@.skip(i + 1));
        i = i + 1;
    }
    slice_subrange(s, i, s.len())
}

pub fn strip_end(s: &[char], c: char) -> (r: &[char])
    ensures
        r@ == stripped_end(s@, c),
{
    let mut n: usize = s.len();
    assert(s@.take(n as int) == s@);
    while n > 0 && s[n - 1] == c
        invariant
            n <= s@.len(),
            stripped_end(s@.take(n as int), c) == stripped_end(s@, c),
        decreases n,
    {
        assert(s@.take(n as int).drop_last() == s@.take(n - 1));
        n = n - 1;
    }
    slice_subrange(s, 0, n)
}

pub fn unquote(s: &[char]) -> (r: &[char])
    ensures
        r@ == unquoted(s@),
{
    trim(strip_end(strip_start(trim(s), '"'), '"'))
}

/// A copy of a text without white space at either end.
pub fn trimmed_copy(s: &str) -> (r: String)
    ensures
        r@ == trimmed(s@),
{
    let c = chars_of(s);
    string_of(trim(c.as_slice()))
}

// ---------------------------------------------------------------------------
// Comparing and searching
// ---------------------------------------------------------------------------

/// Whether the characters spell the given text.
pub fn is_text(s: &[char], t: &str) -> (r: bool)
    ensures
        r == (s@ == t@),
{
    let mut i: usize = 0;
    for c in it: t.chars()
        invariant
            it.seq() == t@,
            i == it.index(),
            i <= s@.len(),
            s@.take(i as int) == t@.take(i as int),
    {
        if i >= s.len() || s[i] != c {
            return false;
        }
        i = i + 1;
        assert(s@.take(i as int) == s@.take(i - 1).push(s@[i - 1]));
        assert(t@.take(i as int) == t@.take(i - 1).push(t@[i - 1]));
    }
    assert(t@.take(i as int) == t@);
    if i == s.len() {
        assert(s@.take(i as int) == s@);
        true
    } else {
        assert(s@.len() != t@.len());
        false
    }
}

/// Whether two texts are the same.
pub fn same(a: &str, b: &str) -> (r: bool)
    ensures
        r == (a@ == b@),
{
    let c = chars_of(a);
    is_text(c.as_slice(), b)
}

/// Whether a text begins with another.
pub fn starts_with(s: &[char], prefix: &str) -> (r: bool)
    ensures
        r == prefix@.is_prefix_of(s@),
{
    let p = chars_of(prefix);
    if p.len() > s.len() {
        return false;
    }
    let head = slice_subrange(s, 0, p.len());
    let r = is_text(head, prefix);
    proof {
        if r {
            assert(prefix@.is_prefix_of(s@));
        } else if prefix@.is_prefix_of(s@) {
            assert(head@ == prefix@);
        }
    }
    r
}

/// The place of the first `c`, or the length of the text if it has none.
pub open spec fn first_at(s: Seq<char>, c: char) -> int
    decreases s.len(),
{
    if s.len() == 0 || s[0] == c {
        0
    } else {
        1 + first_at(s.drop_first(), c)
    }
}

/// The place of the last `c`, or -1 if the text has none.
pub open spec fn last_at(s: Seq<char>, c: char) -> int
    decreases s.len(),
{
    if s.len() == 0 {
        -1
    } else if s.last() == c {
        s.len() - 1
    } else {
        last_at(s.drop_last(), c)
    }
}

/// What `first_at` finds: the only place that holds `c` with none before it.
pub proof fn lemma_first_at(s: Seq<char>, c: char, k: int)
    requires
        0 <= k <= s.len(),
        forall|j: int| 0 <= j < k ==> s[j] != c,
        k < s.len() ==> s[k] == c,
    ensures
        first_at(s, c) == k,
    decreases s.len(),
{
    if k > 0 {
        lemma_first_at(s.drop_first(), c, k - 1);
    }
}

pub proof fn lemma_first_at_bounds(s: Seq<char>, c: char)
    ensures
        0 <= first_at(s, c) <= s.len(),
        first_at(s, c) < s.len() ==> s[first_at(s, c)] == c,
        forall|j: int| 0 <= j < first_at(s, c) ==> s[j] != c,
    decreases s.len(),
{
    if s.len() > 0 && s[0] != c {
        lemma_first_at_bounds(s.drop_first(), c);
        assert forall|j: int| 0 <= j < first_at(s, c) implies s[j] != c by {
            if j > 0 {
                assert(s.drop_first()[j - 1] == s[j]);
            }
        }
    }
}

pub proof fn lemma_last_at(s: Seq<char>, c: char, k: int)
    requires
        -1 <= k < s.len(),
        forall|j: int| k < j < s.len() ==> s[j] != c,
        k >= 0 ==> s[k] == c,
    ensures
        last_at(s, c) == k,
    decreases s.len(),
{
    if s.len() > 0 && k < s.len() - 1 {
        lemma_last_at(s.drop_last(), c, k);
    }
}

pub fn find_first(s: &[char], c: char) -> (r: usize)
    ensures
        r == first_at(s@, c),
        r <= s@.len(),
        r < s@.len() ==> s@[r as int] == c,
{
    let mut i: usize = 0;
    while i < s.len() && s[i] != c
        invariant
            i <= s@.len(),
            forall|j: int| 0 <= j < i ==> s@[j] != c,
        decreases s@.len() - i,
    {
        i = i + 1;
    }
    proof {
        lemma_first_at(s@, c, i as int);
    }
    i
}

/// The place of the last `c`.
pub fn find_last(s: &[char], c: char) -> (r: Option<usize>)
    ensures
        match r {
            Some(k) => k == last_at(s@, c) && k < s@.len(),
            None => last_at(s@, c) == -1,
        },
{
    let mut n: usize = s.len();
    while n > 0
        invariant
            n <= s@.len(),
            forall|j: int| n <= j < s@.len() ==> s@[j] != c,
        decreases n,
    {
        if s[n - 1] == c {
            proof {
                lemma_last_at(s@, c, n - 1);
            }
            return Some(n - 1);
        }
        n = n - 1;
    }
    proof {
        lemma_last_at(s@, c, -1);
    }
    None
}

/// Whether `needle` stands in `s` at place `i`.
pub open spec fn stands_at(s: Seq<char>, needle: Seq<char>, i: int) -> bool {
    0 <= i && i + needle.len() <= s.len() && s.subrange(i, i + needle.len()) == needle
}

/// Whether `needle` stands somewhere in `s`.
pub open spec fn holds(s: Seq<char>, needle: Seq<char>) -> bool {
    exists|i: int| stands_at(s, needle, i)
}

pub fn contains(s: &[char], needle: &[char]) -> (r: bool)
    ensures
        r == holds(s@, needle@),
{
    let n: usize = needle.len();
    let len: usize = s.len();
    if n > len {
        return false;
    }
    let mut i: usize = 0;
    while i <= len - n
        invariant
            len == s@.len(),
            n == needle@.len(),
            n <= s@.len(),
            i <= s@.len() - n + 1,
            forall|k: int| 0 <= k < i ==> !stands_at(s@, needle@, k),
        decreases s@.len() - n + 1 - i,
    {
        let mut j: usize = 0;
        while j < n && s[i + j] == needle[j]
            invariant
                len == s@.len(),
                n == needle@.len(),
                i + n <= s@.len(),
                j <= n,
                forall|k: int| 0 <= k < j ==> s@[i + k] == #[trigger] needle@[k],
            decreases n - j,
        {
            j = j + 1;
        }
        if j == n {
            assert(s@.subrange(i as int, i + n) == needle@);
            assert(stands_at(s@, needle@, i as int));
            return true;
        }
        assert(!stands_at(s@, needle@, i as int)) by {
            assert(s@.subrange(i as int, i + n)[j as int] == s@[i + j]);
        }
        if i == len - n {
            return false;
        }
        i = i + 1;
    }
    false
}

/// The first place at which `needle` stands in `s`.
pub open spec fn place_of(s: Seq<char>, needle: Seq<char>) -> Option<int>
    decreases s.len(),
{
    if needle.is_prefix_of(s) {
        Some(0)
    } else if s.len() == 0 {
        None
    } else {
        match place_of(s.drop_first(), needle) {
            Some(k) => Some(k + 1),
            None => None,
        }
    }
}

pub fn find_text(s: &[char], needle: &str) -> (r: Option<usize>)
    ensures
        match r {
            Some(k) => place_of(s@, needle@) == Some(k as int) && k + needle@.len() <= s@.len(),
            None => place_of(s@, needle@) is None,
        },
{
    let mut i: usize = 0;
    assert(s@.skip(0) == s@);
    while i < s.len()
        invariant
            i <= s@.len(),
            match place_of(s@.skip(i as int), needle@) {
                Some(k) => place_of(s@, needle@) == Some(k + i),
                None => place_of(s@, needle@) is None,
            },
        decreases s@.len() - i,
    {
        let rest = slice_subrange(s, i, s.len());
        if starts_with(rest, needle) {
            return Some(i);
        }
        assert(rest@.drop_first() == s@.skip(i + 1));
        i = i + 1;
    }
    let rest = slice_subrange(s, i, i);
    assert(rest@ == s@.skip(i as int));
    if starts_with(rest, needle) {
        Some(i)
    } else {
        None
    }
}

/// The lower-case form of an ASCII letter; any other character is itself.
pub open spec fn ascii_lower(c: char) -> char {
    if 'A' <= c <= 'Z' {
        ((c as int) + 32) as char
    } else {
        c
    }
}

/// The upper-case form of an ASCII letter; any other character is itself.
pub open spec fn ascii_upper(c: char) -> char {
    if 'a' <= c <= 'z' {
        ((c as int) - 32) as char
    } else {
        c
    }
}

/// What `str::to_uppercase` makes of a text.
pub uninterp spec fn uppercase(s: Seq<char>) -> Seq<char>;

/// `str::to_uppercase`. The Unicode case mapping is left to the name
/// `uppercase`; of a text that is all ASCII, it turns the letters `a` to `z`
/// into `A` to `Z` and leaves the rest as it is.
#[verifier::external_body]
fn unicode_upper(s: &str) -> (r: String)
    ensures
        r@ == uppercase(s@),
        utf8::is_ascii_chars(s@) ==> r@ == s@.map_values(|c: char| ascii_upper(c)),
{
    s.to_uppercase()
}

/// A text in capitals: letter by letter where it is all ASCII.
pub open spec fn in_capitals(s: Seq<char>) -> Seq<char> {
    if utf8::is_ascii_chars(s) {
        s.map_values(|c: char| ascii_upper(c))
    } else {
        uppercase(s)
    }
}

pub(crate) fn to_upper(s: &str) -> (r: String)
    ensures
        r@ == in_capitals(s@),
{
    unicode_upper(s)
}

pub fn lower(c: char) -> (r: char)
    ensures
        r == ascii_lower(c),
{
    if 'A' <= c && c <= 'Z' {
        let b: u8 = c as u8;
        (b + 32) as char
    } else {
        c
    }
}

/// Whether two texts differ in nothing but the case of ASCII letters.
pub open spec fn alike(a: Seq<char>, b: Seq<char>) -> bool {
    a.len() == b.len() && forall|i: int|
        0 <= i < a.len() ==> ascii_lower(#[trigger] a[i]) == ascii_lower(b[i])
}

/// `str::eq_ignore_ascii_case`, on characters.
pub fn matches_ignoring_case(s: &[char], t: &str) -> (r: bool)
    ensures
        r == alike(s@, t@),
{
    let u = chars_of(t);
    if s.len() != u.len() {
        return false;
    }
    let mut i: usize = 0;
    while i < s.len()
        invariant
            u@ == t@,
            s@.len() == t@.len(),
            i <= s@.len(),
            forall|j: int| 0 <= j < i ==> ascii_lower(#[trigger] s@[j]) == ascii_lower(t@[j]),
        decreases s@.len() - i,
    {
        if lower(s[i]) != lower(u[i]) {
            return false;
        }
        i = i + 1;
    }
    true
}

// ---------------------------------------------------------------------------
// Building
// ---------------------------------------------------------------------------

/// A text without any `c`.
pub open spec fn without(s: Seq<char>, c: char) -> Seq<char> {
    s.filter(other_than(c))
}

/// The test for characters other than `c`.
pub open spec fn other_than(c: char) -> spec_fn(char) -> bool {
    |x: char| x != c
}

/// The decimal digits of a text, in order.
pub open spec fn digits_in(s: Seq<char>) -> Seq<char> {
    s.filter(|x: char| is_digit(x))
}

pub fn remove_all(s: &[char], c: char) -> (r: Vec<char>)
    ensures
        r@ == without(s@, c),
{
    let mut r: Vec<char> = Vec::new();
    let mut i: usize = 0;
    let ghost p = other_than(c);
    proof {
        reveal(Seq::filter);
    }
    while i < s.len()
        invariant
            i <= s@.len(),
            p == other_than(c),
            r@ == s@.take(i as int).filter(p),
        decreases s@.len() - i,
    {
        proof {
            reveal(Seq::filter);
            assert(s@.take(i + 1).drop_last() == s@.take(i as int));
        }
        if s[i] != c {
            r.push(s[i]);
        }
        i = i + 1;
    }
    assert(s@.take(i as int) == s@);
    r
}

pub fn keep_digits(s: &str) -> (r: String)
    ensures
        r@ == digits_in(s@),
{
    let s = chars_of(s);
    let mut r = String::new();
    let mut i: usize = 0;
    let ghost p = |x: char| is_digit(x);
    proof {
        reveal(Seq::filter);
    }
    while i < s.len()
        invariant
            i <= s@.len(),
            p == (|x: char| is_digit(x)),
            r@ == s@.take(i as int).filter(p),
        decreases s@.len() - i,
    {
        proof {
            reveal(Seq::filter);
            assert(s@.take(i + 1).drop_last() == s@.take(i as int));
        }
        if digit(s[i]) {
            r.push(s[i]);
        }
        i = i + 1;
    }
    assert(s@.take(i as int) == s@);
    r
}

/// The place of the first white space, or the length of the text if it has
/// none.
pub open spec fn first_space(s: Seq<char>) -> int
    decreases s.len(),
{
    if s.len() == 0 || is_space(s[0]) {
        0
    } else {
        1 + first_space(s.drop_first())
    }
}

proof fn lemma_first_space(s: Seq<char>, k: int)
    requires
        0 <= k <= s.len(),
        forall|j: int| 0 <= j < k ==> !is_space(s[j]),
        k < s.len() ==> is_space(s[k]),
    ensures
        first_space(s) == k,
    decreases s.len(),
{
    if k > 0 {
        lemma_first_space(s.drop_first(), k - 1);
    }
}

proof fn lemma_trimmed_start_len(s: Seq<char>)
    ensures
        trimmed_start(s).len() <= s.len(),
        trimmed_start(s).len() > 0 ==> !is_space(trimmed_start(s)[0]),
    decreases s.len(),
{
    if s.len() > 0 && is_space(s[0]) {
        lemma_trimmed_start_len(s.drop_first());
    }
}

proof fn lemma_first_space_bounds(s: Seq<char>)
    ensures
        0 <= first_space(s) <= s.len(),
        s.len() > 0 && !is_space(s[0]) ==> first_space(s) >= 1,
    decreases s.len(),
{
    if s.len() > 0 {
        lemma_first_space_bounds(s.drop_first());
    }
}

/// The words of a text, one space between each two.
pub open spec fn collapsed(s: Seq<char>) -> Seq<char>
    decreases s.len(),
    via collapsed_decreases
{
    let t = trimmed_start(s);
    if t.len() == 0 {
        seq![]
    } else {
        let k = first_space(t);
        let rest = collapsed(t.skip(k));
        if rest.len() == 0 {
            t.take(k)
        } else {
            t.take(k).push(' ') + rest
        }
    }
}

#[via_fn]
proof fn collapsed_decreases(s: Seq<char>) {
    lemma_trimmed_start_len(s);
    lemma_first_space_bounds(trimmed_start(s));
}

/// `collapsed(s)` set behind a text that is already there.
spec fn behind(out: Seq<char>, rest: Seq<char>) -> Seq<char> {
    if out.len() == 0 {
        rest
    } else if rest.len() == 0 {
        out
    } else {
        out.push(' ') + rest
    }
}

/// The words of a text, with single spaces between them.
pub fn collapse(s: &str) -> (r: String)
    ensures
        r@ == collapsed(s@),
{
    let all = chars_of(s);
    let mut out: Vec<char> = Vec::new();
    let mut rest: &[char] = trim_start(all.as_slice());
    proof {
        lemma_trimmed_start_len(s@);
        assert(trimmed_start(rest@) == rest@);
    }
    while rest.len() > 0
        invariant
            rest@ == trimmed_start(rest@),
            behind(out@, collapsed(rest@)) == collapsed(s@),
        decreases rest@.len(),
    {
        let ghost before = out@;
        let ghost t = rest@;
        let mut k: usize = 0;
        while k < rest.len() && !space(rest[k])
            invariant
                k <= rest@.len(),
                forall|j: int| 0 <= j < k ==> !is_space(rest@[j]),
            decreases rest@.len() - k,
        {
            k = k + 1;
        }
        proof {
            lemma_first_space(t, k as int);
            lemma_trimmed_start_len(t);
        }
        if out.len() > 0 {
            out.push(' ');
        }
        let word = slice_subrange(rest, 0, k);
        out.extend_from_slice(word);
        let ghost sep: Seq<char> = if before.len() > 0 {
            before.push(' ')
        } else {
            before
        };
        assert(out@ == sep + t.take(k as int));
        let tail = slice_subrange(rest, k, rest.len());
        rest = trim_start(tail);
        proof {
            assert(tail@ == t.skip(k as int));
            lemma_trimmed_start_len(tail@);
            assert(trimmed_start(rest@) == rest@);
            assert(collapsed(rest@) == collapsed(tail@));
            let c = collapsed(tail@);
            assert(behind(out@, c) == behind(before, collapsed(t)));
        }
    }
    string_of(out.as_slice())
}

/// A text, then as many spaces as bring it to the given width.
pub open spec fn padded_right(s: Seq<char>, width: nat) -> Seq<char> {
    if s.len() < width {
        s + Seq::new((width - s.len()) as nat, |i: int| ' ')
    } else {
        s
    }
}

/// As many spaces as bring a text to the given width, then the text.
pub open spec fn padded_left(s: Seq<char>, width: nat) -> Seq<char> {
    if s.len() < width {
        Seq::new((width - s.len()) as nat, |i: int| ' ') + s
    } else {
        s
    }
}

pub fn pad_right(s: &str, width: usize) -> (r: String)
    ensures
        r@ == padded_right(s@, width as nat),
{
    let n: usize = s.unicode_len();
    let mut r = owned(s);
    let mut i: usize = n;
    while i < width
        invariant
            n == s@.len(),
            n <= i,
            i <= width || i == n,
            r@ == s@ + Seq::new((i - n) as nat, |j: int| ' '),
        decreases width - i,
    {
        r.push(' ');
        i = i + 1;
    }
    r
}

pub fn pad_left(s: &str, width: usize) -> (r: String)
    ensures
        r@ == padded_left(s@, width as nat),
{
    let n: usize = s.unicode_len();
    let mut r = String::new();
    let mut i: usize = n;
    while i < width
        invariant
            n == s@.len(),
            n <= i,
            i <= width || i == n,
            r@ == Seq::new((i - n) as nat, |j: int| ' '),
        decreases width - i,
    {
        r.push(' ');
        i = i + 1;
    }
    r.append(s);
    r
}

/// The texts of a list, with `sep` between each two.
pub open spec fn joined(parts: Seq<Seq<char>>, sep: Seq<char>) -> Seq<char>
    decreases parts.len(),
{
    if parts.len() == 0 {
        seq![]
    } else if parts.len() == 1 {
        parts[0]
    } else {
        joined(parts.drop_last(), sep) + sep + parts.last()
    }
}

pub fn join(parts: &[String], sep: &str) -> (r: String)
    ensures
        r@ == joined(views(parts@), sep@),
{
    let mut r = String::new();
    let mut i: usize = 0;
    let ghost all = views(parts@);
    while i < parts.len()
        invariant
            all == views(parts@),
            i <= parts@.len(),
            r@ == joined(all.take(i as int), sep@),
        decreases parts@.len() - i,
    {
        if i > 0 {
            r.append(sep);
        }
        r.append(parts[i].as_str());
        assert(all.take(i + 1).drop_last() == all.take(i as int));
        assert(all.take(i + 1).last() == parts@[i as int]@);
        i = i + 1;
    }
    assert(all.take(i as int) == all);
    r
}

// ---------------------------------------------------------------------------
// Separators and order
// ---------------------------------------------------------------------------

/// Two texts that agree, each cut at the first place of a character, agree in
/// both parts.
pub proof fn lemma_cut_first(a: Seq<char>, b: Seq<char>, x: Seq<char>, y: Seq<char>, c: char)
    requires
        !a.contains(c),
        !x.contains(c),
        a + seq![c] + b == x + seq![c] + y,
    ensures
        a == x,
        b == y,
{
    let s = a + seq![c] + b;
    let t = x + seq![c] + y;
    assert(s[a.len() as int] == c);
    assert(t[x.len() as int] == c);
    if a.len() < x.len() {
        assert(x[a.len() as int] == c);
    }
    if x.len() < a.len() {
        assert(a[x.len() as int] == c);
    }
    assert(s.take(a.len() as int) == a);
    assert(t.take(x.len() as int) == x);
    assert(s.skip(a.len() as int + 1) == b);
    assert(t.skip(x.len() as int + 1) == y);
}

/// Two texts that agree, each cut at the last place of a character, agree in
/// both parts.
pub proof fn lemma_cut_last(a: Seq<char>, b: Seq<char>, x: Seq<char>, y: Seq<char>, c: char)
    requires
        !b.contains(c),
        !y.contains(c),
        a + seq![c] + b == x + seq![c] + y,
    ensures
        a == x,
        b == y,
{
    let s = a + seq![c] + b;
    let t = x + seq![c] + y;
    assert(s.len() == a.len() + 1 + b.len());
    assert(t.len() == x.len() + 1 + y.len());
    assert(s[a.len() as int] == c);
    assert(t[x.len() as int] == c);
    if a.len() < x.len() {
        assert(s[x.len() as int] == c);
        assert(s[x.len() as int] == b[x.len() - a.len() - 1]);
    }
    if x.len() < a.len() {
        assert(t[a.len() as int] == c);
        assert(t[a.len() as int] == y[a.len() - x.len() - 1]);
    }
    assert(s.take(a.len() as int) == a);
    assert(t.take(x.len() as int) == x);
    assert(s.skip(a.len() as int + 1) == b);
    assert(t.skip(x.len() as int + 1) == y);
}

/// Whether a text comes before another in the order of a dictionary.
pub open spec fn sorts_before(a: Seq<char>, b: Seq<char>) -> bool
    decreases a.len(),
{
    if b.len() == 0 {
        false
    } else if a.len() == 0 {
        true
    } else if a[0] != b[0] {
        a[0] < b[0]
    } else {
        sorts_before(a.drop_first(), b.drop_first())
    }
}

/// The order of texts whose fronts are of one length is that of their fronts,
/// and where those agree, that of the rest.
pub proof fn lemma_sorts_by_front(a: Seq<char>, b: Seq<char>, x: Seq<char>, y: Seq<char>)
    requires
        a.len() == x.len(),
    ensures
        sorts_before(a + b, x + y) == (sorts_before(a, x) || a == x && sorts_before(b, y)),
    decreases a.len(),
{
    if a.len() == 0 {
        assert(a + b == b);
        assert(x + y == y);
        assert(a == x);
    } else {
        lemma_sorts_by_front(a.drop_first(), b, x.drop_first(), y);
        assert((a + b).drop_first() == a.drop_first() + b);
        assert((x + y).drop_first() == x.drop_first() + y);
        assert(a == seq![a[0]] + a.drop_first());
        assert(x == seq![x[0]] + x.drop_first());
    }
}

/// Whether a text comes before another in the order of a dictionary.
pub fn comes_before(a: &str, b: &str) -> (r: bool)
    ensures
        r == sorts_before(a@, b@),
{
    let x = chars_of(a);
    let y = chars_of(b);
    let mut i: usize = 0;
    assert(x@.skip(0) == x@);
    assert(y@.skip(0) == y@);
    while i < x.len() && i < y.len()
        invariant
            x@ == a@,
            y@ == b@,
            i <= x@.len(),
            i <= y@.len(),
            sorts_before(x@.skip(i as int), y@.skip(i as int)) == sorts_before(a@, b@),
        decreases x@.len() - i,
    {
        assert(x@.skip(i as int)[0] == x@[i as int]);
        assert(y@.skip(i as int)[0] == y@[i as int]);
        assert(x@.skip(i as int).drop_first() == x@.skip(i + 1));
        assert(y@.skip(i as int).drop_first() == y@.skip(i + 1));
        if x[i] != y[i] {
            return x[i] < y[i];
        }
        i = i + 1;
    }
    i < y.len()
}

/// The order of a dictionary is an order.
pub proof fn lemma_sorts_transitive(a: Seq<char>, b: Seq<char>, c: Seq<char>)
    requires
        sorts_before(a, b),
        sorts_before(b, c),
    ensures
        sorts_before(a, c),
    decreases a.len(),
{
    if a.len() > 0 && a[0] == b[0] && b[0] == c[0] {
        lemma_sorts_transitive(a.drop_first(), b.drop_first(), c.drop_first());
    }
}

/// No text comes before itself.
pub proof fn lemma_sorts_irreflexive(a: Seq<char>)
    ensures
        !sorts_before(a, a),
    decreases a.len(),
{
    if a.len() > 0 {
        lemma_sorts_irreflexive(a.drop_first());
    }
}

// ---------------------------------------------------------------------------
// Bytes
// ---------------------------------------------------------------------------

/// How many bytes a text has in UTF-8.
pub open spec fn byte_len(s: Seq<char>) -> nat {
    utf8::encode_utf8(s).len()
}

/// Whether a text can be cut behind its first `n` bytes.
pub open spec fn cuts_at(s: Seq<char>, n: int) -> bool {
    utf8::is_char_boundary(utf8::encode_utf8(s), n)
}

/// The first `n` bytes of a text, where it can be cut there.
pub open spec fn byte_prefix(s: Seq<char>, n: int) -> Seq<char> {
    utf8::decode_utf8(utf8::encode_utf8(s).subrange(0, n))
}

pub fn count_bytes(s: &str) -> (r: usize)
    ensures
        r == byte_len(s@),
{
    s.as_bytes().len()
}

pub fn can_cut(s: &str, n: usize) -> (r: bool)
    ensures
        r == cuts_at(s@, n as int),
{
    s.is_char_boundary(n)
}

pub fn first_bytes(s: &str, n: usize) -> (r: &str)
    requires
        cuts_at(s@, n as int),
    ensures
        r@ == byte_prefix(s@, n as int),
{
    let (front, _) = s.split_at(n);
    proof {
        utf8::encode_utf8_decode_utf8(front@);
    }
    front
}

/// Of two texts, one comes before the other or they are the same.
pub proof fn lemma_sorts_total(a: Seq<char>, b: Seq<char>)
    ensures
        sorts_before(a, b) || sorts_before(b, a) || a == b,
    decreases a.len(),
{
    if a.len() == 0 || b.len() == 0 {
        assert(a.len() == 0 && b.len() == 0 ==> a == b);
    } else if a[0] == b[0] {
        lemma_sorts_total(a.drop_first(), b.drop_first());
        assert(a == seq![a[0]] + a.drop_first());
        assert(b == seq![b[0]] + b.drop_first());
    }
}

// ---------------------------------------------------------------------------
// Shared pieces
// ---------------------------------------------------------------------------

/// A copy of an optional text.
pub fn copy_opt(o: &Option<String>) -> (r: Option<String>)
    ensures
        opt(r) == opt(*o),
{
    match o {
        Some(s) => Some(owned(s.as_str())),
        None => None,
    }
}

/// Whether a text holds the given words.
pub fn holds_words(s: &[char], words: &str) -> (r: bool)
    ensures
        r == holds(s@, words@),
{
    let w = chars_of(words);
    contains(s, w.as_slice())
}

// ---------------------------------------------------------------------------
// Letters
// ---------------------------------------------------------------------------

/// Two texts are alike exactly where they are the same once the letters `a` to `z`
/// are capitals.
pub proof fn law_alike_but_for_capitals(a: Seq<char>, b: Seq<char>)
    ensures
        alike(a, b) <==> a.map_values(|c: char| ascii_upper(c)) == b.map_values(
            |c: char| ascii_upper(c),
        ),
{
    let (u, v) = (
        a.map_values(|c: char| ascii_upper(c)),
        b.map_values(|c: char| ascii_upper(c)),
    );
    if alike(a, b) {
        assert forall|i: int| 0 <= i < u.len() implies u[i] == v[i] by {
            assert(ascii_lower(a[i]) == ascii_lower(b[i]));
        }
        assert(u =~= v);
    }
    if u == v {
        assert(u.len() == a.len() && v.len() == b.len());
        assert forall|i: int| 0 <= i < a.len() implies ascii_lower(#[trigger] a[i]) == ascii_lower(
            b[i],
        ) by {
            assert(u[i] == v[i]);
        }
    }
}

/// The texts of two lists joined are those of each, joined, with the separator
/// between.
pub proof fn law_joined_in_parts(front: Seq<Seq<char>>, back: Seq<Seq<char>>, sep: Seq<char>)
    requires
        front.len() > 0,
        back.len() > 0,
    ensures
        joined(front + back, sep) == joined(front, sep) + sep + joined(back, sep),
        joined(seq![front[0]], sep) == front[0],
    decreases back.len(),
{
    let all = front + back;
    assert(all.last() == back.last());
    if back.len() == 1 {
        assert(all.drop_last() == front);
    } else {
        law_joined_in_parts(front, back.drop_last(), sep);
        assert(all.drop_last() == front + back.drop_last());
        assert(joined(front, sep) + sep + joined(back.drop_last(), sep) + sep + back.last()
            == joined(front, sep) + sep + (joined(back.drop_last(), sep) + sep + back.last()));
    }
}

/// The first place at which a text stands in another.
pub proof fn lemma_first_place(s: Seq<char>, needle: Seq<char>, k: int)
    requires
        stands_at(s, needle, k),
        forall|i: int| 0 <= i < k ==> !#[trigger] stands_at(s, needle, i),
    ensures
        place_of(s, needle) == Some(k),
    decreases s.len(),
{
    if k == 0 {
        assert(s.subrange(0, needle.len() as int) == needle);
        assert(needle.is_prefix_of(s));
    } else {
        assert(!stands_at(s, needle, 0));
        if needle.is_prefix_of(s) {
            assert(s.subrange(0, needle.len() as int) == needle);
        }
        let rest = s.drop_first();
        assert(rest.subrange(k - 1, k - 1 + needle.len()) == s.subrange(k, k + needle.len()));
        assert forall|i: int| 0 <= i < k - 1 implies !#[trigger] stands_at(
            rest,
            needle,
            i,
        ) by {
            assert(!stands_at(s, needle, i + 1));
            if stands_at(rest, needle, i) {
                assert(rest.subrange(i, i + needle.len()) == s.subrange(
                    i + 1,
                    i + 1 + needle.len(),
                ));
            }
        }
        lemma_first_place(rest, needle, k - 1);
    }
}

/// A text that stands nowhere in another has no place in it.
pub proof fn lemma_no_place(s: Seq<char>, needle: Seq<char>)
    requires
        !holds(s, needle),
        needle.len() > 0,
    ensures
        place_of(s, needle) is None,
    decreases s.len(),
{
    if needle.is_prefix_of(s) {
        assert(s.subrange(0, needle.len() as int) == needle);
        assert(stands_at(s, needle, 0));
    } else if s.len() > 0 {
        let rest = s.drop_first();
        if holds(rest, needle) {
            let i = choose|i: int| stands_at(rest, needle, i);
            assert(rest.subrange(i, i + needle.len()) == s.subrange(i + 1, i + 1 + needle.len()));
            assert(stands_at(s, needle, i + 1));
        }
        lemma_no_place(rest, needle);
    }
}

// ---------------------------------------------------------------------------
// White space
// ---------------------------------------------------------------------------

/// Whether a text is nothing but white space.
pub open spec fn all_space(s: Seq<char>) -> bool {
    forall|i: int| 0 <= i < s.len() ==> is_space(#[trigger] s[i])
}

proof fn lemma_start_cut(s: Seq<char>) -> (k: int)
    ensures
        0 <= k <= s.len(),
        all_space(s.take(k)),
        trimmed_start(s) == s.skip(k),
        k < s.len() ==> !is_space(s[k]),
    decreases s.len(),
{
    if s.len() > 0 && is_space(s[0]) {
        let rest = s.drop_first();
        let k = lemma_start_cut(rest);
        assert(rest.skip(k) == s.skip(k + 1));
        assert forall|i: int| 0 <= i < s.take(k + 1).len() implies is_space(
            #[trigger] s.take(k + 1)[i],
        ) by {
            if i > 0 {
                assert(rest.take(k)[i - 1] == s[i]);
            }
        }
        k + 1
    } else {
        assert(s.skip(0) == s);
        0
    }
}

proof fn lemma_end_cut(s: Seq<char>) -> (k: int)
    ensures
        0 <= k <= s.len(),
        all_space(s.skip(k)),
        trimmed_end(s) == s.take(k),
        k > 0 ==> !is_space(s[k - 1]),
    decreases s.len(),
{
    if s.len() > 0 && is_space(s.last()) {
        let rest = s.drop_last();
        let k = lemma_end_cut(rest);
        assert(rest.take(k) == s.take(k));
        assert forall|i: int| 0 <= i < s.skip(k).len() implies is_space(#[trigger] s.skip(k)[i]) by {
            if i < rest.len() - k {
                assert(rest.skip(k)[i] == s[k + i]);
            }
        }
        k
    } else {
        assert(s.take(s.len() as int) == s);
        s.len() as int
    }
}

/// Trimming takes away the white space at both ends and nothing else: what is left
/// begins and ends with something else, or is empty.
pub proof fn law_trimming_takes_only_outer_space(s: Seq<char>)
    ensures
        exists|front: Seq<char>, back: Seq<char>|
            s == front + trimmed(s) + back && #[trigger] all_space(front) && #[trigger] all_space(
                back,
            ),
        trimmed(s).len() > 0 ==> !is_space(trimmed(s)[0]) && !is_space(trimmed(s).last()),
{
    let a = lemma_start_cut(s);
    let t = trimmed_start(s);
    let b = lemma_end_cut(t);
    let (front, back) = (s.take(a), t.skip(b));
    assert(all_space(front) && all_space(back));
    assert(t == t.take(b) + t.skip(b));
    assert(s == s.take(a) + s.skip(a));
    assert(s =~= front + trimmed(s) + back);
    if trimmed(s).len() > 0 {
        assert(trimmed(s)[0] == s[a]);
        assert(trimmed(s).last() == t[b - 1]);
    }
}

/// What was trimmed stays as it is when it is trimmed again.
pub proof fn lemma_trimmed_twice(s: Seq<char>)
    ensures
        trimmed(trimmed(s)) == trimmed(s),
{
    law_trimming_takes_only_outer_space(s);
}

/// A text without the characters before it is what it was behind as many of them, and
/// does not begin with one.
pub proof fn law_stripping_takes_only_the_front(s: Seq<char>, c: char)
    ensures
        stripped_start(s, c).len() > 0 ==> stripped_start(s, c)[0] != c,
        stripped_start(s, c).len() <= s.len(),
        s.skip(s.len() - stripped_start(s, c).len()) == stripped_start(s, c),
        forall|i: int| 0 <= i < s.len() - stripped_start(s, c).len() ==> #[trigger] s[i] == c,
    decreases s.len(),
{
    if s.len() > 0 && s[0] == c {
        let rest = s.drop_first();
        law_stripping_takes_only_the_front(rest, c);
        let t = stripped_start(rest, c);
        assert(s.skip(s.len() - t.len()) == rest.skip(rest.len() - t.len()));
        assert forall|i: int| 0 <= i < s.len() - t.len() implies #[trigger] s[i] == c by {
            if i > 0 {
                assert(s[i] == rest[i - 1]);
            }
        }
    } else {
        assert(s.skip(0) == s);
    }
}

/// The characters of a text that are no white space.
pub open spec fn letters(s: Seq<char>) -> Seq<char> {
    s.filter(|c: char| !is_space(c))
}

proof fn lemma_letters_add(a: Seq<char>, b: Seq<char>)
    ensures
        letters(a + b) == letters(a) + letters(b),
    decreases b.len(),
{
    reveal(Seq::filter);
    if b.len() == 0 {
        assert(a + b == a);
    } else {
        lemma_letters_add(a, b.drop_last());
        assert((a + b).drop_last() == a + b.drop_last());
        assert((a + b).last() == b.last());
    }
}

proof fn lemma_letters_of_space(s: Seq<char>)
    requires
        all_space(s),
    ensures
        letters(s) == Seq::<char>::empty(),
    decreases s.len(),
{
    reveal(Seq::filter);
    if s.len() > 0 {
        assert(is_space(s[s.len() - 1]));
        assert forall|i: int| 0 <= i < s.drop_last().len() implies is_space(
            #[trigger] s.drop_last()[i],
        ) by {
            assert(is_space(s[i]));
        }
        lemma_letters_of_space(s.drop_last());
    }
}

proof fn lemma_word_ends(s: Seq<char>)
    ensures
        0 <= first_space(s) <= s.len(),
        forall|j: int| 0 <= j < first_space(s) ==> !is_space(#[trigger] s[j]),
        first_space(s) < s.len() ==> is_space(s[first_space(s)]),
    decreases s.len(),
{
    if s.len() > 0 && !is_space(s[0]) {
        let rest = s.drop_first();
        lemma_word_ends(rest);
        assert forall|j: int| 0 <= j < first_space(s) implies !is_space(#[trigger] s[j]) by {
            if j > 0 {
                assert(s[j] == rest[j - 1]);
            }
        }
    }
}

/// A text on one line has all that it had but white space, in order; what white space
/// is left is single spaces, none of them at an end.
pub proof fn law_one_line_keeps_the_words(s: Seq<char>)
    ensures
        letters(collapsed(s)) == letters(s),
        forall|i: int|
            0 <= i < collapsed(s).len() && is_space(#[trigger] collapsed(s)[i]) ==> collapsed(s)[i]
                == ' ' && 0 < i && i + 1 < collapsed(s).len() && !is_space(collapsed(s)[i + 1]),
        collapsed(s).len() > 0 ==> !is_space(collapsed(s)[0]),
    decreases s.len(),
{
    let a = lemma_start_cut(s);
    let t = trimmed_start(s);
    lemma_letters_of_space(s.take(a));
    lemma_letters_add(s.take(a), t);
    assert(s == s.take(a) + t);
    assert(letters(s) == letters(t));
    if t.len() > 0 {
        let k = first_space(t);
        lemma_word_ends(t);
        assert(k > 0);
        let word = t.take(k);
        law_one_line_keeps_the_words(t.skip(k));
        let rest = collapsed(t.skip(k));
        lemma_letters_add(word, t.skip(k));
        assert(t == word + t.skip(k));
        let line = collapsed(s);
        if rest.len() == 0 {
            reveal(Seq::filter);
            assert(letters(rest) == Seq::<char>::empty());
            assert(line == word);
            assert(letters(word) + Seq::<char>::empty() == letters(word));
            assert forall|i: int| 0 <= i < line.len() implies !is_space(#[trigger] line[i]) by {
                assert(line[i] == t[i]);
            }
        } else {
            let gap = seq![' '];
            lemma_letters_of_space(gap);
            lemma_letters_add(word, gap);
            lemma_letters_add(word + gap, rest);
            assert(line == word + gap + rest);
            assert(letters(word) + Seq::<char>::empty() == letters(word));
            assert forall|i: int| 0 <= i < line.len() && is_space(#[trigger] line[i]) implies line[i]
                == ' ' && 0 < i && i + 1 < line.len() && !is_space(line[i + 1]) by {
                if i < k {
                    assert(line[i] == t[i]);
                } else if i == k {
                    assert(line[i + 1] == rest[0]);
                } else {
                    assert(line[i] == rest[i - k - 1]);
                    assert(line[i + 1] == rest[i - k]);
                }
            }
            assert(line[0] == t[0]);
        }
    } else {
        reveal(Seq::filter);
        assert(collapsed(s) == Seq::<char>::empty());
    }
}

} // verus!
