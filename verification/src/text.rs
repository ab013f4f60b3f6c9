//! Character classes and searches over a line of characters.
use vstd::prelude::*;

verus! {

/// `char::is_whitespace`: the characters with Unicode's `White_Space`
/// property.
pub open spec fn is_white_space(c: char) -> bool {
    ||| ('\u{9}' <= c && c <= '\u{d}')
    ||| c == ' '
    ||| c == '\u{85}'
    ||| c == '\u{a0}'
    ||| c == '\u{1680}'
    ||| ('\u{2000}' <= c && c <= '\u{200a}')
    ||| c == '\u{2028}'
    ||| c == '\u{2029}'
    ||| c == '\u{202f}'
    ||| c == '\u{205f}'
    ||| c == '\u{3000}'
}

/// Whether `c` is whitespace, by the table of [`is_white_space`].
pub fn is_whitespace(c: char) -> (white: bool)
    ensures
        white == is_white_space(c),
{
    ('\u{9}' <= c && c <= '\u{d}') || c == ' ' || c == '\u{85}' || c == '\u{a0}' || c == '\u{1680}'
        || ('\u{2000}' <= c && c <= '\u{200a}') || c == '\u{2028}' || c == '\u{2029}' || c
        == '\u{202f}' || c == '\u{205f}' || c == '\u{3000}'
}

/// An ASCII decimal digit.
pub open spec fn is_digit(c: char) -> bool {
    '0' <= c && c <= '9'
}

/// Whether `c` is an ASCII decimal digit.
pub fn is_ascii_digit(c: char) -> (digit: bool)
    ensures
        digit == is_digit(c),
{
    '0' <= c && c <= '9'
}

/// What `char::is_alphabetic` answers for `c`: Unicode's `Alphabetic`
/// property, whose tables `core` carries.
pub uninterp spec fn alphabetic(c: char) -> bool;

/// What `char::is_alphanumeric` answers for `c`: Unicode's `Alphabetic` or
/// `Numeric` property, from the tables `core` carries.
pub uninterp spec fn alphanumeric(c: char) -> bool;

/// An ASCII letter.
pub open spec fn is_ascii_letter(c: char) -> bool {
    ('a' <= c && c <= 'z') || ('A' <= c && c <= 'Z')
}

/// Calls `char::is_alphabetic`, Unicode's `Alphabetic` property. The contract
/// names its answer, which depends on `c` alone, and states what the
/// property is among ASCII characters: the letters have it, nothing else
/// does. Beyond ASCII it is left to the name.
#[verifier::external_body]
pub(crate) fn is_alphabetic(c: char) -> (letter: bool)
    ensures
        letter == alphabetic(c),
        c <= '\u{7f}' ==> (letter <==> is_ascii_letter(c)),
{
    c.is_alphabetic()
}

/// Calls `char::is_alphanumeric`, Unicode's `Alphabetic` or `Numeric`
/// property. The contract names its answer, which depends on `c` alone, and
/// states what it is among ASCII characters: letters and digits, nothing
/// else. Beyond ASCII it is left to the name.
#[verifier::external_body]
pub(crate) fn is_alphanumeric(c: char) -> (word: bool)
    ensures
        word == alphanumeric(c),
        c <= '\u{7f}' ==> (word <==> (is_ascii_letter(c) || is_digit(c))),
{
    c.is_alphanumeric()
}

/// `String::push` appends one character.
pub assume_specification[ String::push ](string: &mut String, ch: char)
    ensures
        final(string)@ == old(string)@.push(ch),
;

/// The characters of `text`, in order.
pub fn chars_of(text: &str) -> (chars: Vec<char>)
    ensures
        chars@ == text@,
{
    let mut chars: Vec<char> = Vec::new();
    for c in it: text.chars()
        invariant
            chars@ == it.seq().take(it.index() as int),
    {
        chars.push(c);
    }
    chars
}

/// A `String` holding exactly `chars`.
pub fn string_of(chars: &[char]) -> (text: String)
    ensures
        text@ == chars@,
{
    let mut text = String::new();
    let mut i: usize = 0;
    while i < chars.len()
        invariant
            i <= chars@.len(),
            text@ == chars@.take(i as int),
        decreases chars@.len() - i,
    {
        text.push(chars[i]);
        i = i + 1;
        assert(text@ =~= chars@.take(i as int));
    }
    assert(chars@.take(i as int) =~= chars@);
    text
}

/// `needle` occurs in `line` starting at `at`.
pub open spec fn matches_at(line: Seq<char>, at: int, needle: Seq<char>) -> bool {
    0 <= at && at + needle.len() <= line.len() && line.subrange(at, at + needle.len()) == needle
}

/// The first occurrence of `needle` in `line` at or after `from`.
pub open spec fn find_from(line: Seq<char>, from: int, needle: Seq<char>) -> Option<int>
    decreases line.len() + 1 - from,
{
    if from < 0 || from + needle.len() > line.len() {
        None
    } else if matches_at(line, from, needle) {
        Some(from)
    } else {
        find_from(line, from + 1, needle)
    }
}

/// Whether `needle` occurs in `line` at `at`.
pub fn starts_with_at(line: &[char], at: usize, needle: &[char]) -> (found: bool)
    ensures
        found == matches_at(line@, at as int, needle@),
{
    if at > line.len() || needle.len() > line.len() - at {
        return false;
    }
    let mut k: usize = 0;
    while k < needle.len()
        invariant
            at + needle@.len() <= line.len(),
            k <= needle@.len(),
            forall|j: int| 0 <= j < k ==> line@[at + j] == needle@[j],
        decreases needle@.len() - k,
    {
        if line[at + k] != needle[k] {
            assert(line@.subrange(at as int, at + needle@.len())[k as int] != needle@[k as int]);
            return false;
        }
        k = k + 1;
    }
    assert(line@.subrange(at as int, at + needle@.len()) =~= needle@);
    true
}

/// Index of the next occurrence of `needle` at or after `from`.
pub fn find(line: &[char], from: usize, needle: &[char]) -> (found: Option<usize>)
    requires
        needle@.len() > 0,
    ensures
        match found {
            Some(k) => find_from(line@, from as int, needle@) == Some(k as int),
            None => find_from(line@, from as int, needle@) is None,
        },
        found matches Some(k) ==> from <= k && k + needle@.len() <= line@.len(),
{
    let mut at = from;
    while at <= line.len() && needle.len() <= line.len() - at
        invariant
            from <= at,
            needle@.len() > 0,
            find_from(line@, from as int, needle@) == find_from(line@, at as int, needle@),
        decreases line@.len() + 1 - at,
    {
        if starts_with_at(line, at, needle) {
            return Some(at);
        }
        at = at + 1;
    }
    None
}

/// The end of the run of `c` that starts at `from`.
pub open spec fn run_end(line: Seq<char>, from: int, c: char) -> int
    decreases line.len() - from,
{
    if 0 <= from < line.len() && line[from] == c {
        run_end(line, from + 1, c)
    } else {
        from
    }
}

/// The end of the run of `c` that starts at `from`.
pub fn run_end_at(line: &[char], from: usize, c: char) -> (end: usize)
    requires
        from <= line@.len(),
    ensures
        end == run_end(line@, from as int, c),
        from <= end <= line@.len(),
{
    let mut end = from;
    while end < line.len() && line[end] == c
        invariant
            from <= end <= line@.len(),
            run_end(line@, from as int, c) == run_end(line@, end as int, c),
        decreases line@.len() - end,
    {
        end = end + 1;
    }
    end
}

/// How many spaces `line` starts with.
pub open spec fn leading_spaces(line: Seq<char>) -> int {
    run_end(line, 0, ' ')
}

/// The end of the run of ASCII digits that starts at `from`.
pub open spec fn digits_end(line: Seq<char>, from: int) -> int
    decreases line.len() - from,
{
    if 0 <= from < line.len() && is_digit(line[from]) {
        digits_end(line, from + 1)
    } else {
        from
    }
}

/// The end of the run of ASCII digits that starts at `from`.
pub fn digits_end_at(line: &[char], from: usize) -> (end: usize)
    requires
        from <= line@.len(),
    ensures
        end == digits_end(line@, from as int),
        from <= end <= line@.len(),
{
    let mut end = from;
    while end < line.len() && is_ascii_digit(line[end])
        invariant
            from <= end <= line@.len(),
            digits_end(line@, from as int) == digits_end(line@, end as int),
        decreases line@.len() - end,
    {
        end = end + 1;
    }
    end
}

/// The first position in `lo..hi` that is not whitespace, or `hi`.
pub open spec fn skip_white(line: Seq<char>, lo: int, hi: int) -> int
    decreases hi - lo,
{
    if 0 <= lo < hi && hi <= line.len() && is_white_space(line[lo]) {
        skip_white(line, lo + 1, hi)
    } else {
        lo
    }
}

/// The end of `lo..hi` with trailing whitespace left off.
pub open spec fn back_white(line: Seq<char>, lo: int, hi: int) -> int
    decreases hi - lo,
{
    if 0 <= lo < hi && hi <= line.len() && is_white_space(line[hi - 1]) {
        back_white(line, lo, hi - 1)
    } else {
        hi
    }
}

/// The first position in `lo..hi` that is not whitespace, or `hi`.
pub fn skip_white_at(line: &[char], lo: usize, hi: usize) -> (at: usize)
    requires
        lo <= hi <= line@.len(),
    ensures
        at == skip_white(line@, lo as int, hi as int),
        lo <= at <= hi,
{
    let mut at = lo;
    while at < hi && is_whitespace(line[at])
        invariant
            lo <= at <= hi,
            hi <= line@.len(),
            skip_white(line@, lo as int, hi as int) == skip_white(line@, at as int, hi as int),
        decreases hi - at,
    {
        at = at + 1;
    }
    at
}

/// The end of `lo..hi` with trailing whitespace left off.
pub fn back_white_at(line: &[char], lo: usize, hi: usize) -> (at: usize)
    requires
        lo <= hi <= line@.len(),
    ensures
        at == back_white(line@, lo as int, hi as int),
        lo <= at <= hi,
{
    let mut at = hi;
    while at > lo && is_whitespace(line[at - 1])
        invariant
            lo <= at <= hi,
            hi <= line@.len(),
            back_white(line@, lo as int, hi as int) == back_white(line@, lo as int, at as int),
        decreases at - lo,
    {
        at = at - 1;
    }
    at
}

/// The first position in `lo..hi` that is not `c`, or `hi`.
pub open spec fn skip_char(line: Seq<char>, lo: int, hi: int, c: char) -> int
    decreases hi - lo,
{
    if 0 <= lo < hi && hi <= line.len() && line[lo] == c {
        skip_char(line, lo + 1, hi, c)
    } else {
        lo
    }
}

/// The end of `lo..hi` with trailing `c` left off.
pub open spec fn back_char(line: Seq<char>, lo: int, hi: int, c: char) -> int
    decreases hi - lo,
{
    if 0 <= lo < hi && hi <= line.len() && line[hi - 1] == c {
        back_char(line, lo, hi - 1, c)
    } else {
        hi
    }
}

/// The first position in `lo..hi` that is not `c`, or `hi`.
pub fn skip_char_at(line: &[char], lo: usize, hi: usize, c: char) -> (at: usize)
    requires
        lo <= hi <= line@.len(),
    ensures
        at == skip_char(line@, lo as int, hi as int, c),
        lo <= at <= hi,
{
    let mut at = lo;
    while at < hi && line[at] == c
        invariant
            lo <= at <= hi,
            hi <= line@.len(),
            skip_char(line@, lo as int, hi as int, c) == skip_char(line@, at as int, hi as int, c),
        decreases hi - at,
    {
        at = at + 1;
    }
    at
}

/// The end of `lo..hi` with trailing `c` left off.
pub fn back_char_at(line: &[char], lo: usize, hi: usize, c: char) -> (at: usize)
    requires
        lo <= hi <= line@.len(),
    ensures
        at == back_char(line@, lo as int, hi as int, c),
        lo <= at <= hi,
{
    let mut at = hi;
    while at > lo && line[at - 1] == c
        invariant
            lo <= at <= hi,
            hi <= line@.len(),
            back_char(line@, lo as int, hi as int, c) == back_char(line@, lo as int, at as int, c),
        decreases at - lo,
    {
        at = at - 1;
    }
    at
}

/// `s` with leading and trailing whitespace removed, as `str::trim` does.
pub open spec fn trimmed(s: Seq<char>) -> Seq<char> {
    let lo = skip_white(s, 0, s.len() as int);
    s.subrange(lo, back_white(s, lo, s.len() as int))
}

/// `s` with trailing whitespace removed, as `str::trim_end` does.
pub open spec fn trimmed_end(s: Seq<char>) -> Seq<char> {
    s.subrange(0, back_white(s, 0, s.len() as int))
}


/// `find_from` finds the first occurrence at or after `from`.
pub proof fn lemma_find_from(line: Seq<char>, from: int, needle: Seq<char>)
    requires
        0 <= from,
    ensures
        match find_from(line, from, needle) {
            Some(at) => {
                &&& from <= at
                &&& matches_at(line, at, needle)
                &&& forall|j: int| from <= j < at ==> !matches_at(line, j, needle)
            },
            None => forall|j: int| from <= j ==> !matches_at(line, j, needle),
        },
    decreases line.len() + 1 - from,
{
    if from + needle.len() > line.len() {
    } else if matches_at(line, from, needle) {
    } else {
        lemma_find_from(line, from + 1, needle);
    }
}

/// A one-character needle occurs exactly where that character is.
pub proof fn lemma_matches_char(line: Seq<char>, at: int, c: char)
    ensures
        matches_at(line, at, seq![c]) <==> (0 <= at < line.len() && line[at] == c),
{
    if 0 <= at < line.len() {
        if line[at] == c {
            assert(line.subrange(at, at + 1) =~= seq![c]);
        } else {
            assert(line.subrange(at, at + 1)[0] != seq![c][0]);
        }
    }
}


/// `s` with leading `c` removed, as `str::trim_start_matches` does for a
/// character.
pub open spec fn without_leading(s: Seq<char>, c: char) -> Seq<char> {
    s.subrange(skip_char(s, 0, s.len() as int, c), s.len() as int)
}

/// `s` with trailing `c` removed, as `str::trim_end_matches` does for a
/// character.
pub open spec fn without_trailing(s: Seq<char>, c: char) -> Seq<char> {
    s.subrange(0, back_char(s, 0, s.len() as int, c))
}

/// A copy of `chars[from..to]`.
pub fn copy_range(chars: &[char], from: usize, to: usize) -> (copy: Vec<char>)
    requires
        from <= to <= chars@.len(),
    ensures
        copy@ == chars@.subrange(from as int, to as int),
{
    let mut copy: Vec<char> = Vec::new();
    let mut k = from;
    while k < to
        invariant
            from <= k <= to <= chars@.len(),
            copy@ == chars@.subrange(from as int, k as int),
        decreases to - k,
    {
        copy.push(chars[k]);
        k = k + 1;
        assert(copy@ =~= chars@.subrange(from as int, k as int));
    }
    copy
}

/// `chars` with leading and trailing whitespace removed.
pub fn trim(chars: &[char]) -> (inner: Vec<char>)
    ensures
        inner@ == trimmed(chars@),
{
    let lo = skip_white_at(chars, 0, chars.len());
    let hi = back_white_at(chars, lo, chars.len());
    copy_range(chars, lo, hi)
}

/// `chars` with leading `c` removed.
pub fn trim_leading(chars: &[char], c: char) -> (rest: Vec<char>)
    ensures
        rest@ == without_leading(chars@, c),
{
    let lo = skip_char_at(chars, 0, chars.len(), c);
    copy_range(chars, lo, chars.len())
}

/// `chars` with trailing `c` removed.
pub fn trim_trailing(chars: &[char], c: char) -> (rest: Vec<char>)
    ensures
        rest@ == without_trailing(chars@, c),
{
    let hi = back_char_at(chars, 0, chars.len(), c);
    copy_range(chars, 0, hi)
}

/// The code of `c`, with an ASCII capital taken as its small letter.
pub open spec fn ascii_lower(c: char) -> u32 {
    if 'A' <= c && c <= 'Z' {
        ((c as u32) + 32) as u32
    } else {
        c as u32
    }
}

/// `a` and `b` are equal but for the case of ASCII letters, as
/// `str::eq_ignore_ascii_case` compares.
pub open spec fn same_ignoring_ascii_case(a: Seq<char>, b: Seq<char>) -> bool {
    a.len() == b.len() && forall|k: int| 0 <= k < a.len() ==> ascii_lower(#[trigger] a[k]) == ascii_lower(b[k])
}

/// Whether `a` and `b` are the same characters, ignoring ASCII case.
pub fn eq_ignore_ascii_case(a: &[char], b: &[char]) -> (same: bool)
    ensures
        same == same_ignoring_ascii_case(a@, b@),
{
    if a.len() != b.len() {
        return false;
    }
    let mut k: usize = 0;
    while k < a.len()
        invariant
            k <= a@.len(),
            a@.len() == b@.len(),
            forall|j: int| 0 <= j < k ==> ascii_lower(#[trigger] a@[j]) == ascii_lower(b@[j]),
        decreases a@.len() - k,
    {
        let x = a[k];
        let y = b[k];
        let lx: u32 = if 'A' <= x && x <= 'Z' { (x as u32) + 32 } else { x as u32 };
        let ly: u32 = if 'A' <= y && y <= 'Z' { (y as u32) + 32 } else { y as u32 };
        if lx != ly {
            assert(ascii_lower(a@[k as int]) != ascii_lower(b@[k as int]));
            return false;
        }
        k = k + 1;
    }
    true
}

/// A run of `c` from `from` that stops at `end` ends there.
pub proof fn lemma_run_end_is(line: Seq<char>, from: int, end: int, c: char)
    requires
        0 <= from <= end <= line.len(),
        forall|k: int| from <= k < end ==> #[trigger] line[k] == c,
        end == line.len() || line[end] != c,
    ensures
        run_end(line, from, c) == end,
    decreases end - from,
{
    if from < end {
        lemma_run_end_is(line, from + 1, end, c);
    }
}

/// A run of `c` from `from` is all `c`, and what stops it is not.
pub proof fn lemma_run_end_chars(line: Seq<char>, from: int, c: char)
    requires
        0 <= from <= line.len(),
    ensures
        from <= run_end(line, from, c) <= line.len(),
        forall|k: int| from <= k < run_end(line, from, c) ==> #[trigger] line[k] == c,
        run_end(line, from, c) == line.len() || line[run_end(line, from, c)] != c,
    decreases line.len() - from,
{
    if from < line.len() && line[from] == c {
        lemma_run_end_chars(line, from + 1, c);
    }
}

/// A run of digits from `from` that stops at `end` ends there.
pub proof fn lemma_digits_end_is(line: Seq<char>, from: int, end: int)
    requires
        0 <= from <= end <= line.len(),
        forall|k: int| from <= k < end ==> is_digit(#[trigger] line[k]),
        end == line.len() || !is_digit(line[end]),
    ensures
        digits_end(line, from) == end,
    decreases end - from,
{
    if from < end {
        lemma_digits_end_is(line, from + 1, end);
    }
}

/// A run of digits from `from` is all digits, and what stops it is not one.
pub proof fn lemma_digits_end_chars(line: Seq<char>, from: int)
    requires
        0 <= from <= line.len(),
    ensures
        from <= digits_end(line, from) <= line.len(),
        forall|k: int| from <= k < digits_end(line, from) ==> is_digit(#[trigger] line[k]),
        digits_end(line, from) == line.len() || !is_digit(line[digits_end(line, from)]),
    decreases line.len() - from,
{
    if from < line.len() && is_digit(line[from]) {
        lemma_digits_end_chars(line, from + 1);
    }
}

} // verus!
