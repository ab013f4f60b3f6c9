//! The line edits that need the scanner's understanding of lists: what Enter
//! should insert, and numbering that has fallen out of sequence.
use vstd::prelude::*;
use crate::text::{
    is_white_space, is_whitespace, is_digit, chars_of, string_of, run_end_at, leading_spaces,
    digits_end, digits_end_at, find_from, find, copy_range, lemma_find_from,
};
use crate::block::{
    bullet_of, ordered_of, item_of, checkbox_of, fence_line, bullet_len, ordered_len, item_len,
    checkbox, is_fence,
};
use crate::note::line_end;

verus! {

/// The value of a run of ASCII digits.
pub open spec fn decimal_value(digits: Seq<char>) -> nat
    decreases digits.len(),
{
    if digits.len() == 0 {
        0
    } else {
        decimal_value(digits.drop_last()) * 10 + ((digits.last() as u32) - ('0' as u32)) as nat
    }
}

/// What `str::parse::<u32>` gives for a non-empty run of ASCII digits: its
/// value, unless that is too large for a `u32`.
pub open spec fn parsed_number(digits: Seq<char>) -> Option<u32> {
    if decimal_value(digits) <= u32::MAX {
        Some(decimal_value(digits) as u32)
    } else {
        None
    }
}

/// The digit character for `d`, below ten.
pub open spec fn digit_char(d: nat) -> char {
    (('0' as u32) + d) as char
}

/// `n` written in decimal, as `u32::to_string` writes it.
pub open spec fn decimal(n: nat) -> Seq<char>
    decreases n,
{
    if n < 10 {
        seq![digit_char(n)]
    } else {
        decimal(n / 10).push(digit_char(n % 10))
    }
}

/// The value of a run of digits does not shrink as digits are added to it.
proof fn lemma_decimal_grows(digits: Seq<char>, k: int)
    requires
        0 <= k <= digits.len(),
    ensures
        decimal_value(digits.take(k)) <= decimal_value(digits),
    decreases digits.len() - k,
{
    if k < digits.len() {
        lemma_decimal_grows(digits, k + 1);
        assert(digits.take(k + 1).drop_last() =~= digits.take(k));
    } else {
        assert(digits.take(k) =~= digits);
    }
}

/// The number written in `digits`, all of which are ASCII digits, if it fits a
/// `u32`.
fn parse_number(digits: &[char]) -> (number: Option<u32>)
    requires
        forall|k: int| 0 <= k < digits@.len() ==> is_digit(#[trigger] digits@[k]),
    ensures
        number == parsed_number(digits@),
{
    let mut value: u64 = 0;
    let mut k: usize = 0;
    while k < digits.len()
        invariant
            k <= digits@.len(),
            forall|j: int| 0 <= j < digits@.len() ==> is_digit(#[trigger] digits@[j]),
            value == decimal_value(digits@.take(k as int)),
            value <= u32::MAX,
        decreases digits@.len() - k,
    {
        let d = (digits[k] as u32) - ('0' as u32);
        assert(is_digit(digits@[k as int]));
        assert(digits@.take(k + 1).drop_last() =~= digits@.take(k as int));
        assert(digits@.take(k + 1).last() == digits@[k as int]);
        let next = value * 10 + d as u64;
        if next > 4294967295 {
            proof {
                lemma_decimal_grows(digits@, k + 1);
            }
            return None;
        }
        value = next;
        k = k + 1;
    }
    assert(digits@.take(k as int) =~= digits@);
    Some(value as u32)
}

/// The digit character for `d`, below ten.
fn digit(d: u32) -> (c: char)
    requires
        d < 10,
    ensures
        c == digit_char(d as nat),
{
    let digits = ['0', '1', '2', '3', '4', '5', '6', '7', '8', '9'];
    let c = digits[d as usize];
    assert(digits@ == seq!['0', '1', '2', '3', '4', '5', '6', '7', '8', '9']);
    assert(c == digit_char(d as nat)) by {
        assert(d == 0 || d == 1 || d == 2 || d == 3 || d == 4 || d == 5 || d == 6 || d == 7 || d
            == 8 || d == 9);
    }
    c
}

/// Append `n` in decimal.
fn push_decimal(out: &mut Vec<char>, n: u32)
    ensures
        final(out)@ == old(out)@ + decimal(n as nat),
    decreases n,
{
    if n >= 10 {
        push_decimal(out, n / 10);
    }
    out.push(digit(n % 10));
    proof {
        if n >= 10 {
            assert(final(out)@ =~= old(out)@ + decimal(n as nat));
        } else {
            assert(final(out)@ =~= old(out)@ + decimal(n as nat));
        }
    }
}

/// What pressing Enter on a line should do to keep its list going.
#[derive(Debug, Clone, PartialEq, Eq)]
pub enum ListEnter {
    /// Start the new line with this text: the item's indent, and either its
    /// bullet or the next number, plus an empty checkbox if it had one.
    Continue(String),
    /// The item has no content. Typing a bullet and then nothing is how you say
    /// the list is over, so clear the marker rather than laying down another.
    EndList,
}

/// What Enter does, by characters: `None` leaves Enter alone, `Some(None)`
/// ends the list, `Some(Some(prefix))` starts the next line with `prefix`.
pub open spec fn enter_model(enter: Option<ListEnter>) -> Option<Option<Seq<char>>> {
    match enter {
        Some(ListEnter::Continue(prefix)) => Some(Some(prefix@)),
        Some(ListEnter::EndList) => Some(None),
        None => None,
    }
}

/// The number after the one an ordered item carries: one more, held at the
/// largest `u32`; a number too long to read counts as nothing, so the next is
/// one.
pub open spec fn next_number(digits: Seq<char>) -> u32 {
    match parsed_number(digits) {
        Some(n) => if n == u32::MAX {
            n
        } else {
            (n + 1) as u32
        },
        None => 1,
    }
}

/// Whether every character of `s` is whitespace.
pub open spec fn all_white(s: Seq<char>) -> bool {
    forall|k: int| 0 <= k < s.len() ==> is_white_space(#[trigger] s[k])
}

/// The list-continuation behaviour for pressing Enter on `line`.
pub open spec fn continuation(line: Seq<char>) -> Option<Option<Seq<char>>> {
    let indent = leading_spaces(line);
    let rest = line.subrange(indent, line.len() as int);
    match item_of(rest) {
        None => None,
        Some(len) => {
            let after = rest.subrange(len, rest.len() as int);
            // A new task starts unticked however the one above it ended.
            let box_len: int = match checkbox_of(after) {
                Some((_, n)) => n + 1,
                None => 0,
            };
            let checkbox: Seq<char> = match checkbox_of(after) {
                Some(_) => seq!['[', ' ', ']', ' '],
                None => seq![],
            };
            let skip = if box_len < after.len() {
                box_len
            } else {
                after.len() as int
            };
            if all_white(after.subrange(skip, after.len() as int)) {
                Some(None)
            } else {
                let marker = match bullet_of(rest) {
                    Some(_) => seq![rest[0]],
                    None => {
                        let digits = digits_end(rest, 0);
                        decimal(next_number(rest.subrange(0, digits)) as nat).push(rest[digits])
                    },
                };
                Some(Some(Seq::new(indent as nat, |k: int| ' ') + marker + seq![' '] + checkbox))
            }
        },
    }
}

/// The list-continuation behaviour for pressing Enter on `line`.
///
/// `None` for anything that is not a list item, which leaves Enter alone.
pub fn list_enter(line: &str) -> (enter: Option<ListEnter>)
    ensures
        enter_model(enter) == continuation(line@),
{
    let chars = chars_of(line);
    let indent = run_end_at(&chars, 0, ' ');
    let rest = &chars[indent..chars.len()];
    let marker_len = match item_len(rest) {
        Some(len) => len,
        None => return None,
    };
    let after = &rest[marker_len..rest.len()];
    // A new task starts unticked however the one above it ended: carrying the
    // tick across would mark work done that has not been written down yet.
    let (box_len, ticked_box) = match checkbox(after) {
        Some((_, len)) => (len + 1, true),
        None => (0, false),
    };
    let skip = if box_len < after.len() {
        box_len
    } else {
        after.len()
    };
    let mut k = skip;
    while k < after.len() && is_whitespace(after[k])
        invariant
            skip <= k <= after@.len(),
            forall|j: int| skip <= j < k ==> is_white_space(#[trigger] after@[j]),
        decreases after@.len() - k,
    {
        k = k + 1;
    }
    if k == after.len() {
        assert(all_white(after@.subrange(skip as int, after@.len() as int))) by {
            assert forall|j: int| 0 <= j < after@.len() - skip implies is_white_space(
                #[trigger] after@.subrange(skip as int, after@.len() as int)[j],
            ) by {
                assert(after@.subrange(skip as int, after@.len() as int)[j] == after@[skip + j]);
            }
        }
        return Some(ListEnter::EndList);
    }
    assert(!all_white(after@.subrange(skip as int, after@.len() as int))) by {
        assert(after@.subrange(skip as int, after@.len() as int)[k - skip] == after@[k as int]);
    }
    let mut prefix: Vec<char> = Vec::new();
    let mut s: usize = 0;
    while s < indent
        invariant
            s <= indent,
            prefix@ == Seq::new(s as nat, |j: int| ' '),
        decreases indent - s,
    {
        prefix.push(' ');
        s = s + 1;
        assert(prefix@ =~= Seq::new(s as nat, |j: int| ' '));
    }
    let ghost spaces = prefix@;
    if bullet_len(rest).is_some() {
        prefix.push(rest[0]);
    } else {
        let digits = digits_end_at(rest, 0);
        assert forall|j: int| 0 <= j < digits implies is_digit(#[trigger] rest@.subrange(0, digits as int)[j]) by {
            lemma_digits_prefix(rest@, 0, j);
        }
        // Saturating rather than wrapping: a note numbered to u32::MAX is
        // nobody's real list, and repeating the number beats restarting at 0.
        let next = match parse_number(&rest[0..digits]) {
            Some(n) => if n == 4294967295 {
                n
            } else {
                n + 1
            },
            None => 1,
        };
        push_decimal(&mut prefix, next);
        prefix.push(rest[digits]);  // '.' or ')'
        assert(prefix@ =~= spaces + decimal(next as nat).push(rest@[digits as int]));
    }
    let ghost marked = prefix@;
    prefix.push(' ');
    if ticked_box {
        prefix.push('[');
        prefix.push(' ');
        prefix.push(']');
        prefix.push(' ');
    }
    proof {
        let expected = continuation(line@).unwrap().unwrap();
        assert(prefix@ =~= expected);
    }
    Some(ListEnter::Continue(string_of(&prefix)))
}

/// The characters before the end of a run of digits are digits.
proof fn lemma_digits_prefix(line: Seq<char>, from: int, j: int)
    requires
        0 <= from <= j < digits_end(line, from),
    ensures
        is_digit(line[j]),
    decreases j - from,
{
    if from < j {
        lemma_digits_prefix(line, from + 1, j);
    }
}


/// An ordered item whose number no longer matches its position.
#[derive(Debug, Clone, Copy, PartialEq, Eq, Structural)]
pub struct Renumber {
    /// Character offset of the first digit of the item's number.
    pub start: usize,
    /// Exclusive character offset past its last digit.
    pub end: usize,
    /// The number the item should carry instead.
    pub number: u32,
}

/// One more, held at the largest `u32`.
pub open spec fn bumped(n: u32) -> u32 {
    if n == u32::MAX {
        n
    } else {
        (n + 1) as u32
    }
}

/// The levels with every one indented deeper than `indent` left.
pub open spec fn levels_left(levels: Seq<(usize, Option<u32>)>, indent: usize) -> Seq<(usize, Option<u32>)>
    decreases levels.len(),
{
    if levels.len() > 0 && levels.last().0 > indent {
        levels_left(levels.drop_last(), indent)
    } else {
        levels
    }
}

/// The levels once an item at `indent` is reached: deeper ones left, and the
/// item's own entered, not yet counting, if it is new.
pub open spec fn levels_entered(levels: Seq<(usize, Option<u32>)>, indent: usize) -> Seq<(usize, Option<u32>)> {
    let kept = levels_left(levels, indent);
    if kept.len() > 0 && kept.last().0 == indent {
        kept
    } else {
        kept.push((indent, None))
    }
}

/// Where renumbering stands at the start of a line: the leading-space width
/// of each enclosing level with the number its next item should carry
/// (`None` where the level is not counting), and whether the line is inside a
/// code fence.
pub struct Numbering {
    pub levels: Seq<(usize, Option<u32>)>,
    pub in_fence: bool,
}

/// The innermost level given a new counter.
pub open spec fn recount(levels: Seq<(usize, Option<u32>)>, counter: Option<u32>) -> Seq<(usize, Option<u32>)> {
    levels.update(levels.len() - 1, (levels.last().0, counter))
}

/// What one line, starting at `start`, does to the numbering, and the edits
/// it needs.
pub open spec fn number_line(line: Seq<char>, start: int, state: Numbering) -> (Numbering, Seq<Renumber>) {
    let indent = leading_spaces(line);
    let rest = line.subrange(indent, line.len() as int);
    if fence_line(line) {
        (Numbering { levels: state.levels, in_fence: !state.in_fence }, seq![])
    } else if state.in_fence || line.len() == 0 {
        // Numbers inside a code block are text, and a blank line separates
        // items without ending the list.
        (state, seq![])
    } else if bullet_of(rest) is Some {
        let levels = levels_entered(state.levels, indent as usize);
        (Numbering { levels: recount(levels, None), in_fence: false }, seq![])
    } else if ordered_of(rest) is Some {
        let digits = digits_end(rest, 0);
        let written = parsed_number(rest.subrange(0, digits));
        let levels = levels_entered(state.levels, indent as usize);
        match levels.last().1 {
            Some(expected) => (
                Numbering { levels: recount(levels, Some(bumped(expected))), in_fence: false },
                if written != Some(expected) {
                    seq![
                        Renumber {
                            start: (start + indent) as usize,
                            end: (start + indent + digits) as usize,
                            number: expected,
                        },
                    ]
                } else {
                    seq![]
                },
            ),
            // The item that opens a level sets where it counts from. A number
            // too long for a u32 is not one this can count on, so the level
            // stays uncounted.
            None => (
                Numbering {
                    levels: recount(
                        levels,
                        match written {
                            Some(n) => Some(bumped(n)),
                            None => None,
                        },
                    ),
                    in_fence: false,
                },
                seq![],
            ),
        }
    } else if indent == 0 {
        // Anything else at the left edge ends the list.
        (Numbering { levels: seq![], in_fence: false }, seq![])
    } else {
        (state, seq![])
    }
}

/// The edits the lines from the one starting at `from` need.
pub open spec fn renumber_from(text: Seq<char>, from: int, state: Numbering) -> Seq<Renumber>
    decreases text.len() + 1 - from,
{
    if from < 0 || from > text.len() {
        seq![]
    } else {
        let end = line_end(text, from);
        let (next, edits) = number_line(text.subrange(from, end), from, state);
        if from <= end < text.len() {
            edits + renumber_from(text, end + 1, next)
        } else {
            edits
        }
    }
}

/// The edits a whole note needs.
pub open spec fn renumbering(text: Seq<char>) -> Seq<Renumber> {
    renumber_from(text, 0, Numbering { levels: seq![], in_fence: false })
}

/// The counter for the level a list item at `indent` spaces belongs to,
/// entering it and leaving any deeper ones the way list depth does.
fn counter_at(levels: &mut Vec<(usize, Option<u32>)>, indent: usize) -> (counter: Option<u32>)
    ensures
        final(levels)@ == levels_entered(old(levels)@, indent),
        final(levels)@.len() > 0,
        counter == final(levels)@.last().1,
{
    let ghost start = levels@;
    while levels.len() > 0 && levels[levels.len() - 1].0 > indent
        invariant
            levels_left(start, indent) == levels_left(levels@, indent),
        decreases levels@.len(),
    {
        let ghost before = levels@;
        levels.pop();
        assert(levels@ =~= before.drop_last());
    }
    if levels.len() == 0 || levels[levels.len() - 1].0 != indent {
        levels.push((indent, None));
    }
    levels[levels.len() - 1].1
}

/// The ordered-list items whose numbers have fallen out of sequence.
///
/// Deleting item 3 of 7 leaves the rest counting 4, 5, 6, 7, which is wrong on
/// sight. Only items that actually need changing are reported, so applying an
/// empty result is a no-op and a note nobody has broken is never rewritten.
///
/// A list keeps whatever number it starts on (a note beginning "3." was
/// written that way deliberately) and each nesting level counts on its own.
pub fn renumber(text: &str) -> (edits: Vec<Renumber>)
    ensures
        edits@ == renumbering(text@),
{
    let chars = chars_of(text);
    let newline = ['\n'];
    assert(newline@ =~= seq!['\n']);
    let mut edits: Vec<Renumber> = Vec::new();
    let mut levels: Vec<(usize, Option<u32>)> = Vec::new();
    let mut in_fence = false;
    let mut line_start: usize = 0;
    let ghost total = renumbering(text@);
    assert(edits@ + total =~= total);
    loop
        invariant_except_break
            line_start <= chars@.len(),
            chars@ == text@,
            newline@ == seq!['\n'],
            total == renumbering(text@),
            edits@ + renumber_from(chars@, line_start as int, Numbering { levels: levels@, in_fence })
                == total,
        ensures
            edits@ == total,
        decreases chars@.len() - line_start,
    {
        let line_end = match find(&chars, line_start, &newline) {
            Some(at) => at,
            None => chars.len(),
        };
        let line = &chars[line_start..line_end];
        let ghost state = Numbering { levels: levels@, in_fence };
        let ghost step = number_line(line@, line_start as int, state);
        let ghost rest = if line_end < chars@.len() {
            renumber_from(chars@, line_end + 1, step.0)
        } else {
            seq![]
        };
        assert(renumber_from(chars@, line_start as int, state) == step.1 + rest);
        let ghost before = edits@;
        let indent = run_end_at(line, 0, ' ');
        let rest_of_line = &line[indent..line.len()];
        if is_fence(line) {
            in_fence = !in_fence;
        } else if in_fence || line.len() == 0 {
        } else if bullet_len(rest_of_line).is_some() {
            counter_at(&mut levels, indent);
            let last = levels.len() - 1;
            let width = levels[last].0;
            levels[last] = (width, None);
        } else if ordered_len(rest_of_line).is_some() {
            let digits = digits_end_at(rest_of_line, 0);
            assert forall|j: int| 0 <= j < digits implies is_digit(#[trigger] rest_of_line@.subrange(0, digits as int)[j]) by {
                lemma_digits_prefix(rest_of_line@, 0, j);
            }
            let written = parse_number(&rest_of_line[0..digits]);
            let counter = counter_at(&mut levels, indent);
            let last = levels.len() - 1;
            let width = levels[last].0;
            match counter {
                Some(expected) => {
                    if written != Some(expected) {
                        edits.push(
                            Renumber {
                                start: line_start + indent,
                                end: line_start + indent + digits,
                                number: expected,
                            },
                        );
                    }
                    let next = if expected == 4294967295 {
                        expected
                    } else {
                        expected + 1
                    };
                    levels[last] = (width, Some(next));
                },
                None => {
                    let next = match written {
                        Some(n) => Some(
                            if n == 4294967295 {
                                n
                            } else {
                                n + 1
                            },
                        ),
                        None => None,
                    };
                    levels[last] = (width, next);
                },
            }
        } else if indent == 0 {
            levels.clear();
        }
        proof {
            assert(levels@ =~= step.0.levels);
            assert(in_fence == step.0.in_fence);
            assert(edits@ =~= before + step.1);
            assert(before + (step.1 + rest) =~= edits@ + rest);
        }
        if line_end >= chars.len() {
            assert(edits@ + rest =~= edits@);
            break;
        }
        line_start = line_end + 1;
    }
    edits
}


/// An edit that replaces a number the note really carries with a different
/// one: a non-empty run of digits within the text, which does not already
/// read as the new number.
pub open spec fn needed(text: Seq<char>, edit: Renumber) -> bool {
    &&& edit.start < edit.end <= text.len()
    &&& forall|k: int| edit.start <= k < edit.end ==> is_digit(#[trigger] text[k])
    &&& parsed_number(text.subrange(edit.start as int, edit.end as int)) != Some(edit.number)
}

/// Every edit is needed and lies within `lo..hi`, and each ends before the
/// next begins.
pub open spec fn edits_in_order(text: Seq<char>, edits: Seq<Renumber>, lo: int, hi: int) -> bool {
    &&& forall|k: int| 0 <= k < edits.len() ==> needed(text, #[trigger] edits[k])
    &&& forall|k: int| 0 <= k < edits.len() ==> lo <= #[trigger] edits[k].start && edits[k].end <= hi
    &&& forall|j: int, k: int| 0 <= j < k < edits.len() ==> #[trigger] edits[j].end <= #[trigger] edits[k].start
}

proof fn lemma_line_edits(text: Seq<char>, from: int, end: int, state: Numbering)
    requires
        0 <= from <= end <= text.len(),
        text.len() <= usize::MAX,
    ensures
        edits_in_order(text, number_line(text.subrange(from, end), from, state).1, from, end),
{
    let line = text.subrange(from, end);
    let indent = leading_spaces(line);
    crate::laws::lemma_run_end_bounds(line, 0, ' ');
    let rest = line.subrange(indent, line.len() as int);
    let edits = number_line(line, from, state).1;
    if edits.len() > 0 {
        let digits = digits_end(rest, 0);
        crate::laws::lemma_digits_end_bounds(rest, 0);
        let e = edits[0];
        assert(edits.len() == 1);
        assert(e.start == from + indent && e.end == from + indent + digits);
        assert(text.subrange(e.start as int, e.end as int) =~= rest.subrange(0, digits));
        assert forall|k: int| e.start <= k < e.end implies is_digit(#[trigger] text[k]) by {
            lemma_digits_prefix(rest, 0, k - e.start);
            assert(text[k] == rest[k - e.start]);
        }
    }
}

proof fn lemma_edits_join(text: Seq<char>, a: Seq<Renumber>, b: Seq<Renumber>, lo: int, mid: int, hi: int)
    requires
        lo <= mid <= hi,
        edits_in_order(text, a, lo, mid),
        edits_in_order(text, b, mid, hi),
    ensures
        edits_in_order(text, a + b, lo, hi),
{
    let c = a + b;
    assert forall|k: int| 0 <= k < c.len() implies needed(text, #[trigger] c[k]) && lo <= c[k].start
        && c[k].end <= hi by {
        if k < a.len() {
            assert(c[k] == a[k]);
            assert(needed(text, a[k]) && lo <= a[k].start && a[k].end <= mid);
        } else {
            assert(c[k] == b[k - a.len()]);
            assert(needed(text, b[k - a.len()]) && mid <= b[k - a.len()].start && b[k - a.len()].end <= hi);
        }
    }
    assert forall|j: int, k: int| 0 <= j < k < c.len() implies #[trigger] c[j].end <= #[trigger] c[k].start by {
        if k < a.len() {
            assert(c[j] == a[j] && c[k] == a[k]);
        } else if j < a.len() {
            assert(c[j] == a[j] && c[k] == b[k - a.len()]);
            assert(a[j].end <= mid && mid <= b[k - a.len()].start);
        } else {
            assert(c[j] == b[j - a.len()] && c[k] == b[k - a.len()]);
        }
    }
}

pub proof fn lemma_renumber_from(text: Seq<char>, from: int, state: Numbering)
    requires
        0 <= from,
        text.len() <= usize::MAX,
    ensures
        edits_in_order(text, renumber_from(text, from, state), from, text.len() as int),
    decreases text.len() + 1 - from,
{
    if from <= text.len() {
        let end = line_end(text, from);
        lemma_find_from(text, from, seq!['\n']);
        lemma_line_edits(text, from, end, state);
        let (next, edits) = number_line(text.subrange(from, end), from, state);
        if end < text.len() {
            lemma_renumber_from(text, end + 1, next);
            lemma_edits_join(text, edits, renumber_from(text, end + 1, next), from, end + 1, text.len() as int);
        }
    }
}

/// Only items whose numbers actually need changing are reported: each edit
/// covers the whole run of digits of one item's number, within the note, and
/// that number is not already the one the edit writes. The edits come in the
/// note's order and never overlap, so applying none of them leaves the note
/// as it is and they can be applied back to front.
pub proof fn law_only_wrong_numbers_are_reported(text: Seq<char>)
    requires
        text.len() <= usize::MAX,
    ensures
        edits_in_order(text, renumbering(text), 0, text.len() as int),
{
    lemma_renumber_from(text, 0, Numbering { levels: seq![], in_fence: false });
}

/// Pressing Enter on the line that Enter started ends the list: a
/// continuation is an item with nothing in it yet.
pub proof fn law_enter_twice_ends_the_list(line: Seq<char>)
    ensures
        continuation(line) matches Some(Some(prefix)) ==> continuation(prefix) == Some(
            None::<Seq<char>>,
        ),
{
    if let Some(Some(prefix)) = continuation(line) {
        crate::laws::lemma_run_end_bounds(line, 0, ' ');
        let indent = leading_spaces(line);
        let rest = line.subrange(indent, line.len() as int);
        let len = item_of(rest).unwrap();
        crate::laws::lemma_item_of(rest);
        let after = rest.subrange(len, rest.len() as int);
        let checkbox: Seq<char> = match checkbox_of(after) {
            Some(_) => seq!['[', ' ', ']', ' '],
            None => seq![],
        };
        let marker = match bullet_of(rest) {
            Some(_) => seq![rest[0]],
            None => {
                let digits = digits_end(rest, 0);
                decimal(next_number(rest.subrange(0, digits)) as nat).push(rest[digits])
            },
        };
        let spaces = Seq::new(indent as nat, |k: int| ' ');
        let item = marker + seq![' '] + checkbox;
        assert(prefix == spaces + item);
        let mlen = marker.len() as int;
        if bullet_of(rest) is None {
            let digits = digits_end(rest, 0);
            crate::settle::lemma_decimal(next_number(rest.subrange(0, digits)) as nat);
            let number = decimal(next_number(rest.subrange(0, digits)) as nat);
            assert(marker[0] == number[0]);
            assert(is_digit(marker[0]));
            assert(item[mlen - 1] == rest[digits]);
            assert forall|k: int| 0 <= k < mlen - 1 implies is_digit(#[trigger] item[k]) by {
                assert(item[k] == number[k]);
            }
            crate::text::lemma_digits_end_is(item, 0, mlen - 1);
            assert(ordered_of(item) == Some(mlen + 1));
        } else {
            assert(bullet_of(item) == Some(2int));
        }
        assert(item[0] == marker[0]);
        assert forall|k: int| 0 <= k < indent implies #[trigger] prefix[k] == ' ' by {}
        assert(prefix[indent] == item[0]);
        crate::text::lemma_run_end_is(prefix, 0, indent, ' ');
        assert(prefix.subrange(indent, prefix.len() as int) =~= item);
        assert(item.subrange(mlen + 1, item.len() as int) =~= checkbox);
    }
}

/// The characters of a list item with a checkbox: `indent` spaces, the
/// marker, a space, the box with `mark` in it, a space, then `content`.
pub open spec fn boxed_item(indent: nat, marker: Seq<char>, mark: char, content: Seq<char>) -> Seq<char> {
    Seq::new(indent, |k: int| ' ') + marker + seq![' ', '[', mark, ']', ' '] + content
}

proof fn lemma_boxed_item(indent: nat, marker: Seq<char>, mark: char, content: Seq<char>)
    requires
        marker.len() > 0,
        marker[0] != ' ',
        mark == ' ' || mark == 'x' || mark == 'X',
        !all_white(content),
    ensures
        ({
            let line = boxed_item(indent, marker, mark, content);
            let rest = line.subrange(indent as int, line.len() as int);
            &&& leading_spaces(line) == indent
            &&& rest == marker + seq![' ', '[', mark, ']', ' '] + content
        }),
{
    let line = boxed_item(indent, marker, mark, content);
    assert forall|k: int| 0 <= k < indent implies #[trigger] line[k] == ' ' by {}
    assert(line[indent as int] == marker[0]);
    crate::text::lemma_run_end_is(line, 0, indent as int, ' ');
    assert(line.subrange(indent as int, line.len() as int) =~= marker + seq![' ', '[', mark, ']', ' '] + content);
}

/// What follows an item's marker and its space: the box, then `content`.
proof fn lemma_after_box(mark: char, content: Seq<char>)
    requires
        mark == ' ' || mark == 'x' || mark == 'X',
        !all_white(content),
    ensures
        checkbox_of(seq!['[', mark, ']', ' '] + content) is Some,
        content.len() > 0,
        (seq!['[', mark, ']', ' '] + content).subrange(4, 4 + content.len() as int) == content,
{
    let after = seq!['[', mark, ']', ' '] + content;
    assert(after[0] == '[' && after[1] == mark && after[2] == ']' && after[3] == ' ');
    assert(after.subrange(4, 4 + content.len() as int) =~= content);
}

/// Return on a task item, bulleted or numbered, starts an unticked task:
/// the next line is the item's indent, its bullet (or the next number with
/// the same punctuation), a space and an empty `[ ] `, however the box above
/// was ticked, whenever the item has something in it.
pub proof fn law_enter_on_a_task_starts_an_unticked_one(
    indent: nat,
    digits: Seq<char>,
    punct: char,
    bullet: char,
    mark: char,
    content: Seq<char>,
)
    requires
        digits.len() > 0,
        forall|k: int| 0 <= k < digits.len() ==> is_digit(#[trigger] digits[k]),
        punct == '.' || punct == ')',
        bullet == '-' || bullet == '*' || bullet == '+',
        mark == ' ' || mark == 'x' || mark == 'X',
        !all_white(content),
    ensures
        continuation(boxed_item(indent, digits.push(punct), mark, content)) == Some(
            Some(
                Seq::new(indent, |k: int| ' ') + decimal(next_number(digits) as nat).push(punct) + seq![
                    ' ',
                    '[',
                    ' ',
                    ']',
                    ' ',
                ],
            ),
        ),
        continuation(boxed_item(indent, seq![bullet], mark, content)) == Some(
            Some(Seq::new(indent, |k: int| ' ') + seq![bullet, ' ', '[', ' ', ']', ' ']),
        ),
{
    lemma_after_box(mark, content);
    let after = seq!['[', mark, ']', ' '] + content;
    assert(after.subrange(4, after.len() as int) =~= content);
    let spaces = Seq::new(indent, |k: int| ' ');
    // A numbered task.
    let number = digits.push(punct);
    lemma_boxed_item(indent, number, mark, content);
    let rest = number + seq![' ', '[', mark, ']', ' '] + content;
    let d = digits.len() as int;
    assert(rest[d] == punct);
    assert(rest[d + 1] == ' ');
    assert forall|k: int| 0 <= k < d implies is_digit(#[trigger] rest[k]) by {
        assert(rest[k] == digits[k]);
    }
    crate::text::lemma_digits_end_is(rest, 0, d);
    assert(rest.subrange(0, d) =~= digits);
    assert(rest.subrange(d + 2, rest.len() as int) =~= after);
    assert(bullet_of(rest) is None);
    assert(ordered_of(rest) == Some(d + 2));
    assert(spaces + decimal(next_number(digits) as nat).push(punct) + seq![' '] + seq!['[', ' ', ']', ' ']
        =~= spaces + decimal(next_number(digits) as nat).push(punct) + seq![' ', '[', ' ', ']', ' ']);
    // A bulleted one.
    lemma_boxed_item(indent, seq![bullet], mark, content);
    let brest = seq![bullet] + seq![' ', '[', mark, ']', ' '] + content;
    assert(brest.subrange(2, brest.len() as int) =~= after);
    assert(bullet_of(brest) == Some(2int));
    assert(spaces + seq![brest[0]] + seq![' '] + seq!['[', ' ', ']', ' '] =~= spaces + seq![
        bullet,
        ' ',
        '[',
        ' ',
        ']',
        ' ',
    ]);
}

} // verus!
