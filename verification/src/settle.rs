//! Renumbering settles: once a note's renumbering edits are applied, it
//! needs no more of them.
use vstd::prelude::*;
use crate::text::{
    find_from, lemma_find_from, lemma_matches_char, leading_spaces, digits_end, is_digit, matches_at,
    lemma_run_end_is, lemma_run_end_chars, lemma_digits_end_is, lemma_digits_end_chars,
};
use crate::block::{fence_line, bullet_of, ordered_of};
use crate::note::line_end;
use crate::lists::{
    Renumber, Numbering, number_line, renumber_from, renumbering, decimal, decimal_value,
    parsed_number, digit_char, lemma_renumber_from, edits_in_order,
};

verus! {

/// `text` from `at` on with `edits` applied in order: each edit's digits give
/// way to its number written out, and the text around them is copied as it
/// stands.
pub open spec fn renumbered_from(text: Seq<char>, edits: Seq<Renumber>, at: int) -> Seq<char>
    decreases edits.len(),
{
    if edits.len() == 0 {
        text.subrange(at, text.len() as int)
    } else {
        text.subrange(at, edits[0].start as int) + decimal(edits[0].number as nat) + renumbered_from(
            text,
            edits.drop_first(),
            edits[0].end as int,
        )
    }
}

/// `text` with `edits` applied.
pub open spec fn renumbered(text: Seq<char>, edits: Seq<Renumber>) -> Seq<char> {
    renumbered_from(text, edits, 0)
}

/// A line with its item's number corrected, when renumbering from `state`
/// finds it wrong.
pub open spec fn fixed_line(line: Seq<char>, state: Numbering) -> Seq<char> {
    let indent = leading_spaces(line);
    let rest = line.subrange(indent, line.len() as int);
    let edits = number_line(line, 0, state).1;
    if edits.len() > 0 {
        line.subrange(0, indent) + decimal(edits[0].number as nat) + rest.subrange(
            digits_end(rest, 0),
            rest.len() as int,
        )
    } else {
        line
    }
}

/// The lines from the one starting at `from`, each corrected as
/// renumbering from `state` finds it.
pub open spec fn fixed_from(text: Seq<char>, from: int, state: Numbering) -> Seq<char>
    decreases text.len() + 1 - from,
{
    if from < 0 || from > text.len() {
        seq![]
    } else {
        let end = line_end(text, from);
        let line = text.subrange(from, end);
        let next = number_line(line, from, state).0;
        if from <= end < text.len() {
            fixed_line(line, state) + seq!['\n'] + fixed_from(text, end + 1, next)
        } else {
            fixed_line(line, state)
        }
    }
}

/// A number written out is a non-empty run of digits that reads back as the
/// number.
pub proof fn lemma_decimal(n: nat)
    ensures
        decimal(n).len() > 0,
        forall|k: int| 0 <= k < decimal(n).len() ==> is_digit(#[trigger] decimal(n)[k]),
        decimal_value(decimal(n)) == n,
    decreases n,
{
    let d = n % 10;
    assert(d < 10);
    let c = digit_char(d);
    assert(c as u32 == ('0' as u32) + d);
    assert(is_digit(c));
    if n >= 10 {
        lemma_decimal(n / 10);
        let s = decimal(n / 10);
        assert(decimal(n) == s.push(c));
        assert(decimal(n).drop_last() =~= s);
        assert(decimal(n).last() == c);
        assert(decimal_value(decimal(n)) == decimal_value(s) * 10 + d);
        assert(n == (n / 10) * 10 + n % 10);
        assert forall|k: int| 0 <= k < decimal(n).len() implies is_digit(#[trigger] decimal(n)[k]) by {
            if k < s.len() {
                assert(decimal(n)[k] == s[k]);
            }
        }
    } else {
        assert(decimal(n) == seq![c]);
        assert(decimal(n).drop_last() =~= Seq::<char>::empty());
        assert(decimal_value(Seq::<char>::empty()) == 0);
    }
}

/// Renumbering a line needs no edit once it is corrected, and leaves the
/// numbering where the line as written left it; where the line starts does
/// not matter.
proof fn lemma_fixed_line(line: Seq<char>, state: Numbering, at: int, at2: int)
    ensures
        number_line(fixed_line(line, state), at2, state).0 == number_line(line, at, state).0,
        number_line(fixed_line(line, state), at2, state).1.len() == 0,
{
    let indent = leading_spaces(line);
    lemma_run_end_chars(line, 0, ' ');
    let rest = line.subrange(indent, line.len() as int);
    let edits = number_line(line, 0, state).1;
    if edits.len() > 0 {
        let digits = digits_end(rest, 0);
        lemma_digits_end_chars(rest, 0);
        let levels = crate::lists::levels_entered(state.levels, indent as usize);
        let expected = levels.last().1.unwrap();
        assert(edits[0].number == expected);
        lemma_decimal(expected as nat);
        let number = decimal(expected as nat);
        let tail = rest.subrange(digits, rest.len() as int);
        let fixed = line.subrange(0, indent) + number + tail;
        assert(fixed == fixed_line(line, state));
        let rest2 = fixed.subrange(indent, fixed.len() as int);
        assert(rest2 =~= number + tail);
        // The indent is unchanged: the number begins with a digit.
        assert(fixed[indent] == number[0]);
        lemma_run_end_is(fixed, 0, indent, ' ');
        assert(leading_spaces(fixed) == indent);
        // Still not a fence, still an ordered item, and now with its number.
        assert(!matches_at(fixed, indent, seq!['`', '`', '`'])) by {
            assert(fixed.subrange(indent, indent + 3)[0] == fixed[indent]);
        }
        assert(!matches_at(fixed, indent, seq!['~', '~', '~'])) by {
            assert(fixed.subrange(indent, indent + 3)[0] == fixed[indent]);
        }
        assert(!fence_line(fixed));
        assert(rest2[0] == number[0]);
        assert(bullet_of(rest2) is None);
        assert(rest2[number.len() as int] == rest[digits]);
        assert(rest2[number.len() as int + 1] == rest[digits + 1]);
        lemma_digits_end_is(rest2, 0, number.len() as int);
        assert(ordered_of(rest2) is Some);
        assert(rest2.subrange(0, number.len() as int) =~= number);
        assert(parsed_number(number) == Some(expected));
    } else {
        assert(fixed_line(line, state) == line);
    }
}

/// The line that starts at `from` ends at `to` when nothing between is a
/// newline and a newline, or the end of the text, comes next.
pub proof fn lemma_line_end_is(text: Seq<char>, from: int, to: int)
    requires
        0 <= from <= to <= text.len(),
        forall|k: int| from <= k < to ==> #[trigger] text[k] != '\n',
        to == text.len() || text[to] == '\n',
    ensures
        line_end(text, from) == to,
{
    lemma_find_from(text, from, seq!['\n']);
    match find_from(text, from, seq!['\n']) {
        Some(at) => {
            lemma_matches_char(text, at, '\n');
            if at > to {
                lemma_matches_char(text, to, '\n');
            }
        },
        None => {
            if to < text.len() {
                lemma_matches_char(text, to, '\n');
            }
        },
    }
}

/// The line that starts at `from` holds no newline, and one follows it
/// unless it is the last.
pub proof fn lemma_line_chars(text: Seq<char>, from: int)
    requires
        0 <= from <= text.len(),
    ensures
        from <= line_end(text, from) <= text.len(),
        forall|k: int| from <= k < line_end(text, from) ==> #[trigger] text[k] != '\n',
        line_end(text, from) == text.len() || text[line_end(text, from)] == '\n',
{
    lemma_find_from(text, from, seq!['\n']);
    assert forall|k: int| from <= k < line_end(text, from) implies #[trigger] text[k] != '\n' by {
        lemma_matches_char(text, k, '\n');
    }
    if line_end(text, from) < text.len() {
        lemma_matches_char(text, line_end(text, from), '\n');
    }
}

/// Correcting a line puts no newline into it.
proof fn lemma_fixed_line_chars(line: Seq<char>, state: Numbering)
    requires
        forall|k: int| 0 <= k < line.len() ==> #[trigger] line[k] != '\n',
    ensures
        forall|k: int| 0 <= k < fixed_line(line, state).len() ==> #[trigger] fixed_line(line, state)[k] != '\n',
{
    let indent = leading_spaces(line);
    lemma_run_end_chars(line, 0, ' ');
    let rest = line.subrange(indent, line.len() as int);
    let edits = number_line(line, 0, state).1;
    if edits.len() > 0 {
        let digits = digits_end(rest, 0);
        lemma_digits_end_chars(rest, 0);
        let number = decimal(edits[0].number as nat);
        lemma_decimal(edits[0].number as nat);
        let head = line.subrange(0, indent);
        let tail = rest.subrange(digits, rest.len() as int);
        let fixed = head + number + tail;
        assert forall|k: int| 0 <= k < fixed.len() implies #[trigger] fixed[k] != '\n' by {
            if k < indent {
                assert(fixed[k] == line[k]);
            } else if k < indent + number.len() {
                assert(fixed[k] == number[k - indent]);
                assert(is_digit(number[k - indent]));
            } else {
                assert(fixed[k] == line[k - number.len() + digits]);
            }
        }
    }
}

/// The corrected lines from `from` on, after any text, need no more edits.
proof fn lemma_fixed_settles(text: Seq<char>, from: int, state: Numbering, before: Seq<char>)
    requires
        0 <= from <= text.len(),
    ensures
        renumber_from(before + fixed_from(text, from, state), before.len() as int, state).len() == 0,
    decreases text.len() + 1 - from,
{
    lemma_line_chars(text, from);
    let end = line_end(text, from);
    let line = text.subrange(from, end);
    let next = number_line(line, from, state).0;
    let fixed = fixed_line(line, state);
    lemma_fixed_line_chars(line, state);
    let p = before.len() as int;
    let whole = before + fixed_from(text, from, state);
    lemma_fixed_line(line, state, from, p);
    if end < text.len() {
        let after = before + fixed + seq!['\n'];
        lemma_fixed_settles(text, end + 1, next, after);
        assert(whole =~= after + fixed_from(text, end + 1, next));
        assert forall|k: int| p <= k < p + fixed.len() implies #[trigger] whole[k] != '\n' by {
            assert(whole[k] == fixed[k - p]);
        }
        assert(whole[p + fixed.len()] == '\n');
        lemma_line_end_is(whole, p, p + fixed.len());
        assert(whole.subrange(p, p + fixed.len()) =~= fixed);
    } else {
        assert(whole =~= before + fixed);
        assert forall|k: int| p <= k < p + fixed.len() implies #[trigger] whole[k] != '\n' by {
            assert(whole[k] == fixed[k - p]);
        }
        lemma_line_end_is(whole, p, p + fixed.len());
        assert(whole.subrange(p, p + fixed.len()) =~= fixed);
    }
}

/// Text with no edit before `b` copies its characters up to `b` as they
/// stand.
proof fn lemma_renumbered_skip(text: Seq<char>, edits: Seq<Renumber>, a: int, b: int)
    requires
        0 <= a <= b <= text.len(),
        edits.len() > 0 ==> b <= edits[0].start <= text.len(),
    ensures
        renumbered_from(text, edits, a) == text.subrange(a, b) + renumbered_from(text, edits, b),
{
    if edits.len() == 0 {
        assert(text.subrange(a, text.len() as int) =~= text.subrange(a, b) + text.subrange(b, text.len() as int));
    } else {
        let rest = renumbered_from(text, edits.drop_first(), edits[0].end as int);
        let number = decimal(edits[0].number as nat);
        assert(text.subrange(a, edits[0].start as int) =~= text.subrange(a, b) + text.subrange(b, edits[0].start as int));
        assert(text.subrange(a, edits[0].start as int) + number + rest =~= text.subrange(a, b) + (text.subrange(
            b,
            edits[0].start as int,
        ) + number + rest));
    }
}

/// What renumbering a line at `from` edits: at most the run of digits of
/// its number, with the number its correction writes.
proof fn lemma_line_edit(line: Seq<char>, from: int, state: Numbering)
    requires
        0 <= from,
        from + line.len() <= usize::MAX,
    ensures
        number_line(line, from, state).1.len() == number_line(line, 0, state).1.len(),
        number_line(line, from, state).1.len() <= 1,
        number_line(line, from, state).1.len() == 1 ==> {
            let indent = leading_spaces(line);
            let rest = line.subrange(indent, line.len() as int);
            let e = number_line(line, from, state).1[0];
            &&& e.start == from + indent
            &&& e.end == from + indent + digits_end(rest, 0)
            &&& e.number == number_line(line, 0, state).1[0].number
        },
{
    lemma_run_end_chars(line, 0, ' ');
    let indent = leading_spaces(line);
    let rest = line.subrange(indent, line.len() as int);
    lemma_digits_end_chars(rest, 0);
}

/// Applying the edits renumbering finds from `from` on gives the corrected
/// lines.
#[verifier::rlimit(30)]
proof fn lemma_renumbered_lines(text: Seq<char>, from: int, state: Numbering)
    requires
        0 <= from <= text.len(),
        text.len() <= usize::MAX,
    ensures
        renumbered_from(text, renumber_from(text, from, state), from) == fixed_from(text, from, state),
    decreases text.len() + 1 - from,
{
    lemma_line_chars(text, from);
    let end = line_end(text, from);
    let line = text.subrange(from, end);
    let next = number_line(line, from, state).0;
    let here = number_line(line, from, state).1;
    let fixed = fixed_line(line, state);
    let indent = leading_spaces(line);
    lemma_run_end_chars(line, 0, ' ');
    let rest = line.subrange(indent, line.len() as int);
    let digits = digits_end(rest, 0);
    lemma_digits_end_chars(rest, 0);
    lemma_line_edit(line, from, state);
    let later = if end < text.len() {
        renumber_from(text, end + 1, next)
    } else {
        seq![]
    };
    let edits = renumber_from(text, from, state);
    assert(edits == here + later);
    if end < text.len() {
        lemma_renumbered_lines(text, end + 1, next);
        lemma_renumber_from(text, end + 1, next);
        assert(later.len() > 0 ==> end + 1 <= later[0].start <= text.len()) by {
            if later.len() > 0 {
                assert(crate::lists::needed(text, later[0]));
            }
        }
    }
    if here.len() > 0 {
        let e = here[0];
        assert(edits[0] == e);
        assert(edits.drop_first() =~= later);
        let number = decimal(e.number as nat);
        let tail = rest.subrange(digits, rest.len() as int);
        assert(fixed == line.subrange(0, indent) + number + tail);
        assert(text.subrange(from, e.start as int) =~= line.subrange(0, indent));
        if end < text.len() {
            lemma_renumbered_skip(text, later, e.end as int, end + 1);
            assert(text.subrange(e.end as int, end + 1) =~= tail + seq!['\n']);
            assert(renumbered_from(text, edits, from) =~= fixed + seq!['\n'] + fixed_from(text, end + 1, next));
        } else {
            assert(text.subrange(e.end as int, text.len() as int) =~= tail);
            assert(edits.drop_first().len() == 0);
            assert(renumbered_from(text, edits.drop_first(), e.end as int) == tail);
            assert(renumbered_from(text, edits, from) == text.subrange(from, e.start as int) + number
                + renumbered_from(text, edits.drop_first(), e.end as int));
            assert(renumbered_from(text, edits, from) =~= fixed);
        }
    } else {
        assert(edits == later);
        assert(fixed == line);
        if end < text.len() {
            lemma_renumbered_skip(text, later, from, end + 1);
            assert(text.subrange(from, end + 1) =~= line + seq!['\n']);
        } else {
            assert(renumbered_from(text, edits, from) == text.subrange(from, text.len() as int));
        }
    }
}

/// Renumbering settles: once the edits renumbering finds are applied, it
/// finds nothing more to change, so a corrected note is never rewritten
/// again.
pub proof fn law_renumbering_settles(text: Seq<char>)
    requires
        text.len() <= usize::MAX,
    ensures
        renumbering(renumbered(text, renumbering(text))).len() == 0,
{
    let start = Numbering { levels: seq![], in_fence: false };
    lemma_renumbered_lines(text, 0, start);
    lemma_fixed_settles(text, 0, start, seq![]);
    assert(Seq::<char>::empty() + fixed_from(text, 0, start) =~= fixed_from(text, 0, start));
}

/// Whether the line starting at `at` lies inside a code fence: an odd
/// number of fence lines start from `from` on and before it.
pub open spec fn fenced(text: Seq<char>, from: int, at: int) -> bool
    decreases text.len() + 1 - from,
{
    if from < 0 || from > text.len() || from >= at {
        false
    } else {
        let end = line_end(text, from);
        let rest = if from <= end < text.len() {
            fenced(text, end + 1, at)
        } else {
            false
        };
        fence_line(text.subrange(from, end)) != rest
    }
}

/// `edit` replaces exactly the number of an ordered list item: the line it
/// is on is an ordered item, and the edit runs from the first digit after
/// the line's indent to the last digit of that run.
pub open spec fn item_number(text: Seq<char>, edit: Renumber) -> bool {
    let start = crate::snippet::line_start_of(text, edit.start as int);
    let line = text.subrange(start, line_end(text, start));
    let indent = leading_spaces(line);
    let rest = line.subrange(indent, line.len() as int);
    &&& ordered_of(rest) is Some
    &&& edit.start == start + indent
    &&& edit.end == start + indent + digits_end(rest, 0)
}

proof fn lemma_renumber_items(text: Seq<char>, from: int, state: Numbering)
    requires
        0 <= from <= text.len(),
        from == 0 || text[from - 1] == '\n',
        text.len() <= usize::MAX,
    ensures
        forall|k: int|
            0 <= k < renumber_from(text, from, state).len() ==> item_number(
                text,
                #[trigger] renumber_from(text, from, state)[k],
            ),
        forall|k: int|
            0 <= k < renumber_from(text, from, state).len() ==> from <= #[trigger] renumber_from(
                text,
                from,
                state,
            )[k].start && state.in_fence == fenced(
                text,
                from,
                crate::snippet::line_start_of(text, renumber_from(text, from, state)[k].start as int),
            ),
    decreases text.len() + 1 - from,
{
    lemma_line_chars(text, from);
    let end = line_end(text, from);
    let line = text.subrange(from, end);
    let next = number_line(line, from, state).0;
    let here = number_line(line, from, state).1;
    lemma_line_edit(line, from, state);
    lemma_run_end_chars(line, 0, ' ');
    let later = if end < text.len() {
        renumber_from(text, end + 1, next)
    } else {
        seq![]
    };
    let edits = renumber_from(text, from, state);
    assert(edits == here + later);
    if end < text.len() {
        lemma_renumber_items(text, end + 1, next);
    }
    if here.len() > 0 {
        let e = here[0];
        let indent = leading_spaces(line);
        crate::snippet::lemma_line_start_of(text, from, e.start as int);
        assert(ordered_of(line.subrange(indent, line.len() as int)) is Some);
    }
    assert forall|k: int| 0 <= k < edits.len() implies item_number(text, #[trigger] edits[k]) by {
        if k < here.len() {
            assert(edits[k] == here[k]);
        } else {
            assert(edits[k] == later[k - here.len()]);
        }
    }
    assert forall|k: int| 0 <= k < edits.len() implies from <= #[trigger] edits[k].start
        && state.in_fence == fenced(text, from, crate::snippet::line_start_of(text, edits[k].start as int)) by {
        let at = crate::snippet::line_start_of(text, edits[k].start as int);
        if k < here.len() {
            assert(edits[k] == here[k]);
            assert(at == from);
        } else {
            let e = later[k - here.len()];
            assert(edits[k] == e);
            lemma_renumber_from(text, end + 1, next);
            assert(crate::lists::needed(text, later[k - here.len()]));
            assert(end + 1 <= e.start);
            assert(next.in_fence == fenced(text, end + 1, at));
            crate::snippet::lemma_line_start_chars(text, e.start as int);
            if at <= end {
                assert(text[end] == '\n');
            }
            assert(from < at);
            assert(next.in_fence == (state.in_fence != fence_line(line)));
        }
    }
}

/// Renumbering touches only item numbers: every edit it reports replaces
/// exactly the run of digits an ordered list item opens with, after the
/// item's indent, on a line outside any code fence, and nothing else.
pub proof fn law_renumbering_touches_only_item_numbers(text: Seq<char>)
    requires
        text.len() <= usize::MAX,
    ensures
        forall|k: int| 0 <= k < renumbering(text).len() ==> item_number(text, #[trigger] renumbering(text)[k]),
        forall|k: int|
            0 <= k < renumbering(text).len() ==> !fenced(
                text,
                0,
                crate::snippet::line_start_of(text, #[trigger] renumbering(text)[k].start as int),
            ),
{
    lemma_renumber_items(text, 0, Numbering { levels: seq![], in_fence: false });
}

/// Every edit `d` characters further on.
pub open spec fn edits_moved(edits: Seq<Renumber>, d: int) -> Seq<Renumber> {
    edits.map_values(
        |e: Renumber| Renumber { start: (e.start + d) as usize, end: (e.end + d) as usize, number: e.number },
    )
}

/// Every edit from `at` on `d` characters further on, those before it left
/// where they are.
pub open spec fn edits_moved_after(edits: Seq<Renumber>, at: int, d: int) -> Seq<Renumber> {
    edits.map_values(
        |e: Renumber|
            if e.start >= at {
                Renumber { start: (e.start + d) as usize, end: (e.end + d) as usize, number: e.number }
            } else {
                e
            },
    )
}

/// A line that goes on with the item above it: indented, neither a fence
/// nor a list item of its own, with no line break in it.
pub open spec fn continues_item(line: Seq<char>) -> bool {
    let indent = leading_spaces(line);
    &&& forall|k: int| 0 <= k < line.len() ==> #[trigger] line[k] != '\n'
    &&& indent > 0
    &&& !fence_line(line)
    &&& crate::block::item_of(line.subrange(indent, line.len() as int)) is None
}

/// The edits and the numbering after the lines of `a` from the one starting
/// at `from`.
pub open spec fn numbered_through(a: Seq<char>, from: int, state: Numbering) -> (Seq<Renumber>, Numbering)
    decreases a.len() - from,
{
    if from < 0 || from >= a.len() {
        (seq![], state)
    } else {
        let end = line_end(a, from);
        let (next, here) = number_line(a.subrange(from, end), from, state);
        if from <= end < a.len() {
            let (rest, last) = numbered_through(a, end + 1, next);
            (here + rest, last)
        } else {
            (here, next)
        }
    }
}

/// Lines `a` ends before `t` begins are renumbered the same whatever `t` is.
proof fn lemma_numbered_through(a: Seq<char>, t: Seq<char>, from: int, state: Numbering)
    requires
        0 <= from <= a.len(),
        a.len() > 0 ==> a.last() == '\n',
        (a + t).len() <= usize::MAX,
    ensures
        renumber_from(a + t, from, state) == numbered_through(a, from, state).0 + renumber_from(
            a + t,
            a.len() as int,
            numbered_through(a, from, state).1,
        ),
        forall|k: int|
            0 <= k < numbered_through(a, from, state).0.len() ==> #[trigger] numbered_through(
                a,
                from,
                state,
            ).0[k].start < a.len(),
    decreases a.len() - from,
{
    let text = a + t;
    if from < a.len() {
        lemma_line_chars(a, from);
        let end = line_end(a, from);
        assert(end < a.len()) by {
            if end == a.len() {
                assert(a[a.len() - 1] == '\n');
            }
        }
        assert forall|k: int| from <= k < end implies #[trigger] text[k] != '\n' by {
            assert(text[k] == a[k]);
        }
        assert(text[end] == a[end]);
        lemma_line_end_is(text, from, end);
        assert(text.subrange(from, end) =~= a.subrange(from, end));
        let line = a.subrange(from, end);
        let (next, here) = number_line(line, from, state);
        lemma_line_edit(line, from, state);
        lemma_run_end_chars(line, 0, ' ');
        lemma_numbered_through(a, t, end + 1, next);
        let (rest, last) = numbered_through(a, end + 1, next);
        assert(renumber_from(text, from, state) == here + renumber_from(text, end + 1, next));
        assert(here + (rest + renumber_from(text, a.len() as int, last)) =~= (here + rest) + renumber_from(
            text,
            a.len() as int,
            last,
        ));
        assert forall|k: int| 0 <= k < (here + rest).len() implies #[trigger] (here + rest)[k].start < a.len() by {
            if k < here.len() {
                assert((here + rest)[k] == here[k]);
            } else {
                assert((here + rest)[k] == rest[k - here.len()]);
            }
        }
    } else {
        assert(renumber_from(text, from, state) =~= Seq::<Renumber>::empty() + renumber_from(
            text,
            a.len() as int,
            state,
        ));
    }
}

/// Renumbering a line further on moves its edits with it.
proof fn lemma_number_line_moved(line: Seq<char>, from: int, d: int, state: Numbering)
    requires
        0 <= from,
        0 <= d,
        from + d + line.len() <= usize::MAX,
    ensures
        number_line(line, from + d, state).0 == number_line(line, from, state).0,
        number_line(line, from + d, state).1 == edits_moved(number_line(line, from, state).1, d),
{
    lemma_run_end_chars(line, 0, ' ');
    let indent = leading_spaces(line);
    let rest = line.subrange(indent, line.len() as int);
    lemma_digits_end_chars(rest, 0);
    assert(number_line(line, from + d, state).1 =~= edits_moved(number_line(line, from, state).1, d));
}

/// The lines of `b` renumbered after any text `x` that ends a line: the
/// same edits, moved on by the length of `x`.
proof fn lemma_renumber_moved(x: Seq<char>, b: Seq<char>, from: int, state: Numbering)
    requires
        0 <= from <= b.len(),
        (x + b).len() <= usize::MAX,
    ensures
        renumber_from(x + b, x.len() + from, state) == edits_moved(renumber_from(b, from, state), x.len() as int),
    decreases b.len() + 1 - from,
{
    let text = x + b;
    let p = x.len() as int;
    lemma_line_chars(b, from);
    let end = line_end(b, from);
    assert forall|k: int| p + from <= k < p + end implies #[trigger] text[k] != '\n' by {
        assert(text[k] == b[k - p]);
    }
    if end < b.len() {
        assert(text[p + end] == b[end]);
    }
    lemma_line_end_is(text, p + from, p + end);
    assert(text.subrange(p + from, p + end) =~= b.subrange(from, end));
    let line = b.subrange(from, end);
    lemma_number_line_moved(line, from, p, state);
    let (next, here) = number_line(line, from, state);
    if end < b.len() {
        lemma_renumber_moved(x, b, end + 1, next);
        assert(renumber_from(b, from, state) == here + renumber_from(b, end + 1, next));
        assert(edits_moved(here + renumber_from(b, end + 1, next), p) =~= edits_moved(here, p) + edits_moved(
            renumber_from(b, end + 1, next),
            p,
        ));
    }
}

/// A line that goes on with an item leaves the numbering as it was and
/// needs no edit.
proof fn lemma_continuation_line(line: Seq<char>, at: int, state: Numbering)
    requires
        continues_item(line),
    ensures
        number_line(line, at, state) == (state, Seq::<Renumber>::empty()),
{
    lemma_run_end_chars(line, 0, ' ');
    let indent = leading_spaces(line);
    let rest = line.subrange(indent, line.len() as int);
    assert(line.len() > 0);
    assert(bullet_of(rest) is None && ordered_of(rest) is None);
}

/// Putting back together the edits of the note with the line and without.
proof fn lemma_moved_after(before: Seq<Renumber>, after: Seq<Renumber>, b: Seq<char>, p: int, d: int, limit: int)
    requires
        0 <= p,
        0 <= d,
        p + d + b.len() <= limit <= usize::MAX,
        forall|k: int| 0 <= k < before.len() ==> #[trigger] before[k].start < p,
        forall|k: int| 0 <= k < after.len() ==> #[trigger] after[k].start < after[k].end <= b.len(),
    ensures
        edits_moved_after(before + edits_moved(after, p), p, d) == before + edits_moved(after, p + d),
{
    let moved = before + edits_moved(after, p);
    let wanted = before + edits_moved(after, p + d);
    assert forall|k: int| 0 <= k < moved.len() implies #[trigger] edits_moved_after(moved, p, d)[k] == wanted[k] by {
        if k < before.len() {
            assert(moved[k] == before[k]);
            assert(wanted[k] == before[k]);
        } else {
            assert(moved[k] == edits_moved(after, p)[k - before.len()]);
            assert(wanted[k] == edits_moved(after, p + d)[k - before.len()]);
        }
    }
    assert(edits_moved_after(moved, p, d) =~= wanted);
}

/// A line that goes on with the item above it changes no numbering:
/// putting one in at the start of any line of a note reports the same
/// renumbering edits as before, those after it moved on by its length and
/// line break. Only a line at the left edge that is not an item restarts
/// the count.
#[verifier::rlimit(30)]
pub proof fn law_a_continuation_line_keeps_the_numbering(a: Seq<char>, line: Seq<char>, b: Seq<char>)
    requires
        a.len() > 0 ==> a.last() == '\n',
        continues_item(line),
        (a + line + seq!['\n'] + b).len() <= usize::MAX,
    ensures
        renumbering(a + line + seq!['\n'] + b) == edits_moved_after(
            renumbering(a + b),
            a.len() as int,
            line.len() as int + 1,
        ),
{
    let start = Numbering { levels: seq![], in_fence: false };
    let with = a + line + seq!['\n'] + b;
    let without = a + b;
    let tail = line + seq!['\n'] + b;
    assert(with =~= a + tail);
    lemma_numbered_through(a, b, 0, start);
    lemma_numbered_through(a, tail, 0, start);
    let before = numbered_through(a, 0, start).0;
    let state = numbered_through(a, 0, start).1;
    let p = a.len() as int;
    let n = line.len() as int;
    assert forall|k: int| p <= k < p + n implies #[trigger] with[k] != '\n' by {
        assert(with[k] == line[k - p]);
    }
    assert(with[p + n] == '\n');
    lemma_line_end_is(with, p, p + n);
    assert(with.subrange(p, p + n) =~= line);
    lemma_continuation_line(line, p, state);
    assert(renumber_from(with, p, state) == renumber_from(with, p + n + 1, state));
    let x = a + line + seq!['\n'];
    assert(with =~= x + b);
    lemma_renumber_moved(x, b, 0, state);
    lemma_renumber_moved(a, b, 0, state);
    let after = renumber_from(b, 0, state);
    lemma_renumber_from(b, 0, state);
    assert forall|k: int| 0 <= k < after.len() implies #[trigger] after[k].start < after[k].end <= b.len() by {
        assert(crate::lists::needed(b, after[k]));
    }
    lemma_moved_after(before, after, b, p, n + 1, with.len() as int);
}

} // verus!
