//! The note's text with Markdown syntax removed, for search results, link
//! completion and window subtitles.
use vstd::prelude::*;
use crate::types::{Style, Span, Marker, Parsed, LineState};
use crate::text::{
    find_from, find, chars_of, string_of, run_end_at, leading_spaces, lemma_find_from,
    lemma_matches_char,
};
use crate::block::{item_of, item_len, same_len};
use crate::note::{line_end, parse, scan_note, scan_from};

verus! {

/// Whether one of the first `count` markers covers character `at`.
pub open spec fn marked(markers: Seq<Marker>, count: int, at: int) -> bool
    decreases count,
{
    if count <= 0 {
        false
    } else {
        marked(markers, count - 1, at) || (count - 1 < markers.len() && markers[count - 1].start <= at
            < markers[count - 1].end)
    }
}

/// Styles that are metadata or pure syntax, never prose.
pub open spec fn drops_style(style: Style) -> bool {
    style == Style::Frontmatter || style == Style::Rule || style == Style::TableDelimiter
}

/// Whether one of the first `count` spans that are never prose covers `at`.
pub open spec fn dropped(spans: Seq<Span>, count: int, at: int) -> bool
    decreases count,
{
    if count <= 0 {
        false
    } else {
        dropped(spans, count - 1, at) || (count - 1 < spans.len() && drops_style(
            spans[count - 1].style,
        ) && spans[count - 1].start <= at < spans[count - 1].end)
    }
}

/// Whether one of the first `count` table-row spans covers `at`.
pub open spec fn in_row(spans: Seq<Span>, count: int, at: int) -> bool
    decreases count,
{
    if count <= 0 {
        false
    } else {
        in_row(spans, count - 1, at) || (count - 1 < spans.len() && spans[count - 1].style
            == Style::TableRow && spans[count - 1].start <= at < spans[count - 1].end)
    }
}

/// Where the line holding character `at` starts.
pub open spec fn line_start_of(text: Seq<char>, at: int) -> int
    decreases at,
{
    if at <= 0 {
        0
    } else if at - 1 < text.len() && text[at - 1] == '\n' {
        at
    } else {
        line_start_of(text, at - 1)
    }
}

/// Whether character `at` is part of a list item's indent and bullet or number.
pub open spec fn in_bullet(text: Seq<char>, at: int) -> bool {
    let start = line_start_of(text, at);
    let line = text.subrange(start, line_end(text, start));
    let indent = leading_spaces(line);
    match item_of(line.subrange(indent, line.len() as int)) {
        Some(len) => at < start + indent + len,
        None => false,
    }
}

/// Whether character `at` is left out of the snippet: markers, frontmatter,
/// rules, table delimiter rows, list bullets, and the pipes of table rows.
pub open spec fn hidden_at(text: Seq<char>, spans: Seq<Span>, markers: Seq<Marker>, at: int) -> bool {
    ||| marked(markers, markers.len() as int, at)
    ||| dropped(spans, spans.len() as int, at)
    ||| in_bullet(text, at)
    ||| (in_row(spans, spans.len() as int, at) && text[at] == '|')
}

/// The snippet of the first `count` characters. Within a table row a space
/// that follows a space already kept is dropped too, so the padding that lined
/// the columns up does not leave gaping runs mid-sentence.
pub open spec fn stripped(text: Seq<char>, spans: Seq<Span>, markers: Seq<Marker>, count: int) -> Seq<char>
    decreases count,
{
    if count <= 0 {
        seq![]
    } else {
        let kept = stripped(text, spans, markers, count - 1);
        let at = count - 1;
        if hidden_at(text, spans, markers, at) {
            kept
        } else if in_row(spans, spans.len() as int, at) && text[at] == ' ' && kept.len() > 0
            && kept.last() == ' ' {
            kept
        } else {
            kept.push(text[at])
        }
    }
}

/// The snippet of a whole note, given the scan of it.
pub open spec fn snippet(text: Seq<char>, spans: Seq<Span>, markers: Seq<Marker>) -> Seq<char> {
    stripped(text, spans, markers, text.len() as int)
}

/// Mark `from..to` hidden, as far as the text goes.
fn conceal(hidden: &mut Vec<bool>, from: usize, to: usize)
    ensures
        final(hidden)@.len() == old(hidden)@.len(),
        forall|k: int|
            0 <= k < old(hidden)@.len() ==> #[trigger] final(hidden)@[k] == (old(hidden)@[k] || (from
                <= k < to)),
{
    let end = if to < hidden.len() {
        to
    } else {
        hidden.len()
    };
    let mut k = from;
    while k < end
        invariant
            from <= k,
            end <= hidden@.len(),
            hidden@.len() == old(hidden)@.len(),
            forall|j: int|
                0 <= j < hidden@.len() ==> #[trigger] hidden@[j] == (old(hidden)@[j] || (from <= j < k
                    && j < end)),
        decreases end - k,
    {
        hidden[k] = true;
        k = k + 1;
    }
}

/// The line of `text` starting at `start` ends where `line_end` says, and
/// every character of it up to that end belongs to it.
pub proof fn lemma_line_start_of(text: Seq<char>, start: int, at: int)
    requires
        0 <= start <= at <= line_end(text, start),
        at <= text.len(),
        start == 0 || (start - 1 < text.len() && text[start - 1] == '\n'),
    ensures
        line_start_of(text, at) == start,
    decreases at - start,
{
    if at > start {
        lemma_find_from(text, start, seq!['\n']);
        lemma_matches_char(text, at - 1, '\n');
        lemma_line_start_of(text, start, at - 1);
    }
}

/// [`strip`], reusing a scan the caller already has.
///
/// The index derives four things from every note and parsing once for each was
/// most of the cost of opening a vault.
pub fn strip_with(text: &str, parsed: &Parsed) -> (stripped: String)
    ensures
        stripped@ == snippet(text@, parsed.spans@, parsed.markers@),
{
    let chars = chars_of(text);
    let count = chars.len();
    let ghost spans = parsed.spans@;
    let ghost markers = parsed.markers@;
    let mut hidden: Vec<bool> = Vec::new();
    let mut in_table: Vec<bool> = Vec::new();
    while hidden.len() < count
        invariant
            hidden@.len() <= count,
            in_table@.len() == hidden@.len(),
            forall|k: int| 0 <= k < hidden@.len() ==> !#[trigger] hidden@[k],
            forall|k: int| 0 <= k < in_table@.len() ==> !#[trigger] in_table@[k],
        decreases count - hidden@.len(),
    {
        hidden.push(false);
        in_table.push(false);
    }
    let mut m: usize = 0;
    while m < parsed.markers.len()
        invariant
            m <= markers.len(),
            markers == parsed.markers@,
            hidden@.len() == count,
            forall|k: int| 0 <= k < count ==> #[trigger] hidden@[k] == marked(markers, m as int, k),
        decreases markers.len() - m,
    {
        let marker = parsed.markers[m];
        conceal(&mut hidden, marker.start, marker.end);
        m = m + 1;
    }
    // Frontmatter is metadata, never prose. It has no markers of its own
    // because the editor styles it in place, so it is dropped here explicitly.
    // A table's delimiter row goes the same way, and its pipes below.
    let mut s: usize = 0;
    while s < parsed.spans.len()
        invariant
            s <= spans.len(),
            spans == parsed.spans@,
            markers == parsed.markers@,
            hidden@.len() == count,
            forall|k: int|
                0 <= k < count ==> #[trigger] hidden@[k] == (marked(markers, markers.len() as int, k)
                    || dropped(spans, s as int, k)),
        decreases spans.len() - s,
    {
        let span = parsed.spans[s];
        match span.style {
            Style::Frontmatter | Style::Rule | Style::TableDelimiter => {
                conceal(&mut hidden, span.start, span.end);
            },
            _ => {},
        }
        s = s + 1;
    }
    // Bullets are content in the editor and clutter in a snippet.
    let newline = ['\n'];
    assert(newline@ =~= seq!['\n']);
    let mut line_start: usize = 0;
    while line_start < count
        invariant
            line_start <= count,
            chars@ == text@,
            count == chars@.len(),
            newline@ == seq!['\n'],
            spans == parsed.spans@,
            markers == parsed.markers@,
            hidden@.len() == count,
            line_start < count ==> (line_start == 0 || chars@[line_start - 1] == '\n'),
            forall|k: int|
                0 <= k < count ==> #[trigger] hidden@[k] == (marked(markers, markers.len() as int, k)
                    || dropped(spans, spans.len() as int, k) || (k < line_start && in_bullet(
                    chars@,
                    k,
                ))),
        decreases count - line_start,
    {
        let line_end = match find(&chars, line_start, &newline) {
            Some(at) => at,
            None => count,
        };
        let line = &chars[line_start..line_end];
        let indent = run_end_at(line, 0, ' ');
        let rest = &line[indent..line.len()];
        let item = item_len(rest);
        let ghost previous = hidden@;
        if let Some(len) = item {
            conceal(&mut hidden, line_start, line_start + indent + len);
        }
        proof {
            lemma_find_from(chars@, line_start as int, seq!['\n']);
            if line_end < count {
                lemma_matches_char(chars@, line_end as int, '\n');
            }
            assert forall|k: int| 0 <= k < count implies #[trigger] hidden@[k] == (marked(
                markers,
                markers.len() as int,
                k,
            ) || dropped(spans, spans.len() as int, k) || (k < line_end + 1 && in_bullet(
                chars@,
                k,
            ))) by {
                if line_start <= k <= line_end {
                    lemma_line_start_of(chars@, line_start as int, k);
                }
            }
        }
        if line_end >= count {
            line_start = count;
        } else {
            line_start = line_end + 1;
        }
    }
    // A table row reads as its cells. The pipes are structure the editor needs
    // and a one-line snippet does not, so they go, and with them the padding
    // that lined the columns up.
    let mut r: usize = 0;
    while r < parsed.spans.len()
        invariant
            r <= spans.len(),
            chars@ == text@,
            count == chars@.len(),
            spans == parsed.spans@,
            markers == parsed.markers@,
            hidden@.len() == count,
            in_table@.len() == count,
            forall|k: int|
                0 <= k < count ==> #[trigger] hidden@[k] == (marked(markers, markers.len() as int, k)
                    || dropped(spans, spans.len() as int, k) || in_bullet(chars@, k) || (in_row(
                    spans,
                    r as int,
                    k,
                ) && chars@[k] == '|')),
            forall|k: int| 0 <= k < count ==> #[trigger] in_table@[k] == in_row(spans, r as int, k),
        decreases spans.len() - r,
    {
        let span = parsed.spans[r];
        if let Style::TableRow = span.style {
            let end = if span.end < count {
                span.end
            } else {
                count
            };
            let mut at = span.start;
            while at < end
                invariant
                    span.start <= at,
                    end <= count,
                    count == chars@.len(),
                    hidden@.len() == count,
                    in_table@.len() == count,
                    forall|k: int|
                        0 <= k < count ==> #[trigger] in_table@[k] == (in_row(spans, r as int, k) || (
                        span.start <= k < at && k < end)),
                    forall|k: int|
                        0 <= k < count ==> #[trigger] hidden@[k] == (marked(
                            markers,
                            markers.len() as int,
                            k,
                        ) || dropped(spans, spans.len() as int, k) || in_bullet(chars@, k) || ((in_row(
                            spans,
                            r as int,
                            k,
                        ) || (span.start <= k < at && k < end)) && chars@[k] == '|')),
                decreases end - at,
            {
                in_table[at] = true;
                if chars[at] == '|' {
                    hidden[at] = true;
                }
                at = at + 1;
            }
        }
        r = r + 1;
    }
    let mut out: Vec<char> = Vec::new();
    let mut at: usize = 0;
    while at < count
        invariant
            at <= count,
            chars@ == text@,
            count == chars@.len(),
            hidden@.len() == count,
            in_table@.len() == count,
            forall|k: int|
                0 <= k < count ==> #[trigger] hidden@[k] == hidden_at(chars@, spans, markers, k),
            forall|k: int| 0 <= k < count ==> #[trigger] in_table@[k] == in_row(spans, spans.len() as int, k),
            out@ == stripped(chars@, spans, markers, at as int),
        decreases count - at,
    {
        let character = chars[at];
        if hidden[at] {
        } else if in_table[at] && character == ' ' && out.len() > 0 && out[out.len() - 1] == ' ' {
        } else {
            out.push(character);
        }
        at = at + 1;
    }
    string_of(&out)
}

/// The note's text with Markdown syntax removed.
///
/// For anywhere a note is named rather than shown: search results, link
/// autocompletion, the window subtitle. List bullets are dropped here too, as
/// table pipes and frontmatter are.
pub fn strip(text: &str) -> (stripped: String)
    ensures
        stripped@ == snippet(text@, scan_note(text@).spans, scan_note(text@).markers),
{
    strip_with(text, &parse(text))
}

proof fn lemma_not_marked(text: Seq<char>, markers: Seq<Marker>, count: int, at: int)
    requires
        0 <= at < text.len(),
        text[at] == '\n',
        count <= markers.len(),
        forall|k: int, j: int|
            #![trigger markers[k], text[j]]
            0 <= k < markers.len() && markers[k].start <= j < markers[k].end ==> text[j] != '\n',
    ensures
        !marked(markers, count, at),
    decreases count,
{
    if count > 0 {
        lemma_not_marked(text, markers, count - 1, at);
        if markers[count - 1].start <= at < markers[count - 1].end {
            assert(text[at] != '\n');
        }
    }
}

proof fn lemma_not_dropped(text: Seq<char>, spans: Seq<Span>, count: int, at: int)
    requires
        0 <= at < text.len(),
        text[at] == '\n',
        count <= spans.len(),
        forall|k: int, j: int|
            #![trigger spans[k], text[j]]
            0 <= k < spans.len() && spans[k].start <= j < spans[k].end ==> text[j] != '\n',
    ensures
        !dropped(spans, count, at),
    decreases count,
{
    if count > 0 {
        lemma_not_dropped(text, spans, count - 1, at);
        if spans[count - 1].start <= at < spans[count - 1].end {
            assert(text[at] != '\n');
        }
    }
}

/// The line holding `at` starts after a line break, or at the start, and has
/// none before `at`.
pub proof fn lemma_line_start_chars(text: Seq<char>, at: int)
    requires
        0 <= at <= text.len(),
    ensures
        0 <= line_start_of(text, at) <= at,
        line_start_of(text, at) == 0 || text[line_start_of(text, at) - 1] == '\n',
        forall|j: int| line_start_of(text, at) <= j < at ==> #[trigger] text[j] != '\n',
    decreases at,
{
    if at > 0 && !(text[at - 1] == '\n') {
        lemma_line_start_chars(text, at - 1);
    }
}

/// A line break is never part of a bullet.
proof fn lemma_break_not_bullet(text: Seq<char>, at: int)
    requires
        0 <= at < text.len(),
        text[at] == '\n',
    ensures
        !in_bullet(text, at),
{
    lemma_line_start_chars(text, at);
    let start = line_start_of(text, at);
    crate::settle::lemma_line_end_is(text, start, at);
    let line = text.subrange(start, at);
    crate::laws::lemma_run_end_bounds(line, 0, ' ');
    let indent = leading_spaces(line);
    crate::laws::lemma_item_of(line.subrange(indent, line.len() as int));
}

/// How many line breaks the snippet of the first `count` characters keeps:
/// all of them.
proof fn lemma_stripped_breaks(text: Seq<char>, spans: Seq<Span>, markers: Seq<Marker>, count: int)
    requires
        0 <= count <= text.len(),
        crate::laws::clear_of_breaks(text, spans, markers),
    ensures
        crate::block::count_of(stripped(text, spans, markers, count), '\n') == crate::block::count_of(
            text.subrange(0, count),
            '\n',
        ),
    decreases count,
{
    if count > 0 {
        lemma_stripped_breaks(text, spans, markers, count - 1);
        let at = count - 1;
        let kept = stripped(text, spans, markers, count - 1);
        assert(text.subrange(0, count).drop_last() =~= text.subrange(0, count - 1));
        assert(text.subrange(0, count).last() == text[at]);
        if text[at] == '\n' {
            lemma_not_marked(text, markers, markers.len() as int, at);
            lemma_not_dropped(text, spans, spans.len() as int, at);
            lemma_break_not_bullet(text, at);
            assert(!hidden_at(text, spans, markers, at));
            assert(stripped(text, spans, markers, count) == kept.push('\n'));
            assert(kept.push('\n').drop_last() =~= kept);
        } else {
            let out = stripped(text, spans, markers, count);
            if out != kept {
                assert(out == kept.push(text[at]));
                assert(kept.push(text[at]).drop_last() =~= kept);
            }
        }
    }
}

/// `strip` keeps every line break: its snippet has exactly as many as the
/// note.
pub proof fn law_strip_keeps_every_line_break(text: Seq<char>)
    requires
        text.len() <= usize::MAX,
    ensures
        crate::block::count_of(snippet(text, scan_note(text).spans, scan_note(text).markers), '\n')
            == crate::block::count_of(text, '\n'),
{
    crate::laws::law_styling_never_crosses_a_line_break(text);
    lemma_stripped_breaks(text, scan_note(text).spans, scan_note(text).markers, text.len() as int);
    assert(text.subrange(0, text.len() as int) =~= text);
}

/// `a` is `b` with zero or more characters deleted: its characters stand in
/// `b` in the same order.
pub open spec fn deleted_from(a: Seq<char>, b: Seq<char>) -> bool {
    exists|at: spec_fn(int) -> int| #[trigger] placed(a, b, at)
}

/// `at` places each character of `a` at an equal character of `b`, in order.
pub open spec fn placed(a: Seq<char>, b: Seq<char>, at: spec_fn(int) -> int) -> bool {
    &&& forall|i: int| 0 <= i < a.len() ==> 0 <= #[trigger] at(i) < b.len() && b[at(i)] == a[i]
    &&& forall|i: int, j: int| 0 <= i < j < a.len() ==> #[trigger] at(i) < #[trigger] at(j)
}

/// Where each character the snippet of the first `count` characters keeps
/// came from.
proof fn lemma_stripped_from(text: Seq<char>, spans: Seq<Span>, markers: Seq<Marker>, count: int) -> (at: spec_fn(
    int,
) -> int)
    requires
        0 <= count <= text.len(),
    ensures
        forall|i: int|
            0 <= i < stripped(text, spans, markers, count).len() ==> 0 <= #[trigger] at(i) < count
                && text[at(i)] == stripped(text, spans, markers, count)[i],
        forall|i: int, j: int|
            0 <= i < j < stripped(text, spans, markers, count).len() ==> #[trigger] at(i) < #[trigger] at(j),
    decreases count,
{
    if count <= 0 {
        |i: int| 0int
    } else {
        let before = lemma_stripped_from(text, spans, markers, count - 1);
        let kept = stripped(text, spans, markers, count - 1);
        let out = stripped(text, spans, markers, count);
        let n = kept.len() as int;
        let at = |i: int| if i < n { before(i) } else { count - 1 };
        if out != kept {
            assert(out == kept.push(text[count - 1]));
            assert forall|i: int| 0 <= i < out.len() implies 0 <= #[trigger] at(i) < count && text[at(i)] == out[i] by {
                if i < n {
                    assert(out[i] == kept[i]);
                }
            }
            assert forall|i: int, j: int| 0 <= i < j < out.len() implies #[trigger] at(i) < #[trigger] at(j) by {
                if j < n {
                    assert(before(i) < before(j));
                }
            }
        }
        at
    }
}

/// `strip` only deletes: its snippet is the note with zero or more
/// characters taken out, the rest kept in order.
pub proof fn law_strip_only_deletes(text: Seq<char>)
    ensures
        deleted_from(snippet(text, scan_note(text).spans, scan_note(text).markers), text),
{
    let spans = scan_note(text).spans;
    let markers = scan_note(text).markers;
    let at = lemma_stripped_from(text, spans, markers, text.len() as int);
    let out = snippet(text, spans, markers);
    assert forall|i: int| 0 <= i < out.len() implies 0 <= #[trigger] at(i) < text.len() && text[at(i)] == out[i] by {}
    assert(placed(out, text, at));
}

/// Characters none of which is left out are copied as they stand.
proof fn lemma_stripped_keeps(text: Seq<char>, spans: Seq<Span>, markers: Seq<Marker>, p: int, q: int)
    requires
        0 <= p <= q <= text.len(),
        forall|j: int| p <= j < q ==> !#[trigger] hidden_at(text, spans, markers, j) && !in_row(spans, spans.len() as int, j),
    ensures
        stripped(text, spans, markers, q) == stripped(text, spans, markers, p) + text.subrange(p, q),
    decreases q - p,
{
    if q > p {
        lemma_stripped_keeps(text, spans, markers, p, q - 1);
        assert(!hidden_at(text, spans, markers, q - 1));
        assert(stripped(text, spans, markers, p) + text.subrange(p, q) =~= (stripped(text, spans, markers, p)
            + text.subrange(p, q - 1)).push(text[q - 1]));
    } else {
        assert(stripped(text, spans, markers, p) + text.subrange(p, q) =~= stripped(text, spans, markers, p));
    }
}

/// Characters all of which are left out add nothing.
proof fn lemma_stripped_drops(text: Seq<char>, spans: Seq<Span>, markers: Seq<Marker>, p: int, q: int)
    requires
        0 <= p <= q <= text.len(),
        forall|j: int| p <= j < q ==> #[trigger] hidden_at(text, spans, markers, j),
    ensures
        stripped(text, spans, markers, q) == stripped(text, spans, markers, p),
    decreases q - p,
{
    if q > p {
        lemma_stripped_drops(text, spans, markers, p, q - 1);
        assert(hidden_at(text, spans, markers, q - 1));
    }
}

/// A fenced block of one line of code: the fence, the code, the fence.
pub open spec fn fenced_code(code: Seq<char>) -> Seq<char> {
    seq!['`', '`', '`', '\n'] + code + seq!['\n', '`', '`', '`']
}

/// How a fenced block of one line of code scans: the fences are markers, the
/// code one code-block span.
proof fn lemma_fenced_code_scan(code: Seq<char>)
    requires
        forall|k: int| 0 <= k < code.len() ==> #[trigger] code[k] != '\n',
        !crate::block::fence_line(code),
    ensures
        scan_note(fenced_code(code)).spans == crate::types::span_of(4, 4 + code.len() as int, Style::CodeBlock),
        scan_note(fenced_code(code)).markers == crate::types::marker_of(0, 3, (0, 3)) + crate::types::marker_of(
            5 + code.len() as int,
            8 + code.len() as int,
            (5 + code.len() as int, 8 + code.len() as int),
        ),
{
    reveal(crate::block::line_out);
    let n = code.len() as int;
    let text = fenced_code(code);
    let fence = seq!['`', '`', '`'];
    assert(text.len() == n + 8);
    assert(text[3] == '\n' && text[n + 4] == '\n');
    assert forall|k: int| 0 <= k < 3 implies #[trigger] text[k] != '\n' by {}
    assert forall|k: int| 4 <= k < n + 4 implies #[trigger] text[k] != '\n' by {
        assert(text[k] == code[k - 4]);
    }
    assert forall|k: int| n + 5 <= k < n + 8 implies #[trigger] text[k] != '\n' by {}
    crate::settle::lemma_line_end_is(text, 0, 3);
    crate::settle::lemma_line_end_is(text, 4, n + 4);
    crate::settle::lemma_line_end_is(text, n + 5, n + 8);
    assert(text.subrange(0, 3) =~= fence);
    assert(text.subrange(4, n + 4) =~= code);
    assert(text.subrange(n + 5, n + 8) =~= fence);
    assert(crate::text::run_end(fence, 0, ' ') == 0);
    assert(fence.subrange(0, 3) =~= fence);
    assert(crate::block::fence_line(fence));
    assert(crate::text::back_white(fence, 0, 3) == 3);
    assert(crate::text::trimmed_end(fence) =~= fence);
    assert(!crate::block::delimiter_line(fence));
    assert(!crate::note::opens_frontmatter(text));
    let last = scan_from(text, n + 5, LineState::Fence, false, seq![]);
    assert(last.spans =~= Seq::<Span>::empty());
    let middle = scan_from(text, 4, LineState::Fence, false, seq![]);
    assert(middle.spans =~= crate::types::span_of(4, 4 + n, Style::CodeBlock));
    assert(middle.markers =~= crate::types::marker_of(n + 5, n + 8, (n + 5, n + 8)));
    let whole = scan_note(text);
    assert(whole.spans =~= crate::types::span_of(4, 4 + n, Style::CodeBlock));
    assert(whole.markers =~= crate::types::marker_of(0, 3, (0, 3)) + crate::types::marker_of(
        n + 5,
        n + 8,
        (n + 5, n + 8),
    ));
}

/// Code is prose to a snippet: stripping a fenced block drops the two fences
/// and keeps the line of code between them, unchanged, with the line breaks
/// around it. A line of code that reads as a list item still loses its
/// bullet, as every line does.
pub proof fn law_strip_keeps_fenced_code(code: Seq<char>)
    requires
        code.len() + 8 <= usize::MAX,
        forall|k: int| 0 <= k < code.len() ==> #[trigger] code[k] != '\n',
        !crate::block::fence_line(code),
        item_of(code.subrange(leading_spaces(code), code.len() as int)) is None,
    ensures
        snippet(fenced_code(code), scan_note(fenced_code(code)).spans, scan_note(fenced_code(code)).markers)
            == seq!['\n'] + code + seq!['\n'],
{
    let n = code.len() as int;
    let text = fenced_code(code);
    assert(text.len() == n + 8);
    lemma_fenced_code_scan(code);
    let spans = scan_note(text).spans;
    let markers = scan_note(text).markers;
    let m0 = crate::types::marker_of(0, 3, (0, 3));
    let m2 = crate::types::marker_of(n + 5, n + 8, (n + 5, n + 8));
    assert(markers == m0 + m2);
    assert((m0 + m2)[1] == m2[0]);
    assert(markers.len() == 2);
    assert(markers[0].start == 0 && markers[0].end == 3);
    assert(markers[1].start == n + 5 && markers[1].end == n + 8);
    assert forall|j: int| 0 <= j < text.len() implies !#[trigger] in_row(spans, spans.len() as int, j)
        && !dropped(spans, spans.len() as int, j) by {
        assert(!in_row(spans, 0, j) && !dropped(spans, 0, j));
        if spans.len() > 0 {
            assert(spans.len() == 1);
            assert(spans[0].style == Style::CodeBlock);
            assert(!drops_style(spans[0].style));
        }
    }
    assert forall|j: int| 0 <= j < 3 implies #[trigger] hidden_at(text, spans, markers, j) by {
        assert(marked(markers, 1, j));
    }
    assert forall|j: int| n + 5 <= j < n + 8 implies #[trigger] hidden_at(text, spans, markers, j) by {
        assert(marked(markers, 2, j));
    }
    crate::laws::lemma_run_end_bounds(code, 0, ' ');
    assert forall|j: int| 3 <= j < n + 5 implies !#[trigger] hidden_at(text, spans, markers, j) by {
        assert(!marked(markers, 0, j));
        assert(!marked(markers, 1, j));
        assert(!marked(markers, 2, j));
        assert(!in_row(spans, 0, j) && !dropped(spans, 0, j));
        if spans.len() > 0 {
            assert(spans.len() == 1);
            assert(spans[0].style == Style::CodeBlock);
            assert(!drops_style(spans[0].style));
        }
        assert(!in_row(spans, spans.len() as int, j) && !dropped(spans, spans.len() as int, j));
        if j == 3 || j == n + 4 {
            lemma_break_not_bullet(text, j);
        } else {
            assert(text[3] == '\n');
            assert forall|k: int| 4 <= k < n + 4 implies #[trigger] text[k] != '\n' by {
                assert(text[k] == code[k - 4]);
            }
            assert(text[n + 4] == '\n');
            crate::settle::lemma_line_end_is(text, 4, n + 4);
            lemma_line_start_of(text, 4, j);
            assert(text.subrange(4, n + 4) =~= code);
            assert(!in_bullet(text, j));
        }
    }
    lemma_stripped_drops(text, spans, markers, 0, 3);
    lemma_stripped_keeps(text, spans, markers, 3, n + 5);
    lemma_stripped_drops(text, spans, markers, n + 5, n + 8);
    assert(stripped(text, spans, markers, 0) =~= Seq::<char>::empty());
    assert(text.subrange(3, n + 5) =~= seq!['\n'] + code + seq!['\n']);
    assert(Seq::<char>::empty() + text.subrange(3, n + 5) =~= text.subrange(3, n + 5));
}

} // verus!
