//! What holds of every scan: where its spans and markers lie.
use vstd::prelude::*;
use crate::types::{Span, Marker, span_of, marker_of};
use crate::text::{find_from, lemma_find_from, matches_at, run_end, digits_end, leading_spaces};
use crate::inline::{
    Step, inline_step, inline_items, code_step, embed_step, wikilink_step, link_step, url_step,
    tag_step, both_step, delimited_step, emphasis_step, or_else, display_start, without_punctuation,
    word_end, tag_run, tag_trimmed,
};
use crate::block::{
    LineOut, line_out, normal_out, content_out, table_row_out, block_prefix, heading_of, item_of,
    bullet_of, ordered_of, checkbox_of,
};
use crate::note::{Scan, scan_from, scan_note, line_end};

verus! {

/// Every span is non-empty and lies within `lo..hi`.
pub open spec fn spans_within(spans: Seq<Span>, lo: int, hi: int) -> bool {
    forall|k: int| 0 <= k < spans.len() ==> lo <= #[trigger] spans[k].start < spans[k].end <= hi
}

/// Every marker is non-empty, lies within the construct that reveals it, and
/// that construct lies within `lo..hi`; and the markers come in order, each
/// ending before the next begins.
pub open spec fn markers_tidy(markers: Seq<Marker>, lo: int, hi: int) -> bool {
    &&& forall|k: int|
        0 <= k < markers.len() ==> lo <= #[trigger] markers[k].reveal.0 <= markers[k].start
            < markers[k].end <= markers[k].reveal.1 <= hi
    &&& forall|j: int, k: int|
        0 <= j < k < markers.len() ==> #[trigger] markers[j].end <= #[trigger] markers[k].start
}

proof fn lemma_spans_join(a: Seq<Span>, b: Seq<Span>, lo: int, hi: int)
    requires
        spans_within(a, lo, hi),
        spans_within(b, lo, hi),
    ensures
        spans_within(a + b, lo, hi),
{
    assert forall|k: int| 0 <= k < (a + b).len() implies lo <= #[trigger] (a + b)[k].start < (a
        + b)[k].end <= hi by {
        if k < a.len() {
            assert((a + b)[k] == a[k]);
        } else {
            assert((a + b)[k] == b[k - a.len()]);
        }
    }
}

proof fn lemma_spans_widen(a: Seq<Span>, lo: int, hi: int, lo2: int, hi2: int)
    requires
        spans_within(a, lo, hi),
        lo2 <= lo,
        hi <= hi2,
    ensures
        spans_within(a, lo2, hi2),
{
}

proof fn lemma_markers_join(a: Seq<Marker>, b: Seq<Marker>, lo: int, mid: int, hi: int)
    requires
        markers_tidy(a, lo, mid),
        markers_tidy(b, mid, hi),
        lo <= mid <= hi,
    ensures
        markers_tidy(a + b, lo, hi),
{
    let c = a + b;
    assert forall|k: int| 0 <= k < c.len() implies lo <= #[trigger] c[k].reveal.0 <= c[k].start
        < c[k].end <= c[k].reveal.1 <= hi by {
        if k < a.len() {
            assert(c[k] == a[k]);
        } else {
            assert(c[k] == b[k - a.len()]);
        }
    }
    assert forall|j: int, k: int| 0 <= j < k < c.len() implies #[trigger] c[j].end
        <= #[trigger] c[k].start by {
        if k < a.len() {
            assert(c[j] == a[j] && c[k] == a[k]);
        } else if j < a.len() {
            assert(c[j] == a[j] && c[k] == b[k - a.len()]);
            assert(a[j].reveal.0 <= a[j].start);
            assert(b[k - a.len()].reveal.0 <= b[k - a.len()].start);
        } else {
            assert(c[j] == b[j - a.len()] && c[k] == b[k - a.len()]);
        }
    }
}

proof fn lemma_markers_widen(a: Seq<Marker>, lo: int, hi: int, lo2: int, hi2: int)
    requires
        markers_tidy(a, lo, hi),
        lo2 <= lo,
        hi <= hi2,
    ensures
        markers_tidy(a, lo2, hi2),
{
}

proof fn lemma_span_of(start: int, end: int, style: crate::types::Style, lo: int, hi: int)
    requires
        lo <= start,
        end <= hi,
        0 <= start,
        end <= usize::MAX,
    ensures
        spans_within(span_of(start, end, style), lo, hi),
{
}

proof fn lemma_marker_of(start: int, end: int, reveal: (int, int), lo: int, hi: int)
    requires
        lo <= reveal.0 <= start,
        end <= reveal.1 <= hi,
        0 <= reveal.0,
        reveal.1 <= usize::MAX,
    ensures
        markers_tidy(marker_of(start, end, reveal), lo, hi),
{
}

/// Markers that all end before any of a second lot begins, followed by them.
proof fn lemma_markers_concat(a: Seq<Marker>, b: Seq<Marker>, lo: int, hi: int)
    requires
        markers_tidy(a, lo, hi),
        markers_tidy(b, lo, hi),
        forall|j: int, k: int| 0 <= j < a.len() && 0 <= k < b.len() ==> a[j].end <= b[k].start,
    ensures
        markers_tidy(a + b, lo, hi),
{
    let c = a + b;
    assert forall|k: int| 0 <= k < c.len() implies lo <= #[trigger] c[k].reveal.0 <= c[k].start
        < c[k].end <= c[k].reveal.1 <= hi by {
        if k < a.len() {
            assert(c[k] == a[k]);
        } else {
            assert(c[k] == b[k - a.len()]);
        }
    }
    assert forall|j: int, k: int| 0 <= j < k < c.len() implies #[trigger] c[j].end
        <= #[trigger] c[k].start by {
        if k < a.len() {
            assert(c[j] == a[j] && c[k] == a[k]);
        } else if j < a.len() {
            assert(c[j] == a[j] && c[k] == b[k - a.len()]);
        } else {
            assert(c[j] == b[j - a.len()] && c[k] == b[k - a.len()]);
        }
    }
}

/// Two markers one after the other, revealed by the same construct.
proof fn lemma_marker_pair(
    s1: int,
    e1: int,
    s2: int,
    e2: int,
    reveal: (int, int),
    lo: int,
    hi: int,
)
    requires
        lo <= reveal.0 <= s1 <= e1,
        e1 <= s2 <= e2,
        e2 <= reveal.1 <= hi,
        0 <= reveal.0,
        reveal.1 <= usize::MAX,
    ensures
        markers_tidy(marker_of(s1, e1, reveal) + marker_of(s2, e2, reveal), lo, hi),
{
    lemma_marker_of(s1, e1, reveal, lo, hi);
    lemma_marker_of(s2, e2, reveal, lo, hi);
    lemma_markers_concat(marker_of(s1, e1, reveal), marker_of(s2, e2, reveal), lo, hi);
}

/// The three markers of an embed: its opening brackets, its filename and its
/// closing brackets.
proof fn lemma_marker_triple(a: int, b: int, c: int, d: int, reveal: (int, int))
    requires
        reveal.0 == a,
        a < b < c < d,
        d == reveal.1,
        0 <= a,
        d <= usize::MAX,
    ensures
        markers_tidy(
            marker_of(a, b, reveal) + marker_of(b, c, reveal) + marker_of(c, d, reveal),
            a,
            d,
        ),
{
    let m = marker_of(a, b, reveal) + marker_of(b, c, reveal) + marker_of(c, d, reveal);
    assert(m.len() == 3);
    assert(m[0].start == a && m[0].end == b);
    assert(m[1].start == b && m[1].end == c);
    assert(m[2].start == c && m[2].end == d);
}

/// A step that moves from `i` to its `next` reports only within `i..next`.
pub open spec fn step_tidy(step: Option<Step>, line_len: int, i: int, off: int) -> bool {
    match step {
        Some(s) => {
            &&& i < s.next <= line_len
            &&& spans_within(s.spans, off + i, off + s.next)
            &&& markers_tidy(s.markers, off + i, off + s.next)
        },
        None => true,
    }
}

pub proof fn lemma_delimited_tidy(
    line: Seq<char>,
    i: int,
    off: int,
    delimiter: Seq<char>,
    style: crate::types::Style,
)
    requires
        0 <= off,
        off + line.len() <= usize::MAX,
        delimiter.len() > 0,
    ensures
        step_tidy(delimited_step(line, i, off, delimiter, style), line.len() as int, i, off),
{
    if 0 <= i < line.len() && matches_at(line, i, delimiter) {
        let content = i + delimiter.len();
        lemma_find_from(line, content, delimiter);
        if let Some(close) = find_from(line, content, delimiter) {
            let reveal = (off + i, off + close + delimiter.len());
            lemma_marker_pair(off + i, off + content, off + close, off + close + delimiter.len(), reveal, off + i, off + close + delimiter.len());
            lemma_span_of(off + content, off + close, style, off + i, off + close + delimiter.len());
        }
    }
}

pub proof fn lemma_code_tidy(line: Seq<char>, i: int, off: int)
    requires
        0 <= off,
        off + line.len() <= usize::MAX,
    ensures
        step_tidy(code_step(line, i, off), line.len() as int, i, off),
{
    let len = line.len() as int;
    if 0 <= i < len && line[i] == '`' {
        lemma_find_from(line, i + 1, seq!['`']);
        if let Some(close) = find_from(line, i + 1, seq!['`']) {
            let reveal = (off + i, off + close + 1);
            lemma_marker_pair(off + i, off + i + 1, off + close, off + close + 1, reveal, off + i, off + close + 1);
            lemma_span_of(off + i + 1, off + close, crate::types::Style::Code, off + i, off + close + 1);
        }
    }
}

pub proof fn lemma_embed_tidy(line: Seq<char>, i: int, off: int)
    requires
        0 <= off,
        off + line.len() <= usize::MAX,
    ensures
        step_tidy(embed_step(line, i, off), line.len() as int, i, off),
{
    let len = line.len() as int;
    if 0 <= i < len && matches_at(line, i, seq!['!', '[', '[']) {
        lemma_find_from(line, i + 3, seq![']', ']']);
        if let Some(close) = find_from(line, i + 3, seq![']', ']']) {
            if close != i + 3 {
                let reveal = (off + i, off + close + 2);
                lemma_marker_triple(off + i, off + i + 3, off + close, off + close + 2, reveal);
                lemma_span_of(off + i + 3, off + close, crate::types::Style::Embed, off + i, off + close + 2);
            }
        }
    }
}

pub proof fn lemma_wikilink_tidy(line: Seq<char>, i: int, off: int)
    requires
        0 <= off,
        off + line.len() <= usize::MAX,
    ensures
        step_tidy(wikilink_step(line, i, off), line.len() as int, i, off),
{
    let len = line.len() as int;
    if 0 <= i < len && matches_at(line, i, seq!['[', '[']) {
        lemma_find_from(line, i + 2, seq![']', ']']);
        if let Some(close) = find_from(line, i + 2, seq![']', ']']) {
            lemma_find_from(line.subrange(0, close), i + 2, seq!['|']);
            let shown = display_start(line, i, close);
            if close != i + 2 && shown < close {
                let reveal = (off + i, off + close + 2);
                lemma_marker_pair(off + i, off + shown, off + close, off + close + 2, reveal, off + i, off + close + 2);
                lemma_span_of(off + shown, off + close, crate::types::Style::WikiLink, off + i, off + close + 2);
            }
        }
    }
}

pub proof fn lemma_link_tidy(line: Seq<char>, i: int, off: int)
    requires
        0 <= off,
        off + line.len() <= usize::MAX,
    ensures
        step_tidy(link_step(line, i, off), line.len() as int, i, off),
{
    let len = line.len() as int;
    if 0 <= i < len && line[i] == '[' {
        lemma_find_from(line, i + 1, seq![']']);
        if let Some(label_end) = find_from(line, i + 1, seq![']']) {
            if !(label_end == i + 1 || !(label_end + 1 < len && line[label_end + 1] == '(')) {
                lemma_find_from(line, label_end + 2, seq![')']);
                if let Some(close) = find_from(line, label_end + 2, seq![')']) {
                    let reveal = (off + i, off + close + 1);
                    lemma_marker_pair(off + i, off + i + 1, off + label_end, off + close + 1, reveal, off + i, off + close + 1);
                    lemma_span_of(off + i + 1, off + label_end, crate::types::Style::Link, off + i, off + close + 1);
                }
            }
        }
    }
}

pub proof fn lemma_url_tidy(line: Seq<char>, i: int, off: int)
    requires
        0 <= off,
        off + line.len() <= usize::MAX,
    ensures
        step_tidy(url_step(line, i, off), line.len() as int, i, off),
{
    let len = line.len() as int;
    if 0 <= i < len {
        lemma_word_end(line, i);
        lemma_without_punctuation(line, i, word_end(line, i));
    }
}

pub proof fn lemma_tag_tidy(line: Seq<char>, i: int, off: int)
    requires
        0 <= off,
        off + line.len() <= usize::MAX,
    ensures
        step_tidy(tag_step(line, i, off), line.len() as int, i, off),
{
    let len = line.len() as int;
    if 0 <= i && i + 1 < len {
        lemma_tag_run(line, i + 1);
        lemma_tag_trimmed(line, i, tag_run(line, i + 1));
    }
}

pub proof fn lemma_both_tidy(line: Seq<char>, i: int, off: int)
    requires
        0 <= off,
        off + line.len() <= usize::MAX,
    ensures
        step_tidy(both_step(line, i, off), line.len() as int, i, off),
{
    let len = line.len() as int;
    if 0 <= i < len && (line[i] == '*' || line[i] == '_') {
        let run = seq![line[i], line[i], line[i]];
        if matches_at(line, i, run) {
            lemma_find_from(line, i + 3, run);
            if let Some(close) = find_from(line, i + 3, run) {
                let reveal = (off + i, off + close + 3);
                lemma_marker_pair(off + i, off + i + 3, off + close, off + close + 3, reveal, off + i, off + close + 3);
                lemma_span_of(off + i + 3, off + close, crate::types::Style::Bold, off + i, off + close + 3);
                lemma_span_of(off + i + 3, off + close, crate::types::Style::Italic, off + i, off + close + 3);
                lemma_spans_join(
                    span_of(off + i + 3, off + close, crate::types::Style::Bold),
                    span_of(off + i + 3, off + close, crate::types::Style::Italic),
                    off + i,
                    off + close + 3,
                );
            }
        }
    }
}

pub proof fn lemma_emphasis_tidy(line: Seq<char>, i: int, off: int)
    requires
        0 <= off,
        off + line.len() <= usize::MAX,
    ensures
        step_tidy(emphasis_step(line, i, off), line.len() as int, i, off),
{
    lemma_delimited_tidy(line, i, off, seq!['*', '*'], crate::types::Style::Bold);
    lemma_delimited_tidy(line, i, off, seq!['_', '_'], crate::types::Style::Bold);
    lemma_delimited_tidy(line, i, off, seq!['~', '~'], crate::types::Style::Strikethrough);
    lemma_delimited_tidy(line, i, off, seq!['*'], crate::types::Style::Italic);
    lemma_delimited_tidy(line, i, off, seq!['_'], crate::types::Style::Italic);
}

pub proof fn lemma_step_tidy(line: Seq<char>, i: int, off: int)
    requires
        0 <= off,
        off + line.len() <= usize::MAX,
    ensures
        step_tidy(inline_step(line, i, off), line.len() as int, i, off),
{
    reveal(inline_step);
    lemma_code_tidy(line, i, off);
    lemma_embed_tidy(line, i, off);
    lemma_wikilink_tidy(line, i, off);
    lemma_link_tidy(line, i, off);
    lemma_url_tidy(line, i, off);
    lemma_tag_tidy(line, i, off);
    lemma_both_tidy(line, i, off);
    lemma_emphasis_tidy(line, i, off);
}

proof fn lemma_word_end(line: Seq<char>, from: int)
    requires
        0 <= from <= line.len(),
    ensures
        from <= word_end(line, from) <= line.len(),
    decreases line.len() - from,
{
    if from < line.len() {
        lemma_word_end(line, from + 1);
    }
}

proof fn lemma_without_punctuation(line: Seq<char>, i: int, end: int)
    requires
        i <= end <= line.len(),
    ensures
        i <= without_punctuation(line, i, end) <= end,
    decreases end - i,
{
    if i < end {
        lemma_without_punctuation(line, i, end - 1);
    }
}

proof fn lemma_tag_run(line: Seq<char>, from: int)
    requires
        0 <= from <= line.len(),
    ensures
        from <= tag_run(line, from) <= line.len(),
    decreases line.len() - from,
{
    if from < line.len() {
        lemma_tag_run(line, from + 1);
    }
}

proof fn lemma_tag_trimmed(line: Seq<char>, i: int, end: int)
    requires
        i + 1 <= end <= line.len(),
    ensures
        i + 1 <= tag_trimmed(line, i, end) <= end,
    decreases end - i,
{
    if i + 1 < end {
        lemma_tag_trimmed(line, i, end - 1);
    }
}

/// The inline items from `i` lie within `i..` of the line, in order.
pub proof fn lemma_inline_tidy(line: Seq<char>, i: int, off: int)
    requires
        0 <= i,
        0 <= off,
        off + line.len() <= usize::MAX,
    ensures
        spans_within(inline_items(line, i, off).0, off + i, off + line.len()),
        markers_tidy(inline_items(line, i, off).1, off + i, off + line.len()),
    decreases line.len() - i,
{
    if i < line.len() {
        lemma_step_tidy(line, i, off);
        match inline_step(line, i, off) {
            Some(s) => {
                if i < s.next <= line.len() {
                    lemma_inline_tidy(line, s.next, off);
                    let rest = inline_items(line, s.next, off);
                    lemma_spans_widen(s.spans, off + i, off + s.next, off + i, off + line.len());
                    lemma_spans_widen(rest.0, off + s.next, off + line.len(), off + i, off + line.len());
                    lemma_spans_join(s.spans, rest.0, off + i, off + line.len());
                    lemma_markers_join(s.markers, rest.1, off + i, off + s.next, off + line.len());
                } else {
                    lemma_inline_tidy(line, i + 1, off);
                }
            },
            None => {
                lemma_inline_tidy(line, i + 1, off);
            },
        }
    }
}


proof fn lemma_run_end(line: Seq<char>, from: int, c: char)
    requires
        0 <= from <= line.len(),
    ensures
        from <= run_end(line, from, c) <= line.len(),
    decreases line.len() - from,
{
    if from < line.len() {
        lemma_run_end(line, from + 1, c);
    }
}

proof fn lemma_digits_end(line: Seq<char>, from: int)
    requires
        0 <= from <= line.len(),
    ensures
        from <= digits_end(line, from) <= line.len(),
    decreases line.len() - from,
{
    if from < line.len() {
        lemma_digits_end(line, from + 1);
    }
}

/// A list item's bullet or number lies within its line.
pub proof fn lemma_item_of(rest: Seq<char>)
    ensures
        item_of(rest) matches Some(len) ==> 0 < len <= rest.len(),
{
    lemma_digits_end(rest, 0);
}

/// A block prefix's syntax ends where its content begins, which is within
/// the line.
pub proof fn lemma_prefix_tidy(line: Seq<char>, off: int, list: Seq<u8>)
    requires
        line.len() > 0,
        0 <= off,
        off + line.len() <= usize::MAX,
    ensures
        leading_spaces(line) <= block_prefix(line, off, list).content <= line.len(),
        markers_tidy(block_prefix(line, off, list).markers, off, off + line.len()),
        forall|k: int|
            0 <= k < block_prefix(line, off, list).markers.len() ==> #[trigger] block_prefix(
                line,
                off,
                list,
            ).markers[k].end <= off + block_prefix(line, off, list).content,
        spans_within(block_prefix(line, off, list).task, off, off + block_prefix(line, off, list).content),
{
    let len = line.len() as int;
    let whole = (off, off + len);
    lemma_run_end(line, 0, ' ');
    let indent = leading_spaces(line);
    let rest = line.subrange(indent, len);
    lemma_run_end(rest, 0, '#');
    lemma_item_of(rest);
    let p = block_prefix(line, off, list);
    match heading_of(rest) {
        Some(level) => {
            lemma_marker_of(off + indent, off + indent + level + 1, whole, off, off + len);
        },
        None => {
            if rest.len() > 0 && rest[0] == '>' {
                let n: int = if rest.len() > 1 && rest[1] == ' ' {
                    2
                } else {
                    1
                };
                lemma_marker_of(off + indent, off + indent + n, whole, off, off + len);
            } else {
                match item_of(rest) {
                    Some(n) => {
                        lemma_marker_of(off, off + indent, whole, off, off + len);
                        let after = rest.subrange(n, rest.len() as int);
                        match checkbox_of(after) {
                            Some((ticked, box_len)) => {
                                lemma_span_of(
                                    off + indent + n,
                                    off + indent + n + box_len,
                                    crate::types::Style::Task(ticked),
                                    off,
                                    off + indent + n + box_len,
                                );
                            },
                            None => {},
                        }
                    },
                    None => {},
                }
            }
        },
    }
}

/// A normal line reports only within itself, its markers in order.
proof fn lemma_content_tidy(line: Seq<char>, off: int, list: Seq<u8>)
    requires
        0 <= off,
        off + line.len() <= usize::MAX,
    ensures
        spans_within(content_out(line, off, list).spans, off, off + line.len()),
        markers_tidy(content_out(line, off, list).markers, off, off + line.len()),
{
    let len = line.len() as int;
    if len > 0 {
        lemma_run_end(line, 0, ' ');
        lemma_prefix_tidy(line, off, list);
        let p = block_prefix(line, off, list);
        let indent = leading_spaces(line);
        let start = if p.content < len {
            p.content
        } else {
            len
        };
        let tail = line.subrange(start, len);
        lemma_inline_tidy(tail, 0, off + start);
        let items = inline_items(tail, 0, off + start);
        let block = match p.style {
            Some(style) => span_of(
                off + if start < len {
                    start
                } else {
                    indent
                },
                off + len,
                style,
            ),
            None => seq![],
        };
        assert(spans_within(block, off, off + len));
        lemma_spans_widen(p.task, off, off + p.content, off, off + len);
        lemma_spans_widen(items.0, off + start, off + len, off, off + len);
        lemma_spans_join(p.task, block, off, off + len);
        lemma_spans_join(p.task + block, items.0, off, off + len);
        lemma_markers_widen(items.1, off + start, off + len, off, off + len);
        assert forall|j: int, k: int| 0 <= j < p.markers.len() && 0 <= k < items.1.len() implies p.markers[j].end
            <= items.1[k].start by {
            assert(p.markers[j].end <= off + p.content);
            assert(items.1[k].reveal.0 <= items.1[k].start);
        }
        lemma_markers_concat(p.markers, items.1, off, off + len);
    }
}

/// A table row reports only within itself.
proof fn lemma_table_row_tidy(line: Seq<char>, off: int, list: Seq<u8>)
    requires
        0 <= off,
        off + line.len() <= usize::MAX,
    ensures
        spans_within(table_row_out(line, off, list).spans, off, off + line.len()),
        markers_tidy(table_row_out(line, off, list).markers, off, off + line.len()),
{
    lemma_inline_tidy(line, 0, off);
    lemma_spans_join(
        span_of(off, off + line.len(), crate::types::Style::TableRow),
        inline_items(line, 0, off).0,
        off,
        off + line.len(),
    );
}

/// Every line reports only within itself, its markers in order.
pub proof fn lemma_line_tidy(
    line: Seq<char>,
    off: int,
    state: crate::types::LineState,
    first: bool,
    next: Option<Seq<char>>,
    list: Seq<u8>,
)
    requires
        0 <= off,
        off + line.len() <= usize::MAX,
    ensures
        spans_within(line_out(line, off, state, first, next, list).spans, off, off + line.len()),
        markers_tidy(line_out(line, off, state, first, next, list).markers, off, off + line.len()),
{
    reveal(line_out);
    lemma_content_tidy(line, off, list);
    lemma_table_row_tidy(line, off, list);
    let whole = (off, off + line.len());
    lemma_marker_of(off, off + line.len(), whole, off, off + line.len());
}

/// The lines of a note from `from` on report only within `from..`, their
/// markers in order.
pub proof fn lemma_scan_tidy(
    text: Seq<char>,
    from: int,
    state: crate::types::LineState,
    first: bool,
    list: Seq<u8>,
)
    requires
        0 <= from,
        text.len() <= usize::MAX,
    ensures
        spans_within(scan_from(text, from, state, first, list).spans, from, text.len() as int),
        markers_tidy(scan_from(text, from, state, first, list).markers, from, text.len() as int),
    decreases text.len() + 1 - from,
{
    if from <= text.len() {
        let end = line_end(text, from);
        lemma_find_from(text, from, seq!['\n']);
        assert(from <= end <= text.len());
        let out = line_out(text.subrange(from, end), from, state, first, crate::note::line_after(text, end), list);
        lemma_line_tidy(text.subrange(from, end), from, state, first, crate::note::line_after(text, end), list);
        if end < text.len() {
            lemma_scan_tidy(text, end + 1, out.state, false, out.list);
            let rest = scan_from(text, end + 1, out.state, false, out.list);
            lemma_spans_widen(out.spans, from, end, from, text.len() as int);
            lemma_spans_widen(rest.spans, end + 1, text.len() as int, from, text.len() as int);
            lemma_spans_join(out.spans, rest.spans, from, text.len() as int);
            lemma_markers_widen(rest.markers, end + 1, text.len() as int, end, text.len() as int);
            lemma_markers_join(out.markers, rest.markers, from, end, text.len() as int);
        } else {
            assert(out.spans + seq![] =~= out.spans);
            assert(out.markers + seq![] =~= out.markers);
        }
    }
}

/// Every span a note's scan reports is non-empty and lies within the note;
/// every marker too, inside the construct that reveals it, which also lies
/// within the note; and no two markers overlap: each ends before the next
/// begins.
pub proof fn law_scan_stays_within_the_note(text: Seq<char>)
    requires
        text.len() <= usize::MAX,
    ensures
        spans_within(scan_note(text).spans, 0, text.len() as int),
        markers_tidy(scan_note(text).markers, 0, text.len() as int),
{
    lemma_scan_tidy(
        text,
        0,
        if crate::note::opens_frontmatter(text) {
            crate::types::LineState::Frontmatter
        } else {
            crate::types::LineState::Normal
        },
        true,
        seq![],
    );
}

/// What extraction needs of a scan holds of every note short enough that a
/// link's end past its closing brackets still fits.
pub proof fn lemma_scan_readable(text: Seq<char>)
    requires
        text.len() + 2 <= usize::MAX,
    ensures
        crate::links::readable(text, scan_note(text).spans, scan_note(text).markers),
{
    law_scan_stays_within_the_note(text);
    let scan = scan_note(text);
    assert forall|k: int| 0 <= k < scan.markers.len() implies #[trigger] scan.markers[k].start <= scan.markers[k].end by {
        assert(scan.markers[k].reveal.0 <= scan.markers[k].start);
    }
    assert forall|k: int| 0 <= k < scan.spans.len() implies crate::links::span_readable(
        text,
        scan.markers,
        #[trigger] scan.spans[k],
    ) by {
        crate::links::lemma_opener_before(scan.markers, scan.markers.len() as int, scan.spans[k].start as int);
    }
}


/// A run of a character ends within the line.
pub proof fn lemma_run_end_bounds(line: Seq<char>, from: int, c: char)
    requires
        0 <= from <= line.len(),
    ensures
        from <= run_end(line, from, c) <= line.len(),
{
    lemma_run_end(line, from, c);
}

/// A run of digits ends within the line.
pub proof fn lemma_digits_end_bounds(line: Seq<char>, from: int)
    requires
        0 <= from <= line.len(),
    ensures
        from <= digits_end(line, from) <= line.len(),
{
    lemma_digits_end(line, from);
}


/// A style that carries no level: anything but a heading or a list item.
pub open spec fn level_free(style: crate::types::Style) -> bool {
    !(style is Heading) && !(style is ListItem)
}

/// Every span's style carries no level.
pub open spec fn all_level_free(spans: Seq<Span>) -> bool {
    forall|k: int| 0 <= k < spans.len() ==> level_free(#[trigger] spans[k].style)
}

/// Every heading is level 1 to 6, and every list item nests no deeper than
/// the styled maximum.
pub open spec fn levels_in_range(spans: Seq<Span>) -> bool {
    forall|k: int|
        0 <= k < spans.len() ==> match #[trigger] spans[k].style {
            crate::types::Style::Heading(level) => 1 <= level <= 6,
            crate::types::Style::ListItem(depth) => depth <= crate::types::MAX_LIST_DEPTH,
            _ => true,
        }
}

proof fn lemma_level_free_join(a: Seq<Span>, b: Seq<Span>)
    requires
        all_level_free(a),
        all_level_free(b),
    ensures
        all_level_free(a + b),
{
    assert forall|k: int| 0 <= k < (a + b).len() implies level_free(#[trigger] (a + b)[k].style) by {
        if k < a.len() {
            assert((a + b)[k] == a[k]);
        } else {
            assert((a + b)[k] == b[k - a.len()]);
        }
    }
}

proof fn lemma_levels_join(a: Seq<Span>, b: Seq<Span>)
    requires
        levels_in_range(a),
        levels_in_range(b),
    ensures
        levels_in_range(a + b),
{
    assert forall|k: int| 0 <= k < (a + b).len() implies match #[trigger] (a + b)[k].style {
        crate::types::Style::Heading(level) => 1 <= level <= 6,
        crate::types::Style::ListItem(depth) => depth <= crate::types::MAX_LIST_DEPTH,
        _ => true,
    } by {
        if k < a.len() {
            assert((a + b)[k] == a[k]);
        } else {
            assert((a + b)[k] == b[k - a.len()]);
        }
    }
}

/// A step's spans, if any, carry no level.
pub open spec fn step_level_free(step: Option<Step>) -> bool {
    step matches Some(s) ==> all_level_free(s.spans)
}

proof fn lemma_step_level_free(line: Seq<char>, i: int, off: int)
    ensures
        step_level_free(inline_step(line, i, off)),
{
    reveal(inline_step);
    assert(step_level_free(code_step(line, i, off)));
    assert(step_level_free(embed_step(line, i, off)));
    assert(step_level_free(wikilink_step(line, i, off)));
    assert(step_level_free(link_step(line, i, off)));
    assert(step_level_free(url_step(line, i, off)));
    assert(step_level_free(tag_step(line, i, off)));
    if let Some(s) = both_step(line, i, off) {
        let close = s.next - 3;
        lemma_level_free_join(
            span_of(off + i + 3, off + close, crate::types::Style::Bold),
            span_of(off + i + 3, off + close, crate::types::Style::Italic),
        );
    }
    assert(step_level_free(both_step(line, i, off)));
    assert(step_level_free(delimited_step(line, i, off, seq!['*', '*'], crate::types::Style::Bold)));
    assert(step_level_free(delimited_step(line, i, off, seq!['_', '_'], crate::types::Style::Bold)));
    assert(step_level_free(delimited_step(line, i, off, seq!['~', '~'], crate::types::Style::Strikethrough)));
    assert(step_level_free(delimited_step(line, i, off, seq!['*'], crate::types::Style::Italic)));
    assert(step_level_free(delimited_step(line, i, off, seq!['_'], crate::types::Style::Italic)));
    assert(step_level_free(emphasis_step(line, i, off)));
}

proof fn lemma_inline_level_free(line: Seq<char>, i: int, off: int)
    ensures
        all_level_free(inline_items(line, i, off).0),
    decreases line.len() - i,
{
    if 0 <= i < line.len() {
        lemma_step_level_free(line, i, off);
        match inline_step(line, i, off) {
            Some(s) => {
                if i < s.next <= line.len() {
                    lemma_inline_level_free(line, s.next, off);
                    lemma_level_free_join(s.spans, inline_items(line, s.next, off).0);
                } else {
                    lemma_inline_level_free(line, i + 1, off);
                }
            },
            None => {
                lemma_inline_level_free(line, i + 1, off);
            },
        }
    }
}

proof fn lemma_free_in_range(spans: Seq<Span>)
    requires
        all_level_free(spans),
    ensures
        levels_in_range(spans),
{
    assert forall|k: int| 0 <= k < spans.len() implies match #[trigger] spans[k].style {
        crate::types::Style::Heading(level) => 1 <= level <= 6,
        crate::types::Style::ListItem(depth) => depth <= crate::types::MAX_LIST_DEPTH,
        _ => true,
    } by {
        assert(level_free(spans[k].style));
    }
}

proof fn lemma_line_levels(
    line: Seq<char>,
    off: int,
    state: crate::types::LineState,
    first: bool,
    next: Option<Seq<char>>,
    list: Seq<u8>,
)
    ensures
        levels_in_range(line_out(line, off, state, first, next, list).spans),
{
    reveal(line_out);
    lemma_inline_level_free(line, 0, off);
    lemma_free_in_range(inline_items(line, 0, off).0);
    lemma_levels_join(span_of(off, off + line.len(), crate::types::Style::TableRow), inline_items(line, 0, off).0);
    if line.len() > 0 {
        let p = block_prefix(line, off, list);
        lemma_run_end(line, 0, ' ');
        let indent = leading_spaces(line);
        let rest = line.subrange(indent, line.len() as int);
        lemma_run_end(rest, 0, '#');
        let len = line.len() as int;
        let start = if p.content < len {
            p.content
        } else {
            len
        };
        let tail = line.subrange(start, len);
        lemma_inline_level_free(tail, 0, off + start);
        lemma_free_in_range(inline_items(tail, 0, off + start).0);
        let block = match p.style {
            Some(style) => span_of(
                off + if start < len {
                    start
                } else {
                    indent
                },
                off + len,
                style,
            ),
            None => seq![],
        };
        assert(levels_in_range(p.task));
        assert(levels_in_range(block));
        lemma_levels_join(p.task, block);
        lemma_levels_join(p.task + block, inline_items(tail, 0, off + start).0);
    }
}

proof fn lemma_scan_levels(
    text: Seq<char>,
    from: int,
    state: crate::types::LineState,
    first: bool,
    list: Seq<u8>,
)
    ensures
        levels_in_range(scan_from(text, from, state, first, list).spans),
    decreases text.len() + 1 - from,
{
    if 0 <= from <= text.len() {
        let end = line_end(text, from);
        let line = text.subrange(from, end);
        let out = line_out(line, from, state, first, crate::note::line_after(text, end), list);
        lemma_line_levels(line, from, state, first, crate::note::line_after(text, end), list);
        if from <= end < text.len() {
            lemma_scan_levels(text, end + 1, out.state, false, out.list);
            lemma_levels_join(out.spans, scan_from(text, end + 1, out.state, false, out.list).spans);
        } else {
            assert(out.spans + seq![] =~= out.spans);
        }
    }
}

/// Every heading a scan reports is level 1 to 6, and every list item nests at
/// most `MAX_LIST_DEPTH` deep: past a handful of levels the styling stops
/// deepening, however deep the note's indents go.
pub proof fn law_levels_stay_in_range(text: Seq<char>)
    ensures
        levels_in_range(scan_note(text).spans),
{
    lemma_scan_levels(
        text,
        0,
        if crate::note::opens_frontmatter(text) {
            crate::types::LineState::Frontmatter
        } else {
            crate::types::LineState::Normal
        },
        true,
        seq![],
    );
}

/// No span and no marker covers a line break.
pub open spec fn clear_of_breaks(text: Seq<char>, spans: Seq<Span>, markers: Seq<Marker>) -> bool {
    &&& forall|k: int, j: int|
        #![trigger spans[k], text[j]]
        0 <= k < spans.len() && spans[k].start <= j < spans[k].end ==> text[j] != '\n'
    &&& forall|k: int, j: int|
        #![trigger markers[k], text[j]]
        0 <= k < markers.len() && markers[k].start <= j < markers[k].end ==> text[j] != '\n'
}

proof fn lemma_scan_clear_of_breaks(
    text: Seq<char>,
    from: int,
    state: crate::types::LineState,
    first: bool,
    list: Seq<u8>,
)
    requires
        0 <= from,
        text.len() <= usize::MAX,
    ensures
        clear_of_breaks(
            text,
            scan_from(text, from, state, first, list).spans,
            scan_from(text, from, state, first, list).markers,
        ),
    decreases text.len() + 1 - from,
{
    if from <= text.len() {
        crate::settle::lemma_line_chars(text, from);
        let end = line_end(text, from);
        let line = text.subrange(from, end);
        let out = line_out(line, from, state, first, crate::note::line_after(text, end), list);
        lemma_line_tidy(line, from, state, first, crate::note::line_after(text, end), list);
        let scan = scan_from(text, from, state, first, list);
        let rest = if end < text.len() {
            scan_from(text, end + 1, out.state, false, out.list)
        } else {
            crate::note::Scan { spans: seq![], markers: seq![], states: seq![], lists: seq![] }
        };
        if end < text.len() {
            lemma_scan_clear_of_breaks(text, end + 1, out.state, false, out.list);
        }
        assert(scan.spans == out.spans + rest.spans);
        assert(scan.markers == out.markers + rest.markers);
        assert forall|k: int, j: int|
            #![trigger scan.spans[k], text[j]]
            0 <= k < scan.spans.len() && scan.spans[k].start <= j < scan.spans[k].end implies text[j] != '\n' by {
            if k < out.spans.len() {
                assert(scan.spans[k] == out.spans[k]);
            } else {
                assert(scan.spans[k] == rest.spans[k - out.spans.len()]);
            }
        }
        assert forall|k: int, j: int|
            #![trigger scan.markers[k], text[j]]
            0 <= k < scan.markers.len() && scan.markers[k].start <= j < scan.markers[k].end implies text[j] != '\n' by {
            if k < out.markers.len() {
                assert(scan.markers[k] == out.markers[k]);
                assert(out.markers[k].reveal.0 <= out.markers[k].start);
            } else {
                assert(scan.markers[k] == rest.markers[k - out.markers.len()]);
            }
        }
    }
}

/// Styling never crosses a line break: no span and no marker a note's scan
/// reports covers a newline.
pub proof fn law_styling_never_crosses_a_line_break(text: Seq<char>)
    requires
        text.len() <= usize::MAX,
    ensures
        clear_of_breaks(text, scan_note(text).spans, scan_note(text).markers),
{
    lemma_scan_clear_of_breaks(
        text,
        0,
        if crate::note::opens_frontmatter(text) {
            crate::types::LineState::Frontmatter
        } else {
            crate::types::LineState::Normal
        },
        true,
        seq![],
    );
}

} // verus!
