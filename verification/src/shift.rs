//! Scanning is offset-independent: a line scanned `d` characters further
//! into a note reports the same spans and markers, each `d` further on, and
//! hands the next line the same state and list nesting.
use vstd::prelude::*;
use crate::types::{Style, Span, Marker, LineState, span_of, marker_of};
use crate::text::{find_from, lemma_find_from, matches_at, leading_spaces};
use crate::inline::{
    Step, inline_step, inline_items, code_step, embed_step, wikilink_step, link_step, url_step,
    tag_step, both_step, delimited_step, emphasis_step, display_start,
};
use crate::block::{
    LineOut, line_out, normal_out, content_out, table_row_out, block_prefix, heading_of, item_of,
    checkbox_of,
};
use crate::note::line_scan;
use crate::laws::{
    step_tidy, lemma_code_tidy, lemma_embed_tidy, lemma_wikilink_tidy, lemma_link_tidy,
    lemma_url_tidy, lemma_tag_tidy, lemma_both_tidy, lemma_delimited_tidy, lemma_step_tidy,
    lemma_inline_tidy, lemma_prefix_tidy,
};

verus! {

/// `span`, `d` characters further on.
pub open spec fn shifted_span(span: Span, d: int) -> Span {
    Span { start: (span.start + d) as usize, end: (span.end + d) as usize, style: span.style }
}

/// Every span, `d` characters further on.
pub open spec fn shifted_spans(spans: Seq<Span>, d: int) -> Seq<Span> {
    spans.map_values(|span: Span| shifted_span(span, d))
}

/// `marker` and the construct that reveals it, `d` characters further on.
pub open spec fn shifted_marker(marker: Marker, d: int) -> Marker {
    Marker {
        start: (marker.start + d) as usize,
        end: (marker.end + d) as usize,
        reveal: ((marker.reveal.0 + d) as usize, (marker.reveal.1 + d) as usize),
    }
}

/// Every marker, `d` characters further on.
pub open spec fn shifted_markers(markers: Seq<Marker>, d: int) -> Seq<Marker> {
    markers.map_values(|marker: Marker| shifted_marker(marker, d))
}

proof fn lemma_spans_concat(a: Seq<Span>, b: Seq<Span>, d: int)
    ensures
        shifted_spans(a + b, d) == shifted_spans(a, d) + shifted_spans(b, d),
{
    assert(shifted_spans(a + b, d) =~= shifted_spans(a, d) + shifted_spans(b, d));
}

proof fn lemma_markers_concat(a: Seq<Marker>, b: Seq<Marker>, d: int)
    ensures
        shifted_markers(a + b, d) == shifted_markers(a, d) + shifted_markers(b, d),
{
    assert(shifted_markers(a + b, d) =~= shifted_markers(a, d) + shifted_markers(b, d));
}

proof fn lemma_span_of(a: int, b: int, style: Style, d: int)
    requires
        0 <= a,
        0 <= d,
        b + d <= usize::MAX,
    ensures
        span_of(a + d, b + d, style) == shifted_spans(span_of(a, b, style), d),
{
    assert(span_of(a + d, b + d, style) =~= shifted_spans(span_of(a, b, style), d));
}

proof fn lemma_marker_of(a: int, b: int, reveal: (int, int), d: int)
    requires
        0 <= a,
        0 <= reveal.0 <= reveal.1,
        0 <= d,
        b + d <= usize::MAX,
        reveal.1 + d <= usize::MAX,
    ensures
        marker_of(a + d, b + d, (reveal.0 + d, reveal.1 + d)) == shifted_markers(marker_of(a, b, reveal), d),
{
    assert(marker_of(a + d, b + d, (reveal.0 + d, reveal.1 + d)) =~= shifted_markers(
        marker_of(a, b, reveal),
        d,
    ));
}

/// The same step, or none, found `d` characters further on.
pub open spec fn step_shifted(at: Option<Step>, later: Option<Step>, d: int) -> bool {
    match (at, later) {
        (Some(s), Some(t)) => {
            &&& t.next == s.next
            &&& t.spans == shifted_spans(s.spans, d)
            &&& t.markers == shifted_markers(s.markers, d)
        },
        (None, None) => true,
        _ => false,
    }
}

proof fn lemma_code_shift(line: Seq<char>, i: int, off: int, d: int)
    requires
        0 <= off,
        0 <= d,
        off + d + line.len() <= usize::MAX,
    ensures
        step_shifted(code_step(line, i, off), code_step(line, i, off + d), d),
{
    if 0 <= i < line.len() && line[i] == '`' {
        lemma_find_from(line, i + 1, seq!['`']);
        if let Some(close) = find_from(line, i + 1, seq!['`']) {
            let reveal = (off + i, off + close + 1);
            lemma_marker_of(off + i, off + i + 1, reveal, d);
            lemma_marker_of(off + close, off + close + 1, reveal, d);
            lemma_markers_concat(marker_of(off + i, off + i + 1, reveal), marker_of(off + close, off + close + 1, reveal), d);
            lemma_span_of(off + i + 1, off + close, Style::Code, d);
        }
    }
}

proof fn lemma_embed_shift(line: Seq<char>, i: int, off: int, d: int)
    requires
        0 <= off,
        0 <= d,
        off + d + line.len() <= usize::MAX,
    ensures
        step_shifted(embed_step(line, i, off), embed_step(line, i, off + d), d),
{
    if 0 <= i < line.len() && matches_at(line, i, seq!['!', '[', '[']) {
        lemma_find_from(line, i + 3, seq![']', ']']);
        if let Some(close) = find_from(line, i + 3, seq![']', ']']) {
            if close != i + 3 {
                let reveal = (off + i, off + close + 2);
                let m0 = marker_of(off + i, off + i + 3, reveal);
                let m1 = marker_of(off + i + 3, off + close, reveal);
                let m2 = marker_of(off + close, off + close + 2, reveal);
                lemma_marker_of(off + i, off + i + 3, reveal, d);
                lemma_marker_of(off + i + 3, off + close, reveal, d);
                lemma_marker_of(off + close, off + close + 2, reveal, d);
                lemma_markers_concat(m0, m1, d);
                lemma_markers_concat(m0 + m1, m2, d);
                lemma_span_of(off + i + 3, off + close, Style::Embed, d);
            }
        }
    }
}

proof fn lemma_wikilink_shift(line: Seq<char>, i: int, off: int, d: int)
    requires
        0 <= off,
        0 <= d,
        off + d + line.len() <= usize::MAX,
    ensures
        step_shifted(wikilink_step(line, i, off), wikilink_step(line, i, off + d), d),
{
    if 0 <= i < line.len() && matches_at(line, i, seq!['[', '[']) {
        lemma_find_from(line, i + 2, seq![']', ']']);
        if let Some(close) = find_from(line, i + 2, seq![']', ']']) {
            lemma_find_from(line.subrange(0, close), i + 2, seq!['|']);
            let shown = display_start(line, i, close);
            if close != i + 2 && shown < close {
                let reveal = (off + i, off + close + 2);
                lemma_marker_of(off + i, off + shown, reveal, d);
                lemma_marker_of(off + close, off + close + 2, reveal, d);
                lemma_markers_concat(marker_of(off + i, off + shown, reveal), marker_of(off + close, off + close + 2, reveal), d);
                lemma_span_of(off + shown, off + close, Style::WikiLink, d);
            }
        }
    }
}

proof fn lemma_link_shift(line: Seq<char>, i: int, off: int, d: int)
    requires
        0 <= off,
        0 <= d,
        off + d + line.len() <= usize::MAX,
    ensures
        step_shifted(link_step(line, i, off), link_step(line, i, off + d), d),
{
    let len = line.len() as int;
    if 0 <= i < len && line[i] == '[' {
        lemma_find_from(line, i + 1, seq![']']);
        if let Some(label_end) = find_from(line, i + 1, seq![']']) {
            if !(label_end == i + 1 || !(label_end + 1 < len && line[label_end + 1] == '(')) {
                lemma_find_from(line, label_end + 2, seq![')']);
                if let Some(close) = find_from(line, label_end + 2, seq![')']) {
                    let reveal = (off + i, off + close + 1);
                    lemma_marker_of(off + i, off + i + 1, reveal, d);
                    lemma_marker_of(off + label_end, off + close + 1, reveal, d);
                    lemma_markers_concat(marker_of(off + i, off + i + 1, reveal), marker_of(off + label_end, off + close + 1, reveal), d);
                    lemma_span_of(off + i + 1, off + label_end, Style::Link, d);
                }
            }
        }
    }
}

proof fn lemma_url_shift(line: Seq<char>, i: int, off: int, d: int)
    requires
        0 <= off,
        0 <= d,
        off + d + line.len() <= usize::MAX,
    ensures
        step_shifted(url_step(line, i, off), url_step(line, i, off + d), d),
{
    lemma_url_tidy(line, i, off);
    if let Some(s) = url_step(line, i, off) {
        lemma_span_of(off + i, off + s.next, Style::Link, d);
        assert(shifted_markers(Seq::<Marker>::empty(), d) =~= Seq::<Marker>::empty());
    }
}

proof fn lemma_tag_shift(line: Seq<char>, i: int, off: int, d: int)
    requires
        0 <= off,
        0 <= d,
        off + d + line.len() <= usize::MAX,
    ensures
        step_shifted(tag_step(line, i, off), tag_step(line, i, off + d), d),
{
    lemma_tag_tidy(line, i, off);
    if let Some(s) = tag_step(line, i, off) {
        lemma_span_of(off + i, off + s.next, Style::Tag, d);
        assert(shifted_markers(Seq::<Marker>::empty(), d) =~= Seq::<Marker>::empty());
    }
}

proof fn lemma_both_shift(line: Seq<char>, i: int, off: int, d: int)
    requires
        0 <= off,
        0 <= d,
        off + d + line.len() <= usize::MAX,
    ensures
        step_shifted(both_step(line, i, off), both_step(line, i, off + d), d),
{
    let len = line.len() as int;
    if 0 <= i < len && (line[i] == '*' || line[i] == '_') {
        let run = seq![line[i], line[i], line[i]];
        if matches_at(line, i, run) {
            lemma_find_from(line, i + 3, run);
            if let Some(close) = find_from(line, i + 3, run) {
                let reveal = (off + i, off + close + 3);
                lemma_marker_of(off + i, off + i + 3, reveal, d);
                lemma_marker_of(off + close, off + close + 3, reveal, d);
                lemma_markers_concat(marker_of(off + i, off + i + 3, reveal), marker_of(off + close, off + close + 3, reveal), d);
                lemma_span_of(off + i + 3, off + close, Style::Bold, d);
                lemma_span_of(off + i + 3, off + close, Style::Italic, d);
                lemma_spans_concat(span_of(off + i + 3, off + close, Style::Bold), span_of(off + i + 3, off + close, Style::Italic), d);
            }
        }
    }
}

proof fn lemma_delimited_shift(line: Seq<char>, i: int, off: int, d: int, delimiter: Seq<char>, style: Style)
    requires
        0 <= off,
        0 <= d,
        off + d + line.len() <= usize::MAX,
        delimiter.len() > 0,
    ensures
        step_shifted(delimited_step(line, i, off, delimiter, style), delimited_step(line, i, off + d, delimiter, style), d),
{
    if 0 <= i < line.len() && matches_at(line, i, delimiter) {
        let content = i + delimiter.len();
        lemma_find_from(line, content, delimiter);
        if let Some(close) = find_from(line, content, delimiter) {
            let reveal = (off + i, off + close + delimiter.len());
            lemma_marker_of(off + i, off + content, reveal, d);
            lemma_marker_of(off + close, off + close + delimiter.len(), reveal, d);
            lemma_markers_concat(marker_of(off + i, off + content, reveal), marker_of(off + close, off + close + delimiter.len(), reveal), d);
            lemma_span_of(off + content, off + close, style, d);
        }
    }
}

proof fn lemma_step_shift(line: Seq<char>, i: int, off: int, d: int)
    requires
        0 <= off,
        0 <= d,
        off + d + line.len() <= usize::MAX,
    ensures
        step_shifted(inline_step(line, i, off), inline_step(line, i, off + d), d),
{
    reveal(inline_step);
    lemma_code_shift(line, i, off, d);
    lemma_embed_shift(line, i, off, d);
    lemma_wikilink_shift(line, i, off, d);
    lemma_link_shift(line, i, off, d);
    lemma_url_shift(line, i, off, d);
    lemma_tag_shift(line, i, off, d);
    lemma_both_shift(line, i, off, d);
    lemma_delimited_shift(line, i, off, d, seq!['*', '*'], Style::Bold);
    lemma_delimited_shift(line, i, off, d, seq!['_', '_'], Style::Bold);
    lemma_delimited_shift(line, i, off, d, seq!['~', '~'], Style::Strikethrough);
    lemma_delimited_shift(line, i, off, d, seq!['*'], Style::Italic);
    lemma_delimited_shift(line, i, off, d, seq!['_'], Style::Italic);
}

/// The inline items from `i` on, found `d` characters further on.
proof fn lemma_inline_shift(line: Seq<char>, i: int, off: int, d: int)
    requires
        0 <= i,
        0 <= off,
        0 <= d,
        off + d + line.len() <= usize::MAX,
    ensures
        inline_items(line, i, off + d).0 == shifted_spans(inline_items(line, i, off).0, d),
        inline_items(line, i, off + d).1 == shifted_markers(inline_items(line, i, off).1, d),
    decreases line.len() - i,
{
    if i < line.len() {
        lemma_step_shift(line, i, off, d);
        match inline_step(line, i, off) {
            Some(s) => {
                if i < s.next <= line.len() {
                    lemma_inline_shift(line, s.next, off, d);
                    let rest = inline_items(line, s.next, off);
                    lemma_spans_concat(s.spans, rest.0, d);
                    lemma_markers_concat(s.markers, rest.1, d);
                } else {
                    lemma_inline_shift(line, i + 1, off, d);
                }
            },
            None => {
                lemma_inline_shift(line, i + 1, off, d);
            },
        }
    } else {
        assert(shifted_spans(Seq::<Span>::empty(), d) =~= Seq::<Span>::empty());
        assert(shifted_markers(Seq::<Marker>::empty(), d) =~= Seq::<Marker>::empty());
    }
}

/// A block prefix found `d` characters further on.
proof fn lemma_prefix_shift(line: Seq<char>, off: int, d: int, list: Seq<u8>)
    requires
        line.len() > 0,
        0 <= off,
        0 <= d,
        off + d + line.len() <= usize::MAX,
    ensures
        block_prefix(line, off + d, list).markers == shifted_markers(block_prefix(line, off, list).markers, d),
        block_prefix(line, off + d, list).task == shifted_spans(block_prefix(line, off, list).task, d),
        block_prefix(line, off + d, list).style == block_prefix(line, off, list).style,
        block_prefix(line, off + d, list).content == block_prefix(line, off, list).content,
        block_prefix(line, off + d, list).list == block_prefix(line, off, list).list,
{
    let len = line.len() as int;
    let whole = (off, off + len);
    lemma_prefix_tidy(line, off, list);
    crate::laws::lemma_run_end_bounds(line, 0, ' ');
    let indent = leading_spaces(line);
    let rest = line.subrange(indent, len);
    crate::laws::lemma_item_of(rest);
    let p = block_prefix(line, off, list);
    assert(shifted_spans(Seq::<Span>::empty(), d) =~= Seq::<Span>::empty());
    assert(shifted_markers(Seq::<Marker>::empty(), d) =~= Seq::<Marker>::empty());
    match heading_of(rest) {
        Some(level) => {
            lemma_marker_of(off + indent, off + indent + level + 1, whole, d);
        },
        None => {
            if rest.len() > 0 && rest[0] == '>' {
                let n: int = if rest.len() > 1 && rest[1] == ' ' {
                    2
                } else {
                    1
                };
                lemma_marker_of(off + indent, off + indent + n, whole, d);
            } else {
                match item_of(rest) {
                    Some(n) => {
                        lemma_marker_of(off, off + indent, whole, d);
                        match checkbox_of(rest.subrange(n, rest.len() as int)) {
                            Some((ticked, box_len)) => {
                                lemma_span_of(off + indent + n, off + indent + n + box_len, Style::Task(ticked), d);
                            },
                            None => {},
                        }
                    },
                    None => {},
                }
            }
        },
    }
}

/// What a line reports, scanned `d` characters further on.
pub open spec fn out_shifted(at: LineOut, later: LineOut, d: int) -> bool {
    &&& later.spans == shifted_spans(at.spans, d)
    &&& later.markers == shifted_markers(at.markers, d)
    &&& later.state == at.state
    &&& later.list == at.list
}

proof fn lemma_content_shift(line: Seq<char>, off: int, d: int, list: Seq<u8>)
    requires
        0 <= off,
        0 <= d,
        off + d + line.len() <= usize::MAX,
    ensures
        out_shifted(content_out(line, off, list), content_out(line, off + d, list), d),
{
    let len = line.len() as int;
    if len > 0 {
        lemma_prefix_tidy(line, off, list);
        lemma_prefix_shift(line, off, d, list);
        crate::laws::lemma_run_end_bounds(line, 0, ' ');
        let p = block_prefix(line, off, list);
        let indent = leading_spaces(line);
        let start = if p.content < len {
            p.content
        } else {
            len
        };
        let tail = line.subrange(start, len);
        lemma_inline_shift(tail, 0, off + start, d);
        let items = inline_items(tail, 0, off + start);
        let from = if start < len {
            start
        } else {
            indent
        };
        match p.style {
            Some(style) => {
                lemma_span_of(off + from, off + len, style, d);
            },
            None => {},
        }
        let block = match p.style {
            Some(style) => span_of(off + from, off + len, style),
            None => seq![],
        };
        assert(shifted_spans(Seq::<Span>::empty(), d) =~= Seq::<Span>::empty());
        lemma_spans_concat(p.task, block, d);
        lemma_spans_concat(p.task + block, items.0, d);
        lemma_markers_concat(p.markers, items.1, d);
        assert(content_out(line, off + d, list).spans == shifted_spans(p.task, d) + shifted_spans(block, d)
            + shifted_spans(items.0, d));
    } else {
        assert(shifted_spans(Seq::<Span>::empty(), d) =~= Seq::<Span>::empty());
        assert(shifted_markers(Seq::<Marker>::empty(), d) =~= Seq::<Marker>::empty());
    }
}

proof fn lemma_table_row_shift(line: Seq<char>, off: int, d: int, list: Seq<u8>)
    requires
        0 <= off,
        0 <= d,
        off + d + line.len() <= usize::MAX,
    ensures
        out_shifted(table_row_out(line, off, list), table_row_out(line, off + d, list), d),
{
    lemma_inline_shift(line, 0, off, d);
    lemma_span_of(off, off + line.len(), Style::TableRow, d);
    lemma_spans_concat(span_of(off, off + line.len(), Style::TableRow), inline_items(line, 0, off).0, d);
}

proof fn lemma_line_shift(
    line: Seq<char>,
    off: int,
    d: int,
    state: LineState,
    first: bool,
    next: Option<Seq<char>>,
    list: Seq<u8>,
)
    requires
        0 <= off,
        0 <= d,
        off + d + line.len() <= usize::MAX,
    ensures
        out_shifted(line_out(line, off, state, first, next, list), line_out(line, off + d, state, first, next, list), d),
{
    reveal(line_out);
    lemma_content_shift(line, off, d, list);
    lemma_table_row_shift(line, off, d, list);
    let len = line.len() as int;
    lemma_span_of(off, off + len, Style::Frontmatter, d);
    lemma_span_of(off, off + len, Style::CodeBlock, d);
    lemma_span_of(off, off + len, Style::TableDelimiter, d);
    lemma_span_of(off, off + len, Style::Rule, d);
    lemma_marker_of(off, off + len, (off, off + len), d);
    assert(shifted_spans(Seq::<Span>::empty(), d) =~= Seq::<Span>::empty());
    assert(shifted_markers(Seq::<Marker>::empty(), d) =~= Seq::<Marker>::empty());
}

/// Scanning a line is offset-independent: re-scanning it `d` characters
/// further into the note reports the same spans and markers, each `d`
/// further on, constructs' reveal ranges included, and hands the next line
/// the same state and list nesting.
pub proof fn law_scanning_is_offset_independent(
    line: Seq<char>,
    offset: int,
    d: int,
    state: LineState,
    list: Seq<u8>,
    next: Option<Seq<char>>,
)
    requires
        0 <= offset,
        0 <= d,
        offset + d + line.len() <= usize::MAX,
    ensures
        line_scan(line, offset + d, state, list, next).spans == shifted_spans(
            line_scan(line, offset, state, list, next).spans,
            d,
        ),
        line_scan(line, offset + d, state, list, next).markers == shifted_markers(
            line_scan(line, offset, state, list, next).markers,
            d,
        ),
        line_scan(line, offset + d, state, list, next).state == line_scan(line, offset, state, list, next).state,
        line_scan(line, offset + d, state, list, next).list == line_scan(line, offset, state, list, next).list,
{
    lemma_line_shift(line, offset, d, state, false, next, list);
}

} // verus!
