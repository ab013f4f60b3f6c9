//! Links and embeds never overlap: each one a scan styles, from the marker
//! that opens it to its closing brackets, ends before the next one begins.
//! What extraction finds inherits that, and so does a rename's list of
//! replacements, which is what lets them be spliced in one pass.
use vstd::prelude::*;
use crate::types::{Style, Span, Marker};
use crate::text::{lemma_find_from, matches_at};
use crate::inline::{
    Step, inline_step, inline_items, code_step, embed_step, wikilink_step, link_step, url_step,
    tag_step, both_step, delimited_step, emphasis_step,
};
use crate::block::{line_out, content_out, table_row_out, block_prefix};
use crate::note::{scan_from, scan_note, line_end, line_after, opens_frontmatter};
use crate::links::{
    opener_of, lemma_opener_before, LinkModel, Found, found_upto, extraction, Replacement,
    edits_upto, rename_edits, insert_by_start, sort_by_start,
};
use crate::laws::{
    spans_within, markers_tidy, lemma_inline_tidy, lemma_step_tidy, lemma_line_tidy,
    lemma_scan_tidy,
};

verus! {

/// A style that stands for a link: a wikilink or an embed.
pub open spec fn is_link(style: Style) -> bool {
    style is WikiLink || style is Embed
}

/// Whether one of the first `count` markers ends at `at`.
pub open spec fn has_opener(markers: Seq<Marker>, count: int, at: int) -> bool
    decreases count,
{
    if count <= 0 {
        false
    } else if count - 1 < markers.len() && markers[count - 1].end == at {
        true
    } else {
        has_opener(markers, count - 1, at)
    }
}

/// Where the construct of `span` begins: the start of the marker that opens
/// it.
pub open spec fn link_start(markers: Seq<Marker>, span: Span) -> int {
    opener_of(markers, markers.len() as int, span.start as int)
}

/// Every link span has a marker that opens it, and the construct, from that
/// marker to the two closing brackets after the span, lies within `lo..hi`;
/// each such construct ends before the next one begins.
pub open spec fn links_apart(spans: Seq<Span>, markers: Seq<Marker>, lo: int, hi: int) -> bool {
    &&& forall|k: int|
        0 <= k < spans.len() && is_link(#[trigger] spans[k].style) ==> {
            &&& has_opener(markers, markers.len() as int, spans[k].start as int)
            &&& lo <= link_start(markers, spans[k])
            &&& spans[k].end + 2 <= hi
        }
    &&& forall|j: int, k: int|
        0 <= j < k < spans.len() && is_link(#[trigger] spans[j].style) && is_link(
            #[trigger] spans[k].style,
        ) ==> spans[j].end + 2 <= link_start(markers, spans[k])
}

/// No span stands for a link.
pub open spec fn no_links(spans: Seq<Span>) -> bool {
    forall|k: int| 0 <= k < spans.len() ==> !is_link(#[trigger] spans[k].style)
}

proof fn lemma_opener_prefix(a: Seq<Marker>, b: Seq<Marker>, count: int, at: int)
    requires
        0 <= count <= a.len(),
    ensures
        opener_of(a + b, count, at) == opener_of(a, count, at),
        has_opener(a + b, count, at) == has_opener(a, count, at),
    decreases count,
{
    if count > 0 {
        assert((a + b)[count - 1] == a[count - 1]);
        lemma_opener_prefix(a, b, count - 1, at);
    }
}

/// Markers after `a`, none of which ends at `at`, leave its opener alone.
proof fn lemma_opener_unmatched(a: Seq<Marker>, b: Seq<Marker>, count: int, at: int)
    requires
        0 <= count <= b.len(),
        forall|m: int| 0 <= m < b.len() ==> #[trigger] b[m].end != at,
    ensures
        opener_of(a + b, a.len() + count, at) == opener_of(a, a.len() as int, at),
        has_opener(a + b, a.len() + count, at) == has_opener(a, a.len() as int, at),
    decreases count,
{
    if count > 0 {
        assert((a + b)[a.len() + count - 1] == b[count - 1]);
        lemma_opener_unmatched(a, b, count - 1, at);
    } else {
        lemma_opener_prefix(a, b, a.len() as int, at);
    }
}

/// A marker after `a` that ends at `at` is the one that opens it.
proof fn lemma_opener_matched(a: Seq<Marker>, b: Seq<Marker>, count: int, at: int)
    requires
        0 <= count <= b.len(),
        has_opener(b, count, at),
    ensures
        opener_of(a + b, a.len() + count, at) == opener_of(b, count, at),
        has_opener(a + b, a.len() + count, at),
    decreases count,
{
    assert((a + b)[a.len() + count - 1] == b[count - 1]);
    if b[count - 1].end != at {
        lemma_opener_matched(a, b, count - 1, at);
    }
}

proof fn lemma_links_widen(spans: Seq<Span>, markers: Seq<Marker>, lo: int, hi: int, lo2: int, hi2: int)
    requires
        links_apart(spans, markers, lo, hi),
        lo2 <= lo,
        hi <= hi2,
    ensures
        links_apart(spans, markers, lo2, hi2),
{
}

/// Two stretches, the second after the first, each with its links apart.
proof fn lemma_links_join(
    sa: Seq<Span>,
    ma: Seq<Marker>,
    sb: Seq<Span>,
    mb: Seq<Marker>,
    lo: int,
    mid: int,
    hi: int,
)
    requires
        links_apart(sa, ma, lo, mid),
        links_apart(sb, mb, mid, hi),
        lo <= mid <= hi,
        spans_within(sa, lo, mid),
        markers_tidy(mb, mid, hi),
    ensures
        links_apart(sa + sb, ma + mb, lo, hi),
{
    let s = sa + sb;
    let m = ma + mb;
    assert forall|k: int| 0 <= k < sa.len() && is_link(#[trigger] sa[k].style) implies link_start(m, sa[k])
        == link_start(ma, sa[k]) && has_opener(m, m.len() as int, sa[k].start as int) by {
        assert forall|n: int| 0 <= n < mb.len() implies #[trigger] mb[n].end != sa[k].start by {
            assert(mb[n].reveal.0 <= mb[n].start);
        }
        lemma_opener_unmatched(ma, mb, mb.len() as int, sa[k].start as int);
    }
    assert forall|k: int| 0 <= k < sb.len() && is_link(#[trigger] sb[k].style) implies link_start(m, sb[k])
        == link_start(mb, sb[k]) && has_opener(m, m.len() as int, sb[k].start as int) by {
        lemma_opener_matched(ma, mb, mb.len() as int, sb[k].start as int);
    }
    assert forall|k: int| 0 <= k < s.len() && is_link(#[trigger] s[k].style) implies {
        &&& has_opener(m, m.len() as int, s[k].start as int)
        &&& lo <= link_start(m, s[k])
        &&& s[k].end + 2 <= hi
    } by {
        if k < sa.len() {
            assert(s[k] == sa[k]);
        } else {
            assert(s[k] == sb[k - sa.len()]);
        }
    }
    assert forall|j: int, k: int|
        0 <= j < k < s.len() && is_link(#[trigger] s[j].style) && is_link(
            #[trigger] s[k].style,
        ) implies s[j].end + 2 <= link_start(m, s[k]) by {
        if k < sa.len() {
            assert(s[j] == sa[j] && s[k] == sa[k]);
        } else if j < sa.len() {
            assert(s[j] == sa[j] && s[k] == sb[k - sa.len()]);
        } else {
            assert(s[j] == sb[j - sa.len()] && s[k] == sb[k - sa.len()]);
        }
    }
}

/// Spans with no link in them, followed by a stretch with its links apart.
proof fn lemma_links_after(sa: Seq<Span>, ma: Seq<Marker>, sb: Seq<Span>, mb: Seq<Marker>, lo: int, hi: int)
    requires
        no_links(sa),
        links_apart(sb, mb, lo, hi),
    ensures
        links_apart(sa + sb, ma + mb, lo, hi),
{
    let s = sa + sb;
    let m = ma + mb;
    assert forall|k: int| 0 <= k < sb.len() && is_link(#[trigger] sb[k].style) implies link_start(m, sb[k])
        == link_start(mb, sb[k]) && has_opener(m, m.len() as int, sb[k].start as int) by {
        lemma_opener_matched(ma, mb, mb.len() as int, sb[k].start as int);
    }
    assert forall|k: int| 0 <= k < s.len() && is_link(#[trigger] s[k].style) implies {
        &&& has_opener(m, m.len() as int, s[k].start as int)
        &&& lo <= link_start(m, s[k])
        &&& s[k].end + 2 <= hi
    } by {
        if k < sa.len() {
            assert(s[k] == sa[k]);
        } else {
            assert(s[k] == sb[k - sa.len()]);
        }
    }
    assert forall|j: int, k: int|
        0 <= j < k < s.len() && is_link(#[trigger] s[j].style) && is_link(
            #[trigger] s[k].style,
        ) implies s[j].end + 2 <= link_start(m, s[k]) by {
        if j < sa.len() {
            assert(s[j] == sa[j]);
        } else {
            assert(s[j] == sb[j - sa.len()] && s[k] == sb[k - sa.len()]);
        }
    }
}

/// A step's links, if it has any, lie apart within what it covers.
pub open spec fn step_links(step: Option<Step>, i: int, off: int) -> bool {
    step matches Some(s) ==> links_apart(s.spans, s.markers, off + i, off + s.next)
}

proof fn lemma_wikilink_links(line: Seq<char>, i: int, off: int)
    requires
        0 <= off,
        off + line.len() <= usize::MAX,
    ensures
        step_links(wikilink_step(line, i, off), i, off),
{
    if let Some(s) = wikilink_step(line, i, off) {
        lemma_find_from(line, i + 2, seq![']', ']']);
        let close = find_from_unwrap(line, i + 2);
        lemma_find_from(line.subrange(0, close), i + 2, seq!['|']);
        let shown = crate::inline::display_start(line, i, close);
        assert(i + 2 <= shown < close);
        assert(s.spans.len() == 1);
        assert(s.markers.len() == 2);
        assert(s.markers[1].end == off + close + 2);
        assert(s.markers[0].end == off + shown);
        assert(has_opener(s.markers, 1, off + shown));
        assert(has_opener(s.markers, 2, off + shown));
        assert(opener_of(s.markers, 1, off + shown) == off + i);
        assert(link_start(s.markers, s.spans[0]) == off + i);
    }
}

proof fn lemma_embed_links(line: Seq<char>, i: int, off: int)
    requires
        0 <= off,
        off + line.len() <= usize::MAX,
    ensures
        step_links(embed_step(line, i, off), i, off),
{
    if let Some(s) = embed_step(line, i, off) {
        lemma_find_from(line, i + 3, seq![']', ']']);
        let close = find_from_unwrap(line, i + 3);
        assert(i + 3 < close);
        let reveal = (off + i, off + close + 2);
        let m0 = crate::types::marker_of(off + i, off + i + 3, reveal);
        let m1 = crate::types::marker_of(off + i + 3, off + close, reveal);
        let m2 = crate::types::marker_of(off + close, off + close + 2, reveal);
        assert(s.markers == m0 + m1 + m2);
        assert((m0 + m1 + m2)[1] == m1[0]);
        assert((m0 + m1 + m2)[2] == m2[0]);
        assert(s.spans.len() == 1);
        assert(s.markers.len() == 3);
        assert(s.markers[0].end == off + i + 3);
        assert(s.markers[1].end == off + close);
        assert(s.markers[2].end == off + close + 2);
        assert(has_opener(s.markers, 1, off + i + 3));
        assert(has_opener(s.markers, 2, off + i + 3));
        assert(has_opener(s.markers, 3, off + i + 3));
        assert(opener_of(s.markers, 1, off + i + 3) == off + i);
        assert(opener_of(s.markers, 2, off + i + 3) == off + i);
        assert(link_start(s.markers, s.spans[0]) == off + i);
    }
}

/// Where the closing brackets after `from` are, when there are some.
spec fn find_from_unwrap(line: Seq<char>, from: int) -> int {
    crate::text::find_from(line, from, seq![']', ']']).unwrap()
}

proof fn lemma_step_links(line: Seq<char>, i: int, off: int)
    requires
        0 <= off,
        off + line.len() <= usize::MAX,
    ensures
        step_links(inline_step(line, i, off), i, off),
{
    reveal(inline_step);
    lemma_wikilink_links(line, i, off);
    lemma_embed_links(line, i, off);
    assert(step_links(code_step(line, i, off), i, off));
    assert(step_links(link_step(line, i, off), i, off));
    assert(step_links(url_step(line, i, off), i, off));
    assert(step_links(tag_step(line, i, off), i, off));
    if let Some(s) = both_step(line, i, off) {
        assert forall|k: int| 0 <= k < s.spans.len() implies !is_link(#[trigger] s.spans[k].style) by {
        }
    }
    assert(step_links(both_step(line, i, off), i, off));
    assert(step_links(emphasis_step(line, i, off), i, off));
}

/// The inline items from `i` keep their links apart within `i..` of the line.
proof fn lemma_inline_links(line: Seq<char>, i: int, off: int)
    requires
        0 <= i,
        0 <= off,
        off + line.len() <= usize::MAX,
    ensures
        links_apart(inline_items(line, i, off).0, inline_items(line, i, off).1, off + i, off + line.len()),
    decreases line.len() - i,
{
    if i < line.len() {
        lemma_step_links(line, i, off);
        lemma_step_tidy(line, i, off);
        match inline_step(line, i, off) {
            Some(s) => {
                if i < s.next <= line.len() {
                    lemma_inline_links(line, s.next, off);
                    lemma_inline_tidy(line, s.next, off);
                    let rest = inline_items(line, s.next, off);
                    lemma_links_join(s.spans, s.markers, rest.0, rest.1, off + i, off + s.next, off + line.len());
                } else {
                    lemma_inline_links(line, i + 1, off);
                }
            },
            None => {
                lemma_inline_links(line, i + 1, off);
            },
        }
    }
}

/// A normal line keeps its links apart within itself.
proof fn lemma_content_links(line: Seq<char>, off: int, list: Seq<u8>)
    requires
        0 <= off,
        off + line.len() <= usize::MAX,
    ensures
        links_apart(content_out(line, off, list).spans, content_out(line, off, list).markers, off, off + line.len()),
{
    let len = line.len() as int;
    if len > 0 {
        crate::laws::lemma_prefix_tidy(line, off, list);
        crate::laws::lemma_run_end_bounds(line, 0, ' ');
        let p = block_prefix(line, off, list);
        let indent = crate::text::leading_spaces(line);
        let start = if p.content < len {
            p.content
        } else {
            len
        };
        let tail = line.subrange(start, len);
        lemma_inline_links(tail, 0, off + start);
        let items = inline_items(tail, 0, off + start);
        let block = match p.style {
            Some(style) => crate::types::span_of(
                off + if start < len {
                    start
                } else {
                    indent
                },
                off + len,
                style,
            ),
            None => seq![],
        };
        assert(no_links(p.task + block)) by {
            assert(no_links(p.task));
            assert(no_links(block));
            assert forall|k: int| 0 <= k < (p.task + block).len() implies !is_link(
                #[trigger] (p.task + block)[k].style,
            ) by {
                if k < p.task.len() {
                    assert((p.task + block)[k] == p.task[k]);
                } else {
                    assert((p.task + block)[k] == block[k - p.task.len()]);
                }
            }
        }
        lemma_links_widen(items.0, items.1, off + start, off + len, off, off + len);
        lemma_links_after(p.task + block, p.markers, items.0, items.1, off, off + len);
    }
}

/// A table row keeps its links apart within itself.
proof fn lemma_table_row_links(line: Seq<char>, off: int, list: Seq<u8>)
    requires
        0 <= off,
        off + line.len() <= usize::MAX,
    ensures
        links_apart(table_row_out(line, off, list).spans, table_row_out(line, off, list).markers, off, off + line.len()),
{
    lemma_inline_links(line, 0, off);
    let items = inline_items(line, 0, off);
    let row = crate::types::span_of(off, off + line.len(), Style::TableRow);
    assert(no_links(row));
    lemma_links_after(row, seq![], items.0, items.1, off, off + line.len());
    assert(Seq::<Marker>::empty() + items.1 =~= items.1);
}

/// Every line keeps its links apart within itself.
proof fn lemma_line_links(
    line: Seq<char>,
    off: int,
    state: crate::types::LineState,
    first: bool,
    next: Option<Seq<char>>,
    list: Seq<u8>,
)
    requires
        0 <= off,
        off + line.len() <= usize::MAX,
    ensures
        links_apart(
            line_out(line, off, state, first, next, list).spans,
            line_out(line, off, state, first, next, list).markers,
            off,
            off + line.len(),
        ),
{
    reveal(line_out);
    lemma_content_links(line, off, list);
    lemma_table_row_links(line, off, list);
}

/// The lines of a note from `from` on keep their links apart within `from..`.
proof fn lemma_scan_links(
    text: Seq<char>,
    from: int,
    state: crate::types::LineState,
    first: bool,
    list: Seq<u8>,
)
    requires
        0 <= from,
        text.len() <= usize::MAX,
    ensures
        links_apart(
            scan_from(text, from, state, first, list).spans,
            scan_from(text, from, state, first, list).markers,
            from,
            text.len() as int,
        ),
    decreases text.len() + 1 - from,
{
    if from <= text.len() {
        let len = text.len() as int;
        let end = line_end(text, from);
        lemma_find_from(text, from, seq!['\n']);
        let line = text.subrange(from, end);
        let out = line_out(line, from, state, first, line_after(text, end), list);
        lemma_line_links(line, from, state, first, line_after(text, end), list);
        lemma_line_tidy(line, from, state, first, line_after(text, end), list);
        if end < len {
            lemma_scan_links(text, end + 1, out.state, false, out.list);
            lemma_scan_tidy(text, end + 1, out.state, false, out.list);
            let rest = scan_from(text, end + 1, out.state, false, out.list);
            lemma_links_widen(rest.spans, rest.markers, end + 1, len, end, len);
            lemma_links_join(out.spans, out.markers, rest.spans, rest.markers, from, end, len);
        } else {
            assert(out.spans + seq![] =~= out.spans);
            assert(out.markers + seq![] =~= out.markers);
            lemma_links_widen(out.spans, out.markers, from, end, from, len);
        }
    }
}

/// Every link and embed a scan styles has a marker opening it, and the whole
/// construct, from that marker to the closing brackets after its text, lies
/// within the note and ends before the next link or embed begins.
pub proof fn law_links_never_overlap(text: Seq<char>)
    requires
        text.len() <= usize::MAX,
    ensures
        links_apart(scan_note(text).spans, scan_note(text).markers, 0, text.len() as int),
{
    lemma_scan_links(
        text,
        0,
        if opens_frontmatter(text) {
            crate::types::LineState::Frontmatter
        } else {
            crate::types::LineState::Normal
        },
        true,
        seq![],
    );
}

/// Each link covers something and ends before the next one begins.
pub open spec fn in_order(links: Seq<LinkModel>) -> bool {
    &&& forall|k: int| 0 <= k < links.len() ==> #[trigger] links[k].start < links[k].end
    &&& forall|j: int, k: int|
        0 <= j < k < links.len() ==> #[trigger] links[j].end <= #[trigger] links[k].start
}

/// No link of `a` overlaps one of `b`.
pub open spec fn apart_from(a: Seq<LinkModel>, b: Seq<LinkModel>) -> bool {
    forall|j: int, k: int|
        #![trigger a[j], b[k]]
        0 <= j < a.len() && 0 <= k < b.len() ==> a[j].end <= b[k].start || b[k].end <= a[j].start
}

/// Each of `found` ends before any link span from the `count`th on begins.
spec fn ends_before(found: Seq<LinkModel>, spans: Seq<Span>, markers: Seq<Marker>, count: int) -> bool {
    forall|j: int, k: int|
        #![trigger found[j], spans[k]]
        0 <= j < found.len() && count <= k < spans.len() && is_link(spans[k].style) ==> found[j].end
            <= link_start(markers, spans[k])
}

/// What the first `count` spans yield keeps its links and embeds apart.
proof fn lemma_found_apart(text: Seq<char>, spans: Seq<Span>, markers: Seq<Marker>, count: int)
    requires
        links_apart(spans, markers, 0, text.len() as int),
        spans_within(spans, 0, text.len() as int),
        markers_tidy(markers, 0, text.len() as int),
        text.len() + 2 <= usize::MAX,
        0 <= count <= spans.len(),
    ensures
        in_order(found_upto(text, spans, markers, count).links),
        in_order(found_upto(text, spans, markers, count).embeds),
        apart_from(found_upto(text, spans, markers, count).links, found_upto(text, spans, markers, count).embeds),
        ends_before(found_upto(text, spans, markers, count).links, spans, markers, count),
        ends_before(found_upto(text, spans, markers, count).embeds, spans, markers, count),
    decreases count,
{
    if count > 0 {
        lemma_found_apart(text, spans, markers, count - 1);
        let before = found_upto(text, spans, markers, count - 1);
        let after = found_upto(text, spans, markers, count);
        let span = spans[count - 1];
        let start = opener_of(markers, markers.len() as int, span.start as int);
        if is_link(span.style) {
            assert forall|k: int| 0 <= k < markers.len() implies #[trigger] markers[k].start <= markers[k].end by {
                assert(markers[k].reveal.0 <= markers[k].start);
            }
            lemma_opener_before(markers, markers.len() as int, span.start as int);
            assert(0 <= start <= span.start);
            assert(span.start < span.end);
            assert(span.end + 2 <= usize::MAX);
            assert forall|j: int, k: int|
                #![trigger after.links[j], spans[k]]
                0 <= j < after.links.len() && count <= k < spans.len() && is_link(spans[k].style) implies after.links[j].end
                    <= link_start(markers, spans[k]) by {
                if j < before.links.len() {
                    assert(after.links[j] == before.links[j]);
                } else {
                    assert(span.end + 2 <= link_start(markers, spans[k]));
                }
            }
            assert forall|j: int, k: int|
                #![trigger after.embeds[j], spans[k]]
                0 <= j < after.embeds.len() && count <= k < spans.len() && is_link(spans[k].style) implies after.embeds[j].end
                    <= link_start(markers, spans[k]) by {
                if j < before.embeds.len() {
                    assert(after.embeds[j] == before.embeds[j]);
                } else {
                    assert(span.end + 2 <= link_start(markers, spans[k]));
                }
            }
            assert forall|j: int| 0 <= j < before.links.len() implies #[trigger] before.links[j].end <= start by {
                assert(before.links[j].end <= link_start(markers, spans[count - 1]));
            }
            assert forall|j: int| 0 <= j < before.embeds.len() implies #[trigger] before.embeds[j].end <= start by {
                assert(before.embeds[j].end <= link_start(markers, spans[count - 1]));
            }
            assert forall|j: int, k: int|
                0 <= j < k < after.links.len() implies #[trigger] after.links[j].end
                    <= #[trigger] after.links[k].start by {
                if k < before.links.len() {
                    assert(after.links[j] == before.links[j] && after.links[k] == before.links[k]);
                } else {
                    assert(after.links[j] == before.links[j]);
                }
            }
            assert forall|j: int, k: int|
                0 <= j < k < after.embeds.len() implies #[trigger] after.embeds[j].end
                    <= #[trigger] after.embeds[k].start by {
                if k < before.embeds.len() {
                    assert(after.embeds[j] == before.embeds[j] && after.embeds[k] == before.embeds[k]);
                } else {
                    assert(after.embeds[j] == before.embeds[j]);
                }
            }
            assert forall|j: int, k: int|
                #![trigger after.links[j], after.embeds[k]]
                0 <= j < after.links.len() && 0 <= k < after.embeds.len() implies after.links[j].end
                    <= after.embeds[k].start || after.embeds[k].end <= after.links[j].start by {
                if j < before.links.len() && k < before.embeds.len() {
                    assert(after.links[j] == before.links[j] && after.embeds[k] == before.embeds[k]);
                } else if j < before.links.len() {
                    assert(after.links[j] == before.links[j]);
                } else {
                    assert(after.embeds[k] == before.embeds[k]);
                }
            }
        } else {
            assert(after.links == before.links && after.embeds == before.embeds);
        }
    }
}

/// The links that extraction finds never overlap one another, nor do its
/// embeds, nor a link and an embed: in the order found, each covers
/// something and ends before the next begins.
pub proof fn law_found_links_never_overlap(text: Seq<char>)
    requires
        text.len() + 2 <= usize::MAX,
    ensures
        in_order(extraction(text, scan_note(text).spans, scan_note(text).markers).links),
        in_order(extraction(text, scan_note(text).spans, scan_note(text).markers).embeds),
        apart_from(
            extraction(text, scan_note(text).spans, scan_note(text).markers).links,
            extraction(text, scan_note(text).spans, scan_note(text).markers).embeds,
        ),
{
    let scan = scan_note(text);
    law_links_never_overlap(text);
    crate::laws::law_scan_stays_within_the_note(text);
    lemma_found_apart(text, scan.spans, scan.markers, scan.spans.len() as int);
}

/// Every replacement covers something, and no two overlap.
pub open spec fn replacements_apart(edits: Seq<Replacement>) -> bool {
    &&& forall|k: int| 0 <= k < edits.len() ==> #[trigger] edits[k].start < edits[k].end
    &&& forall|j: int, k: int|
        #![trigger edits[j], edits[k]]
        0 <= j < edits.len() && 0 <= k < edits.len() && j != k ==> edits[j].end <= edits[k].start
            || edits[k].end <= edits[j].start
}

/// Every replacement covers something and ends before the next one begins.
pub open spec fn in_sequence(edits: Seq<Replacement>) -> bool {
    &&& forall|k: int| 0 <= k < edits.len() ==> #[trigger] edits[k].start < edits[k].end
    &&& forall|j: int, k: int|
        0 <= j < k < edits.len() ==> #[trigger] edits[j].end <= #[trigger] edits[k].start
}

/// `edit` replaces what one of the first `count` links covers.
spec fn came_from(edit: Replacement, links: Seq<LinkModel>, count: int) -> bool {
    exists|i: int| 0 <= i < count && edit.start == #[trigger] links[i].start && edit.end == links[i].end
}

/// `edit` is one of `edits`.
spec fn drawn_from(edit: Replacement, edits: Seq<Replacement>) -> bool {
    exists|i: int| 0 <= i < edits.len() && edit == #[trigger] edits[i]
}

/// The replacements for links in order are in order too, each replacing
/// what one of the links covers.
proof fn lemma_edits_from(links: Seq<LinkModel>, count: int, embed: bool, from: Seq<char>, to: Seq<char>)
    requires
        in_order(links),
        0 <= count <= links.len(),
    ensures
        in_sequence(edits_upto(links, count, embed, from, to)),
        forall|n: int|
            0 <= n < edits_upto(links, count, embed, from, to).len() ==> came_from(
                #[trigger] edits_upto(links, count, embed, from, to)[n],
                links,
                count,
            ),
    decreases count,
{
    if count > 0 {
        lemma_edits_from(links, count - 1, embed, from, to);
        let before = edits_upto(links, count - 1, embed, from, to);
        let after = edits_upto(links, count, embed, from, to);
        let link = links[count - 1];
        assert forall|n: int| 0 <= n < before.len() implies came_from(#[trigger] before[n], links, count)
            && before[n].end <= link.start by {
            assert(came_from(before[n], links, count - 1));
            let i = choose|i: int| 0 <= i < count - 1 && before[n].start == #[trigger] links[i].start && before[n].end == links[i].end;
            assert(links[i].end <= links[count - 1].start);
        }
        if after.len() > before.len() {
            assert(after == before.push(after.last()));
            assert(came_from(after.last(), links, count)) by {
                assert(after.last().start == links[count - 1].start);
            }
            assert forall|n: int| 0 <= n < after.len() implies came_from(#[trigger] after[n], links, count) by {
                if n < before.len() {
                    assert(after[n] == before[n]);
                }
            }
            assert forall|j: int, k: int| 0 <= j < k < after.len() implies #[trigger] after[j].end
                <= #[trigger] after[k].start by {
                assert(after[j] == before[j]);
                if k < before.len() {
                    assert(after[k] == before[k]);
                }
            }
        }
    }
}

/// A rename's replacements never overlap when the links and embeds they
/// replace do not.
proof fn lemma_rename_apart(found: Found, from: Seq<char>, to: Seq<char>)
    requires
        in_order(found.links),
        in_order(found.embeds),
        apart_from(found.links, found.embeds),
    ensures
        replacements_apart(rename_edits(found, from, to)),
{
    let l = edits_upto(found.links, found.links.len() as int, false, from, to);
    let e = edits_upto(found.embeds, found.embeds.len() as int, true, from, to);
    lemma_edits_from(found.links, found.links.len() as int, false, from, to);
    lemma_edits_from(found.embeds, found.embeds.len() as int, true, from, to);
    let all = l + e;
    assert(all == rename_edits(found, from, to));
    assert forall|j: int, k: int| 0 <= j < l.len() && 0 <= k < e.len() implies #[trigger] l[j].end <= #[trigger] e[k].start
        || e[k].end <= l[j].start by {
        assert(came_from(l[j], found.links, found.links.len() as int));
        assert(came_from(e[k], found.embeds, found.embeds.len() as int));
        let a = choose|i: int| 0 <= i < found.links.len() && l[j].start == #[trigger] found.links[i].start && l[j].end == found.links[i].end;
        let b = choose|i: int| 0 <= i < found.embeds.len() && e[k].start == #[trigger] found.embeds[i].start && e[k].end == found.embeds[i].end;
        assert(found.links[a].end <= found.embeds[b].start || found.embeds[b].end <= found.links[a].start);
    }
    assert forall|k: int| 0 <= k < all.len() implies #[trigger] all[k].start < all[k].end by {
        if k < l.len() {
            assert(all[k] == l[k]);
        } else {
            assert(all[k] == e[k - l.len()]);
        }
    }
    assert forall|j: int, k: int|
        #![trigger all[j], all[k]]
        0 <= j < all.len() && 0 <= k < all.len() && j != k implies all[j].end <= all[k].start
            || all[k].end <= all[j].start by {
        if j < l.len() && k < l.len() {
            assert(all[j] == l[j] && all[k] == l[k]);
        } else if j < l.len() {
            assert(all[j] == l[j] && all[k] == e[k - l.len()]);
        } else if k < l.len() {
            assert(all[j] == e[j - l.len()] && all[k] == l[k]);
        } else {
            assert(all[j] == e[j - l.len()] && all[k] == e[k - l.len()]);
        }
    }
}

/// Putting `edit` into replacements in sequence, when it overlaps none of
/// them, keeps them in sequence; what comes out is `edit` and theirs.
proof fn lemma_insert_in_sequence(sorted: Seq<Replacement>, edit: Replacement)
    requires
        in_sequence(sorted),
        edit.start < edit.end,
        forall|j: int| 0 <= j < sorted.len() ==> #[trigger] sorted[j].end <= edit.start || edit.end <= sorted[j].start,
    ensures
        in_sequence(insert_by_start(sorted, edit)),
        forall|n: int|
            0 <= n < insert_by_start(sorted, edit).len() ==> #[trigger] insert_by_start(sorted, edit)[n]
                == edit || drawn_from(insert_by_start(sorted, edit)[n], sorted),
    decreases sorted.len(),
{
    let out = insert_by_start(sorted, edit);
    if sorted.len() == 0 {
        assert(out == seq![edit]);
    } else if sorted.last().start <= edit.start {
        assert(out == sorted.push(edit));
        let last = sorted.len() - 1;
        assert forall|j: int| 0 <= j < sorted.len() implies #[trigger] sorted[j].end <= edit.start by {
            if j < last {
                assert(sorted[j].end <= sorted[last].start);
            }
        }
        assert forall|n: int| 0 <= n < out.len() implies #[trigger] out[n] == edit || drawn_from(out[n], sorted) by {
            if n < sorted.len() {
                assert(out[n] == sorted[n]);
            }
        }
        assert forall|j: int, k: int| 0 <= j < k < out.len() implies #[trigger] out[j].end
            <= #[trigger] out[k].start by {
            assert(out[j] == sorted[j]);
            if k < sorted.len() {
                assert(out[k] == sorted[k]);
            }
        }
    } else {
        let front = sorted.drop_last();
        let last = sorted.last();
        assert forall|j: int, k: int| 0 <= j < k < front.len() implies #[trigger] front[j].end
            <= #[trigger] front[k].start by {
            assert(front[j] == sorted[j] && front[k] == sorted[k]);
        }
        assert forall|j: int| 0 <= j < front.len() implies #[trigger] front[j].end <= edit.start
            || edit.end <= front[j].start by {
            assert(front[j] == sorted[j]);
        }
        lemma_insert_in_sequence(front, edit);
        let inner = insert_by_start(front, edit);
        assert(out == inner.push(last));
        assert forall|n: int| 0 <= n < inner.len() implies #[trigger] inner[n].end <= last.start && (
        inner[n] == edit || drawn_from(inner[n], sorted)) by {
            if inner[n] != edit {
                assert(drawn_from(inner[n], front));
                let i = choose|i: int| 0 <= i < front.len() && inner[n] == #[trigger] front[i];
                assert(front[i] == sorted[i]);
                assert(sorted[i].end <= sorted[sorted.len() - 1].start);
            } else {
                assert(sorted[sorted.len() - 1] == last);
            }
        }
        assert(drawn_from(last, sorted)) by {
            assert(sorted[sorted.len() - 1] == last);
        }
        assert forall|n: int| 0 <= n < out.len() implies #[trigger] out[n] == edit || drawn_from(out[n], sorted) by {
            if n < inner.len() {
                assert(out[n] == inner[n]);
            }
        }
        assert forall|j: int, k: int| 0 <= j < k < out.len() implies #[trigger] out[j].end
            <= #[trigger] out[k].start by {
            assert(out[j] == inner[j]);
            if k < inner.len() {
                assert(out[k] == inner[k]);
            }
        }
        assert forall|k: int| 0 <= k < out.len() implies #[trigger] out[k].start < out[k].end by {
            if k < inner.len() {
                assert(out[k] == inner[k]);
            } else {
                assert(sorted[sorted.len() - 1] == last);
            }
        }
    }
}

/// Replacements that never overlap, sorted by where they start, are in
/// sequence; the sort only reorders them.
proof fn lemma_sort_in_sequence(edits: Seq<Replacement>)
    requires
        replacements_apart(edits),
    ensures
        in_sequence(sort_by_start(edits)),
        forall|n: int|
            0 <= n < sort_by_start(edits).len() ==> drawn_from(#[trigger] sort_by_start(edits)[n], edits),
    decreases edits.len(),
{
    if edits.len() > 0 {
        let front = edits.drop_last();
        let edit = edits.last();
        assert forall|j: int, k: int|
            #![trigger front[j], front[k]]
            0 <= j < front.len() && 0 <= k < front.len() && j != k implies front[j].end <= front[k].start
                || front[k].end <= front[j].start by {
            assert(front[j] == edits[j] && front[k] == edits[k]);
        }
        assert forall|k: int| 0 <= k < front.len() implies #[trigger] front[k].start < front[k].end by {
            assert(front[k] == edits[k]);
        }
        lemma_sort_in_sequence(front);
        let sorted = sort_by_start(front);
        assert forall|j: int| 0 <= j < sorted.len() implies #[trigger] sorted[j].end <= edit.start
            || edit.end <= sorted[j].start by {
            assert(drawn_from(sorted[j], front));
            let i = choose|i: int| 0 <= i < front.len() && sorted[j] == #[trigger] front[i];
            assert(front[i] == edits[i]);
            assert(edits[edits.len() - 1] == edit);
        }
        assert(edit.start < edit.end) by {
            assert(edits[edits.len() - 1] == edit);
        }
        lemma_insert_in_sequence(sorted, edit);
        let out = sort_by_start(edits);
        assert(out == insert_by_start(sorted, edit));
        assert forall|n: int| 0 <= n < out.len() implies drawn_from(#[trigger] out[n], edits) by {
            if out[n] == edit {
                assert(edits[edits.len() - 1] == edit);
            } else {
                assert(drawn_from(out[n], sorted));
                let j = choose|j: int| 0 <= j < sorted.len() && out[n] == #[trigger] sorted[j];
                assert(drawn_from(sorted[j], front));
                let i = choose|i: int| 0 <= i < front.len() && sorted[j] == #[trigger] front[i];
                assert(front[i] == edits[i]);
            }
        }
    }
}

/// A rename's replacements, put in order of where they start, each cover
/// something and end before the next one begins: splicing them in that
/// order copies the text between them exactly once and never goes back.
pub proof fn law_rename_replacements_in_sequence(body: Seq<char>, from: Seq<char>, to: Seq<char>)
    requires
        body.len() + 2 <= usize::MAX,
    ensures
        in_sequence(
            sort_by_start(
                rename_edits(extraction(body, scan_note(body).spans, scan_note(body).markers), from, to),
            ),
        ),
{
    law_found_links_never_overlap(body);
    let found = extraction(body, scan_note(body).spans, scan_note(body).markers);
    lemma_rename_apart(found, from, to);
    lemma_sort_in_sequence(rename_edits(found, from, to));
}

/// A link or embed span opens on `[[` or `![[` and closes on `]]` in `text`;
/// a tag span starts on its `#`.
pub open spec fn span_framed(text: Seq<char>, markers: Seq<Marker>, span: Span) -> bool {
    match span.style {
        Style::WikiLink => {
            &&& matches_at(text, link_start(markers, span), seq!['[', '['])
            &&& matches_at(text, span.end as int, seq![']', ']'])
        },
        Style::Embed => {
            &&& matches_at(text, link_start(markers, span), seq!['!', '[', '['])
            &&& matches_at(text, span.end as int, seq![']', ']'])
        },
        Style::Tag => span.start < text.len() && text[span.start as int] == '#',
        _ => true,
    }
}

/// Every span is framed by its syntax in `text`.
pub open spec fn links_framed(text: Seq<char>, spans: Seq<Span>, markers: Seq<Marker>) -> bool {
    forall|k: int| 0 <= k < spans.len() ==> span_framed(text, markers, #[trigger] spans[k])
}

/// What `line` holds at `at` the text holds where the line sits.
proof fn lemma_matches_in(text: Seq<char>, line: Seq<char>, off: int, at: int, needle: Seq<char>)
    requires
        0 <= off,
        off + line.len() <= text.len(),
        line == text.subrange(off, off + line.len()),
        matches_at(line, at, needle),
    ensures
        matches_at(text, off + at, needle),
{
    assert(text.subrange(off + at, off + at + needle.len()) =~= line.subrange(at, at + needle.len()));
}

proof fn lemma_wikilink_framed(text: Seq<char>, line: Seq<char>, i: int, off: int)
    requires
        0 <= off,
        off + line.len() <= text.len(),
        text.len() <= usize::MAX,
        line == text.subrange(off, off + line.len()),
    ensures
        step_framed(text, wikilink_step(line, i, off)),
{
    if let Some(s) = wikilink_step(line, i, off) {
        lemma_find_from(line, i + 2, seq![']', ']']);
        let close = find_from_unwrap(line, i + 2);
        lemma_find_from(line.subrange(0, close), i + 2, seq!['|']);
        let shown = crate::inline::display_start(line, i, close);
        assert(s.markers[0].end == off + shown);
        assert(has_opener(s.markers, 1, off + shown));
        assert(opener_of(s.markers, 1, off + shown) == off + i);
        assert(link_start(s.markers, s.spans[0]) == off + i);
        lemma_matches_in(text, line, off, i, seq!['[', '[']);
        lemma_matches_in(text, line, off, close, seq![']', ']']);
        assert(span_framed(text, s.markers, s.spans[0]));
    }
}

proof fn lemma_embed_framed(text: Seq<char>, line: Seq<char>, i: int, off: int)
    requires
        0 <= off,
        off + line.len() <= text.len(),
        text.len() <= usize::MAX,
        line == text.subrange(off, off + line.len()),
    ensures
        step_framed(text, embed_step(line, i, off)),
{
    if let Some(s) = embed_step(line, i, off) {
        lemma_find_from(line, i + 3, seq![']', ']']);
        let close = find_from_unwrap(line, i + 3);
        let reveal = (off + i, off + close + 2);
        let m0 = crate::types::marker_of(off + i, off + i + 3, reveal);
        let m1 = crate::types::marker_of(off + i + 3, off + close, reveal);
        let m2 = crate::types::marker_of(off + close, off + close + 2, reveal);
        assert(s.markers == m0 + m1 + m2);
        assert((m0 + m1 + m2)[1] == m1[0]);
        assert((m0 + m1 + m2)[2] == m2[0]);
        assert(opener_of(s.markers, 1, off + i + 3) == off + i);
        assert(opener_of(s.markers, 2, off + i + 3) == off + i);
        assert(link_start(s.markers, s.spans[0]) == off + i);
        lemma_matches_in(text, line, off, i, seq!['!', '[', '[']);
        lemma_matches_in(text, line, off, close, seq![']', ']']);
        assert(span_framed(text, s.markers, s.spans[0]));
    }
}

proof fn lemma_tag_framed(text: Seq<char>, line: Seq<char>, i: int, off: int)
    requires
        0 <= off,
        off + line.len() <= text.len(),
        text.len() <= usize::MAX,
        line == text.subrange(off, off + line.len()),
    ensures
        step_framed(text, tag_step(line, i, off)),
{
    if let Some(s) = tag_step(line, i, off) {
        crate::laws::lemma_tag_tidy(line, i, off);
        assert(text[off + i] == line[i]);
        assert(span_framed(text, s.markers, s.spans[0]));
    }
}

/// A step's spans are framed by their syntax where the line sits.
proof fn lemma_step_framed(text: Seq<char>, line: Seq<char>, i: int, off: int)
    requires
        0 <= off,
        off + line.len() <= text.len(),
        text.len() <= usize::MAX,
        line == text.subrange(off, off + line.len()),
    ensures
        step_framed(text, inline_step(line, i, off)),
{
    reveal(inline_step);
    lemma_wikilink_framed(text, line, i, off);
    lemma_embed_framed(text, line, i, off);
    lemma_tag_framed(text, line, i, off);
    if let Some(s) = both_step(line, i, off) {
        assert forall|k: int| 0 <= k < s.spans.len() implies span_framed(text, s.markers, #[trigger] s.spans[k]) by {}
    }
    assert(step_framed(text, code_step(line, i, off)));
    assert(step_framed(text, link_step(line, i, off)));
    assert(step_framed(text, url_step(line, i, off)));
    assert(step_framed(text, both_step(line, i, off)));
    assert(step_framed(text, emphasis_step(line, i, off)));
}

/// A step's spans, if any, are framed in `text`.
pub open spec fn step_framed(text: Seq<char>, step: Option<Step>) -> bool {
    step matches Some(s) ==> links_framed(text, s.spans, s.markers)
}

/// Two stretches, each framed and with its links apart, the second after
/// the first.
proof fn lemma_framed_join(
    text: Seq<char>,
    sa: Seq<Span>,
    ma: Seq<Marker>,
    sb: Seq<Span>,
    mb: Seq<Marker>,
    lo: int,
    mid: int,
    hi: int,
)
    requires
        links_framed(text, sa, ma),
        links_framed(text, sb, mb),
        links_apart(sb, mb, mid, hi),
        spans_within(sa, lo, mid),
        markers_tidy(mb, mid, hi),
    ensures
        links_framed(text, sa + sb, ma + mb),
{
    let s = sa + sb;
    let m = ma + mb;
    assert forall|k: int| 0 <= k < s.len() implies span_framed(text, m, #[trigger] s[k]) by {
        if k < sa.len() {
            assert(s[k] == sa[k]);
            assert(span_framed(text, ma, sa[k]));
            if is_link(sa[k].style) {
                assert forall|n: int| 0 <= n < mb.len() implies #[trigger] mb[n].end != sa[k].start by {
                    assert(mb[n].reveal.0 <= mb[n].start);
                }
                lemma_opener_unmatched(ma, mb, mb.len() as int, sa[k].start as int);
            }
        } else {
            let j = k - sa.len();
            assert(s[k] == sb[j]);
            assert(span_framed(text, mb, sb[j]));
            if is_link(sb[j].style) {
                lemma_opener_matched(ma, mb, mb.len() as int, sb[j].start as int);
            }
        }
    }
}

/// Spans with no link in them, followed by a framed stretch with its links
/// apart.
proof fn lemma_framed_after(text: Seq<char>, sa: Seq<Span>, ma: Seq<Marker>, sb: Seq<Span>, mb: Seq<Marker>, lo: int, hi: int)
    requires
        no_links(sa),
        links_framed(text, sa, ma),
        links_framed(text, sb, mb),
        links_apart(sb, mb, lo, hi),
    ensures
        links_framed(text, sa + sb, ma + mb),
{
    let s = sa + sb;
    let m = ma + mb;
    assert forall|k: int| 0 <= k < s.len() implies span_framed(text, m, #[trigger] s[k]) by {
        if k < sa.len() {
            assert(s[k] == sa[k]);
            assert(span_framed(text, ma, sa[k]));
            assert(!is_link(sa[k].style));
        } else {
            let j = k - sa.len();
            assert(s[k] == sb[j]);
            assert(span_framed(text, mb, sb[j]));
            if is_link(sb[j].style) {
                lemma_opener_matched(ma, mb, mb.len() as int, sb[j].start as int);
            }
        }
    }
}

proof fn lemma_inline_framed(text: Seq<char>, line: Seq<char>, i: int, off: int)
    requires
        0 <= i,
        0 <= off,
        off + line.len() <= text.len(),
        text.len() <= usize::MAX,
        line == text.subrange(off, off + line.len()),
    ensures
        links_framed(text, inline_items(line, i, off).0, inline_items(line, i, off).1),
    decreases line.len() - i,
{
    if i < line.len() {
        lemma_step_framed(text, line, i, off);
        lemma_step_tidy(line, i, off);
        match inline_step(line, i, off) {
            Some(s) => {
                if i < s.next <= line.len() {
                    lemma_inline_framed(text, line, s.next, off);
                    lemma_inline_links(line, s.next, off);
                    lemma_inline_tidy(line, s.next, off);
                    let rest = inline_items(line, s.next, off);
                    lemma_framed_join(text, s.spans, s.markers, rest.0, rest.1, off + i, off + s.next, off + line.len());
                } else {
                    lemma_inline_framed(text, line, i + 1, off);
                }
            },
            None => {
                lemma_inline_framed(text, line, i + 1, off);
            },
        }
    }
}

proof fn lemma_line_framed(
    text: Seq<char>,
    line: Seq<char>,
    off: int,
    state: crate::types::LineState,
    first: bool,
    next: Option<Seq<char>>,
    list: Seq<u8>,
)
    requires
        0 <= off,
        off + line.len() <= text.len(),
        text.len() <= usize::MAX,
        line == text.subrange(off, off + line.len()),
    ensures
        links_framed(
            text,
            line_out(line, off, state, first, next, list).spans,
            line_out(line, off, state, first, next, list).markers,
        ),
{
    reveal(line_out);
    let len = line.len() as int;
    // A table row.
    lemma_inline_framed(text, line, 0, off);
    lemma_inline_links(line, 0, off);
    let items = inline_items(line, 0, off);
    let row = crate::types::span_of(off, off + len, Style::TableRow);
    assert(no_links(row));
    assert(links_framed(text, row, seq![]));
    lemma_framed_after(text, row, seq![], items.0, items.1, off, off + len);
    assert(Seq::<Marker>::empty() + items.1 =~= items.1);
    // A normal line.
    if len > 0 {
        crate::laws::lemma_prefix_tidy(line, off, list);
        crate::laws::lemma_run_end_bounds(line, 0, ' ');
        let p = block_prefix(line, off, list);
        let indent = crate::text::leading_spaces(line);
        let start = if p.content < len {
            p.content
        } else {
            len
        };
        let tail = line.subrange(start, len);
        assert(tail =~= text.subrange(off + start, off + start + tail.len()));
        lemma_inline_framed(text, tail, 0, off + start);
        lemma_inline_links(tail, 0, off + start);
        let titems = inline_items(tail, 0, off + start);
        let block = match p.style {
            Some(style) => crate::types::span_of(
                off + if start < len {
                    start
                } else {
                    indent
                },
                off + len,
                style,
            ),
            None => seq![],
        };
        assert(no_links(p.task + block)) by {
            assert forall|k: int| 0 <= k < (p.task + block).len() implies !is_link(
                #[trigger] (p.task + block)[k].style,
            ) by {
                if k < p.task.len() {
                    assert((p.task + block)[k] == p.task[k]);
                } else {
                    assert((p.task + block)[k] == block[k - p.task.len()]);
                }
            }
        }
        assert(links_framed(text, p.task + block, p.markers)) by {
            assert forall|k: int| 0 <= k < (p.task + block).len() implies span_framed(
                text,
                p.markers,
                #[trigger] (p.task + block)[k],
            ) by {
                if k < p.task.len() {
                    assert((p.task + block)[k] == p.task[k]);
                } else {
                    assert((p.task + block)[k] == block[k - p.task.len()]);
                }
            }
        }
        lemma_framed_after(text, p.task + block, p.markers, titems.0, titems.1, off + start, off + len);
    }
}

proof fn lemma_scan_framed(
    text: Seq<char>,
    from: int,
    state: crate::types::LineState,
    first: bool,
    list: Seq<u8>,
)
    requires
        0 <= from,
        text.len() <= usize::MAX,
    ensures
        links_framed(
            text,
            scan_from(text, from, state, first, list).spans,
            scan_from(text, from, state, first, list).markers,
        ),
    decreases text.len() + 1 - from,
{
    if from <= text.len() {
        let len = text.len() as int;
        let end = line_end(text, from);
        lemma_find_from(text, from, seq!['\n']);
        let line = text.subrange(from, end);
        let out = line_out(line, from, state, first, line_after(text, end), list);
        lemma_line_framed(text, line, from, state, first, line_after(text, end), list);
        lemma_line_tidy(line, from, state, first, line_after(text, end), list);
        if end < len {
            lemma_scan_framed(text, end + 1, out.state, false, out.list);
            lemma_scan_links(text, end + 1, out.state, false, out.list);
            lemma_scan_tidy(text, end + 1, out.state, false, out.list);
            let rest = scan_from(text, end + 1, out.state, false, out.list);
            lemma_links_widen(rest.spans, rest.markers, end + 1, len, end, len);
            lemma_framed_join(text, out.spans, out.markers, rest.spans, rest.markers, from, end, len);
        } else {
            assert(out.spans + seq![] =~= out.spans);
            assert(out.markers + seq![] =~= out.markers);
        }
    }
}

/// Every link or embed a scan styles begins, at the start of the marker
/// that opens it, with `[[` or `![[`, and its closing `]]` follows its text;
/// every tag it styles starts on its `#`.
pub proof fn law_links_open_and_close_on_their_brackets(text: Seq<char>)
    requires
        text.len() <= usize::MAX,
    ensures
        links_framed(text, scan_note(text).spans, scan_note(text).markers),
{
    lemma_scan_framed(
        text,
        0,
        if opens_frontmatter(text) {
            crate::types::LineState::Frontmatter
        } else {
            crate::types::LineState::Normal
        },
        true,
        seq![],
    );
}

/// Every link found opens on `[[` and ends on `]]`, every embed opens on
/// `![[` and ends on `]]`, each names a target; every tag found is a `#`
/// and its name, the range's characters with their leading `#`s taken off.
pub open spec fn found_framed(text: Seq<char>, found: Found) -> bool {
    &&& forall|k: int|
        #![trigger found.links[k]]
        0 <= k < found.links.len() ==> {
            &&& matches_at(text, found.links[k].start as int, seq!['[', '['])
            &&& matches_at(text, found.links[k].end - 2, seq![']', ']'])
            &&& found.links[k].target.len() > 0
        }
    &&& forall|k: int|
        #![trigger found.embeds[k]]
        0 <= k < found.embeds.len() ==> {
            &&& matches_at(text, found.embeds[k].start as int, seq!['!', '[', '['])
            &&& matches_at(text, found.embeds[k].end - 2, seq![']', ']'])
            &&& found.embeds[k].target.len() > 0
        }
    &&& forall|k: int|
        #![trigger found.tags[k]]
        0 <= k < found.tags.len() ==> {
            &&& found.tags[k].start < found.tags[k].end <= text.len()
            &&& text[found.tags[k].start as int] == '#'
            &&& found.tags[k].name == crate::text::without_leading(
                text.subrange(found.tags[k].start as int, found.tags[k].end as int),
                '#',
            )
            &&& found.tags[k].name.len() > 0
        }
}

proof fn lemma_found_framed(text: Seq<char>, spans: Seq<Span>, markers: Seq<Marker>, count: int)
    requires
        links_framed(text, spans, markers),
        links_apart(spans, markers, 0, text.len() as int),
        spans_within(spans, 0, text.len() as int),
        text.len() + 2 <= usize::MAX,
        0 <= count <= spans.len(),
    ensures
        found_framed(text, found_upto(text, spans, markers, count)),
    decreases count,
{
    if count > 0 {
        lemma_found_framed(text, spans, markers, count - 1);
        let before = found_upto(text, spans, markers, count - 1);
        let after = found_upto(text, spans, markers, count);
        let span = spans[count - 1];
        assert(span_framed(text, markers, span));
        assert(0 <= span.start < span.end <= text.len());
        assert forall|k: int| #![trigger after.links[k]] 0 <= k < after.links.len() implies {
            &&& matches_at(text, after.links[k].start as int, seq!['[', '['])
            &&& matches_at(text, after.links[k].end - 2, seq![']', ']'])
            &&& after.links[k].target.len() > 0
        } by {
            if k < before.links.len() {
                assert(after.links[k] == before.links[k]);
            } else {
                assert(0 <= link_start(markers, span));
            }
        }
        assert forall|k: int| #![trigger after.embeds[k]] 0 <= k < after.embeds.len() implies {
            &&& matches_at(text, after.embeds[k].start as int, seq!['!', '[', '['])
            &&& matches_at(text, after.embeds[k].end - 2, seq![']', ']'])
            &&& after.embeds[k].target.len() > 0
        } by {
            if k < before.embeds.len() {
                assert(after.embeds[k] == before.embeds[k]);
            } else {
                assert(0 <= link_start(markers, span));
            }
        }
        assert forall|k: int| #![trigger after.tags[k]] 0 <= k < after.tags.len() implies {
            &&& after.tags[k].start < after.tags[k].end <= text.len()
            &&& text[after.tags[k].start as int] == '#'
            &&& after.tags[k].name == crate::text::without_leading(
                text.subrange(after.tags[k].start as int, after.tags[k].end as int),
                '#',
            )
            &&& after.tags[k].name.len() > 0
        } by {
            if k < before.tags.len() {
                assert(after.tags[k] == before.tags[k]);
            }
        }
        assert(forall|k: int|
            #![trigger after.links[k]]
        0 <= k < after.links.len() ==> {
                &&& matches_at(text, after.links[k].start as int, seq!['[', '['])
                &&& matches_at(text, after.links[k].end - 2, seq![']', ']'])
                &&& after.links[k].target.len() > 0
            });
        assert(forall|k: int|
            #![trigger after.embeds[k]]
        0 <= k < after.embeds.len() ==> {
                &&& matches_at(text, after.embeds[k].start as int, seq!['!', '[', '['])
                &&& matches_at(text, after.embeds[k].end - 2, seq![']', ']'])
                &&& after.embeds[k].target.len() > 0
            });
        assert(found_framed(text, after));
    } else {
        let none = found_upto(text, spans, markers, count);
        assert(none.links.len() == 0 && none.embeds.len() == 0 && none.tags.len() == 0);
    }
}

/// What extraction finds of a note keeps to its syntax: every link's range
/// opens on `[[` and ends on `]]`, every embed's on `![[` and `]]`, and each
/// names a target; every tag's range is a `#` followed by the rest of the
/// tag, whose name is that range without its leading `#`s.
pub proof fn law_found_links_keep_to_their_syntax(text: Seq<char>)
    requires
        text.len() + 2 <= usize::MAX,
    ensures
        found_framed(text, extraction(text, scan_note(text).spans, scan_note(text).markers)),
{
    let scan = scan_note(text);
    law_links_open_and_close_on_their_brackets(text);
    law_links_never_overlap(text);
    crate::laws::law_scan_stays_within_the_note(text);
    lemma_found_framed(text, scan.spans, scan.markers, scan.spans.len() as int);
}

} // verus!
