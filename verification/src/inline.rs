//! Emphasis, code spans, links, wikilinks, embeds and tags within one line.
use vstd::prelude::*;
use crate::types::{Style, Span, Marker, Parsed, span_of, marker_of};
use crate::text::{
    is_white_space, alphabetic, alphanumeric, is_whitespace, is_alphabetic, is_alphanumeric,
    matches_at, find_from, find, starts_with_at,
};

verus! {

/// What one inline construct adds to the report, and where scanning resumes.
pub struct Step {
    pub next: int,
    pub spans: Seq<Span>,
    pub markers: Seq<Marker>,
}

/// `after` is `before` with `step` applied, and `next` says where scanning
/// resumes; with no step, nothing changed.
pub open spec fn applied(before: Parsed, after: Parsed, step: Option<Step>, next: Option<usize>) -> bool {
    &&& after.line_states@ == before.line_states@
    &&& after.line_lists@ == before.line_lists@
    &&& match step {
        Some(s) => {
            &&& next is Some
            &&& next.unwrap() as int == s.next
            &&& after.spans@ == before.spans@ + s.spans
            &&& after.markers@ == before.markers@ + s.markers
        },
        None => {
            &&& next is None
            &&& after.spans@ == before.spans@
            &&& after.markers@ == before.markers@
        },
    }
}

/// The first of two alternatives that applies.
pub open spec fn or_else(first: Option<Step>, second: Option<Step>) -> Option<Step> {
    match first {
        Some(_) => first,
        None => second,
    }
}

/// `` `code` ``: wins over everything, since nothing inside it is formatting.
pub open spec fn code_step(line: Seq<char>, i: int, off: int) -> Option<Step> {
    if 0 <= i < line.len() && line[i] == '`' {
        match find_from(line, i + 1, seq!['`']) {
            Some(close) => {
                let reveal = (off + i, off + close + 1);
                Some(
                    Step {
                        next: close + 1,
                        spans: span_of(off + i + 1, off + close, Style::Code),
                        markers: marker_of(off + i, off + i + 1, reveal) + marker_of(
                            off + close,
                            off + close + 1,
                            reveal,
                        ),
                    },
                )
            },
            None => None,
        }
    } else {
        None
    }
}

/// `![[attachment.png]]`: the whole construct is syntax, filename included.
pub open spec fn embed_step(line: Seq<char>, i: int, off: int) -> Option<Step> {
    if 0 <= i < line.len() && matches_at(line, i, seq!['!', '[', '[']) {
        match find_from(line, i + 3, seq![']', ']']) {
            Some(close) => {
                if close == i + 3 {
                    None
                } else {
                    let reveal = (off + i, off + close + 2);
                    Some(
                        Step {
                            next: close + 2,
                            spans: span_of(off + i + 3, off + close, Style::Embed),
                            markers: marker_of(off + i, off + i + 3, reveal) + marker_of(
                                off + i + 3,
                                off + close,
                                reveal,
                            ) + marker_of(off + close, off + close + 2, reveal),
                        },
                    )
                }
            },
            None => None,
        }
    } else {
        None
    }
}

/// Where a wikilink's shown text begins: after its pipe, if it has one.
pub open spec fn display_start(line: Seq<char>, i: int, close: int) -> int {
    match find_from(line.subrange(0, close), i + 2, seq!['|']) {
        Some(pipe) => pipe + 1,
        None => i + 2,
    }
}

/// `[[Target]]` or `[[Target|shown instead]]`.
pub open spec fn wikilink_step(line: Seq<char>, i: int, off: int) -> Option<Step> {
    if 0 <= i < line.len() && matches_at(line, i, seq!['[', '[']) {
        match find_from(line, i + 2, seq![']', ']']) {
            Some(close) => {
                let shown = display_start(line, i, close);
                if close == i + 2 || shown >= close {
                    None
                } else {
                    let reveal = (off + i, off + close + 2);
                    Some(
                        Step {
                            next: close + 2,
                            spans: span_of(off + shown, off + close, Style::WikiLink),
                            markers: marker_of(off + i, off + shown, reveal) + marker_of(
                                off + close,
                                off + close + 2,
                                reveal,
                            ),
                        },
                    )
                }
            },
            None => None,
        }
    } else {
        None
    }
}

/// `[label](target)`: the label is what you read, the rest is syntax.
pub open spec fn link_step(line: Seq<char>, i: int, off: int) -> Option<Step> {
    if 0 <= i < line.len() && line[i] == '[' {
        match find_from(line, i + 1, seq![']']) {
            Some(label_end) => {
                if label_end == i + 1 || !(label_end + 1 < line.len() && line[label_end + 1]
                    == '(') {
                    None
                } else {
                    match find_from(line, label_end + 2, seq![')']) {
                        Some(close) => {
                            let reveal = (off + i, off + close + 1);
                            Some(
                                Step {
                                    next: close + 1,
                                    spans: span_of(off + i + 1, off + label_end, Style::Link),
                                    markers: marker_of(off + i, off + i + 1, reveal) + marker_of(
                                        off + label_end,
                                        off + close + 1,
                                        reveal,
                                    ),
                                },
                            )
                        },
                        None => None,
                    }
                }
            },
            None => None,
        }
    } else {
        None
    }
}

/// Whether `i` begins a word, so that `C#` and `foo#bar` are not tags and a URL
/// glued to the end of a word is not a link.
pub open spec fn word_start(line: Seq<char>, i: int) -> bool {
    if i == 0 || i - 1 >= line.len() {
        true
    } else {
        let c = line[i - 1];
        is_white_space(c) || c == '(' || c == '[' || c == '{' || c == '"' || c == '\'' || c == '>'
    }
}

/// The first whitespace at or after `from`, or the end of the line.
pub open spec fn word_end(line: Seq<char>, from: int) -> int
    decreases line.len() - from,
{
    if 0 <= from < line.len() && !is_white_space(line[from]) {
        word_end(line, from + 1)
    } else {
        from
    }
}

/// Sentence punctuation that a URL leaves to the sentence.
pub open spec fn is_trailing_punctuation(c: char) -> bool {
    c == '.' || c == ',' || c == ';' || c == ':' || c == '!' || c == '?' || c == ')' || c == ']'
}

/// `end` with trailing sentence punctuation given back, down to `i`.
pub open spec fn without_punctuation(line: Seq<char>, i: int, end: int) -> int
    decreases end - i,
{
    if i < end && end <= line.len() && is_trailing_punctuation(line[end - 1]) {
        without_punctuation(line, i, end - 1)
    } else {
        end
    }
}

/// `http://`
pub open spec fn http_scheme() -> Seq<char> {
    seq!['h', 't', 't', 'p', ':', '/', '/']
}

/// `https://`
pub open spec fn https_scheme() -> Seq<char> {
    seq!['h', 't', 't', 'p', 's', ':', '/', '/']
}

/// A bare `https://…`, styled but not rewritten: there is no syntax to hide.
pub open spec fn url_step(line: Seq<char>, i: int, off: int) -> Option<Step> {
    if 0 <= i < line.len() && word_start(line, i) && (matches_at(line, i, http_scheme())
        || matches_at(line, i, https_scheme())) {
        let end = without_punctuation(line, i, word_end(line, i));
        let scheme: int = if matches_at(line, i, https_scheme()) {
            8
        } else {
            7
        };
        if end <= i + scheme {
            None
        } else {
            Some(Step { next: end, spans: span_of(off + i, off + end, Style::Link), markers: seq![] })
        }
    } else {
        None
    }
}

/// A character that continues a tag.
pub open spec fn continues_tag(c: char) -> bool {
    alphanumeric(c) || c == '-' || c == '_' || c == '/'
}

/// The end of the run of tag characters from `from`.
pub open spec fn tag_run(line: Seq<char>, from: int) -> int
    decreases line.len() - from,
{
    if 0 <= from < line.len() && continues_tag(line[from]) {
        tag_run(line, from + 1)
    } else {
        from
    }
}

/// `end` with trailing `/` and `-` given back, keeping the first character
/// after the hash.
pub open spec fn tag_trimmed(line: Seq<char>, i: int, end: int) -> int
    decreases end - i,
{
    if i + 1 < end && end <= line.len() && (line[end - 1] == '/' || line[end - 1] == '-') {
        tag_trimmed(line, i, end - 1)
    } else {
        end
    }
}

/// `#tag`, `#nested/tag`. The hash is styled, not hidden.
pub open spec fn tag_step(line: Seq<char>, i: int, off: int) -> Option<Step> {
    if 0 <= i && i + 1 < line.len() && line[i] == '#' && word_start(line, i) && alphabetic(
        line[i + 1],
    ) {
        let end = tag_trimmed(line, i, tag_run(line, i + 1));
        Some(Step { next: end, spans: span_of(off + i, off + end, Style::Tag), markers: seq![] })
    } else {
        None
    }
}

/// `***both***`: bold and italic at once, over the same text.
pub open spec fn both_step(line: Seq<char>, i: int, off: int) -> Option<Step> {
    if 0 <= i < line.len() && (line[i] == '*' || line[i] == '_') && matches_at(
        line,
        i,
        seq![line[i], line[i], line[i]],
    ) {
        let run = seq![line[i], line[i], line[i]];
        let content = i + 3;
        match find_from(line, content, run) {
            Some(close) => {
                if close == content || is_white_space(line[content]) || is_white_space(
                    line[close - 1],
                ) {
                    None
                } else {
                    let reveal = (off + i, off + close + 3);
                    Some(
                        Step {
                            next: close + 3,
                            spans: span_of(off + content, off + close, Style::Bold) + span_of(
                                off + content,
                                off + close,
                                Style::Italic,
                            ),
                            markers: marker_of(off + i, off + content, reveal) + marker_of(
                                off + close,
                                off + close + 3,
                                reveal,
                            ),
                        },
                    )
                }
            },
            None => None,
        }
    } else {
        None
    }
}

/// A run wrapped in `delimiter` on both sides, hugging its content.
pub open spec fn delimited_step(
    line: Seq<char>,
    i: int,
    off: int,
    delimiter: Seq<char>,
    style: Style,
) -> Option<Step> {
    if 0 <= i < line.len() && matches_at(line, i, delimiter) {
        let content = i + delimiter.len();
        match find_from(line, content, delimiter) {
            Some(close) => {
                if close == content || is_white_space(line[content]) || is_white_space(
                    line[close - 1],
                ) {
                    None
                } else {
                    let reveal = (off + i, off + close + delimiter.len());
                    Some(
                        Step {
                            next: close + delimiter.len(),
                            spans: span_of(off + content, off + close, style),
                            markers: marker_of(off + i, off + content, reveal) + marker_of(
                                off + close,
                                off + close + delimiter.len(),
                                reveal,
                            ),
                        },
                    )
                }
            },
            None => None,
        }
    } else {
        None
    }
}

/// Bold, strikethrough and italic, two-character delimiters first.
pub open spec fn emphasis_step(line: Seq<char>, i: int, off: int) -> Option<Step> {
    or_else(
        delimited_step(line, i, off, seq!['*', '*'], Style::Bold),
        or_else(
            delimited_step(line, i, off, seq!['_', '_'], Style::Bold),
            or_else(
                delimited_step(line, i, off, seq!['~', '~'], Style::Strikethrough),
                or_else(
                    delimited_step(line, i, off, seq!['*'], Style::Italic),
                    delimited_step(line, i, off, seq!['_'], Style::Italic),
                ),
            ),
        ),
    )
}

/// The construct that starts at `i`, if any: code first, then embeds,
/// wikilinks, links, URLs, tags, triple and then single emphasis.
#[verifier::opaque]
pub open spec fn inline_step(line: Seq<char>, i: int, off: int) -> Option<Step> {
    or_else(
        code_step(line, i, off),
        or_else(
            embed_step(line, i, off),
            or_else(
                wikilink_step(line, i, off),
                or_else(
                    link_step(line, i, off),
                    or_else(
                        url_step(line, i, off),
                        or_else(
                            tag_step(line, i, off),
                            or_else(both_step(line, i, off), emphasis_step(line, i, off)),
                        ),
                    ),
                ),
            ),
        ),
    )
}

/// The spans and markers of the inline constructs from `i` to the end of the
/// line, each found where the previous one ended.
pub open spec fn inline_items(line: Seq<char>, i: int, off: int) -> (Seq<Span>, Seq<Marker>)
    decreases line.len() - i,
{
    if i < 0 || i >= line.len() {
        (seq![], seq![])
    } else {
        match inline_step(line, i, off) {
            Some(s) => {
                if i < s.next <= line.len() {
                    let rest = inline_items(line, s.next, off);
                    (s.spans + rest.0, s.markers + rest.1)
                } else {
                    inline_items(line, i + 1, off)
                }
            },
            None => inline_items(line, i + 1, off),
        }
    }
}

/// Every tag among `spans` that runs past its `#` has something other than a
/// second `#` right after it, in `line`, whose first character sits at `off`.
pub open spec fn tags_hash_once(line: Seq<char>, off: int, spans: Seq<Span>) -> bool {
    forall|k: int|
        0 <= k < spans.len() && #[trigger] spans[k].style == Style::Tag && spans[k].start + 1
            < spans[k].end ==> line[spans[k].start - off + 1] != '#'
}

/// The report's growth by one step, and that the step moves forward.
pub open spec fn advanced(
    line: Seq<char>,
    i: int,
    before: Parsed,
    after: Parsed,
    step: Option<Step>,
    next: Option<usize>,
) -> bool {
    &&& applied(before, after, step, next)
    &&& next matches Some(n) ==> i < n <= line.len()
}

fn try_code(line: &[char], i: usize, offset: usize, parsed: &mut Parsed) -> (next: Option<usize>)
    requires
        i < line@.len(),
        offset + line@.len() <= usize::MAX,
    ensures
        advanced(line@, i as int, *old(parsed), *final(parsed), code_step(line@, i as int, offset as int), next),
{
    if line[i] != '`' {
        return None;
    }
    let tick = ['`'];
    assert(tick@ =~= seq!['`']);
    let close = match find(line, i + 1, &tick) {
        Some(close) => close,
        None => return None,
    };
    let ghost before = *parsed;
    let reveal = (offset + i, offset + close + 1);
    parsed.push_marker(offset + i, offset + i + 1, reveal);
    parsed.push_span(offset + i + 1, offset + close, Style::Code);
    parsed.push_marker(offset + close, offset + close + 1, reveal);
    proof {
        let step = code_step(line@, i as int, offset as int).unwrap();
        assert(parsed.markers@ =~= before.markers@ + step.markers);
    }
    Some(close + 1)
}


fn try_embed(line: &[char], i: usize, offset: usize, parsed: &mut Parsed) -> (next: Option<usize>)
    requires
        i < line@.len(),
        offset + line@.len() <= usize::MAX,
    ensures
        advanced(line@, i as int, *old(parsed), *final(parsed), embed_step(line@, i as int, offset as int), next),
{
    let open = ['!', '[', '['];
    assert(open@ =~= seq!['!', '[', '[']);
    if !starts_with_at(line, i, &open) {
        return None;
    }
    let shut = [']', ']'];
    assert(shut@ =~= seq![']', ']']);
    let close = match find(line, i + 3, &shut) {
        Some(close) => close,
        None => return None,
    };
    if close == i + 3 {
        return None;  // "![[]]" names nothing.
    }
    let ghost before = *parsed;
    // Three markers rather than one over the lot, so the brackets stay
    // identifiable: extraction finds where a construct begins by looking up
    // the marker that ends where its span starts.
    let reveal = (offset + i, offset + close + 2);
    parsed.push_marker(offset + i, offset + i + 3, reveal);
    parsed.push_marker(offset + i + 3, offset + close, reveal);
    parsed.push_marker(offset + close, offset + close + 2, reveal);
    parsed.push_span(offset + i + 3, offset + close, Style::Embed);
    proof {
        let step = embed_step(line@, i as int, offset as int).unwrap();
        assert(parsed.markers@ =~= before.markers@ + step.markers);
    }
    Some(close + 2)
}

fn try_wikilink(line: &[char], i: usize, offset: usize, parsed: &mut Parsed) -> (next: Option<usize>)
    requires
        i < line@.len(),
        offset + line@.len() <= usize::MAX,
    ensures
        advanced(line@, i as int, *old(parsed), *final(parsed), wikilink_step(line@, i as int, offset as int), next),
{
    let open = ['[', '['];
    assert(open@ =~= seq!['[', '[']);
    if !starts_with_at(line, i, &open) {
        return None;
    }
    let shut = [']', ']'];
    assert(shut@ =~= seq![']', ']']);
    let close = match find(line, i + 2, &shut) {
        Some(close) => close,
        None => return None,
    };
    if close == i + 2 {
        return None;  // "[[]]" links nowhere.
    }
    // A pipe makes everything before it, target and separator alike, syntax,
    // leaving only the display text on show.
    let pipe = ['|'];
    assert(pipe@ =~= seq!['|']);
    let shown = match find(&line[0..close], i + 2, &pipe) {
        Some(at) => at + 1,
        None => i + 2,
    };
    if shown >= close {
        return None;  // "[[Target|]]" has nothing to show.
    }
    let ghost before = *parsed;
    let reveal = (offset + i, offset + close + 2);
    parsed.push_marker(offset + i, offset + shown, reveal);
    parsed.push_span(offset + shown, offset + close, Style::WikiLink);
    parsed.push_marker(offset + close, offset + close + 2, reveal);
    proof {
        let step = wikilink_step(line@, i as int, offset as int).unwrap();
        assert(parsed.markers@ =~= before.markers@ + step.markers);
    }
    Some(close + 2)
}

fn try_link(line: &[char], i: usize, offset: usize, parsed: &mut Parsed) -> (next: Option<usize>)
    requires
        i < line@.len(),
        offset + line@.len() <= usize::MAX,
    ensures
        advanced(line@, i as int, *old(parsed), *final(parsed), link_step(line@, i as int, offset as int), next),
{
    if line[i] != '[' {
        return None;
    }
    let label_shut = [']'];
    assert(label_shut@ =~= seq![']']);
    let label_end = match find(line, i + 1, &label_shut) {
        Some(at) => at,
        None => return None,
    };
    if label_end == i + 1 || !(label_end + 1 < line.len() && line[label_end + 1] == '(') {
        return None;
    }
    let target_shut = [')'];
    assert(target_shut@ =~= seq![')']);
    let close = match find(line, label_end + 2, &target_shut) {
        Some(at) => at,
        None => return None,
    };
    let ghost before = *parsed;
    let reveal = (offset + i, offset + close + 1);
    parsed.push_marker(offset + i, offset + i + 1, reveal);
    parsed.push_span(offset + i + 1, offset + label_end, Style::Link);
    parsed.push_marker(offset + label_end, offset + close + 1, reveal);
    proof {
        let step = link_step(line@, i as int, offset as int).unwrap();
        assert(parsed.markers@ =~= before.markers@ + step.markers);
    }
    Some(close + 1)
}

/// Whether `i` begins a word.
fn at_word_start(line: &[char], i: usize) -> (start: bool)
    ensures
        start == word_start(line@, i as int),
{
    if i == 0 || i - 1 >= line.len() {
        true
    } else {
        let c = line[i - 1];
        is_whitespace(c) || c == '(' || c == '[' || c == '{' || c == '"' || c == '\'' || c == '>'
    }
}

fn try_url(line: &[char], i: usize, offset: usize, parsed: &mut Parsed) -> (next: Option<usize>)
    requires
        i < line@.len(),
        offset + line@.len() <= usize::MAX,
    ensures
        advanced(line@, i as int, *old(parsed), *final(parsed), url_step(line@, i as int, offset as int), next),
{
    if !at_word_start(line, i) {
        return None;
    }
    let http = ['h', 't', 't', 'p', ':', '/', '/'];
    assert(http@ =~= http_scheme());
    let https = ['h', 't', 't', 'p', 's', ':', '/', '/'];
    assert(https@ =~= https_scheme());
    let plain = starts_with_at(line, i, &http);
    let secure = starts_with_at(line, i, &https);
    if !plain && !secure {
        return None;
    }
    let mut end = i;
    while end < line.len() && !is_whitespace(line[end])
        invariant
            i <= end <= line@.len(),
            word_end(line@, i as int) == word_end(line@, end as int),
        decreases line@.len() - end,
    {
        end = end + 1;
    }
    let ghost word = end as int;
    // Sentence punctuation after a URL belongs to the sentence.
    while end > i && (line[end - 1] == '.' || line[end - 1] == ',' || line[end - 1] == ';'
        || line[end - 1] == ':' || line[end - 1] == '!' || line[end - 1] == '?' || line[end - 1]
        == ')' || line[end - 1] == ']')
        invariant
            i <= end <= line@.len(),
            without_punctuation(line@, i as int, word) == without_punctuation(line@, i as int, end as int),
        decreases end - i,
    {
        end = end - 1;
    }
    let scheme: usize = if secure {
        8
    } else {
        7
    };
    if end <= i + scheme {
        return None;  // a scheme with no host is not a link yet.
    }
    parsed.push_span(offset + i, offset + end, Style::Link);
    assert(parsed.markers@ =~= old(parsed).markers@ + Seq::<Marker>::empty());
    Some(end)
}

fn try_tag(line: &[char], i: usize, offset: usize, parsed: &mut Parsed) -> (next: Option<usize>)
    requires
        i < line@.len(),
        offset + line@.len() <= usize::MAX,
    ensures
        advanced(line@, i as int, *old(parsed), *final(parsed), tag_step(line@, i as int, offset as int), next),
        next is Some ==> line@[i + 1] != '#',
{
    if line[i] != '#' || !at_word_start(line, i) {
        return None;
    }
    // A digit first would make "#1 priority" and "#404" into tags, which is not
    // what anyone writing them meant.
    if i + 1 >= line.len() || !is_alphabetic(line[i + 1]) {
        return None;
    }
    let mut end = i + 1;
    while end < line.len() && (is_alphanumeric(line[end]) || line[end] == '-' || line[end] == '_'
        || line[end] == '/')
        invariant
            i + 1 <= end <= line@.len(),
            tag_run(line@, i + 1) == tag_run(line@, end as int),
        decreases line@.len() - end,
    {
        end = end + 1;
    }
    let ghost run = end as int;
    // "#project/" is a tag called "project" followed by a stray slash.
    while end > i + 1 && (line[end - 1] == '/' || line[end - 1] == '-')
        invariant
            i + 1 <= end <= line@.len(),
            tag_trimmed(line@, i as int, run) == tag_trimmed(line@, i as int, end as int),
        decreases end - i,
    {
        end = end - 1;
    }
    parsed.push_span(offset + i, offset + end, Style::Tag);
    assert(parsed.markers@ =~= old(parsed).markers@ + Seq::<Marker>::empty());
    Some(end)
}

fn try_both_emphases(line: &[char], i: usize, offset: usize, parsed: &mut Parsed) -> (next: Option<usize>)
    requires
        i < line@.len(),
        offset + line@.len() <= usize::MAX,
    ensures
        advanced(line@, i as int, *old(parsed), *final(parsed), both_step(line@, i as int, offset as int), next),
{
    let delimiter = line[i];
    if delimiter != '*' && delimiter != '_' {
        return None;
    }
    let run = [delimiter, delimiter, delimiter];
    assert(run@ =~= seq![line@[i as int], line@[i as int], line@[i as int]]);
    if !starts_with_at(line, i, &run) {
        return None;
    }
    let content = i + 3;
    let close = match find(line, content, &run) {
        Some(at) => at,
        None => return None,
    };
    if close == content {
        return None;  // "******" is not emphasis
    }
    // The same hugging rule as single emphasis: a delimiter may not be
    // followed by a space, nor a closer preceded by one.
    if is_whitespace(line[content]) || is_whitespace(line[close - 1]) {
        return None;
    }
    let ghost before = *parsed;
    let reveal = (offset + i, offset + close + 3);
    parsed.push_marker(offset + i, offset + content, reveal);
    parsed.push_span(offset + content, offset + close, Style::Bold);
    parsed.push_span(offset + content, offset + close, Style::Italic);
    parsed.push_marker(offset + close, offset + close + 3, reveal);
    proof {
        let step = both_step(line@, i as int, offset as int).unwrap();
        assert(parsed.markers@ =~= before.markers@ + step.markers);
        assert(parsed.spans@ =~= before.spans@ + step.spans);
    }
    Some(close + 3)
}

fn try_delimited(
    line: &[char],
    i: usize,
    offset: usize,
    delimiter: &[char],
    style: Style,
    parsed: &mut Parsed,
) -> (next: Option<usize>)
    requires
        i < line@.len(),
        offset + line@.len() <= usize::MAX,
        delimiter@.len() > 0,
    ensures
        advanced(
            line@,
            i as int,
            *old(parsed),
            *final(parsed),
            delimited_step(line@, i as int, offset as int, delimiter@, style),
            next,
        ),
{
    if !starts_with_at(line, i, delimiter) {
        return None;
    }
    let content = i + delimiter.len();
    let close = match find(line, content, delimiter) {
        Some(at) => at,
        None => return None,
    };
    if close == content {
        return None;  // "****" is not emphasis.
    }
    // Delimiters must hug their content, as in Markdown proper: an opener
    // may not be followed by a space, nor a closer preceded by one. Without
    // this, prose like "a * b * c" silently turns into italics.
    if is_whitespace(line[content]) || is_whitespace(line[close - 1]) {
        return None;
    }
    let ghost before = *parsed;
    let reveal = (offset + i, offset + close + delimiter.len());
    parsed.push_marker(offset + i, offset + content, reveal);
    parsed.push_span(offset + content, offset + close, style);
    parsed.push_marker(offset + close, offset + close + delimiter.len(), reveal);
    proof {
        let step = delimited_step(line@, i as int, offset as int, delimiter@, style).unwrap();
        assert(parsed.markers@ =~= before.markers@ + step.markers);
    }
    Some(close + delimiter.len())
}

/// Bold, strikethrough and italic. Two-character delimiters are tried first, or
/// `**x**` would read as an empty italic followed by stray asterisks.
fn try_emphasis(line: &[char], i: usize, offset: usize, parsed: &mut Parsed) -> (next: Option<usize>)
    requires
        i < line@.len(),
        offset + line@.len() <= usize::MAX,
    ensures
        advanced(line@, i as int, *old(parsed), *final(parsed), emphasis_step(line@, i as int, offset as int), next),
{
    let stars = ['*', '*'];
    assert(stars@ =~= seq!['*', '*']);
    let unders = ['_', '_'];
    assert(unders@ =~= seq!['_', '_']);
    let tildes = ['~', '~'];
    assert(tildes@ =~= seq!['~', '~']);
    let star = ['*'];
    assert(star@ =~= seq!['*']);
    let under = ['_'];
    assert(under@ =~= seq!['_']);
    let next = try_delimited(line, i, offset, &stars, Style::Bold, parsed);
    if next.is_some() {
        return next;
    }
    let next = try_delimited(line, i, offset, &unders, Style::Bold, parsed);
    if next.is_some() {
        return next;
    }
    let next = try_delimited(line, i, offset, &tildes, Style::Strikethrough, parsed);
    if next.is_some() {
        return next;
    }
    let next = try_delimited(line, i, offset, &star, Style::Italic, parsed);
    if next.is_some() {
        return next;
    }
    try_delimited(line, i, offset, &under, Style::Italic, parsed)
}

/// Whatever construct starts at `i`, applied to the report.
fn try_inline(line: &[char], i: usize, offset: usize, parsed: &mut Parsed) -> (next: Option<usize>)
    requires
        i < line@.len(),
        offset + line@.len() <= usize::MAX,
    ensures
        advanced(line@, i as int, *old(parsed), *final(parsed), inline_step(line@, i as int, offset as int), next),
        inline_step(line@, i as int, offset as int) matches Some(s) ==> tags_hash_once(line@, offset as int, s.spans),
{
    reveal(inline_step);
    proof {
        lemma_no_tags(line@, i as int, offset as int);
    }
    let next = try_code(line, i, offset, parsed);
    if next.is_some() {
        return next;
    }
    let next = try_embed(line, i, offset, parsed);
    if next.is_some() {
        return next;
    }
    let next = try_wikilink(line, i, offset, parsed);
    if next.is_some() {
        return next;
    }
    let next = try_link(line, i, offset, parsed);
    if next.is_some() {
        return next;
    }
    let next = try_url(line, i, offset, parsed);
    if next.is_some() {
        return next;
    }
    let next = try_tag(line, i, offset, parsed);
    if next.is_some() {
        proof {
            let s = tag_step(line@, i as int, offset as int).unwrap();
            assert(s.spans.len() == 1 && s.spans[0].start == offset + i);
        }
        return next;
    }
    let next = try_both_emphases(line, i, offset, parsed);
    if next.is_some() {
        return next;
    }
    try_emphasis(line, i, offset, parsed)
}

/// Emphasis, code spans, links, wikilinks, embeds and tags within one line.
///
/// Each `try_*` returns the index to resume from, always greater than `i`, so
/// the loop cannot stall. Order is significance, not convenience: code wins
/// over everything because nothing inside it is formatting; embeds before
/// wikilinks because `![[` is a prefix problem; wikilinks before links because
/// both start with a bracket.
pub(crate) fn scan_inline(line: &[char], offset: usize, parsed: &mut Parsed)
    requires
        offset + line@.len() <= usize::MAX,
    ensures
        final(parsed).spans@ == old(parsed).spans@ + inline_items(line@, 0, offset as int).0,
        final(parsed).markers@ == old(parsed).markers@ + inline_items(line@, 0, offset as int).1,
        tags_hash_once(line@, offset as int, inline_items(line@, 0, offset as int).0),
        final(parsed).line_states@ == old(parsed).line_states@,
        final(parsed).line_lists@ == old(parsed).line_lists@,
{
    let ghost items = inline_items(line@, 0, offset as int);
    let mut i: usize = 0;
    assert(old(parsed).spans@ + items.0 =~= parsed.spans@ + items.0);
    assert(old(parsed).markers@ + items.1 =~= parsed.markers@ + items.1);
    while i < line.len()
        invariant
            i <= line@.len(),
            offset + line@.len() <= usize::MAX,
            items == inline_items(line@, 0, offset as int),
            old(parsed).spans@ + items.0 == parsed.spans@ + inline_items(line@, i as int, offset as int).0,
            old(parsed).markers@ + items.1 == parsed.markers@ + inline_items(line@, i as int, offset as int).1,
            old(parsed).spans@.len() <= parsed.spans@.len(),
            parsed.spans@.subrange(0, old(parsed).spans@.len() as int) == old(parsed).spans@,
            tags_hash_once(line@, offset as int, parsed.spans@.subrange(old(parsed).spans@.len() as int, parsed.spans@.len() as int)),
            parsed.line_states@ == old(parsed).line_states@,
            parsed.line_lists@ == old(parsed).line_lists@,
        decreases line@.len() - i,
    {
        let ghost before = *parsed;
        let next = try_inline(line, i, offset, parsed);
        match next {
            Some(n) => {
                proof {
                    let step = inline_step(line@, i as int, offset as int).unwrap();
                    let rest = inline_items(line@, n as int, offset as int);
                    assert(inline_items(line@, i as int, offset as int) == (step.spans + rest.0, step.markers + rest.1));
                    assert(before.spans@ + (step.spans + rest.0) =~= parsed.spans@ + rest.0);
                    assert(before.markers@ + (step.markers + rest.1) =~= parsed.markers@ + rest.1);
                    let start = old(parsed).spans@.len() as int;
                    let done = before.spans@.subrange(start, before.spans@.len() as int);
                    assert(parsed.spans@ == before.spans@ + step.spans);
                    assert(parsed.spans@.subrange(start, parsed.spans@.len() as int) =~= done + step.spans);
                    assert(parsed.spans@.subrange(0, start) =~= old(parsed).spans@);
                    assert forall|k: int|
                        0 <= k < (done + step.spans).len() && #[trigger] (done + step.spans)[k].style == Style::Tag
                            && (done + step.spans)[k].start + 1 < (done + step.spans)[k].end implies line@[(done
                        + step.spans)[k].start - offset + 1] != '#' by {
                        if k < done.len() {
                            assert((done + step.spans)[k] == done[k]);
                        } else {
                            assert((done + step.spans)[k] == step.spans[k - done.len()]);
                        }
                    }
                }
                i = n;
            },
            None => {
                assert(inline_items(line@, i as int, offset as int) == inline_items(line@, i + 1, offset as int));
                i = i + 1;
            },
        }
    }
    assert(parsed.spans@ + inline_items(line@, i as int, offset as int).0 =~= parsed.spans@);
    assert(parsed.markers@ + inline_items(line@, i as int, offset as int).1 =~= parsed.markers@);
    assert(parsed.spans@.subrange(old(parsed).spans@.len() as int, parsed.spans@.len() as int) =~= items.0);
}

/// Only a tag step reports a tag.
proof fn lemma_no_tags(line: Seq<char>, i: int, off: int)
    ensures
        code_step(line, i, off) matches Some(s) ==> tags_hash_once(line, off, s.spans),
        embed_step(line, i, off) matches Some(s) ==> tags_hash_once(line, off, s.spans),
        wikilink_step(line, i, off) matches Some(s) ==> tags_hash_once(line, off, s.spans),
        link_step(line, i, off) matches Some(s) ==> tags_hash_once(line, off, s.spans),
        url_step(line, i, off) matches Some(s) ==> tags_hash_once(line, off, s.spans),
        both_step(line, i, off) matches Some(s) ==> tags_hash_once(line, off, s.spans),
        emphasis_step(line, i, off) matches Some(s) ==> tags_hash_once(line, off, s.spans),
{
    if let Some(s) = both_step(line, i, off) {
        assert forall|k: int| 0 <= k < s.spans.len() implies #[trigger] s.spans[k].style != Style::Tag by {}
    }
}

} // verus!
