//! Every formatting action writes syntax the scanner styles: a button never
//! produces text that the editor shows as plain prose.
use vstd::prelude::*;
use crate::types::{Style, Span, LineState};
use crate::text::{
    find_from, lemma_find_from, lemma_matches_char, matches_at, is_white_space, is_digit, run_end,
    lemma_run_end_is, digits_end,
};
use crate::inline::{
    Step, inline_step, inline_items, code_step, embed_step, wikilink_step, link_step, url_step,
    tag_step, both_step, emphasis_step, delimited_step, http_scheme, https_scheme,
};
use crate::block::{
    line_out, normal_out, content_out, block_prefix, fence_line, rule_line, table_row_line,
    delimiter_line,
};
use crate::note::{scan_note, line_end, opens_frontmatter};
use crate::format::{Format, EditModel, written, heading_depth};

verus! {

/// An ASCII letter.
pub open spec fn is_letter(c: char) -> bool {
    ('a' <= c && c <= 'z') || ('A' <= c && c <= 'Z')
}

/// A word of one or more ASCII letters.
pub open spec fn plain_word(word: Seq<char>) -> bool {
    word.len() > 0 && forall|k: int| 0 <= k < word.len() ==> is_letter(#[trigger] word[k])
}

/// What a format writes around `word`: its two halves either side of it, or
/// its prefix before it. A block ignores the word.
pub open spec fn written_around(format: Format, word: Seq<char>) -> Seq<char> {
    match written(format) {
        EditModel::Wrap { before, after } => before + word + after,
        EditModel::Prefix { prefix } => prefix + word,
        EditModel::Block { text, .. } => text,
    }
}

/// The style what a format writes around a word is scanned as: its own
/// style for an inline format, its block's for a line prefix. Blocks of
/// their own lines have none.
pub open spec fn styled_as(format: Format) -> Option<Style> {
    match format {
        Format::Bold => Some(Style::Bold),
        Format::Italic => Some(Style::Italic),
        Format::Strikethrough => Some(Style::Strikethrough),
        Format::Code => Some(Style::Code),
        Format::Heading(level) => Some(Style::Heading(heading_depth(level) as u8)),
        Format::Quote => Some(Style::Quote),
        Format::Bullet => Some(Style::ListItem(0)),
        Format::Task => Some(Style::Task(false)),
        Format::WikiLink => Some(Style::WikiLink),
        Format::Link => Some(Style::Link),
        Format::CodeBlock => None,
        Format::Table => None,
        Format::Rule => None,
    }
}

/// `needle` is not at `at` when the characters differ `i` in.
proof fn lemma_no_match(line: Seq<char>, at: int, needle: Seq<char>, i: int)
    requires
        0 <= i < needle.len(),
        0 <= at,
        at + i < line.len(),
        line[at + i] != needle[i],
    ensures
        !matches_at(line, at, needle),
{
    if matches_at(line, at, needle) {
        assert(line.subrange(at, at + needle.len())[i] == line[at + i]);
    }
}

/// The first `needle` from `from` is at `at` when it is there and nowhere
/// before.
proof fn lemma_find_is(line: Seq<char>, from: int, needle: Seq<char>, at: int)
    requires
        0 <= from <= at,
        matches_at(line, at, needle),
        forall|j: int| from <= j < at ==> !matches_at(line, j, needle),
    ensures
        find_from(line, from, needle) == Some(at),
{
    lemma_find_from(line, from, needle);
    match find_from(line, from, needle) {
        Some(found) => {
            if found < at {
                assert(!matches_at(line, found, needle));
            }
        },
        None => {},
    }
}

/// A line with a letter in it, no newline, and neither a fence, a pipe nor
/// whitespace where those would count, scans as a normal line.
proof fn lemma_plain_line(text: Seq<char>, letter: int)
    requires
        0 <= letter < text.len(),
        is_letter(text[letter]),
        forall|k: int| 0 <= k < text.len() ==> #[trigger] text[k] != '\n',
        text[0] != ' ',
        text[0] != '|',
        !is_white_space(text.last()),
        !matches_at(text, 0, seq!['`', '`', '`']),
        !matches_at(text, 0, seq!['~', '~', '~']),
    ensures
        scan_note(text).spans == content_out(text, 0, seq![]).spans,
{
    lemma_find_from(text, 0, seq!['\n']);
    if let Some(at) = find_from(text, 0, seq!['\n']) {
        lemma_matches_char(text, at, '\n');
    }
    assert(line_end(text, 0) == text.len());
    assert(text.subrange(0, text.len() as int) =~= text);
    assert(run_end(text, 0, ' ') == 0);
    assert(crate::text::back_white(text, 0, text.len() as int) == text.len());
    assert(crate::text::trimmed_end(text) =~= text);
    assert(!delimiter_line(text)) by {
        if text.len() == 3 {
            assert(text[letter] != seq!['-', '-', '-'][letter]);
        }
    }
    assert(!opens_frontmatter(text));
    assert(!fence_line(text));
    assert(!rule_line(text)) by {
        assert(!is_white_space(text[letter]));
    }
    assert(!table_row_line(text));
    reveal(line_out);
    let out = line_out(text, 0, LineState::Normal, true, None, seq![]);
    assert(out == normal_out(text, 0, None, seq![]));
    assert(out == content_out(text, 0, seq![]));
    assert(out.spans + seq![] =~= out.spans);
}

/// The first span of a scan, when there is one.
pub open spec fn first_style(text: Seq<char>) -> Option<Style> {
    if scan_note(text).spans.len() > 0 {
        Some(scan_note(text).spans[0].style)
    } else {
        None
    }
}

proof fn lemma_heading(level: u8, word: Seq<char>)
    requires
        plain_word(word),
    ensures
        first_style(written_around(Format::Heading(level), word)) == styled_as(Format::Heading(level)),
{
    let d = heading_depth(level) as int;
    let prefix = Seq::new(d as nat, |k: int| '#').push(' ');
    let text = prefix + word;
    assert(text == written_around(Format::Heading(level), word));
    assert forall|k: int| 0 <= k < text.len() implies #[trigger] text[k] != '\n' by {
        if k >= d + 1 {
            assert(text[k] == word[k - d - 1]);
        }
    }
    assert(text.last() == word.last());
    assert(text[d + 1] == word[0]);
    lemma_no_match(text, 0, seq!['`', '`', '`'], 0);
    lemma_no_match(text, 0, seq!['~', '~', '~'], 0);
    lemma_plain_line(text, d + 1);
    assert forall|k: int| 0 <= k < d implies #[trigger] text[k] == '#' by {}
    lemma_run_end_is(text, 0, d, '#');
    assert(text.subrange(0, text.len() as int) =~= text);
    let p = block_prefix(text, 0, seq![]);
    assert(p.style == Some(Style::Heading(d as u8)));
    assert(p.content == d + 1);
    assert(p.task.len() == 0);
}

proof fn lemma_quote(word: Seq<char>)
    requires
        plain_word(word),
    ensures
        first_style(written_around(Format::Quote, word)) == styled_as(Format::Quote),
{
    let text = seq!['>', ' '] + word;
    assert forall|k: int| 0 <= k < text.len() implies #[trigger] text[k] != '\n' by {
        if k >= 2 {
            assert(text[k] == word[k - 2]);
        }
    }
    assert(text.last() == word.last());
    assert(text[2] == word[0]);
    lemma_no_match(text, 0, seq!['`', '`', '`'], 0);
    lemma_no_match(text, 0, seq!['~', '~', '~'], 0);
    lemma_plain_line(text, 2);
    assert(run_end(text, 0, '#') == 0);
    assert(text.subrange(0, text.len() as int) =~= text);
    let p = block_prefix(text, 0, seq![]);
    assert(p.style == Some(Style::Quote));
    assert(p.content == 2);
    assert(p.task.len() == 0);
}

proof fn lemma_bullet(word: Seq<char>)
    requires
        plain_word(word),
    ensures
        first_style(written_around(Format::Bullet, word)) == styled_as(Format::Bullet),
{
    let text = seq!['-', ' '] + word;
    assert forall|k: int| 0 <= k < text.len() implies #[trigger] text[k] != '\n' by {
        if k >= 2 {
            assert(text[k] == word[k - 2]);
        }
    }
    assert(text.last() == word.last());
    assert(text[2] == word[0]);
    lemma_no_match(text, 0, seq!['`', '`', '`'], 0);
    lemma_no_match(text, 0, seq!['~', '~', '~'], 0);
    lemma_plain_line(text, 2);
    assert(run_end(text, 0, '#') == 0);
    assert(text.subrange(0, text.len() as int) =~= text);
    assert(text.subrange(2, text.len() as int) =~= word);
    let p = block_prefix(text, 0, seq![]);
    assert(crate::types::entered(seq![], 0) =~= seq![0u8]);
    assert(p.style == Some(Style::ListItem(0)));
    assert(p.content == 2);
    assert(p.task.len() == 0);
}

proof fn lemma_task(word: Seq<char>)
    requires
        plain_word(word),
    ensures
        first_style(written_around(Format::Task, word)) == styled_as(Format::Task),
{
    let text = seq!['-', ' ', '[', ' ', ']', ' '] + word;
    assert forall|k: int| 0 <= k < text.len() implies #[trigger] text[k] != '\n' by {
        if k >= 6 {
            assert(text[k] == word[k - 6]);
        }
    }
    assert(text.last() == word.last());
    assert(text[6] == word[0]);
    lemma_no_match(text, 0, seq!['`', '`', '`'], 0);
    lemma_no_match(text, 0, seq!['~', '~', '~'], 0);
    lemma_plain_line(text, 6);
    assert(run_end(text, 0, '#') == 0);
    assert(text.subrange(0, text.len() as int) =~= text);
    let after = text.subrange(2, text.len() as int);
    assert(after[0] == '[' && after[1] == ' ' && after[2] == ']' && after[3] == ' ');
    let p = block_prefix(text, 0, seq![]);
    assert(p.task.len() == 1);
    assert(p.task[0].style == Style::Task(false));
}

/// A line that opens with an inline construct running to its end, and no
/// block syntax, is styled first as that construct.
proof fn lemma_wrapped(text: Seq<char>, letter: int)
    requires
        0 <= letter < text.len(),
        is_letter(text[letter]),
        forall|k: int| 0 <= k < text.len() ==> #[trigger] text[k] != '\n',
        text[0] == '*' || text[0] == '_' || text[0] == '~' || text[0] == '`' || text[0] == '[',
        text.len() > 1,
        text[1] != ' ',
        !is_white_space(text.last()),
        !matches_at(text, 0, seq!['`', '`', '`']),
        !matches_at(text, 0, seq!['~', '~', '~']),
        inline_step(text, 0, 0) matches Some(s) && s.next == text.len() && s.spans.len() > 0,
    ensures
        first_style(text) == Some(inline_step(text, 0, 0).unwrap().spans[0].style),
        scan_note(text).spans == inline_step(text, 0, 0).unwrap().spans,
{
    lemma_plain_line(text, letter);
    assert(run_end(text, 0, '#') == 0);
    assert(digits_end(text, 0) == 0);
    assert(text.subrange(0, text.len() as int) =~= text);
    let p = block_prefix(text, 0, seq![]);
    assert(p.style is None);
    assert(p.content == 0);
    assert(p.task.len() == 0);
    let s = inline_step(text, 0, 0).unwrap();
    assert(inline_items(text, text.len() as int, 0).0.len() == 0);
    assert(inline_items(text, 0, 0).0 == s.spans + inline_items(text, text.len() as int, 0).0);
    assert(content_out(text, 0, seq![]).spans =~= s.spans);
}

/// No match of a needle that opens with `c` among letters.
proof fn lemma_none_among_letters(text: Seq<char>, needle: Seq<char>, lo: int, hi: int)
    requires
        needle.len() > 0,
        !is_letter(needle[0]),
        0 <= lo <= hi <= text.len(),
        forall|k: int| lo <= k < hi ==> is_letter(#[trigger] text[k]),
    ensures
        forall|j: int| lo <= j < hi ==> !matches_at(text, j, needle),
{
    assert forall|j: int| lo <= j < hi implies !matches_at(text, j, needle) by {
        assert(is_letter(text[j]));
        lemma_no_match(text, j, needle, 0);
    }
}

/// The characters of a word set between `before` and `after`.
proof fn lemma_framed(before: Seq<char>, word: Seq<char>, after: Seq<char>)
    requires
        plain_word(word),
        forall|k: int| 0 <= k < before.len() ==> #[trigger] before[k] != '\n',
        forall|k: int| 0 <= k < after.len() ==> #[trigger] after[k] != '\n',
    ensures
        forall|k: int| 0 <= k < (before + word + after).len() ==> #[trigger] (before + word + after)[k] != '\n',
        forall|k: int|
            before.len() <= k < before.len() + word.len() ==> is_letter(#[trigger] (before + word + after)[k]),
        (before + word + after)[before.len() as int] == word[0],
{
    let text = before + word + after;
    assert forall|k: int| 0 <= k < text.len() implies #[trigger] text[k] != '\n' by {
        if k < before.len() {
            assert(text[k] == before[k]);
        } else if k < before.len() + word.len() {
            assert(text[k] == word[k - before.len()]);
        } else {
            assert(text[k] == after[k - before.len() - word.len()]);
        }
    }
    assert forall|k: int| before.len() <= k < before.len() + word.len() implies is_letter(#[trigger] text[k]) by {
        assert(text[k] == word[k - before.len()]);
    }
}

proof fn lemma_bold(word: Seq<char>)
    requires
        plain_word(word),
    ensures
        first_style(written_around(Format::Bold, word)) == styled_as(Format::Bold),
        scan_note(seq!['*', '*'] + word + seq!['*', '*']).spans == seq![
            Span { start: 2, end: (word.len() + 2) as usize, style: Style::Bold },
        ],
{
    let n = word.len() as int;
    let run = seq!['*', '*'];
    let text = run + word + run;
    lemma_framed(run, word, run);
    assert(text.last() == '*');
    assert(text[1] == '*');
    lemma_no_match(text, 0, seq!['`', '`', '`'], 0);
    lemma_no_match(text, 0, seq!['~', '~', '~'], 0);
    reveal(inline_step);
    lemma_no_match(text, 0, seq!['!', '[', '['], 0);
    lemma_no_match(text, 0, seq!['[', '['], 0);
    lemma_no_match(text, 0, http_scheme(), 0);
    lemma_no_match(text, 0, https_scheme(), 0);
    lemma_no_match(text, 0, seq![text[0], text[0], text[0]], 2);
    assert(code_step(text, 0, 0) is None);
    assert(embed_step(text, 0, 0) is None);
    assert(wikilink_step(text, 0, 0) is None);
    assert(link_step(text, 0, 0) is None);
    assert(url_step(text, 0, 0) is None);
    assert(tag_step(text, 0, 0) is None);
    assert(both_step(text, 0, 0) is None);
    assert(text.subrange(0, 2) =~= run);
    assert(text.subrange(n + 2, n + 4) =~= run);
    lemma_none_among_letters(text, run, 2, n + 2);
    lemma_find_is(text, 2, run, n + 2);
    assert(delimited_step(text, 0, 0, run, Style::Bold) is Some);
    lemma_wrapped(text, 2);
}

proof fn lemma_italic(word: Seq<char>)
    requires
        plain_word(word),
    ensures
        first_style(written_around(Format::Italic, word)) == styled_as(Format::Italic),
        scan_note(seq!['*'] + word + seq!['*']).spans == seq![
            Span { start: 1, end: (word.len() + 1) as usize, style: Style::Italic },
        ],
{
    let n = word.len() as int;
    let star = seq!['*'];
    let text = star + word + star;
    lemma_framed(star, word, star);
    assert(text.last() == '*');
    lemma_no_match(text, 0, seq!['`', '`', '`'], 0);
    lemma_no_match(text, 0, seq!['~', '~', '~'], 0);
    reveal(inline_step);
    lemma_no_match(text, 0, seq!['!', '[', '['], 0);
    lemma_no_match(text, 0, seq!['[', '['], 0);
    lemma_no_match(text, 0, http_scheme(), 0);
    lemma_no_match(text, 0, https_scheme(), 0);
    lemma_no_match(text, 0, seq![text[0], text[0], text[0]], 1);
    lemma_no_match(text, 0, seq!['*', '*'], 1);
    lemma_no_match(text, 0, seq!['_', '_'], 0);
    lemma_no_match(text, 0, seq!['~', '~'], 0);
    assert(both_step(text, 0, 0) is None);
    assert(delimited_step(text, 0, 0, seq!['*', '*'], Style::Bold) is None);
    assert(delimited_step(text, 0, 0, seq!['_', '_'], Style::Bold) is None);
    assert(delimited_step(text, 0, 0, seq!['~', '~'], Style::Strikethrough) is None);
    assert(text.subrange(0, 1) =~= star);
    assert(text.subrange(n + 1, n + 2) =~= star);
    lemma_none_among_letters(text, star, 1, n + 1);
    lemma_find_is(text, 1, star, n + 1);
    assert(delimited_step(text, 0, 0, star, Style::Italic) is Some);
    lemma_wrapped(text, 1);
}

proof fn lemma_strikethrough(word: Seq<char>)
    requires
        plain_word(word),
    ensures
        first_style(written_around(Format::Strikethrough, word)) == styled_as(Format::Strikethrough),
{
    let n = word.len() as int;
    let run = seq!['~', '~'];
    let text = run + word + run;
    lemma_framed(run, word, run);
    assert(text.last() == '~');
    assert(text[1] == '~');
    lemma_no_match(text, 0, seq!['`', '`', '`'], 0);
    lemma_no_match(text, 0, seq!['~', '~', '~'], 2);
    reveal(inline_step);
    lemma_no_match(text, 0, seq!['!', '[', '['], 0);
    lemma_no_match(text, 0, seq!['[', '['], 0);
    lemma_no_match(text, 0, http_scheme(), 0);
    lemma_no_match(text, 0, https_scheme(), 0);
    lemma_no_match(text, 0, seq!['*', '*'], 0);
    lemma_no_match(text, 0, seq!['_', '_'], 0);
    assert(both_step(text, 0, 0) is None);
    assert(delimited_step(text, 0, 0, seq!['*', '*'], Style::Bold) is None);
    assert(delimited_step(text, 0, 0, seq!['_', '_'], Style::Bold) is None);
    assert(text.subrange(0, 2) =~= run);
    assert(text.subrange(n + 2, n + 4) =~= run);
    lemma_none_among_letters(text, run, 2, n + 2);
    lemma_find_is(text, 2, run, n + 2);
    assert(delimited_step(text, 0, 0, run, Style::Strikethrough) is Some);
    lemma_wrapped(text, 2);
}

proof fn lemma_code(word: Seq<char>)
    requires
        plain_word(word),
    ensures
        first_style(written_around(Format::Code, word)) == styled_as(Format::Code),
{
    let n = word.len() as int;
    let tick = seq!['`'];
    let text = tick + word + tick;
    lemma_framed(tick, word, tick);
    assert(text.last() == '`');
    lemma_no_match(text, 0, seq!['`', '`', '`'], 1);
    lemma_no_match(text, 0, seq!['~', '~', '~'], 0);
    reveal(inline_step);
    assert(text.subrange(n + 1, n + 2) =~= tick);
    lemma_none_among_letters(text, tick, 1, n + 1);
    lemma_find_is(text, 1, tick, n + 1);
    assert(code_step(text, 0, 0) is Some);
    lemma_wrapped(text, 1);
}

proof fn lemma_wikilink(word: Seq<char>)
    requires
        plain_word(word),
    ensures
        first_style(written_around(Format::WikiLink, word)) == styled_as(Format::WikiLink),
{
    let n = word.len() as int;
    let open = seq!['[', '['];
    let close = seq![']', ']'];
    let text = open + word + close;
    lemma_framed(open, word, close);
    assert(text.last() == ']');
    assert(text[1] == '[');
    lemma_no_match(text, 0, seq!['`', '`', '`'], 0);
    lemma_no_match(text, 0, seq!['~', '~', '~'], 0);
    reveal(inline_step);
    lemma_no_match(text, 0, seq!['!', '[', '['], 0);
    assert(code_step(text, 0, 0) is None);
    assert(embed_step(text, 0, 0) is None);
    assert(text.subrange(0, 2) =~= open);
    assert(text.subrange(n + 2, n + 4) =~= close);
    lemma_none_among_letters(text, close, 2, n + 2);
    lemma_find_is(text, 2, close, n + 2);
    let head = text.subrange(0, n + 2);
    lemma_find_from(head, 2, seq!['|']);
    if let Some(pipe) = find_from(head, 2, seq!['|']) {
        lemma_matches_char(head, pipe, '|');
        assert(head[pipe] == text[pipe]);
        assert(is_letter(text[pipe]));
    }
    assert(wikilink_step(text, 0, 0) is Some);
    lemma_wrapped(text, 2);
}

proof fn lemma_link(word: Seq<char>)
    requires
        plain_word(word),
    ensures
        first_style(written_around(Format::Link, word)) == styled_as(Format::Link),
{
    let n = word.len() as int;
    let open = seq!['['];
    let after = seq![']', '(', 'h', 't', 't', 'p', 's', ':', '/', '/', ')'];
    let text = open + word + after;
    assert forall|k: int| 0 <= k < after.len() implies #[trigger] after[k] != '\n' by {
        assert(k == 0 || k == 1 || k == 2 || k == 3 || k == 4 || k == 5 || k == 6 || k == 7 || k
            == 8 || k == 9 || k == 10);
    }
    lemma_framed(open, word, after);
    assert(text.last() == ')');
    lemma_no_match(text, 0, seq!['`', '`', '`'], 0);
    lemma_no_match(text, 0, seq!['~', '~', '~'], 0);
    reveal(inline_step);
    lemma_no_match(text, 0, seq!['!', '[', '['], 0);
    lemma_no_match(text, 0, seq!['[', '['], 1);
    assert(code_step(text, 0, 0) is None);
    assert(embed_step(text, 0, 0) is None);
    assert(wikilink_step(text, 0, 0) is None);
    assert(text[n + 1] == ']');
    assert(text[n + 2] == '(');
    assert(text[n + 11] == ')');
    lemma_matches_char(text, n + 1, ']');
    lemma_none_among_letters(text, seq![']'], 1, n + 1);
    lemma_find_is(text, 1, seq![']'], n + 1);
    lemma_matches_char(text, n + 11, ')');
    assert forall|j: int| n + 3 <= j < n + 11 implies !matches_at(text, j, seq![')']) by {
        lemma_matches_char(text, j, ')');
        assert(text[j] == after[j - n - 1]);
        let k = j - n - 1;
        assert(k == 2 || k == 3 || k == 4 || k == 5 || k == 6 || k == 7 || k == 8 || k == 9);
    }
    lemma_find_is(text, n + 3, seq![')'], n + 11);
    assert(link_step(text, 0, 0) is Some);
    lemma_wrapped(text, 1);
}

/// Every formatting action that styles a word writes syntax the scanner
/// styles that way: what it writes around a plain word scans first as the
/// format's own style (bold as bold, a heading as a heading of the level it
/// was asked for, held to one to six, a bullet as a list item, a task as an
/// unticked checkbox), so a button never writes text the editor shows as
/// plain prose.
pub proof fn law_formats_write_what_the_scanner_styles(format: Format, word: Seq<char>)
    requires
        plain_word(word),
        styled_as(format) is Some,
    ensures
        first_style(written_around(format, word)) == styled_as(format),
{
    match format {
        Format::Bold => lemma_bold(word),
        Format::Italic => lemma_italic(word),
        Format::Strikethrough => lemma_strikethrough(word),
        Format::Code => lemma_code(word),
        Format::Heading(level) => lemma_heading(level, word),
        Format::Quote => lemma_quote(word),
        Format::Bullet => lemma_bullet(word),
        Format::Task => lemma_task(word),
        Format::WikiLink => lemma_wikilink(word),
        Format::Link => lemma_link(word),
        _ => {},
    }
}

/// `__word__` scanned: the step it opens with.
proof fn lemma_double_underscore(word: Seq<char>)
    requires
        plain_word(word),
    ensures
        scan_note(seq!['_', '_'] + word + seq!['_', '_']).spans == seq![
            Span { start: 2, end: (word.len() + 2) as usize, style: Style::Bold },
        ],
{
    let n = word.len() as int;
    let run = seq!['_', '_'];
    let text = run + word + run;
    lemma_framed(run, word, run);
    assert(text.last() == '_');
    assert(text[1] == '_');
    lemma_no_match(text, 0, seq!['`', '`', '`'], 0);
    lemma_no_match(text, 0, seq!['~', '~', '~'], 0);
    reveal(inline_step);
    lemma_no_match(text, 0, seq!['!', '[', '['], 0);
    lemma_no_match(text, 0, seq!['[', '['], 0);
    lemma_no_match(text, 0, http_scheme(), 0);
    lemma_no_match(text, 0, https_scheme(), 0);
    lemma_no_match(text, 0, seq![text[0], text[0], text[0]], 2);
    lemma_no_match(text, 0, seq!['*', '*'], 0);
    assert(code_step(text, 0, 0) is None);
    assert(embed_step(text, 0, 0) is None);
    assert(wikilink_step(text, 0, 0) is None);
    assert(link_step(text, 0, 0) is None);
    assert(url_step(text, 0, 0) is None);
    assert(tag_step(text, 0, 0) is None);
    assert(both_step(text, 0, 0) is None);
    assert(delimited_step(text, 0, 0, seq!['*', '*'], Style::Bold) is None);
    assert(text.subrange(0, 2) =~= run);
    assert(text.subrange(n + 2, n + 4) =~= run);
    lemma_none_among_letters(text, run, 2, n + 2);
    lemma_find_is(text, 2, run, n + 2);
    assert(delimited_step(text, 0, 0, run, Style::Bold) is Some);
    lemma_wrapped(text, 2);
}

/// `_word_` scanned: the step it opens with.
proof fn lemma_single_underscore(word: Seq<char>)
    requires
        plain_word(word),
    ensures
        scan_note(seq!['_'] + word + seq!['_']).spans == seq![
            Span { start: 1, end: (word.len() + 1) as usize, style: Style::Italic },
        ],
{
    let n = word.len() as int;
    let mark = seq!['_'];
    let text = mark + word + mark;
    lemma_framed(mark, word, mark);
    assert(text.last() == '_');
    lemma_no_match(text, 0, seq!['`', '`', '`'], 0);
    lemma_no_match(text, 0, seq!['~', '~', '~'], 0);
    reveal(inline_step);
    lemma_no_match(text, 0, seq!['!', '[', '['], 0);
    lemma_no_match(text, 0, seq!['[', '['], 0);
    lemma_no_match(text, 0, http_scheme(), 0);
    lemma_no_match(text, 0, https_scheme(), 0);
    lemma_no_match(text, 0, seq![text[0], text[0], text[0]], 1);
    lemma_no_match(text, 0, seq!['*', '*'], 0);
    lemma_no_match(text, 0, seq!['_', '_'], 1);
    lemma_no_match(text, 0, seq!['~', '~'], 0);
    lemma_no_match(text, 0, seq!['*'], 0);
    assert(both_step(text, 0, 0) is None);
    assert(delimited_step(text, 0, 0, seq!['*', '*'], Style::Bold) is None);
    assert(delimited_step(text, 0, 0, seq!['_', '_'], Style::Bold) is None);
    assert(delimited_step(text, 0, 0, seq!['~', '~'], Style::Strikethrough) is None);
    assert(delimited_step(text, 0, 0, seq!['*'], Style::Italic) is None);
    assert(text.subrange(0, 1) =~= mark);
    assert(text.subrange(n + 1, n + 2) =~= mark);
    lemma_none_among_letters(text, mark, 1, n + 1);
    lemma_find_is(text, 1, mark, n + 1);
    assert(delimited_step(text, 0, 0, mark, Style::Italic) is Some);
    lemma_wrapped(text, 1);
}

proof fn lemma_bold_spans(word: Seq<char>)
    requires
        plain_word(word),
    ensures
        scan_note(seq!['*', '*'] + word + seq!['*', '*']).spans == seq![
            Span { start: 2, end: (word.len() + 2) as usize, style: Style::Bold },
        ],
{
    lemma_bold(word);
}

proof fn lemma_italic_spans(word: Seq<char>)
    requires
        plain_word(word),
    ensures
        scan_note(seq!['*'] + word + seq!['*']).spans == seq![
            Span { start: 1, end: (word.len() + 1) as usize, style: Style::Italic },
        ],
{
    lemma_italic(word);
}

/// Doubled delimiters mean bold and single ones italic, whichever of `*`
/// and `_` is used: a word wrapped in `**` or `__` is one bold span over the
/// word, and a word wrapped in `*` or `_` one italic span over it.
pub proof fn law_doubled_delimiters_are_bold_single_ones_italic(word: Seq<char>)
    requires
        plain_word(word),
    ensures
        scan_note(seq!['*', '*'] + word + seq!['*', '*']).spans == seq![
            Span { start: 2, end: (word.len() + 2) as usize, style: Style::Bold },
        ],
        scan_note(seq!['_', '_'] + word + seq!['_', '_']).spans == seq![
            Span { start: 2, end: (word.len() + 2) as usize, style: Style::Bold },
        ],
        scan_note(seq!['*'] + word + seq!['*']).spans == seq![
            Span { start: 1, end: (word.len() + 1) as usize, style: Style::Italic },
        ],
        scan_note(seq!['_'] + word + seq!['_']).spans == seq![
            Span { start: 1, end: (word.len() + 1) as usize, style: Style::Italic },
        ],
{
    lemma_bold_spans(word);
    lemma_double_underscore(word);
    lemma_italic_spans(word);
    lemma_single_underscore(word);
}

} // verus!
