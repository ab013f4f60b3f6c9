//! The line scanner: what a line is, and the state the next line begins in.
use vstd::prelude::*;
use crate::types::{
    Style, Span, Marker, LineState, ListLevels, Parsed, span_of, marker_of, entered, depth_of,
    clamp_indent, entered_slots, cleared_slots, slots_valid, widths_of, lemma_entered_slots,
};
use crate::text::{
    is_white_space, is_whitespace, matches_at, find_from, find, starts_with_at, run_end,
    run_end_at, leading_spaces, digits_end, digits_end_at, skip_white, back_white,
    skip_white_at, back_white_at, skip_char, back_char, skip_char_at, back_char_at,
    trimmed_end,
};
use crate::inline::{inline_items, scan_inline, tags_hash_once};

verus! {

/// A fence: three backticks or three tildes after any spaces, optionally with
/// a language.
pub open spec fn fence_line(line: Seq<char>) -> bool {
    let at = leading_spaces(line);
    matches_at(line, at, seq!['`', '`', '`']) || matches_at(line, at, seq!['~', '~', '~'])
}

/// `---`, the frontmatter delimiter, with nothing after it but whitespace.
pub open spec fn delimiter_line(line: Seq<char>) -> bool {
    trimmed_end(line) == seq!['-', '-', '-']
}

/// How many characters of `s` are not whitespace.
pub open spec fn non_white_count(s: Seq<char>) -> int
    decreases s.len(),
{
    if s.len() == 0 {
        0
    } else {
        non_white_count(s.drop_last()) + if is_white_space(s.last()) {
            0int
        } else {
            1int
        }
    }
}

/// Three or more `fill` and nothing else but whitespace.
pub open spec fn rule_of(line: Seq<char>, fill: char) -> bool {
    &&& forall|k: int| 0 <= k < line.len() ==> is_white_space(#[trigger] line[k]) || line[k] == fill
    &&& non_white_count(line) >= 3
}

/// A thematic break: three or more of `-`, `*` or `_` and nothing else.
pub open spec fn rule_line(line: Seq<char>) -> bool {
    rule_of(line, '-') || rule_of(line, '*') || rule_of(line, '_')
}

/// How many times `c` occurs in `s`.
pub open spec fn count_of(s: Seq<char>, c: char) -> int
    decreases s.len(),
{
    if s.len() == 0 {
        0
    } else {
        count_of(s.drop_last(), c) + if s.last() == c {
            1int
        } else {
            0int
        }
    }
}

/// A row of a table: `| a | b |`. A leading pipe is required.
pub open spec fn table_row_line(line: Seq<char>) -> bool {
    let at = leading_spaces(line);
    at < line.len() && line[at] == '|' && count_of(line.subrange(at, line.len() as int), '|') >= 2
}

/// The cell `line[lo..hi]`, trimmed, is dashes and colons with a dash among
/// them.
pub open spec fn dash_cell(line: Seq<char>, lo: int, hi: int) -> bool {
    let a = skip_white(line, lo, hi);
    let b = back_white(line, a, hi);
    &&& exists|k: int| a <= k < b && line[k] == '-'
    &&& forall|k: int| a <= k < b ==> line[k] == '-' || line[k] == ':'
}

/// Every `|`-separated cell of `line[from..hi]` is a delimiter cell.
pub open spec fn delimiter_cells(line: Seq<char>, from: int, hi: int) -> bool
    decreases hi - from,
{
    match find_from(line.subrange(0, hi), from, seq!['|']) {
        Some(pipe) => {
            if from <= pipe < hi {
                dash_cell(line, from, pipe) && delimiter_cells(line, pipe + 1, hi)
            } else {
                false
            }
        },
        None => dash_cell(line, from, hi),
    }
}

/// The row under a table's header: `|---|:--:|`, dashes and alignment colons.
/// Outer whitespace, then outer pipes, are set aside before the cells are read.
pub open spec fn table_delimiter_line(line: Seq<char>) -> bool {
    let a = skip_white(line, 0, line.len() as int);
    let b = back_white(line, a, line.len() as int);
    let c = skip_char(line, a, b, '|');
    let d = back_char(line, c, b, '|');
    table_row_line(line) && delimiter_cells(line, c, d)
}

/// `#` to `######` followed by a space.
pub open spec fn heading_of(line: Seq<char>) -> Option<u8> {
    let hashes = run_end(line, 0, '#');
    if 1 <= hashes <= 6 && hashes < line.len() && line[hashes] == ' ' {
        Some(hashes as u8)
    } else {
        None
    }
}

/// `- `, `* ` or `+ `. Not `*emphasis*`, which has no space.
pub open spec fn bullet_of(line: Seq<char>) -> Option<int> {
    if line.len() >= 2 && (line[0] == '-' || line[0] == '*' || line[0] == '+') && line[1] == ' ' {
        Some(2)
    } else {
        None
    }
}

/// `1. ` / `12) `
pub open spec fn ordered_of(line: Seq<char>) -> Option<int> {
    let digits = digits_end(line, 0);
    if digits > 0 && digits < line.len() && digits + 1 < line.len() && (line[digits] == '.' || line[digits] == ')')
        && line[digits + 1] == ' ' {
        Some(digits + 2)
    } else {
        None
    }
}

/// The length of a list item's bullet or number, with its space.
pub open spec fn item_of(line: Seq<char>) -> Option<int> {
    match bullet_of(line) {
        Some(len) => Some(len),
        None => ordered_of(line),
    }
}

/// `[ ] ` or `[x] ` at the start of `line`: whether it is ticked, and the
/// length of the brackets without the space after them.
pub open spec fn checkbox_of(line: Seq<char>) -> Option<(bool, int)> {
    if line.len() >= 4 && line[0] == '[' && line[2] == ']' && line[3] == ' ' {
        if line[1] == ' ' {
            Some((false, 3))
        } else if line[1] == 'x' || line[1] == 'X' {
            Some((true, 3))
        } else {
            None
        }
    } else {
        None
    }
}

/// A line's block prefix: its syntax, the task box of an item, the block style
/// and where the inline content begins.
pub struct Prefix {
    pub markers: Seq<Marker>,
    pub task: Seq<Span>,
    pub style: Option<Style>,
    pub content: int,
    pub list: Seq<u8>,
}

/// The block prefix of a non-empty line, with the list nesting `list` it
/// begins in.
pub open spec fn block_prefix(line: Seq<char>, off: int, list: Seq<u8>) -> Prefix {
    let whole = (off, off + line.len());
    let indent = leading_spaces(line);
    let rest = line.subrange(indent, line.len() as int);
    // Anything else at the left edge ends the list; an indented line is a
    // continuation of the item above and leaves the nesting alone.
    let kept = if item_of(rest) is None && indent == 0 {
        Seq::<u8>::empty()
    } else {
        list
    };
    match heading_of(rest) {
        Some(level) => Prefix {
            markers: marker_of(off + indent, off + indent + level + 1, whole),
            task: seq![],
            style: Some(Style::Heading(level)),
            content: indent + level + 1,
            list: kept,
        },
        None => if rest.len() > 0 && rest[0] == '>' {
            let len: int = if rest.len() > 1 && rest[1] == ' ' {
                2
            } else {
                1
            };
            Prefix {
                markers: marker_of(off + indent, off + indent + len, whole),
                task: seq![],
                style: Some(Style::Quote),
                content: indent + len,
                list: kept,
            }
        } else {
            match item_of(rest) {
                Some(len) => {
                    let levels = entered(kept, clamp_indent(indent as usize));
                    let style = Style::ListItem(depth_of(levels));
                    match checkbox_of(rest.subrange(len, rest.len() as int)) {
                        Some((ticked, box_len)) => Prefix {
                            markers: marker_of(off, off + indent, whole),
                            task: span_of(
                                off + indent + len,
                                off + indent + len + box_len,
                                Style::Task(ticked),
                            ),
                            style: Some(style),
                            content: indent + len + box_len,
                            list: levels,
                        },
                        None => Prefix {
                            markers: marker_of(off, off + indent, whole),
                            task: seq![],
                            style: Some(style),
                            content: indent + len,
                            list: levels,
                        },
                    }
                },
                None => Prefix {
                    markers: seq![],
                    task: seq![],
                    style: None,
                    content: indent,
                    list: kept,
                },
            }
        },
    }
}

/// What one line adds to the report, and the state the next line begins in.
pub struct LineOut {
    pub spans: Seq<Span>,
    pub markers: Seq<Marker>,
    pub state: LineState,
    pub list: Seq<u8>,
}

/// A normal line: block prefix, then inline styling of what follows it.
pub open spec fn content_out(line: Seq<char>, off: int, list: Seq<u8>) -> LineOut {
    if line.len() == 0 {
        // A blank line separates items but does not end the list.
        LineOut { spans: seq![], markers: seq![], state: LineState::Normal, list }
    } else {
        let prefix = block_prefix(line, off, list);
        let indent = leading_spaces(line);
        let start = if prefix.content < line.len() {
            prefix.content
        } else {
            line.len() as int
        };
        // A marker with nothing after it yet is still that block, so the span
        // falls back to covering the marker itself.
        let block = match prefix.style {
            Some(style) => span_of(
                off + if start < line.len() {
                    start
                } else {
                    indent
                },
                off + line.len(),
                style,
            ),
            None => seq![],
        };
        let items = inline_items(line.subrange(start, line.len() as int), 0, off + start);
        LineOut {
            spans: prefix.task + block + items.0,
            markers: prefix.markers + items.1,
            state: LineState::Normal,
            list: prefix.list,
        }
    }
}

/// A table row: the pipes stay visible, the cells are styled inline.
pub open spec fn table_row_out(line: Seq<char>, off: int, list: Seq<u8>) -> LineOut {
    let items = inline_items(line, 0, off);
    LineOut {
        spans: span_of(off, off + line.len(), Style::TableRow) + items.0,
        markers: items.1,
        state: LineState::Table,
        list,
    }
}

/// A line outside any fence, frontmatter or table.
pub open spec fn normal_out(line: Seq<char>, off: int, next: Option<Seq<char>>, list: Seq<u8>) -> LineOut {
    if fence_line(line) {
        // The fence itself is syntax; the lines between are code.
        LineOut {
            spans: seq![],
            markers: marker_of(off, off + line.len(), (off, off + line.len())),
            state: LineState::Fence,
            list,
        }
    } else if rule_line(line) {
        LineOut {
            spans: span_of(off, off + line.len(), Style::Rule),
            markers: seq![],
            state: LineState::Normal,
            list,
        }
    } else if table_row_line(line) && (next matches Some(following) && table_delimiter_line(
        following,
    )) {
        table_row_out(line, off, list)
    } else {
        content_out(line, off, list)
    }
}

/// Scan one line that begins in `state`, at character offset `off` of the
/// note, followed by `next` (if any). `first` marks the note's opening line,
/// the only place a `---` can open frontmatter rather than close it.
#[verifier::opaque]
pub open spec fn line_out(
    line: Seq<char>,
    off: int,
    state: LineState,
    first: bool,
    next: Option<Seq<char>>,
    list: Seq<u8>,
) -> LineOut {
    match state {
        LineState::Frontmatter => LineOut {
            spans: span_of(off, off + line.len(), Style::Frontmatter),
            markers: seq![],
            state: if !first && delimiter_line(line) {
                LineState::Normal
            } else {
                LineState::Frontmatter
            },
            list,
        },
        LineState::Fence => if fence_line(line) {
            LineOut {
                spans: seq![],
                markers: marker_of(off, off + line.len(), (off, off + line.len())),
                state: LineState::Normal,
                list,
            }
        } else {
            LineOut {
                spans: span_of(off, off + line.len(), Style::CodeBlock),
                markers: seq![],
                state: LineState::Fence,
                list,
            }
        },
        LineState::Table => if table_delimiter_line(line) {
            LineOut {
                spans: span_of(off, off + line.len(), Style::TableDelimiter),
                markers: seq![],
                state: LineState::Table,
                list,
            }
        } else if table_row_line(line) {
            table_row_out(line, off, list)
        } else {
            // The first line that is not a row ends the table, and is then
            // scanned as whatever it actually is.
            normal_out(line, off, next, list)
        },
        LineState::Normal => normal_out(line, off, next, list),
    }
}

/// The whole list stack after a normal line: an item enters its level, and
/// anything else at the left edge leaves the list (its slots kept, none in
/// use); a blank or indented line leaves the stack exactly as it was.
pub open spec fn content_slots(line: Seq<char>, slots: (Seq<u8>, nat)) -> (Seq<u8>, nat) {
    let indent = leading_spaces(line);
    let rest = line.subrange(indent, line.len() as int);
    if line.len() == 0 {
        slots
    } else if item_of(rest) is Some {
        entered_slots(slots, clamp_indent(indent as usize))
    } else if indent == 0 {
        cleared_slots(slots)
    } else {
        slots
    }
}

/// The whole list stack after a line outside any fence, frontmatter or table.
pub open spec fn normal_slots(line: Seq<char>, next: Option<Seq<char>>, slots: (Seq<u8>, nat)) -> (Seq<u8>, nat) {
    if fence_line(line) || rule_line(line) || (table_row_line(line) && (next matches Some(following)
        && table_delimiter_line(following))) {
        slots
    } else {
        content_slots(line, slots)
    }
}

/// The whole list stack after a line that begins in `state`: only a normal
/// line can change it.
pub open spec fn line_slots(
    line: Seq<char>,
    state: LineState,
    next: Option<Seq<char>>,
    slots: (Seq<u8>, nat),
) -> (Seq<u8>, nat) {
    match state {
        LineState::Normal => normal_slots(line, next, slots),
        LineState::Table => if table_delimiter_line(line) || table_row_line(line) {
            slots
        } else {
            normal_slots(line, next, slots)
        },
        _ => slots,
    }
}

/// The levels in use after a line are those its scan reports, and the slots
/// stay valid.
pub proof fn lemma_line_slots(
    line: Seq<char>,
    off: int,
    state: LineState,
    first: bool,
    next: Option<Seq<char>>,
    slots: (Seq<u8>, nat),
)
    requires
        slots_valid(slots),
    ensures
        slots_valid(line_slots(line, state, next, slots)),
        widths_of(line_slots(line, state, next, slots)) == line_out(line, off, state, first, next, widths_of(slots)).list,
{
    reveal(line_out);
    crate::laws::lemma_run_end_bounds(line, 0, ' ');
    let indent = leading_spaces(line);
    lemma_entered_slots(slots, clamp_indent(indent as usize));
    assert(widths_of(cleared_slots(slots)) =~= Seq::<u8>::empty());
}

/// An optional line, by its characters.
pub open spec fn view_line(line: Option<&[char]>) -> Option<Seq<char>> {
    match line {
        Some(chars) => Some(chars@),
        None => None,
    }
}


/// The same length, in the two integer types.
pub open spec fn same_len(found: Option<usize>, expected: Option<int>) -> bool {
    match found {
        Some(len) => expected == Some(len as int),
        None => expected is None,
    }
}

/// A fence: three backticks or three tildes, optionally with a language.
pub(crate) fn is_fence(line: &[char]) -> (fence: bool)
    ensures
        fence == fence_line(line@),
{
    let at = run_end_at(line, 0, ' ');
    let ticks = ['`', '`', '`'];
    assert(ticks@ =~= seq!['`', '`', '`']);
    let tildes = ['~', '~', '~'];
    assert(tildes@ =~= seq!['~', '~', '~']);
    starts_with_at(line, at, &ticks) || starts_with_at(line, at, &tildes)
}

/// Exactly `---`, the frontmatter delimiter.
pub(crate) fn is_delimiter(line: &[char]) -> (delimiter: bool)
    ensures
        delimiter == delimiter_line(line@),
{
    let end = back_white_at(line, 0, line.len());
    let delimiter = end == 3 && line[0] == '-' && line[1] == '-' && line[2] == '-';
    if delimiter {
        assert(line@.subrange(0, 3) =~= seq!['-', '-', '-']);
    } else if end == 3 {
        let ghost dashes = seq!['-', '-', '-'];
        assert(dashes[0] == '-' && dashes[1] == '-' && dashes[2] == '-');
        assert(line@.subrange(0, 3)[0] == line@[0]);
        assert(line@.subrange(0, 3)[1] == line@[1]);
        assert(line@.subrange(0, 3)[2] == line@[2]);
        assert(line@.subrange(0, 3) != dashes);
    } else {
        assert(line@.subrange(0, end as int).len() != 3);
    }
    delimiter
}

/// Three or more `fill` and nothing else but whitespace.
fn is_rule_of(line: &[char], fill: char) -> (rule: bool)
    ensures
        rule == rule_of(line@, fill),
{
    let mut count: usize = 0;
    let mut k: usize = 0;
    while k < line.len()
        invariant
            k <= line@.len(),
            count <= k,
            count == non_white_count(line@.take(k as int)),
            forall|j: int| 0 <= j < k ==> is_white_space(#[trigger] line@[j]) || line@[j] == fill,
        decreases line@.len() - k,
    {
        let c = line[k];
        assert(line@.take(k + 1).drop_last() =~= line@.take(k as int));
        if is_whitespace(c) {
        } else if c == fill {
            count = count + 1;
        } else {
            assert(!(is_white_space(line@[k as int]) || line@[k as int] == fill));
            return false;
        }
        k = k + 1;
    }
    assert(line@.take(k as int) =~= line@);
    count >= 3
}

/// A thematic break: three or more of `-`, `*` or `_` and nothing else.
fn is_rule(line: &[char]) -> (rule: bool)
    ensures
        rule == rule_line(line@),
{
    is_rule_of(line, '-') || is_rule_of(line, '*') || is_rule_of(line, '_')
}

/// A row of a table: `| a | b |`.
///
/// A leading pipe is required. GFM allows rows without one, but prose like
/// "yes | no" is far more common in notes than a borderless table, and reading
/// a sentence as a table is the worse failure.
fn is_table_row(line: &[char]) -> (row: bool)
    ensures
        row == table_row_line(line@),
{
    let at = run_end_at(line, 0, ' ');
    if at >= line.len() || line[at] != '|' {
        return false;
    }
    let mut count: usize = 0;
    let mut k: usize = at;
    while k < line.len()
        invariant
            at <= k <= line@.len(),
            count <= k - at,
            count == count_of(line@.subrange(at as int, k as int), '|'),
        decreases line@.len() - k,
    {
        assert(line@.subrange(at as int, k + 1).drop_last() =~= line@.subrange(at as int, k as int));
        if line[k] == '|' {
            count = count + 1;
        }
        k = k + 1;
    }
    count >= 2
}

/// Whether `line[lo..hi]`, trimmed, is dashes and colons with a dash.
fn is_dash_cell(line: &[char], lo: usize, hi: usize) -> (cell: bool)
    requires
        lo <= hi <= line@.len(),
    ensures
        cell == dash_cell(line@, lo as int, hi as int),
{
    let a = skip_white_at(line, lo, hi);
    let b = back_white_at(line, a, hi);
    let mut dash = false;
    let mut k = a;
    while k < b
        invariant
            a <= k <= b <= line@.len(),
            a == skip_white(line@, lo as int, hi as int),
            b == back_white(line@, a as int, hi as int),
            dash <==> exists|j: int| a <= j < k && line@[j] == '-',
            forall|j: int| a <= j < k ==> line@[j] == '-' || line@[j] == ':',
        decreases b - k,
    {
        let c = line[k];
        if c == '-' {
            dash = true;
        } else if c != ':' {
            assert(!(line@[k as int] == '-' || line@[k as int] == ':'));
            assert(!(forall|j: int| a <= j < b ==> line@[j] == '-' || line@[j] == ':'));
            return false;
        }
        k = k + 1;
    }
    dash
}

/// Every `|`-separated cell of `line[from..hi]` is a delimiter cell.
fn all_dash_cells(line: &[char], from: usize, hi: usize) -> (cells: bool)
    requires
        from <= hi <= line@.len(),
    ensures
        cells == delimiter_cells(line@, from as int, hi as int),
{
    let pipe = ['|'];
    assert(pipe@ =~= seq!['|']);
    let mut at = from;
    loop
        invariant
            from <= at <= hi <= line@.len(),
            pipe@ == seq!['|'],
            delimiter_cells(line@, from as int, hi as int) == delimiter_cells(line@, at as int, hi as int),
        decreases hi - at,
    {
        match find(&line[0..hi], at, &pipe) {
            Some(end) => {
                if !is_dash_cell(line, at, end) {
                    return false;
                }
                at = end + 1;
            },
            None => {
                return is_dash_cell(line, at, hi);
            },
        }
    }
}

/// The row under a table's header: `|---|:--:|`, dashes and alignment colons.
fn is_table_delimiter(line: &[char]) -> (delimiter: bool)
    ensures
        delimiter == table_delimiter_line(line@),
{
    if !is_table_row(line) {
        return false;
    }
    let a = skip_white_at(line, 0, line.len());
    let b = back_white_at(line, a, line.len());
    let c = skip_char_at(line, a, b, '|');
    let d = back_char_at(line, c, b, '|');
    all_dash_cells(line, c, d)
}

/// `#` to `######` followed by a space.
fn heading_level(line: &[char]) -> (level: Option<u8>)
    ensures
        level == heading_of(line@),
{
    let hashes = run_end_at(line, 0, '#');
    if 1 <= hashes && hashes <= 6 && hashes < line.len() && line[hashes] == ' ' {
        Some(hashes as u8)
    } else {
        None
    }
}

/// `- `, `* ` or `+ `. Not `*emphasis*`, which has no space.
pub(crate) fn bullet_len(line: &[char]) -> (len: Option<usize>)
    ensures
        same_len(len, bullet_of(line@)),
{
    if line.len() >= 2 && (line[0] == '-' || line[0] == '*' || line[0] == '+') && line[1] == ' ' {
        Some(2)
    } else {
        None
    }
}

/// `1. ` / `12) `
pub(crate) fn ordered_len(line: &[char]) -> (len: Option<usize>)
    ensures
        same_len(len, ordered_of(line@)),
{
    let digits = digits_end_at(line, 0);
    if digits > 0 && digits < line.len() && digits + 1 < line.len() && (line[digits] == '.' || line[digits] == ')')
        && line[digits + 1] == ' ' {
        Some(digits + 2)
    } else {
        None
    }
}

/// The length of a list item's bullet or number, with its space.
pub(crate) fn item_len(line: &[char]) -> (len: Option<usize>)
    ensures
        same_len(len, item_of(line@)),
        len matches Some(n) ==> n <= line@.len(),
{
    match bullet_len(line) {
        Some(len) => Some(len),
        None => ordered_len(line),
    }
}

/// `[ ] ` or `[x] ` immediately after a bullet. Returns ticked-ness and the
/// length of the brackets, which does not include the trailing space: the
/// space belongs to the content, so deleting the checkbox leaves clean text.
pub(crate) fn checkbox(line: &[char]) -> (found: Option<(bool, usize)>)
    ensures
        match found {
            Some((ticked, len)) => checkbox_of(line@) == Some((ticked, len as int)),
            None => checkbox_of(line@) is None,
        },
{
    if line.len() < 4 || line[0] != '[' || line[2] != ']' || line[3] != ' ' {
        return None;
    }
    if line[1] == ' ' {
        Some((false, 3))
    } else if line[1] == 'x' || line[1] == 'X' {
        Some((true, 3))
    } else {
        None
    }
}


/// `after` is `before` with a line's spans and markers added.
pub open spec fn reported(before: Parsed, after: Parsed, out: LineOut) -> bool {
    &&& after.spans@ == before.spans@ + out.spans
    &&& after.markers@ == before.markers@ + out.markers
    &&& after.line_states@ == before.line_states@
    &&& after.line_lists@ == before.line_lists@
}

/// What holds of the tags of a stretch of a line holds of them in the line.
proof fn lemma_tags_within(line: Seq<char>, off: int, start: int, spans: Seq<Span>)
    requires
        0 <= start <= line.len(),
        tags_hash_once(line.subrange(start, line.len() as int), off + start, spans),
        crate::laws::spans_within(spans, off + start, off + line.len()),
    ensures
        tags_hash_once(line, off, spans),
{
    let tail = line.subrange(start, line.len() as int);
    assert forall|k: int|
        0 <= k < spans.len() && #[trigger] spans[k].style == Style::Tag && spans[k].start + 1 < spans[k].end
            implies line[spans[k].start - off + 1] != '#' by {
        assert(tail[spans[k].start - (off + start) + 1] == line[spans[k].start - off + 1]);
    }
}

/// Spans with no tag among them, then spans whose tags hold.
proof fn lemma_tags_after(line: Seq<char>, off: int, a: Seq<Span>, b: Seq<Span>)
    requires
        forall|k: int| 0 <= k < a.len() ==> #[trigger] a[k].style != Style::Tag,
        tags_hash_once(line, off, b),
    ensures
        tags_hash_once(line, off, a + b),
{
    assert forall|k: int|
        0 <= k < (a + b).len() && #[trigger] (a + b)[k].style == Style::Tag && (a + b)[k].start + 1 < (a + b)[k].end
            implies line[(a + b)[k].start - off + 1] != '#' by {
        if k < a.len() {
            assert((a + b)[k] == a[k]);
        } else {
            assert((a + b)[k] == b[k - a.len()]);
        }
    }
}

/// A normal line: block prefix, then inline styling of what follows it.
#[verifier::rlimit(50)]
fn content(line: &[char], offset: usize, list: &mut ListLevels, parsed: &mut Parsed)
    requires
        offset + line@.len() <= usize::MAX,
    ensures
        reported(*old(parsed), *final(parsed), content_out(line@, offset as int, old(list).widths())),
        final(list).widths() == content_out(line@, offset as int, old(list).widths()).list,
        final(list).slots() == content_slots(line@, old(list).slots()),
        tags_hash_once(line@, offset as int, content_out(line@, offset as int, old(list).widths()).spans),
{
    proof {
        use_type_invariant(&*list);
        crate::laws::lemma_run_end_bounds(line@, 0, ' ');
    }
    if line.len() == 0 {
        assert(parsed.spans@ =~= old(parsed).spans@ + Seq::<Span>::empty());
        assert(parsed.markers@ =~= old(parsed).markers@ + Seq::<Marker>::empty());
        return;
    }
    let ghost before = *parsed;
    // A block prefix belongs to its whole line, so the caret anywhere on the
    // line brings the hashes or the quote arrow back. Inline constructs are
    // narrower.
    let whole = (offset, offset + line.len());
    let indent = run_end_at(line, 0, ' ');
    let rest = &line[indent..line.len()];
    let marker = item_len(rest);
    if marker.is_none() && indent == 0 {
        // Anything else at the left edge ends the list; an indented line is
        // a continuation of the item above and leaves the nesting alone.
        list.clear();
    }
    let mut content_start: usize = indent;
    let mut style: Option<Style> = None;
    if let Some(level) = heading_level(rest) {
        // "### ": the hashes and the space are syntax.
        let len = level as usize + 1;
        parsed.push_marker(offset + indent, offset + indent + len, whole);
        content_start = indent + len;
        style = Some(Style::Heading(level));
    } else if rest.len() > 0 && rest[0] == '>' {
        let len: usize = if rest.len() > 1 && rest[1] == ' ' {
            2
        } else {
            1
        };
        parsed.push_marker(offset + indent, offset + indent + len, whole);
        content_start = indent + len;
        style = Some(Style::Quote);
    } else if let Some(len) = marker {
        // The bullet stays visible: hiding it would delete the only thing
        // that makes a list look like a list. The spaces in front of it are
        // syntax, though: the level's margin does that job now.
        parsed.push_marker(offset, offset + indent, whole);
        let depth = list.depth(indent);
        let after = &rest[len..rest.len()];
        match checkbox(after) {
            // The checkbox stays visible too, because the UI turns it into
            // something clickable in place.
            Some((ticked, box_len)) => {
                parsed.push_span(
                    offset + indent + len,
                    offset + indent + len + box_len,
                    Style::Task(ticked),
                );
                content_start = indent + len + box_len;
            },
            None => {
                content_start = indent + len;
            },
        }
        style = Some(Style::ListItem(depth));
    }
    let ghost prefix = block_prefix(line@, offset as int, old(list).widths());
    assert(parsed.markers@ == before.markers@ + prefix.markers);
    assert(parsed.spans@ == before.spans@ + prefix.task);
    assert(style == prefix.style);
    assert(content_start == prefix.content);
    assert(list.widths() == prefix.list);
    assert(list.slots() == content_slots(line@, old(list).slots()));
    let start = if content_start < line.len() {
        content_start
    } else {
        line.len()
    };
    let ghost middle = *parsed;
    // A marker with nothing after it yet is still that block, so the span
    // falls back to covering the marker itself.
    if let Some(style) = style {
        let from = if start < line.len() {
            start
        } else {
            indent
        };
        parsed.push_span(offset + from, offset + line.len(), style);
    }
    let ghost blocked = *parsed;
    scan_inline(&line[start..line.len()], offset + start, parsed);
    proof {
        let out = content_out(line@, offset as int, old(list).widths());
        let items = inline_items(line@.subrange(start as int, line@.len() as int), 0, offset + start);
        assert(parsed.spans@ == blocked.spans@ + items.0);
        crate::laws::lemma_inline_tidy(line@.subrange(start as int, line@.len() as int), 0, offset + start);
        lemma_tags_within(line@, offset as int, start as int, items.0);
        let head = out.spans.subrange(0, out.spans.len() - items.0.len());
        assert(out.spans == head + items.0);
        assert forall|k: int| 0 <= k < head.len() implies #[trigger] head[k].style != Style::Tag by {
            assert(head[k] == out.spans[k]);
        }
        lemma_tags_after(line@, offset as int, head, items.0);
        assert(parsed.spans@ =~= before.spans@ + out.spans);
        assert(parsed.markers@ =~= before.markers@ + out.markers);
    }
}

/// A table row: the pipes stay visible, the cells are styled inline.
///
/// Hiding the pipes would be wrong for the same reason hiding list bullets is:
/// a text view cannot draw column rules, so the pipes are the table.
fn table_row(chars: &[char], offset: usize, list: &ListLevels, parsed: &mut Parsed)
    requires
        offset + chars@.len() <= usize::MAX,
    ensures
        reported(*old(parsed), *final(parsed), table_row_out(chars@, offset as int, list.widths())),
        tags_hash_once(chars@, offset as int, table_row_out(chars@, offset as int, list.widths()).spans),
{
    parsed.push_span(offset, offset + chars.len(), Style::TableRow);
    let ghost middle = *parsed;
    scan_inline(chars, offset, parsed);
    assert(parsed.spans@ =~= old(parsed).spans@ + table_row_out(chars@, offset as int, list.widths()).spans);
    proof {
        let row = span_of(offset as int, offset + chars@.len(), Style::TableRow);
        lemma_tags_after(chars@, offset as int, row, inline_items(chars@, 0, offset as int).0);
    }
}

/// A line outside any fence, frontmatter or table.
fn normal_line(
    chars: &[char],
    offset: usize,
    next: Option<&[char]>,
    list: &mut ListLevels,
    parsed: &mut Parsed,
) -> (state: LineState)
    requires
        offset + chars@.len() <= usize::MAX,
    ensures
        reported(*old(parsed), *final(parsed), normal_out(chars@, offset as int, view_line(next), old(list).widths())),
        state == normal_out(chars@, offset as int, view_line(next), old(list).widths()).state,
        final(list).widths() == normal_out(chars@, offset as int, view_line(next), old(list).widths()).list,
        final(list).slots() == normal_slots(chars@, view_line(next), old(list).slots()),
        tags_hash_once(chars@, offset as int, normal_out(chars@, offset as int, view_line(next), old(list).widths()).spans),
{
    let end = offset + chars.len();
    if is_fence(chars) {
        // The fence itself is syntax; the lines between are code.
        parsed.push_marker(offset, end, (offset, end));
        assert(parsed.spans@ =~= old(parsed).spans@ + Seq::<Span>::empty());
        LineState::Fence
    } else if is_rule(chars) {
        parsed.push_span(offset, end, Style::Rule);
        assert(parsed.markers@ =~= old(parsed).markers@ + Seq::<Marker>::empty());
        LineState::Normal
    } else if is_table_row(chars) && match next {
        Some(following) => is_table_delimiter(following),
        None => false,
    } {
        table_row(chars, offset, list, parsed);
        LineState::Table
    } else {
        content(chars, offset, list, parsed);
        LineState::Normal
    }
}

/// Scan one line, and report the state the next line begins in.
///
/// `first` marks the note's opening line, which is the only place a `---` can
/// open frontmatter rather than draw a thematic break.
///
/// `next` is the line after this one, which only tables need: a row of pipes is
/// a table header if and only if a delimiter row follows it, and without that
/// lookahead every sentence containing a `|` becomes a table.
pub(crate) fn line(
    chars: &[char],
    offset: usize,
    state: LineState,
    first: bool,
    next: Option<&[char]>,
    list: &mut ListLevels,
    parsed: &mut Parsed,
) -> (outgoing: LineState)
    requires
        offset + chars@.len() <= usize::MAX,
    ensures
        reported(
            *old(parsed),
            *final(parsed),
            line_out(chars@, offset as int, state, first, view_line(next), old(list).widths()),
        ),
        outgoing == line_out(chars@, offset as int, state, first, view_line(next), old(list).widths()).state,
        final(list).widths() == line_out(chars@, offset as int, state, first, view_line(next), old(list).widths()).list,
        final(list).slots() == line_slots(chars@, state, view_line(next), old(list).slots()),
        tags_hash_once(chars@, offset as int, line_out(chars@, offset as int, state, first, view_line(next), old(list).widths()).spans),
{
    reveal(line_out);
    let end = offset + chars.len();
    match state {
        LineState::Frontmatter => {
            // Both delimiters and the metadata between them style as
            // frontmatter: it is one visually recessed block, not markup with
            // content inside it.
            parsed.push_span(offset, end, Style::Frontmatter);
            assert(parsed.markers@ =~= old(parsed).markers@ + Seq::<Marker>::empty());
            if !first && is_delimiter(chars) {
                LineState::Normal
            } else {
                LineState::Frontmatter
            }
        },
        LineState::Fence => {
            if is_fence(chars) {
                parsed.push_marker(offset, end, (offset, end));
                assert(parsed.spans@ =~= old(parsed).spans@ + Seq::<Span>::empty());
                LineState::Normal
            } else {
                parsed.push_span(offset, end, Style::CodeBlock);
                assert(parsed.markers@ =~= old(parsed).markers@ + Seq::<Marker>::empty());
                LineState::Fence
            }
        },
        LineState::Table => {
            if is_table_delimiter(chars) {
                parsed.push_span(offset, end, Style::TableDelimiter);
                assert(parsed.markers@ =~= old(parsed).markers@ + Seq::<Marker>::empty());
                LineState::Table
            } else if is_table_row(chars) {
                table_row(chars, offset, list, parsed);
                LineState::Table
            } else {
                // The first line that is not a row ends the table, and is then
                // scanned as whatever it actually is.
                normal_line(chars, offset, next, list, parsed)
            }
        },
        LineState::Normal => normal_line(chars, offset, next, list, parsed),
    }
}

} // verus!
