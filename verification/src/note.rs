//! Scanning a whole note, or one line of it, into spans and markers.
use vstd::prelude::*;
use crate::types::{Span, Marker, LineState, ListLevels, Parsed, widths_of, empty_slots};
use crate::text::{find_from, find, chars_of};
use crate::inline::tags_hash_once;
use crate::block::{LineOut, line_out, line_slots, delimiter_line, is_delimiter, line, view_line};

verus! {

/// Where the line that starts at `from` ends: at the next newline, or at the
/// end of the text.
pub open spec fn line_end(text: Seq<char>, from: int) -> int {
    match find_from(text, from, seq!['\n']) {
        Some(at) => at,
        None => text.len() as int,
    }
}

/// The line after the one that ends at `end`, if there is one.
pub open spec fn line_after(text: Seq<char>, end: int) -> Option<Seq<char>> {
    if end < text.len() {
        Some(text.subrange(end + 1, line_end(text, end + 1)))
    } else {
        None
    }
}

/// What scanning a note reports.
pub struct Scan {
    pub spans: Seq<Span>,
    pub markers: Seq<Marker>,
    /// The state each line begins in.
    pub states: Seq<LineState>,
    /// The list nesting each line begins in, as indent widths.
    pub lists: Seq<Seq<u8>>,
}

/// The scan of the lines from the one starting at `from`, the first of them
/// beginning in `state` with the list nesting `list`.
pub open spec fn scan_from(text: Seq<char>, from: int, state: LineState, first: bool, list: Seq<u8>) -> Scan
    decreases text.len() + 1 - from,
{
    if from < 0 || from > text.len() {
        Scan { spans: seq![], markers: seq![], states: seq![], lists: seq![] }
    } else {
        let end = line_end(text, from);
        let out = line_out(text.subrange(from, end), from, state, first, line_after(text, end), list);
        let rest = if from <= end < text.len() {
            scan_from(text, end + 1, out.state, false, out.list)
        } else {
            Scan { spans: seq![], markers: seq![], states: seq![], lists: seq![] }
        };
        Scan {
            spans: out.spans + rest.spans,
            markers: out.markers + rest.markers,
            states: seq![state] + rest.states,
            lists: seq![list] + rest.lists,
        }
    }
}

/// Whether the note opens with a frontmatter delimiter: exactly `---` on the
/// first line.
pub open spec fn opens_frontmatter(text: Seq<char>) -> bool {
    delimiter_line(text.subrange(0, line_end(text, 0)))
}

/// The scan of a whole note. Frontmatter is only frontmatter at the very top.
pub open spec fn scan_note(text: Seq<char>) -> Scan {
    scan_from(
        text,
        0,
        if opens_frontmatter(text) {
            LineState::Frontmatter
        } else {
            LineState::Normal
        },
        true,
        seq![],
    )
}

/// The whole list stack each line from the one starting at `from` begins
/// with, the first beginning with `slots` and in `state`.
pub open spec fn slots_from(
    text: Seq<char>,
    from: int,
    state: LineState,
    first: bool,
    slots: (Seq<u8>, nat),
) -> Seq<(Seq<u8>, nat)>
    decreases text.len() + 1 - from,
{
    if from < 0 || from > text.len() {
        seq![]
    } else {
        let end = line_end(text, from);
        let line = text.subrange(from, end);
        let out = line_out(line, from, state, first, line_after(text, end), widths_of(slots));
        let rest = if from <= end < text.len() {
            slots_from(text, end + 1, out.state, false, line_slots(line, state, line_after(text, end), slots))
        } else {
            seq![]
        };
        seq![slots] + rest
    }
}

/// The whole list stack each of a note's lines begins with.
pub open spec fn note_slots(text: Seq<char>) -> Seq<(Seq<u8>, nat)> {
    slots_from(
        text,
        0,
        if opens_frontmatter(text) {
            LineState::Frontmatter
        } else {
            LineState::Normal
        },
        true,
        empty_slots(),
    )
}

/// Each recorded list stack, whole.
pub open spec fn list_slots(lists: Seq<ListLevels>) -> Seq<(Seq<u8>, nat)> {
    lists.map_values(|levels: ListLevels| levels.slots())
}

/// The nesting each recorded list level stands for.
pub open spec fn list_widths(lists: Seq<ListLevels>) -> Seq<Seq<u8>> {
    lists.map_values(|levels: ListLevels| levels.widths())
}

/// `parsed` reports exactly `scan`.
pub open spec fn reports(parsed: Parsed, scan: Scan) -> bool {
    &&& parsed.spans@ == scan.spans
    &&& parsed.markers@ == scan.markers
    &&& parsed.line_states@ == scan.states
    &&& list_widths(parsed.line_lists@) == scan.lists
}

/// Whether the note opens with a frontmatter delimiter.
///
/// Exactly `---` on the first line. Not `----`, and not after a blank line:
/// otherwise every thematic break at the top of a note would silently turn the
/// prose beneath it into metadata.
fn starts_frontmatter(chars: &[char]) -> (opens: bool)
    ensures
        opens == opens_frontmatter(chars@),
{
    let newline = ['\n'];
    assert(newline@ =~= seq!['\n']);
    let end = match find(chars, 0, &newline) {
        Some(at) => at,
        None => chars.len(),
    };
    is_delimiter(&chars[0..end])
}

/// What holds of the tags of a line holds of them in the note.
proof fn lemma_tags_in_text(text: Seq<char>, from: int, end: int, spans: Seq<Span>)
    requires
        0 <= from <= end <= text.len(),
        tags_hash_once(text.subrange(from, end), from, spans),
        crate::laws::spans_within(spans, from, end),
    ensures
        tags_hash_once(text, 0, spans),
{
    let line = text.subrange(from, end);
    assert forall|k: int|
        0 <= k < spans.len() && #[trigger] spans[k].style == crate::types::Style::Tag && spans[k].start + 1
            < spans[k].end implies text[spans[k].start - 0 + 1] != '#' by {
        assert(line[spans[k].start - from + 1] == text[spans[k].start + 1]);
    }
}

proof fn lemma_tags_join(text: Seq<char>, a: Seq<Span>, b: Seq<Span>)
    requires
        tags_hash_once(text, 0, a),
        tags_hash_once(text, 0, b),
    ensures
        tags_hash_once(text, 0, a + b),
{
    assert forall|k: int|
        0 <= k < (a + b).len() && #[trigger] (a + b)[k].style == crate::types::Style::Tag && (a + b)[k].start + 1
            < (a + b)[k].end implies text[(a + b)[k].start - 0 + 1] != '#' by {
        if k < a.len() {
            assert((a + b)[k] == a[k]);
        } else {
            assert((a + b)[k] == b[k - a.len()]);
        }
    }
}

/// Parse a whole note into styled spans and hideable syntax markers.
#[verifier::rlimit(60)]
pub fn parse(text: &str) -> (parsed: Parsed)
    ensures
        reports(parsed, scan_note(text@)),
        list_slots(parsed.line_lists@) == note_slots(text@),
        tags_hash_once(text@, 0, parsed.spans@),
{
    let mut parsed = Parsed::new();
    let chars = chars_of(text);
    let newline = ['\n'];
    assert(newline@ =~= seq!['\n']);
    let mut line_start: usize = 0;
    // Frontmatter is only frontmatter at the very top of the file.
    let mut state = if starts_frontmatter(&chars) {
        LineState::Frontmatter
    } else {
        LineState::Normal
    };
    let mut list = ListLevels::new();
    let mut first = true;
    let ghost total = scan_note(text@);
    let ghost total_slots = note_slots(text@);
    proof {
        assert(list_slots(parsed.line_lists@) + total_slots =~= total_slots);
        assert(parsed.spans@ + total.spans =~= total.spans);
        assert(parsed.markers@ + total.markers =~= total.markers);
        assert(parsed.line_states@ + total.states =~= total.states);
        assert(list_widths(parsed.line_lists@) + total.lists =~= total.lists);
    }
    loop
        invariant_except_break
            line_start <= chars@.len(),
            chars@ == text@,
            newline@ == seq!['\n'],
            total == scan_note(text@),
            parsed.spans@ + scan_from(chars@, line_start as int, state, first, list.widths()).spans
                == total.spans,
            parsed.markers@ + scan_from(chars@, line_start as int, state, first, list.widths()).markers
                == total.markers,
            parsed.line_states@ + scan_from(chars@, line_start as int, state, first, list.widths()).states
                == total.states,
            list_widths(parsed.line_lists@) + scan_from(chars@, line_start as int, state, first, list.widths()).lists
                == total.lists,
            total_slots == note_slots(text@),
            tags_hash_once(chars@, 0, parsed.spans@),
            list_slots(parsed.line_lists@) + slots_from(chars@, line_start as int, state, first, list.slots())
                == total_slots,
        ensures
            reports(parsed, total),
            list_slots(parsed.line_lists@) == total_slots,
            tags_hash_once(chars@, 0, parsed.spans@),
        decreases chars@.len() - line_start,
    {
        let line_end = match find(&chars, line_start, &newline) {
            Some(at) => at,
            None => chars.len(),
        };
        // The line after this one, which table headers need in order to know
        // they are headers.
        let next: Option<&[char]> = if line_end < chars.len() {
            let start = line_end + 1;
            let end = match find(&chars, start, &newline) {
                Some(at) => at,
                None => chars.len(),
            };
            Some(&chars[start..end])
        } else {
            None
        };
        let ghost out = line_out(
            chars@.subrange(line_start as int, line_end as int),
            line_start as int,
            state,
            first,
            view_line(next),
            list.widths(),
        );
        let ghost rest = if line_end < chars@.len() {
            scan_from(chars@, line_end + 1, out.state, false, out.list)
        } else {
            Scan { spans: seq![], markers: seq![], states: seq![], lists: seq![] }
        };
        let ghost rest_slots = if line_end < chars@.len() {
            slots_from(
                chars@,
                line_end + 1,
                out.state,
                false,
                line_slots(chars@.subrange(line_start as int, line_end as int), state, view_line(next), list.slots()),
            )
        } else {
            seq![]
        };
        let ghost before = parsed;
        let ghost entered = list;
        let ghost entered_state = state;
        let ghost entered_first = first;
        proof {
            assert(view_line(next) == line_after(chars@, line_end as int));
            assert(scan_from(chars@, line_start as int, state, first, list.widths()) == Scan {
                spans: out.spans + rest.spans,
                markers: out.markers + rest.markers,
                states: seq![entered_state] + rest.states,
                lists: seq![entered.widths()] + rest.lists,
            });
            assert(slots_from(chars@, line_start as int, state, first, list.slots()) == seq![entered.slots()]
                + rest_slots);
        }
        parsed.line_states.push(state);
        parsed.line_lists.push(list);
        // The opening `---` is consumed as the frontmatter delimiter, not as a
        // thematic break, which is why the first line is special-cased.
        state = line(&chars[line_start..line_end], line_start, state, first, next, &mut list, &mut parsed);
        first = false;
        proof {
            assert(list_widths(parsed.line_lists@) =~= list_widths(before.line_lists@).push(entered.widths()));
            assert(before.spans@ + (out.spans + rest.spans) =~= parsed.spans@ + rest.spans);
            assert(before.markers@ + (out.markers + rest.markers) =~= parsed.markers@ + rest.markers);
            assert(before.line_states@ + (seq![entered_state] + rest.states) =~= parsed.line_states@ + rest.states);
            assert(list_widths(before.line_lists@) + (seq![entered.widths()] + rest.lists) =~= list_widths(parsed.line_lists@) + rest.lists);
            assert(list_slots(parsed.line_lists@) =~= list_slots(before.line_lists@).push(entered.slots()));
            assert(list_slots(before.line_lists@) + (seq![entered.slots()] + rest_slots) =~= list_slots(parsed.line_lists@) + rest_slots);
            let line_chars = chars@.subrange(line_start as int, line_end as int);
            crate::laws::lemma_line_tidy(line_chars, line_start as int, entered_state, entered_first, view_line(next), entered.widths());
            lemma_tags_in_text(chars@, line_start as int, line_end as int, out.spans);
            lemma_tags_join(chars@, before.spans@, out.spans);
            assert(parsed.spans@ == before.spans@ + out.spans);
        }
        if line_end >= chars.len() {
            proof {
                assert(parsed.spans@ =~= parsed.spans@ + rest.spans);
                assert(parsed.markers@ =~= parsed.markers@ + rest.markers);
                assert(parsed.line_states@ =~= parsed.line_states@ + rest.states);
                assert(list_widths(parsed.line_lists@) =~= list_widths(parsed.line_lists@) + rest.lists);
                assert(list_slots(parsed.line_lists@) =~= list_slots(parsed.line_lists@) + rest_slots);
            }
            break;
        }
        line_start = line_end + 1;
    }
    parsed
}


/// An optional line of text, by its characters.
pub open spec fn view_text(text: Option<&str>) -> Option<Seq<char>> {
    match text {
        Some(line) => Some(line@),
        None => None,
    }
}

/// What re-scanning `line` on its own reports: the line's spans and markers in
/// note coordinates, the state and nesting it was scanned in, and the state
/// and nesting the next line begins in.
pub open spec fn line_scan(
    line: Seq<char>,
    offset: int,
    state: LineState,
    list: Seq<u8>,
    next: Option<Seq<char>>,
) -> LineOut {
    // A re-scanned line is never the note's opening `---`, because touching
    // that delimiter escalates to a full re-scan by design.
    line_out(line, offset, state, false, next, list)
}

/// Re-scan a single line, for the editor's per-keystroke path.
///
/// `offset` is the character offset of the line's first character within the
/// note, so the spans come back in note coordinates and can be applied
/// directly. `state` is the cached [`LineState`] for this line, and `next` is
/// the line following it, which table headers need. The returned state is what
/// the next line begins in: if it differs from the cached one, the caller
/// must re-scan the rest of the note.
pub fn scan_line(
    line: &str,
    offset: usize,
    state: LineState,
    list: ListLevels,
    next: Option<&str>,
) -> (scanned: (Parsed, LineState, ListLevels))
    requires
        offset + line@.len() <= usize::MAX,
    ensures
        scanned.0.spans@ == line_scan(line@, offset as int, state, list.widths(), view_text(next)).spans,
        scanned.0.markers@ == line_scan(line@, offset as int, state, list.widths(), view_text(next)).markers,
        scanned.0.line_states@ == seq![state],
        scanned.0.line_lists@ == seq![list],
        scanned.1 == line_scan(line@, offset as int, state, list.widths(), view_text(next)).state,
        scanned.2.widths() == line_scan(line@, offset as int, state, list.widths(), view_text(next)).list,
        scanned.2.slots() == line_slots(line@, state, view_text(next), list.slots()),
{
    let chars = chars_of(line);
    let following: Option<Vec<char>> = match next {
        Some(text) => Some(chars_of(text)),
        None => None,
    };
    let mut levels = list;
    let mut parsed = Parsed::new();
    parsed.line_states.push(state);
    parsed.line_lists.push(levels);
    let next_chars: Option<&[char]> = match &following {
        Some(chars) => Some(chars.as_slice()),
        None => None,
    };
    assert(view_line(next_chars) == view_text(next));
    let outgoing = crate::block::line(chars.as_slice(), offset, state, false, next_chars, &mut levels, &mut parsed);
    assert(parsed.spans@ =~= line_scan(line@, offset as int, state, list.widths(), view_text(next)).spans);
    assert(parsed.markers@ =~= line_scan(line@, offset as int, state, list.widths(), view_text(next)).markers);
    assert(parsed.line_states@ =~= seq![state]);
    assert(parsed.line_lists@ =~= seq![list]);
    (parsed, outgoing, levels)
}

} // verus!
