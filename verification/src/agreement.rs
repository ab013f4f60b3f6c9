//! What holds between the whole-note scan and the per-line re-scan, and of the
//! line count.
use vstd::prelude::*;
use crate::types::LineState;
use crate::text::{find_from, lemma_find_from, lemma_matches_char};
use crate::block::{LineOut, line_out, line_slots, count_of, delimiter_line};
use crate::note::{
    Scan, scan_from, scan_note, line_end, line_after, line_scan, opens_frontmatter, slots_from,
    note_slots,
};
use crate::types::{widths_of, empty_slots};

verus! {

/// The lines from the one starting at `from`, each re-scanned on its own as
/// `scan_line` does, the state and nesting each ends in carried to the next.
pub open spec fn rescan_from(text: Seq<char>, from: int, state: LineState, list: Seq<u8>) -> Scan
    decreases text.len() + 1 - from,
{
    if from < 0 || from > text.len() {
        Scan { spans: seq![], markers: seq![], states: seq![], lists: seq![] }
    } else {
        let end = line_end(text, from);
        let out = line_scan(text.subrange(from, end), from, state, list, line_after(text, end));
        let rest = if from <= end < text.len() {
            rescan_from(text, end + 1, out.state, out.list)
        } else {
            Scan { spans: seq![], markers: seq![], states: seq![], lists: seq![] }
        };
        Scan {
            spans: out.spans + rest.spans,
            markers: out.markers + rest.markers,
            states: seq![state] + rest.states,
            lists: seq![list] + rest.lists,
        }
    }
}

/// Whether a line is the note's first matters only inside frontmatter, and
/// no line outside frontmatter leads into it.
proof fn lemma_first_only_in_frontmatter(
    line: Seq<char>,
    off: int,
    state: LineState,
    first: bool,
    next: Option<Seq<char>>,
    list: Seq<u8>,
)
    requires
        !first || state != LineState::Frontmatter,
    ensures
        line_out(line, off, state, first, next, list) == line_out(line, off, state, false, next, list),
        state != LineState::Frontmatter ==> line_out(line, off, state, first, next, list).state
            != LineState::Frontmatter,
{
    reveal(line_out);
}

/// Scanning from `from` with the whole-note scan, or re-scanning line by
/// line, gives the same report, unless the first line opens frontmatter.
proof fn lemma_rescan_agrees(text: Seq<char>, from: int, state: LineState, first: bool, list: Seq<u8>)
    requires
        !first || state != LineState::Frontmatter,
    ensures
        scan_from(text, from, state, first, list) == rescan_from(text, from, state, list),
    decreases text.len() + 1 - from,
{
    if 0 <= from <= text.len() {
        let end = line_end(text, from);
        let line = text.subrange(from, end);
        lemma_first_only_in_frontmatter(line, from, state, first, line_after(text, end), list);
        let out = line_out(line, from, state, false, line_after(text, end), list);
        if from <= end < text.len() {
            lemma_rescan_agrees(text, end + 1, out.state, false, out.list);
        }
    }
}

/// The editor's per-keystroke path agrees with a full re-scan: re-scanning a
/// note one line at a time with `scan_line`, each line given the state and
/// list nesting the line before it ended in, reports the same spans, markers,
/// line states and nesting as `parse`. A note whose first line is the
/// frontmatter delimiter is the exception: touching that line escalates to a
/// full re-scan by design.
pub proof fn law_line_by_line_scan_matches_parse(text: Seq<char>)
    requires
        !opens_frontmatter(text),
    ensures
        rescan_from(text, 0, LineState::Normal, seq![]) == scan_note(text),
{
    lemma_rescan_agrees(text, 0, LineState::Normal, true, seq![]);
}

/// After the opening line, the same holds of a note with frontmatter too:
/// from any line start on, re-scanning line by line from the state and
/// nesting the whole-note scan recorded there gives what the whole-note scan
/// gives for the rest of the note.
pub proof fn law_rescan_from_any_later_line(text: Seq<char>, from: int, state: LineState, list: Seq<u8>)
    ensures
        scan_from(text, from, state, false, list) == rescan_from(text, from, state, list),
{
    lemma_rescan_agrees(text, from, state, false, list);
}

proof fn lemma_count_split(a: Seq<char>, b: Seq<char>, c: char)
    ensures
        count_of(a + b, c) == count_of(a, c) + count_of(b, c),
    decreases b.len(),
{
    if b.len() == 0 {
        assert(a + b =~= a);
    } else {
        lemma_count_split(a, b.drop_last(), c);
        assert((a + b).drop_last() =~= a + b.drop_last());
    }
}

proof fn lemma_count_none(s: Seq<char>, c: char)
    requires
        forall|k: int| 0 <= k < s.len() ==> s[k] != c,
    ensures
        count_of(s, c) == 0,
    decreases s.len(),
{
    if s.len() > 0 {
        lemma_count_none(s.drop_last(), c);
    }
}

/// The lines from `from` on number one more than the newlines after `from`.
proof fn lemma_line_count(text: Seq<char>, from: int, state: LineState, first: bool, list: Seq<u8>)
    requires
        0 <= from <= text.len(),
    ensures
        scan_from(text, from, state, first, list).states.len() == count_of(
            text.subrange(from, text.len() as int),
            '\n',
        ) + 1,
        scan_from(text, from, state, first, list).lists.len() == scan_from(
            text,
            from,
            state,
            first,
            list,
        ).states.len(),
    decreases text.len() + 1 - from,
{
    let end = line_end(text, from);
    lemma_find_from(text, from, seq!['\n']);
    assert forall|k: int| 0 <= k < end - from implies text.subrange(from, end)[k] != '\n' by {
        lemma_matches_char(text, from + k, '\n');
    }
    lemma_count_none(text.subrange(from, end), '\n');
    let out = line_out(text.subrange(from, end), from, state, first, line_after(text, end), list);
    if end < text.len() {
        lemma_matches_char(text, end, '\n');
        lemma_line_count(text, end + 1, out.state, false, out.list);
        let tail = text.subrange(from, text.len() as int);
        assert(tail =~= text.subrange(from, end) + seq!['\n'] + text.subrange(end + 1, text.len() as int));
        lemma_count_split(text.subrange(from, end) + seq!['\n'], text.subrange(end + 1, text.len() as int), '\n');
        lemma_count_split(text.subrange(from, end), seq!['\n'], '\n');
        assert(count_of(seq!['\n'], '\n') == 1) by {
            let one = seq!['\n'];
            assert(one.drop_last() =~= Seq::<char>::empty());
            assert(count_of(Seq::<char>::empty(), '\n') == 0);
            assert(one.last() == '\n');
        }
    } else {
        assert(text.subrange(from, text.len() as int) =~= text.subrange(from, end));
    }
}

/// `parse` records one line state, and one list nesting, for every line of
/// the note: one more than it has newlines.
pub proof fn law_one_state_per_line(text: Seq<char>)
    ensures
        scan_note(text).states.len() == count_of(text, '\n') + 1,
        scan_note(text).lists.len() == count_of(text, '\n') + 1,
{
    let state = if opens_frontmatter(text) {
        LineState::Frontmatter
    } else {
        LineState::Normal
    };
    lemma_line_count(text, 0, state, true, seq![]);
    assert(text.subrange(0, text.len() as int) =~= text);
}

/// The whole list stack each line from `from` on begins with, when the lines
/// are re-scanned one at a time as `scan_line` does, each handed the stack
/// the one before it left.
pub open spec fn rescan_slots(text: Seq<char>, from: int, state: LineState, slots: (Seq<u8>, nat)) -> Seq<
    (Seq<u8>, nat),
>
    decreases text.len() + 1 - from,
{
    if from < 0 || from > text.len() {
        seq![]
    } else {
        let end = line_end(text, from);
        let line = text.subrange(from, end);
        let out = line_scan(line, from, state, widths_of(slots), line_after(text, end));
        let rest = if from <= end < text.len() {
            rescan_slots(text, end + 1, out.state, line_slots(line, state, line_after(text, end), slots))
        } else {
            seq![]
        };
        seq![slots] + rest
    }
}

proof fn lemma_rescan_slots_agree(
    text: Seq<char>,
    from: int,
    state: LineState,
    first: bool,
    slots: (Seq<u8>, nat),
)
    requires
        !first || state != LineState::Frontmatter,
    ensures
        slots_from(text, from, state, first, slots) == rescan_slots(text, from, state, slots),
    decreases text.len() + 1 - from,
{
    if 0 <= from <= text.len() {
        let end = line_end(text, from);
        let line = text.subrange(from, end);
        lemma_first_only_in_frontmatter(line, from, state, first, line_after(text, end), widths_of(slots));
        let out = line_out(line, from, state, false, line_after(text, end), widths_of(slots));
        if from <= end < text.len() {
            lemma_rescan_slots_agree(text, end + 1, out.state, false, line_slots(line, state, line_after(text, end), slots));
        }
    }
}

/// Re-scanning a note one line at a time with `scan_line`, each line handed
/// the list stack the line before it returned, gives back every line the
/// whole stack `parse` records for it, slots past those in use included,
/// unless the first line opens frontmatter.
pub proof fn law_line_by_line_levels_match_parse(text: Seq<char>)
    requires
        !opens_frontmatter(text),
    ensures
        rescan_slots(text, 0, LineState::Normal, empty_slots()) == note_slots(text),
{
    lemma_rescan_slots_agree(text, 0, LineState::Normal, true, empty_slots());
}

/// From any line on, re-scanning line by line from the state and stack the
/// whole-note scan recorded there gives the stacks it records after.
pub proof fn law_levels_rescan_from_any_later_line(
    text: Seq<char>,
    from: int,
    state: LineState,
    slots: (Seq<u8>, nat),
)
    ensures
        slots_from(text, from, state, false, slots) == rescan_slots(text, from, state, slots),
{
    lemma_rescan_slots_agree(text, from, state, false, slots);
}

/// Frontmatter from the line starting at `from`: how many lines it still
/// runs, up to and including the next `---` line, and where the line after
/// that one starts (past the end of the text when it never closes).
pub open spec fn frontmatter_close(text: Seq<char>, from: int) -> (nat, int)
    decreases text.len() + 1 - from,
{
    if from < 0 || from > text.len() {
        (0, from)
    } else {
        let end = line_end(text, from);
        if delimiter_line(text.subrange(from, end)) || !(from <= end < text.len()) {
            (1, end + 1)
        } else {
            let (n, at) = frontmatter_close(text, end + 1);
            (n + 1, at)
        }
    }
}

/// A run of `n` frontmatter line states.
pub open spec fn frontmatter_states(n: nat) -> Seq<LineState> {
    Seq::new(n, |k: int| LineState::Frontmatter)
}

/// Inside frontmatter, from any line after the first, every line is
/// frontmatter up to and including the next `---` line, and the line after
/// it begins normal; frontmatter that never closes runs to the end.
pub proof fn law_frontmatter_runs_to_its_closing_delimiter(text: Seq<char>, from: int, list: Seq<u8>)
    requires
        0 <= from <= text.len(),
    ensures
        scan_from(text, from, LineState::Frontmatter, false, list).states == frontmatter_states(
            frontmatter_close(text, from).0,
        ) + scan_from(text, frontmatter_close(text, from).1, LineState::Normal, false, list).states,
    decreases text.len() + 1 - from,
{
    reveal(line_out);
    lemma_find_from(text, from, seq!['\n']);
    let end = line_end(text, from);
    let line = text.subrange(from, end);
    let (n, at) = frontmatter_close(text, from);
    let here = scan_from(text, from, LineState::Frontmatter, false, list);
    if delimiter_line(line) || !(from <= end < text.len()) {
        if end < text.len() {
            assert(here.states == seq![LineState::Frontmatter] + scan_from(text, end + 1, LineState::Normal, false, list).states);
        } else {
            assert(scan_from(text, at, LineState::Normal, false, list).states.len() == 0);
            assert(here.states == seq![LineState::Frontmatter]);
        }
        assert(frontmatter_states(1) =~= seq![LineState::Frontmatter]);
    } else {
        law_frontmatter_runs_to_its_closing_delimiter(text, end + 1, list);
        let (m, _) = frontmatter_close(text, end + 1);
        assert(here.states == seq![LineState::Frontmatter] + scan_from(text, end + 1, LineState::Frontmatter, false, list).states);
        assert(frontmatter_states(m + 1) =~= seq![LineState::Frontmatter] + frontmatter_states(m));
    }
}

proof fn lemma_never_frontmatter(text: Seq<char>, from: int, state: LineState, first: bool, list: Seq<u8>)
    requires
        state != LineState::Frontmatter,
    ensures
        forall|k: int|
            0 <= k < scan_from(text, from, state, first, list).states.len() ==> #[trigger] scan_from(
                text,
                from,
                state,
                first,
                list,
            ).states[k] != LineState::Frontmatter,
    decreases text.len() + 1 - from,
{
    if 0 <= from <= text.len() {
        let end = line_end(text, from);
        let line = text.subrange(from, end);
        lemma_first_only_in_frontmatter(line, from, state, first, line_after(text, end), list);
        let out = line_out(line, from, state, first, line_after(text, end), list);
        if from <= end < text.len() {
            lemma_never_frontmatter(text, end + 1, out.state, false, out.list);
        }
        let states = scan_from(text, from, state, first, list).states;
        let rest = if from <= end < text.len() {
            scan_from(text, end + 1, out.state, false, out.list).states
        } else {
            seq![]
        };
        assert(states == seq![state] + rest);
        assert forall|k: int| 0 <= k < states.len() implies #[trigger] states[k] != LineState::Frontmatter by {
            if k > 0 {
                assert(states[k] == rest[k - 1]);
            }
        }
    }
}

/// Frontmatter is only frontmatter at the very top: a note whose first line
/// is not exactly `---` has no frontmatter line at all; one whose first line
/// is has that line as frontmatter, and from the second line on every line
/// is frontmatter up to and including the next `---` line, the line after
/// it beginning normal.
pub proof fn law_frontmatter_only_at_the_top(text: Seq<char>)
    ensures
        !opens_frontmatter(text) ==> forall|k: int|
            0 <= k < scan_note(text).states.len() ==> #[trigger] scan_note(text).states[k]
                != LineState::Frontmatter,
        opens_frontmatter(text) && line_end(text, 0) < text.len() ==> scan_note(text).states == seq![
            LineState::Frontmatter,
        ] + frontmatter_states(frontmatter_close(text, line_end(text, 0) + 1).0) + scan_from(
            text,
            frontmatter_close(text, line_end(text, 0) + 1).1,
            LineState::Normal,
            false,
            seq![],
        ).states,
        opens_frontmatter(text) && line_end(text, 0) >= text.len() ==> scan_note(text).states == seq![
            LineState::Frontmatter,
        ],
{
    reveal(line_out);
    lemma_find_from(text, 0, seq!['\n']);
    if !opens_frontmatter(text) {
        lemma_never_frontmatter(text, 0, LineState::Normal, true, seq![]);
    } else {
        let end = line_end(text, 0);
        if end < text.len() {
            law_frontmatter_runs_to_its_closing_delimiter(text, end + 1, seq![]);
        }
    }
}

} // verus!
