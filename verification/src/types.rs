//! The values the scanner reports: styles, spans, markers and line states.
use vstd::prelude::*;

verus! {

/// A styled region of the note.
#[derive(Debug, Clone, Copy, PartialEq, Eq, Structural)]
pub enum Style {
    /// `# ` … `###### `, level 1–6.
    Heading(u8),
    Bold,
    Italic,
    Strikethrough,
    /// `` `inline` ``
    Code,
    /// A line inside a ``` fence.
    CodeBlock,
    /// `> quoted`
    Quote,
    /// The content of a `- ` or `1. ` item. The level is the nesting depth,
    /// counted from zero.
    ListItem(u8),
    /// The visible text of `[text](url)`, or a bare URL.
    Link,
    /// The visible text of `[[Target]]` or `[[Target|shown]]`.
    WikiLink,
    /// `![[attachment]]`. The UI renders the file beneath the line.
    Embed,
    /// `#tag`, including the hash: it is part of the chip, not syntax.
    Tag,
    /// The `[ ]` or `[x]` of a task item. `true` when ticked.
    Task(bool),
    /// `---`, `***` or `___` alone on a line.
    Rule,
    /// A `| a | b |` row. The pipes stay visible: a text view cannot draw
    /// column rules, so they are the table.
    TableRow,
    /// The `|---|---|` row under a header, which is pure syntax.
    TableDelimiter,
    /// A line between the opening and closing `---` of frontmatter.
    Frontmatter,
}

/// Deepest nesting level with an indent of its own.
///
/// Past a handful of levels the margin would eat the note, so the styling stops
/// deepening; the scan is still honest about the structure.
pub const MAX_LIST_DEPTH: u8 = 4;

/// How many indent widths a list remembers: the styled levels and one more.
pub const LIST_CAPACITY: usize = 6;

/// The indent widths of the list the scanner is currently inside.
///
/// Depth is taken from the widths already seen in this list rather than from a
/// fixed number of spaces per level, so two-space and four-space notes both
/// nest one level at a time, and a note that mixes them still nests
/// monotonically.
///
/// A fixed-size stack rather than a `Vec`, so this stays `Copy` and can ride
/// alongside [`LineState`] through the editor's per-line cache.
#[derive(Debug, Clone, Copy, PartialEq, Eq)]
pub struct ListLevels {
    widths: [u8; 6],
    len: u8,
}

impl ListLevels {
    /// As many slots as the stack holds, no more of them in use.
    #[verifier::type_invariant]
    pub(crate) open spec fn well_formed(self) -> bool {
        slots_valid(self.slots())
    }

    /// The whole stack: every slot, and how many of them are in use. A slot
    /// past the count keeps whatever it last held.
    pub closed spec fn slots(self) -> (Seq<u8>, nat) {
        (self.widths@, self.len as nat)
    }

    /// The widths of the enclosing levels, outermost first.
    pub open spec fn widths(self) -> Seq<u8> {
        widths_of(self.slots())
    }

    /// A list that has not been entered yet.
    pub fn new() -> (levels: Self)
        ensures
            levels.slots() == empty_slots(),
            levels.widths() == Seq::<u8>::empty(),
    {
        let levels = ListLevels { widths: [0u8; 6], len: 0 };
        assert(levels.widths@ =~= empty_slots().0);
        assert(levels.widths() =~= Seq::<u8>::empty());
        levels
    }

    /// The nesting depth of an item indented by `indent` spaces, recording it
    /// as a level if it is a new one.
    pub(crate) fn depth(&mut self, indent: usize) -> (depth: u8)
        ensures
            final(self).slots() == entered_slots(old(self).slots(), clamp_indent(indent)),
            final(self).widths() == entered(old(self).widths(), clamp_indent(indent)),
            depth == depth_of(entered(old(self).widths(), clamp_indent(indent))),
    {
        proof {
            use_type_invariant(&*self);
        }
        // Indents deeper than this are pathological and would not fit the
        // stack; treating them as the deepest known level is closer to what
        // was meant than wrapping round.
        let indent: u8 = if indent > 255 { 255 } else { indent as u8 };
        let ghost start = self.slots();
        proof {
            lemma_entered_slots(start, indent);
        }
        while self.len > 0 && self.widths[self.len as usize - 1] > indent
            invariant
                self.len as usize <= LIST_CAPACITY,
                self.widths@ == start.0,
                self.len <= start.1,
                start.0.len() == LIST_CAPACITY,
                kept_count(start.0, start.1, indent) == kept_count(start.0, self.len as nat, indent),
            decreases self.len,
        {
            self.len = self.len - 1;
        }
        assert(kept_count(start.0, self.len as nat, indent) == self.len);
        let known = self.len > 0 && self.widths[self.len as usize - 1] == indent;
        if !known && (self.len as usize) < LIST_CAPACITY {
            let at = self.len as usize;
            self.widths[at] = indent;
            self.len = self.len + 1;
        }
        assert(self.slots() =~= entered_slots(start, indent));
        let last: u8 = if self.len == 0 { 0 } else { self.len - 1 };
        if last > MAX_LIST_DEPTH { MAX_LIST_DEPTH } else { last }
    }

    /// Leave the list. The next item starts counting again.
    pub(crate) fn clear(&mut self)
        ensures
            final(self).slots() == cleared_slots(old(self).slots()),
            final(self).widths() == Seq::<u8>::empty(),
    {
        self.len = 0;
        assert(self.widths() =~= Seq::<u8>::empty());
    }
}

/// The levels in use among `slots`, outermost first.
pub open spec fn widths_of(slots: (Seq<u8>, nat)) -> Seq<u8> {
    slots.0.subrange(0, slots.1 as int)
}

/// As many slots as a stack holds, and no more of them in use.
pub open spec fn slots_valid(slots: (Seq<u8>, nat)) -> bool {
    slots.0.len() == LIST_CAPACITY && slots.1 <= LIST_CAPACITY
}

/// The slots of a list never entered: all zero, none in use.
pub open spec fn empty_slots() -> (Seq<u8>, nat) {
    (Seq::new(LIST_CAPACITY as nat, |k: int| 0u8), 0)
}

/// The same slots, none of them in use.
pub open spec fn cleared_slots(slots: (Seq<u8>, nat)) -> (Seq<u8>, nat) {
    (slots.0, 0)
}

/// How many of the first `count` slots stay in use once every level wider
/// than `indent` is left.
pub open spec fn kept_count(widths: Seq<u8>, count: nat, indent: u8) -> nat
    decreases count,
{
    if count > 0 && count <= widths.len() && widths[count - 1] > indent {
        kept_count(widths, (count - 1) as nat, indent)
    } else {
        count
    }
}

/// The slots after an item at `indent` is seen: deeper levels are left, and
/// the indent is written into the next slot if it is a new level and there
/// is room; every other slot keeps what it held.
pub open spec fn entered_slots(slots: (Seq<u8>, nat), indent: u8) -> (Seq<u8>, nat) {
    let kept = kept_count(slots.0, slots.1, indent);
    if kept > 0 && slots.0[kept - 1] == indent {
        (slots.0, kept)
    } else if kept < LIST_CAPACITY {
        (slots.0.update(kept as int, indent), kept + 1)
    } else {
        (slots.0, kept)
    }
}

proof fn lemma_kept_count(widths: Seq<u8>, count: nat, indent: u8)
    requires
        count <= widths.len(),
    ensures
        kept_count(widths, count, indent) <= count,
        popped(widths.subrange(0, count as int), indent) == widths.subrange(
            0,
            kept_count(widths, count, indent) as int,
        ),
    decreases count,
{
    let front = widths.subrange(0, count as int);
    if count > 0 && widths[count - 1] > indent {
        lemma_kept_count(widths, (count - 1) as nat, indent);
        assert(front.drop_last() =~= widths.subrange(0, count - 1));
    }
}

/// Entering an item keeps the slots valid, and the levels in use are those
/// `entered` gives.
pub proof fn lemma_entered_slots(slots: (Seq<u8>, nat), indent: u8)
    requires
        slots_valid(slots),
    ensures
        slots_valid(entered_slots(slots, indent)),
        widths_of(entered_slots(slots, indent)) == entered(widths_of(slots), indent),
{
    lemma_kept_count(slots.0, slots.1, indent);
    let kept = kept_count(slots.0, slots.1, indent);
    let out = entered_slots(slots, indent);
    if !(kept > 0 && slots.0[kept - 1] == indent) && kept < LIST_CAPACITY {
        assert(widths_of(out) =~= slots.0.subrange(0, kept as int).push(indent));
    }
}

impl Default for ListLevels {
    fn default() -> (levels: Self)
        ensures
            levels.widths() == Seq::<u8>::empty(),
    {
        ListLevels::new()
    }
}

/// An indent as the list stack records it: widths past a byte count as the
/// widest one.
pub open spec fn clamp_indent(indent: usize) -> u8 {
    if indent > 255 { 255u8 } else { indent as u8 }
}

/// The stack with every level wider than `indent` left.
pub open spec fn popped(widths: Seq<u8>, indent: u8) -> Seq<u8>
    decreases widths.len(),
{
    if widths.len() > 0 && widths.last() > indent {
        popped(widths.drop_last(), indent)
    } else {
        widths
    }
}

/// The stack after an item at `indent` is seen: deeper levels are left, and
/// the indent becomes a level of its own if it is new and there is room.
pub open spec fn entered(widths: Seq<u8>, indent: u8) -> Seq<u8> {
    let kept = popped(widths, indent);
    if kept.len() > 0 && kept.last() == indent {
        kept
    } else if kept.len() < LIST_CAPACITY {
        kept.push(indent)
    } else {
        kept
    }
}

/// The depth an item at the top of `widths` is styled at.
pub open spec fn depth_of(widths: Seq<u8>) -> u8 {
    if widths.len() == 0 {
        0
    } else if widths.len() - 1 > MAX_LIST_DEPTH {
        MAX_LIST_DEPTH
    } else {
        (widths.len() - 1) as u8
    }
}

/// A run of characters to style.
#[derive(Debug, Clone, Copy, PartialEq, Eq, Structural)]
pub struct Span {
    /// Inclusive character offset of the first character.
    pub start: usize,
    /// Exclusive character offset of the end.
    pub end: usize,
    pub style: Style,
}

/// A run of characters that is syntax rather than content, and is hidden unless
/// the cursor is in the construct it belongs to.
#[derive(Debug, Clone, Copy, PartialEq, Eq)]
pub struct Marker {
    pub start: usize,
    pub end: usize,
    /// The construct this marker punctuates: the `**bold**` it opens, the
    /// heading line its hashes begin. The cursor inside this range brings the
    /// marker back: both halves of a pair together, since they share it.
    ///
    /// Bounds are inclusive at both ends, so a caret resting immediately
    /// before the opening delimiter or immediately after the closing one still
    /// reveals it.
    pub reveal: (usize, usize),
}

impl Marker {
    /// Whether a caret at `cursor` shows this marker.
    pub fn revealed_by(&self, cursor: usize) -> (shown: bool)
        ensures
            shown == (self.reveal.0 <= cursor && cursor <= self.reveal.1),
    {
        cursor >= self.reveal.0 && cursor <= self.reveal.1
    }
}

/// What a line's meaning depends on before its first character is read.
///
/// The editor caches one of these per line. A keystroke that leaves the line's
/// outgoing state unchanged needs only that line re-scanned; one that changes
/// it (opening a fence, touching a frontmatter delimiter) escalates to a full
/// re-scan of the note.
#[derive(Debug, Clone, Copy, PartialEq, Eq, Structural)]
pub enum LineState {
    Normal,
    /// Inside a ``` or ~~~ fence.
    Fence,
    /// Inside the leading `---` block.
    Frontmatter,
    /// Inside a table, after a header and its delimiter row.
    Table,
}

impl Default for LineState {
    fn default() -> (state: Self)
        ensures
            state == LineState::Normal,
    {
        LineState::Normal
    }
}

/// The scanner's report on a note or a line.
#[derive(Debug, Clone, PartialEq, Eq)]
pub struct Parsed {
    pub spans: Vec<Span>,
    pub markers: Vec<Marker>,
    /// The state each line begins in. `line_states.len()` is the line count.
    pub line_states: Vec<LineState>,
    /// The list nesting each line begins in, alongside `line_states`.
    pub line_lists: Vec<ListLevels>,
}

/// A span, unless it would be empty.
pub open spec fn span_of(start: int, end: int, style: Style) -> Seq<Span> {
    if end > start {
        seq![Span { start: start as usize, end: end as usize, style }]
    } else {
        Seq::empty()
    }
}

/// A marker, unless it would be empty.
pub open spec fn marker_of(start: int, end: int, reveal: (int, int)) -> Seq<Marker> {
    if end > start {
        seq![Marker { start: start as usize, end: end as usize, reveal: (reveal.0 as usize, reveal.1 as usize) }]
    } else {
        Seq::empty()
    }
}

impl Parsed {
    /// A report with nothing in it.
    pub fn new() -> (parsed: Self)
        ensures
            parsed.spans@ == Seq::<Span>::empty(),
            parsed.markers@ == Seq::<Marker>::empty(),
            parsed.line_states@ == Seq::<LineState>::empty(),
            parsed.line_lists@ == Seq::<ListLevels>::empty(),
    {
        Parsed { spans: Vec::new(), markers: Vec::new(), line_states: Vec::new(), line_lists: Vec::new() }
    }

    pub(crate) fn push_span(&mut self, start: usize, end: usize, style: Style)
        ensures
            final(self).spans@ == old(self).spans@ + span_of(start as int, end as int, style),
            final(self).markers@ == old(self).markers@,
            final(self).line_states@ == old(self).line_states@,
            final(self).line_lists@ == old(self).line_lists@,
    {
        if end > start {
            self.spans.push(Span { start, end, style });
        }
        assert(self.spans@ =~= old(self).spans@ + span_of(start as int, end as int, style));
    }

    /// `reveal` is the extent of the construct the marker belongs to; see
    /// [`Marker::reveal`].
    pub(crate) fn push_marker(&mut self, start: usize, end: usize, reveal: (usize, usize))
        ensures
            final(self).markers@ == old(self).markers@ + marker_of(
                start as int,
                end as int,
                (reveal.0 as int, reveal.1 as int),
            ),
            final(self).spans@ == old(self).spans@,
            final(self).line_states@ == old(self).line_states@,
            final(self).line_lists@ == old(self).line_lists@,
    {
        if end > start {
            self.markers.push(Marker { start, end, reveal });
        }
        assert(self.markers@ =~= old(self).markers@ + marker_of(
            start as int,
            end as int,
            (reveal.0 as int, reveal.1 as int),
        ));
    }
}

impl Default for Parsed {
    fn default() -> (parsed: Self)
        ensures
            parsed.spans@ == Seq::<Span>::empty(),
            parsed.markers@ == Seq::<Marker>::empty(),
            parsed.line_states@ == Seq::<LineState>::empty(),
            parsed.line_lists@ == Seq::<ListLevels>::empty(),
    {
        Parsed::new()
    }
}

/// Each level is indented further than the one it sits in.
pub open spec fn ascending(widths: Seq<u8>) -> bool {
    forall|j: int, k: int| 0 <= j < k < widths.len() ==> #[trigger] widths[j] < #[trigger] widths[k]
}

/// What is left of a stack after leaving the levels wider than `indent` is a
/// prefix of it, and its last level, if any, is no wider than `indent`.
proof fn lemma_popped(widths: Seq<u8>, indent: u8)
    ensures
        popped(widths, indent).len() <= widths.len(),
        popped(widths, indent) =~= widths.subrange(0, popped(widths, indent).len() as int),
        popped(widths, indent).len() > 0 ==> popped(widths, indent).last() <= indent,
    decreases widths.len(),
{
    if widths.len() > 0 && widths.last() > indent {
        lemma_popped(widths.drop_last(), indent);
    }
}

/// A wider indent leaves no fewer levels standing.
proof fn lemma_popped_monotonic(widths: Seq<u8>, a: u8, b: u8)
    requires
        a <= b,
    ensures
        popped(widths, a).len() <= popped(widths, b).len(),
    decreases widths.len(),
{
    if widths.len() > 0 && widths.last() > a {
        lemma_popped(widths.drop_last(), a);
        if widths.last() > b {
            lemma_popped_monotonic(widths.drop_last(), a, b);
        }
    }
}

/// Entering an item keeps the levels ascending: each is indented further
/// than the one it sits in.
pub proof fn law_levels_keep_ascending(widths: Seq<u8>, indent: u8)
    requires
        ascending(widths),
    ensures
        ascending(entered(widths, indent)),
{
    lemma_popped(widths, indent);
    let kept = popped(widths, indent);
    assert(ascending(kept)) by {
        assert forall|j: int, k: int| 0 <= j < k < kept.len() implies #[trigger] kept[j] < #[trigger] kept[k] by {
            assert(kept[j] == widths[j] && kept[k] == widths[k]);
        }
    }
    let out = entered(widths, indent);
    if out.len() > kept.len() {
        assert(out == kept.push(indent));
        assert forall|j: int, k: int| 0 <= j < k < out.len() implies #[trigger] out[j] < #[trigger] out[k] by {
            if k < kept.len() {
                assert(out[j] == kept[j] && out[k] == kept[k]);
            } else {
                assert(out[j] == kept[j]);
                assert(kept[j] <= kept.last());
            }
        }
    }
}

/// An item nests at most one level deeper than the stack it follows: two-
/// and four-space notes alike nest one level at a time.
pub proof fn law_nesting_one_level_at_a_time(widths: Seq<u8>, indent: u8)
    ensures
        entered(widths, indent).len() <= widths.len() + 1,
        depth_of(entered(widths, indent)) <= depth_of(widths) + 1,
{
    lemma_popped(widths, indent);
}

/// An item indented at least as far as another, after the same levels, is
/// styled at least as deep: a note that mixes indent widths still nests
/// monotonically.
pub proof fn law_deeper_indent_nests_no_shallower(widths: Seq<u8>, a: u8, b: u8)
    requires
        a <= b,
    ensures
        entered(widths, a).len() <= entered(widths, b).len(),
        depth_of(entered(widths, a)) <= depth_of(entered(widths, b)),
{
    lemma_popped(widths, a);
    lemma_popped(widths, b);
    lemma_popped_monotonic(widths, a, b);
}

} // verus!
