//! Pulling links, embeds and tags out of a note, for the index.
//!
//! This does not re-implement any syntax. It reads the scanner's output, so
//! there is exactly one definition of what a wikilink is, and anything the
//! editor styles as a link is a link to the index too, including the negative
//! cases: a `[[Target]]` inside a code span or a fence never becomes a span in
//! the first place and therefore never becomes an edge in the graph.
use vstd::prelude::*;
use std::collections::HashMap;
use crate::types::{Style, Span, Marker, Parsed};
use crate::text::{
    chars_of, string_of, copy_range, trim, trim_leading, trim_trailing, trimmed, without_leading,
    without_trailing, find_from, find, same_ignoring_ascii_case, eq_ignore_ascii_case,
};
use crate::note::{parse, scan_note};

verus! {

/// A `[[Target]]`, `[[Target|shown]]` or `![[attachment]]` in a note.
#[derive(Debug, Clone, PartialEq, Eq)]
pub struct WikiLink {
    /// What it points at, verbatim and untrimmed of case. Resolution against
    /// real notes is the index's job, not the scanner's.
    pub target: String,
    /// The text shown in place of the target, when they differ.
    pub display: Option<String>,
    /// Character offset of the opening bracket.
    pub start: usize,
    /// Character offset just past the closing bracket.
    pub end: usize,
}

/// A `#tag` written in the body of a note.
#[derive(Debug, Clone, PartialEq, Eq)]
pub struct TagRef {
    /// Without the leading hash. `#project/brain` gives `project/brain`.
    pub name: String,
    pub start: usize,
    pub end: usize,
}

/// Everything a note links to.
#[derive(Debug, Clone, PartialEq, Eq)]
pub struct Extracted {
    /// `[[…]]` links to other notes.
    pub links: Vec<WikiLink>,
    /// `![[…]]` references to attachments.
    pub embeds: Vec<WikiLink>,
    /// `#tags` in the body.
    pub tags: Vec<TagRef>,
}

impl Extracted {
    /// Nothing found yet.
    pub fn new() -> (extracted: Self)
        ensures
            extracted.links@ == Seq::<WikiLink>::empty(),
            extracted.embeds@ == Seq::<WikiLink>::empty(),
            extracted.tags@ == Seq::<TagRef>::empty(),
    {
        Extracted { links: Vec::new(), embeds: Vec::new(), tags: Vec::new() }
    }
}

impl Default for Extracted {
    fn default() -> (extracted: Self)
        ensures
            extracted.links@ == Seq::<WikiLink>::empty(),
            extracted.embeds@ == Seq::<WikiLink>::empty(),
            extracted.tags@ == Seq::<TagRef>::empty(),
    {
        Extracted::new()
    }
}

/// A link, by its characters.
pub struct LinkModel {
    pub target: Seq<char>,
    pub display: Option<Seq<char>>,
    pub start: usize,
    pub end: usize,
}

/// A tag, by its characters.
pub struct TagModel {
    pub name: Seq<char>,
    pub start: usize,
    pub end: usize,
}

/// An optional string, by its characters.
pub open spec fn text_of(text: Option<String>) -> Option<Seq<char>> {
    match text {
        Some(s) => Some(s@),
        None => None,
    }
}

impl View for WikiLink {
    type V = LinkModel;

    open spec fn view(&self) -> LinkModel {
        LinkModel {
            target: self.target@,
            display: text_of(self.display),
            start: self.start,
            end: self.end,
        }
    }
}

impl View for TagRef {
    type V = TagModel;

    open spec fn view(&self) -> TagModel {
        TagModel { name: self.name@, start: self.start, end: self.end }
    }
}

/// What extraction finds, by characters.
pub struct Found {
    pub links: Seq<LinkModel>,
    pub embeds: Seq<LinkModel>,
    pub tags: Seq<TagModel>,
}

/// `extracted`, by characters.
pub open spec fn found_of(extracted: Extracted) -> Found {
    Found {
        links: extracted.links@.map_values(|link: WikiLink| link@),
        embeds: extracted.embeds@.map_values(|link: WikiLink| link@),
        tags: extracted.tags@.map_values(|tag: TagRef| tag@),
    }
}

/// Where the construct whose span starts at `at` begins: the start of the
/// last of the first `count` markers that ends there, or `at` itself.
pub open spec fn opener_of(markers: Seq<Marker>, count: int, at: int) -> int
    decreases count,
{
    if count <= 0 {
        at
    } else if count - 1 < markers.len() && markers[count - 1].end == at {
        markers[count - 1].start as int
    } else {
        opener_of(markers, count - 1, at)
    }
}

/// The characters `from..to` of `text`, as far as it goes.
pub open spec fn piece(text: Seq<char>, from: int, to: int) -> Seq<char> {
    let len = text.len() as int;
    text.subrange(
        if from < len {
            from
        } else {
            len
        },
        if to < len {
            to
        } else {
            len
        },
    )
}

/// The link a wikilink span stands for, if it names a target.
pub open spec fn wikilink_found(text: Seq<char>, span: Span, start: int) -> Option<LinkModel> {
    let shown = piece(text, span.start as int, span.end as int);
    // "[[" alone means the span is the target.
    let piped = trimmed(
        without_trailing(without_leading(piece(text, start, span.start as int), '['), '|'),
    );
    let target = if piped.len() == 0 {
        trimmed(shown)
    } else {
        piped
    };
    let display = if piped.len() == 0 {
        None
    } else {
        Some(shown)
    };
    if target.len() == 0 {
        None
    } else {
        Some(
            LinkModel {
                target,
                display,
                start: start as usize,
                end: (span.end + 2) as usize,
            },
        )
    }
}

/// The attachment an embed span stands for, if it names a file. The part
/// after a pipe sizes the image and is not part of the filename.
pub open spec fn embed_found(text: Seq<char>, span: Span, start: int) -> Option<LinkModel> {
    let inner = piece(text, span.start as int, span.end as int);
    let target = match find_from(inner, 0, seq!['|']) {
        Some(pipe) => trimmed(inner.subrange(0, pipe)),
        None => trimmed(inner),
    };
    let display = match find_from(inner, 0, seq!['|']) {
        Some(pipe) => Some(trimmed(inner.subrange(pipe + 1, inner.len() as int))),
        None => None,
    };
    if target.len() == 0 {
        None
    } else {
        Some(
            LinkModel {
                target,
                display,
                start: start as usize,
                end: (span.end + 2) as usize,
            },
        )
    }
}

/// The tag a tag span stands for, without its hash.
pub open spec fn tag_found(text: Seq<char>, span: Span) -> Option<TagModel> {
    let name = without_leading(piece(text, span.start as int, span.end as int), '#');
    if name.len() == 0 {
        None
    } else {
        Some(TagModel { name, start: span.start, end: span.end })
    }
}

/// What the first `count` spans yield.
pub open spec fn found_upto(text: Seq<char>, spans: Seq<Span>, markers: Seq<Marker>, count: int) -> Found
    decreases count,
{
    if count <= 0 {
        Found { links: seq![], embeds: seq![], tags: seq![] }
    } else {
        let found = found_upto(text, spans, markers, count - 1);
        let span = spans[count - 1];
        let start = opener_of(markers, markers.len() as int, span.start as int);
        match span.style {
            Style::WikiLink => match wikilink_found(text, span, start) {
                Some(link) => Found { links: found.links.push(link), ..found },
                None => found,
            },
            Style::Embed => match embed_found(text, span, start) {
                Some(link) => Found { embeds: found.embeds.push(link), ..found },
                None => found,
            },
            Style::Tag => match tag_found(text, span) {
                Some(tag) => Found { tags: found.tags.push(tag), ..found },
                None => found,
            },
            _ => found,
        }
    }
}

/// Every link, embed and tag a scan of `text` styles, in span order.
pub open spec fn extraction(text: Seq<char>, spans: Seq<Span>, markers: Seq<Marker>) -> Found {
    found_upto(text, spans, markers, spans.len() as int)
}

/// The opener the map gives for `at`, falling back on `at` itself.
pub open spec fn looked_up(openers: Map<usize, usize>, at: usize) -> int {
    if openers.contains_key(at) {
        openers[at] as int
    } else {
        at as int
    }
}

/// `at`, held to the end of a text of `len` characters.
pub open spec fn clamped(at: int, len: int) -> int {
    if at < len {
        at
    } else {
        len
    }
}

/// A span extraction can read: what it slices out of `text` for the span
/// runs forwards once held to the text's end, and a link or embed it keeps
/// still has room for its end past the closing brackets. Spans of other
/// styles are not read at all.
pub open spec fn span_readable(text: Seq<char>, markers: Seq<Marker>, span: Span) -> bool {
    let len = text.len() as int;
    let start = opener_of(markers, markers.len() as int, span.start as int);
    match span.style {
        Style::WikiLink => {
            &&& clamped(span.start as int, len) <= clamped(span.end as int, len)
            &&& clamped(start, len) <= clamped(span.start as int, len)
            &&& wikilink_found(text, span, start) is Some ==> span.end + 2 <= usize::MAX
        },
        Style::Embed => {
            &&& clamped(span.start as int, len) <= clamped(span.end as int, len)
            &&& embed_found(text, span, start) is Some ==> span.end + 2 <= usize::MAX
        },
        Style::Tag => clamped(span.start as int, len) <= clamped(span.end as int, len),
        _ => true,
    }
}

/// A scan of `text` that extraction can read: every span is.
pub open spec fn readable(text: Seq<char>, spans: Seq<Span>, markers: Seq<Marker>) -> bool {
    forall|k: int| 0 <= k < spans.len() ==> span_readable(text, markers, #[trigger] spans[k])
}

/// The characters `from..to` of `chars`, as far as they go.
fn piece_of(chars: &[char], from: usize, to: usize) -> (copy: Vec<char>)
    requires
        clamped(from as int, chars@.len() as int) <= clamped(to as int, chars@.len() as int),
    ensures
        copy@ == piece(chars@, from as int, to as int),
{
    let len = chars.len();
    let a = if from < len {
        from
    } else {
        len
    };
    let b = if to < len {
        to
    } else {
        len
    };
    copy_range(chars, a, b)
}

/// [`extract`], reusing a scan the caller already has.
pub fn extract_with(text: &str, parsed: &Parsed) -> (extracted: Extracted)
    requires
        readable(text@, parsed.spans@, parsed.markers@),
    ensures
        found_of(extracted) == extraction(text@, parsed.spans@, parsed.markers@),
{
    broadcast use vstd::std_specs::hash::group_hash_axioms;

    let chars = chars_of(text);
    let ghost spans = parsed.spans@;
    let ghost markers = parsed.markers@;
    // A styled span's opening syntax is the marker that ends where it begins.
    // For a piped link that marker is "[[Target|", which is where the target
    // survives; for a plain one it is just "[[".
    let mut opener: HashMap<usize, usize> = HashMap::new();
    let mut m: usize = 0;
    while m < parsed.markers.len()
        invariant
            m <= markers.len(),
            markers == parsed.markers@,
            forall|at: usize| #[trigger] looked_up(opener@, at) == opener_of(markers, m as int, at as int),
        decreases markers.len() - m,
    {
        let marker = parsed.markers[m];
        let ghost previous = opener@;
        opener.insert(marker.end, marker.start);
        assert forall|at: usize| #[trigger] looked_up(opener@, at) == opener_of(markers, m + 1, at as int) by {
            assert(looked_up(previous, at) == opener_of(markers, m as int, at as int));
        }
        m = m + 1;
    }
    let pipe = ['|'];
    assert(pipe@ =~= seq!['|']);
    let mut extracted = Extracted::new();
    assert(found_of(extracted).links =~= Seq::<LinkModel>::empty());
    assert(found_of(extracted).embeds =~= Seq::<LinkModel>::empty());
    assert(found_of(extracted).tags =~= Seq::<TagModel>::empty());
    let mut s: usize = 0;
    while s < parsed.spans.len()
        invariant
            s <= spans.len(),
            spans == parsed.spans@,
            markers == parsed.markers@,
            chars@ == text@,
            pipe@ == seq!['|'],
            readable(text@, spans, markers),
            forall|at: usize| #[trigger] looked_up(opener@, at) == opener_of(markers, markers.len() as int, at as int),
            found_of(extracted) == found_upto(text@, spans, markers, s as int),
        decreases spans.len() - s,
    {
        let span = parsed.spans[s];
        let ghost found = found_of(extracted);
        assert(spans[s as int] == span);
        assert(span_readable(text@, markers, spans[s as int]));
        let start = match opener.get(&span.start) {
            Some(at) => *at,
            None => span.start,
        };
        assert(start == opener_of(markers, markers.len() as int, span.start as int)) by {
            assert(looked_up(opener@, span.start) == opener_of(markers, markers.len() as int, span.start as int));
        }
        match span.style {
            Style::WikiLink => {
                let shown = piece_of(&chars, span.start, span.end);
                let before = piece_of(&chars, start, span.start);
                let piped = trim(&trim_trailing(&trim_leading(&before, '['), '|'));
                let (target, display) = if piped.len() == 0 {
                    (trim(&shown), None)
                } else {
                    (piped, Some(string_of(&shown)))
                };
                if target.len() > 0 {
                    assert(wikilink_found(text@, span, start as int) is Some);
                    let link = WikiLink {
                        target: string_of(&target),
                        display,
                        start,
                        end: span.end + 2,
                    };
                    extracted.links.push(link);
                    assert(found_of(extracted).links =~= found.links.push(link@));
                }
            },
            Style::Embed => {
                let inner = piece_of(&chars, span.start, span.end);
                // "![[diagram.png|300]]": the part after the pipe sizes the
                // image and is not part of the filename.
                let (target, display) = match find(&inner, 0, &pipe) {
                    Some(at) => (
                        trim(&inner[0..at]),
                        Some(string_of(&trim(&inner[at + 1..inner.len()]))),
                    ),
                    None => (trim(&inner), None),
                };
                if target.len() > 0 {
                    assert(embed_found(text@, span, start as int) is Some);
                    let link = WikiLink {
                        target: string_of(&target),
                        display,
                        start,
                        end: span.end + 2,
                    };
                    extracted.embeds.push(link);
                    assert(found_of(extracted).embeds =~= found.embeds.push(link@));
                }
            },
            Style::Tag => {
                let name = trim_leading(&piece_of(&chars, span.start, span.end), '#');
                if name.len() > 0 {
                    let tag = TagRef { name: string_of(&name), start: span.start, end: span.end };
                    extracted.tags.push(tag);
                    assert(found_of(extracted).tags =~= found.tags.push(tag@));
                }
            },
            _ => {},
        }
        assert(found_of(extracted) == found_upto(text@, spans, markers, s + 1));
        s = s + 1;
    }
    extracted
}

/// A marker that opens a construct starts no later than the construct's span.
pub proof fn lemma_opener_before(markers: Seq<Marker>, count: int, at: int)
    requires
        count <= markers.len(),
        forall|k: int| 0 <= k < markers.len() ==> #[trigger] markers[k].start <= markers[k].end,
    ensures
        opener_of(markers, count, at) <= at,
    decreases count,
{
    if count > 0 {
        lemma_opener_before(markers, count - 1, at);
    }
}

/// Read every link, embed and tag out of a note's source.
pub fn extract(text: &str) -> (extracted: Extracted)
    requires
        text@.len() + 2 <= usize::MAX,
    ensures
        found_of(extracted) == extraction(text@, scan_note(text@).spans, scan_note(text@).markers),
        forall|k: int|
            #![trigger extracted.tags@[k]]
            0 <= k < extracted.tags@.len() ==> {
                &&& extracted.tags@[k].start < extracted.tags@[k].end <= text@.len()
                &&& text@.subrange(extracted.tags@[k].start as int, extracted.tags@[k].end as int) == seq!['#']
                    + extracted.tags@[k].name@
            },
{
    let parsed = parse(text);
    proof {
        crate::laws::lemma_scan_readable(text@);
    }
    let extracted = extract_with(text, &parsed);
    proof {
        let scan = scan_note(text@);
        let found = found_of(extracted);
        crate::apart::law_found_links_keep_to_their_syntax(text@);
        lemma_found_tags_once(text@, scan.spans, scan.markers, scan.spans.len() as int);
        assert forall|k: int| #![trigger extracted.tags@[k]] 0 <= k < extracted.tags@.len() implies {
            &&& extracted.tags@[k].start < extracted.tags@[k].end <= text@.len()
            &&& text@.subrange(extracted.tags@[k].start as int, extracted.tags@[k].end as int) == seq!['#']
                + extracted.tags@[k].name@
        } by {
            let t = found.tags[k];
            assert(t == extracted.tags@[k]@);
            let range = text@.subrange(t.start as int, t.end as int);
            assert(range[0] == '#');
            if range.len() > 1 {
                assert(range[1] == text@[t.start + 1]);
                assert(crate::text::skip_char(range, 1, range.len() as int, '#') == 1);
            }
            assert(crate::text::skip_char(range, 0, range.len() as int, '#') == 1);
            assert(range =~= seq!['#'] + t.name);
        }
    }
    extracted
}

/// Every tag found among the first `count` spans that runs past its `#` has
/// something other than a second `#` after it.
proof fn lemma_found_tags_once(text: Seq<char>, spans: Seq<Span>, markers: Seq<Marker>, count: int)
    requires
        crate::inline::tags_hash_once(text, 0, spans),
        0 <= count <= spans.len(),
    ensures
        forall|k: int|
            0 <= k < found_upto(text, spans, markers, count).tags.len() && #[trigger] found_upto(
                text,
                spans,
                markers,
                count,
            ).tags[k].start + 1 < found_upto(text, spans, markers, count).tags[k].end ==> text[found_upto(
                text,
                spans,
                markers,
                count,
            ).tags[k].start + 1] != '#',
    decreases count,
{
    if count > 0 {
        lemma_found_tags_once(text, spans, markers, count - 1);
        let before = found_upto(text, spans, markers, count - 1);
        let after = found_upto(text, spans, markers, count);
        let span = spans[count - 1];
        assert forall|k: int| 0 <= k < after.tags.len() && #[trigger] after.tags[k].start + 1 < after.tags[k].end
            implies text[after.tags[k].start + 1] != '#' by {
            if k < before.tags.len() {
                assert(after.tags[k] == before.tags[k]);
            } else {
                assert(span.style == Style::Tag);
                assert(text[span.start - 0 + 1] != '#');
            }
        }
    }
}


/// Where the last `/`-separated segment of `path[..end]` begins.
pub open spec fn after_last_slash(path: Seq<char>, end: int) -> int
    decreases end,
{
    if end <= 0 {
        0
    } else if end - 1 < path.len() && path[end - 1] == '/' {
        end
    } else {
        after_last_slash(path, end - 1)
    }
}

/// The part of `path` after its last `/`, or all of it.
pub open spec fn last_segment(path: Seq<char>) -> Seq<char> {
    path.subrange(after_last_slash(path, path.len() as int), path.len() as int)
}

/// A link target that names the note `name`: the name itself, the name with
/// `.md`, or a path ending in the name, all ignoring ASCII case and the
/// target's surrounding whitespace.
pub open spec fn points_at(target: Seq<char>, name: Seq<char>) -> bool {
    let t = trimmed(target);
    ||| same_ignoring_ascii_case(t, name)
    ||| same_ignoring_ascii_case(t, name + seq!['.', 'm', 'd'])
    ||| same_ignoring_ascii_case(last_segment(t), name)
}

/// One replacement: the characters `start..end` become `text`.
pub struct Replacement {
    pub start: usize,
    pub end: usize,
    pub text: Seq<char>,
}

/// A link written anew pointing at `to`, keeping its display text.
pub open spec fn relinked(link: LinkModel, embed: bool, to: Seq<char>) -> Seq<char> {
    (if embed {
        seq!['!', '[', '[']
    } else {
        seq!['[', '[']
    }) + to + match link.display {
        Some(display) => seq!['|'] + display,
        None => seq![],
    } + seq![']', ']']
}

/// The replacements for the first `count` of `links` that point at `from`.
pub open spec fn edits_upto(
    links: Seq<LinkModel>,
    count: int,
    embed: bool,
    from: Seq<char>,
    to: Seq<char>,
) -> Seq<Replacement>
    decreases count,
{
    if count <= 0 {
        seq![]
    } else {
        let before = edits_upto(links, count - 1, embed, from, to);
        let link = links[count - 1];
        if points_at(link.target, from) {
            before.push(Replacement { start: link.start, end: link.end, text: relinked(link, embed, to) })
        } else {
            before
        }
    }
}

/// Every replacement a rename of `from` to `to` makes: links first, then
/// embeds, each in the order found.
pub open spec fn rename_edits(found: Found, from: Seq<char>, to: Seq<char>) -> Seq<Replacement> {
    edits_upto(found.links, found.links.len() as int, false, from, to) + edits_upto(
        found.embeds,
        found.embeds.len() as int,
        true,
        from,
        to,
    )
}

/// `edit` placed into `sorted` after every edit that starts no later.
pub open spec fn insert_by_start(sorted: Seq<Replacement>, edit: Replacement) -> Seq<Replacement>
    decreases sorted.len(),
{
    if sorted.len() == 0 {
        seq![edit]
    } else if sorted.last().start <= edit.start {
        sorted.push(edit)
    } else {
        insert_by_start(sorted.drop_last(), edit).push(sorted.last())
    }
}

/// `edits` ordered by where they start, edits that start together kept in
/// the order given: what a stable sort by start gives.
pub open spec fn sort_by_start(edits: Seq<Replacement>) -> Seq<Replacement>
    decreases edits.len(),
{
    if edits.len() == 0 {
        edits
    } else {
        insert_by_start(sort_by_start(edits.drop_last()), edits.last())
    }
}

/// The text up to the end of the `count`th edit, with the first `count`
/// edits applied, and where the untouched text resumes: the text between
/// two edits is copied as it stands.
pub open spec fn spliced(text: Seq<char>, edits: Seq<Replacement>, count: int) -> (Seq<char>, int)
    decreases count,
{
    if count <= 0 {
        (seq![], 0)
    } else {
        let (out, at) = spliced(text, edits, count - 1);
        let edit = edits[count - 1];
        let len = text.len() as int;
        let upto = if edit.start < len {
            edit.start as int
        } else {
            len
        };
        (
            out + text.subrange(at, upto) + edit.text,
            if edit.end < len {
                edit.end as int
            } else {
                len
            },
        )
    }
}

/// `body` with every link to `from` pointing at `to`; nothing when no link
/// matched.
pub open spec fn renamed(body: Seq<char>, from: Seq<char>, to: Seq<char>) -> Option<Seq<char>> {
    let found = extraction(body, scan_note(body).spans, scan_note(body).markers);
    let edits = rename_edits(found, from, to);
    if edits.len() == 0 {
        None
    } else {
        let sorted = sort_by_start(edits);
        let (out, at) = spliced(body, sorted, sorted.len() as int);
        Some(out + body.subrange(at, body.len() as int))
    }
}

/// One replacement to make.
struct Splice {
    start: usize,
    end: usize,
    text: Vec<char>,
}

impl View for Splice {
    type V = Replacement;

    closed spec fn view(&self) -> Replacement {
        Replacement { start: self.start, end: self.end, text: self.text@ }
    }
}

/// The edits, by characters.
spec fn splices(edits: Seq<Splice>) -> Seq<Replacement> {
    edits.map_values(|edit: Splice| edit@)
}

/// Whether `target` names the note `name` (or `name_md`, the name with
/// `.md`).
fn points_here(target: &[char], name: &[char], name_md: &[char]) -> (here: bool)
    requires
        name_md@ == name@ + seq!['.', 'm', 'd'],
    ensures
        here == points_at(target@, name@),
{
    let t = trim(target);
    if eq_ignore_ascii_case(&t, name) || eq_ignore_ascii_case(&t, name_md) {
        return true;
    }
    // A link written as a path still points here.
    let mut start = t.len();
    while start > 0 && t[start - 1] != '/'
        invariant
            start <= t@.len(),
            after_last_slash(t@, t@.len() as int) == after_last_slash(t@, start as int),
        decreases start,
    {
        start = start - 1;
    }
    let tail = copy_range(&t, start, t.len());
    eq_ignore_ascii_case(&tail, name)
}

/// The characters of a link rewritten to point at `to`.
fn relink(link: &WikiLink, embed: bool, to: &[char]) -> (text: Vec<char>)
    ensures
        text@ == relinked(link@, embed, to@),
{
    let mut text: Vec<char> = Vec::new();
    if embed {
        text.push('!');
    }
    text.push('[');
    text.push('[');
    let mut k: usize = 0;
    while k < to.len()
        invariant
            k <= to@.len(),
            text@ == (if embed {
                seq!['!', '[', '[']
            } else {
                seq!['[', '[']
            }) + to@.take(k as int),
        decreases to@.len() - k,
    {
        text.push(to[k]);
        k = k + 1;
        assert(to@.take(k as int) =~= to@.take(k - 1).push(to@[k - 1]));
    }
    assert(to@.take(k as int) =~= to@);
    let ghost head = text@;
    match &link.display {
        Some(display) => {
            let shown = chars_of(display.as_str());
            text.push('|');
            let mut j: usize = 0;
            while j < shown.len()
                invariant
                    j <= shown@.len(),
                    text@ == head + seq!['|'] + shown@.take(j as int),
                decreases shown@.len() - j,
            {
                text.push(shown[j]);
                j = j + 1;
                assert(shown@.take(j as int) =~= shown@.take(j - 1).push(shown@[j - 1]));
            }
            assert(shown@.take(j as int) =~= shown@);
            assert(head + seq!['|'] + shown@ =~= head + (seq!['|'] + shown@));
        },
        None => {
            assert(head =~= head + Seq::<char>::empty());
        },
    }
    let ghost body = text@;
    text.push(']');
    text.push(']');
    assert(text@ =~= body + seq![']', ']']);
    text
}

/// Put `edit` into `sorted` after every edit that starts no later.
fn insert_sorted(sorted: &mut Vec<Splice>, edit: Splice)
    ensures
        splices(final(sorted)@) == insert_by_start(splices(old(sorted)@), edit@),
{
    let ghost whole = splices(sorted@);
    let mut at = sorted.len();
    assert(whole.take(at as int) =~= whole);
    assert(insert_by_start(whole, edit@) =~= insert_by_start(whole.take(at as int), edit@) + whole.skip(at as int));
    while at > 0 && sorted[at - 1].start > edit.start
        invariant
            at <= sorted@.len(),
            whole == splices(sorted@),
            insert_by_start(whole, edit@) == insert_by_start(whole.take(at as int), edit@) + whole.skip(
                at as int,
            ),
        decreases at,
    {
        proof {
            let front = whole.take(at as int);
            assert(front.last() == whole[at - 1]);
            assert(front.drop_last() =~= whole.take(at - 1));
            assert(whole.skip(at - 1) =~= seq![whole[at - 1]] + whole.skip(at as int));
            assert(insert_by_start(front, edit@) == insert_by_start(whole.take(at - 1), edit@).push(whole[at - 1]));
            assert(insert_by_start(whole.take(at - 1), edit@).push(whole[at - 1]) + whole.skip(at as int)
                =~= insert_by_start(whole.take(at - 1), edit@) + whole.skip(at - 1));
        }
        at = at - 1;
    }
    let ghost e = edit@;
    sorted.insert(at, edit);
    proof {
        let front = whole.take(at as int);
        if at > 0 {
            assert(front.last() == whole[at - 1]);
        }
        assert(insert_by_start(front, e) =~= front.push(e));
        assert(splices(sorted@) =~= front.push(e) + whole.skip(at as int));
    }
}

/// Rewrite every link pointing at `from` so it points at `to`.
///
/// Returns `None` when nothing matched, so a rename can skip rewriting the
/// notes it does not affect rather than rewriting every file in the vault and
/// producing a diff full of no-ops.
///
/// Display text is preserved: `[[Old|the old thing]]` becomes
/// `[[New|the old thing]]`, because the words someone chose to show are theirs
/// and have nothing to do with the filename.
pub fn rewrite_target(body: &str, from: &str, to: &str) -> (rewritten: Option<String>)
    requires
        body@.len() + 2 <= usize::MAX,
    ensures
        match rewritten {
            Some(text) => renamed(body@, from@, to@) == Some(text@),
            None => renamed(body@, from@, to@) is None,
        },
{
    let name = chars_of(from);
    let mut name_md = chars_of(from);
    name_md.push('.');
    name_md.push('m');
    name_md.push('d');
    assert(name_md@ =~= name@ + seq!['.', 'm', 'd']);
    let target = chars_of(to);
    let extracted = extract(body);
    let ghost found = found_of(extracted);
    let mut sorted: Vec<Splice> = Vec::new();
    let ghost mut edits: Seq<Replacement> = seq![];
    let mut i: usize = 0;
    while i < extracted.links.len()
        invariant
            i <= extracted.links@.len(),
            found == found_of(extracted),
            name_md@ == name@ + seq!['.', 'm', 'd'],
            edits == edits_upto(found.links, i as int, false, from@, to@),
            splices(sorted@) == sort_by_start(edits),
            name@ == from@,
            target@ == to@,
        decreases extracted.links@.len() - i,
    {
        let link = &extracted.links[i];
        let target_chars = chars_of(link.target.as_str());
        assert(found.links[i as int] == link@);
        if points_here(&target_chars, &name, &name_md) {
            let edit = Splice { start: link.start, end: link.end, text: relink(link, false, &target) };
            proof {
                edits = edits.push(edit@);
                assert(edits.drop_last() =~= edits_upto(found.links, i as int, false, from@, to@));
            }
            insert_sorted(&mut sorted, edit);
        }
        i = i + 1;
    }
    let ghost link_edits = edits;
    let ghost mut embed_edits: Seq<Replacement> = seq![];
    let mut j: usize = 0;
    assert(link_edits + embed_edits =~= link_edits);
    while j < extracted.embeds.len()
        invariant
            j <= extracted.embeds@.len(),
            found == found_of(extracted),
            name_md@ == name@ + seq!['.', 'm', 'd'],
            embed_edits == edits_upto(found.embeds, j as int, true, from@, to@),
            splices(sorted@) == sort_by_start(link_edits + embed_edits),
            name@ == from@,
            target@ == to@,
        decreases extracted.embeds@.len() - j,
    {
        let link = &extracted.embeds[j];
        let target_chars = chars_of(link.target.as_str());
        assert(found.embeds[j as int] == link@);
        if points_here(&target_chars, &name, &name_md) {
            let edit = Splice { start: link.start, end: link.end, text: relink(link, true, &target) };
            proof {
                let grown = embed_edits.push(edit@);
                assert((link_edits + grown).drop_last() =~= link_edits + embed_edits);
                assert((link_edits + grown).last() == edit@);
                embed_edits = grown;
            }
            insert_sorted(&mut sorted, edit);
        }
        j = j + 1;
    }
    let ghost all = link_edits + embed_edits;
    assert(all == rename_edits(found, from@, to@));
    if sorted.len() == 0 {
        proof {
            lemma_sorted_len(all);
        }
        return None;
    }
    proof {
        lemma_sorted_len(all);
    }
    // Splice in order of position; the text between edits is copied as it
    // stands.
    proof {
        crate::apart::law_rename_replacements_in_sequence(body@, from@, to@);
    }
    let chars = chars_of(body);
    let len = chars.len();
    let mut out: Vec<char> = Vec::new();
    let mut at: usize = 0;
    let mut k: usize = 0;
    let ghost order = splices(sorted@);
    assert(crate::apart::in_sequence(order));
    while k < sorted.len()
        invariant
            k <= sorted@.len(),
            order == splices(sorted@),
            crate::apart::in_sequence(order),
            chars@ == body@,
            len == chars@.len(),
            at <= len,
            k < order.len() ==> at <= order[k as int].start,
            (out@, at as int) == spliced(body@, order, k as int),
        decreases sorted@.len() - k,
    {
        let edit = &sorted[k];
        assert(order[k as int] == edit@);
        let upto = if edit.start < len {
            edit.start
        } else {
            len
        };
        let ghost before = out@;
        let mut c = at;
        while c < upto
            invariant
                at <= c <= upto <= len,
                len == chars@.len(),
                out@ == before + chars@.subrange(at as int, c as int),
            decreases upto - c,
        {
            out.push(chars[c]);
            c = c + 1;
            assert(out@ =~= before + chars@.subrange(at as int, c as int));
        }
        let ghost copied = out@;
        let mut t: usize = 0;
        while t < edit.text.len()
            invariant
                t <= edit.text@.len(),
                out@ == copied + edit.text@.take(t as int),
            decreases edit.text@.len() - t,
        {
            out.push(edit.text[t]);
            t = t + 1;
            assert(edit.text@.take(t as int) =~= edit.text@.take(t - 1).push(edit.text@[t - 1]));
        }
        assert(edit.text@.take(t as int) =~= edit.text@);
        at = if edit.end < len {
            edit.end
        } else {
            len
        };
        proof {
            if k + 1 < order.len() {
                assert(order[k as int].end <= order[k + 1].start);
            }
        }
        k = k + 1;
    }
    let ghost spliced_out = out@;
    let mut c = at;
    while c < len
        invariant
            at <= c <= len,
            len == chars@.len(),
            out@ == spliced_out + chars@.subrange(at as int, c as int),
        decreases len - c,
    {
        out.push(chars[c]);
        c = c + 1;
        assert(out@ =~= spliced_out + chars@.subrange(at as int, c as int));
    }
    Some(string_of(&out))
}

/// Sorting keeps the number of edits.
proof fn lemma_sorted_len(edits: Seq<Replacement>)
    ensures
        sort_by_start(edits).len() == edits.len(),
    decreases edits.len(),
{
    if edits.len() > 0 {
        lemma_sorted_len(edits.drop_last());
        lemma_inserted_len(sort_by_start(edits.drop_last()), edits.last());
    }
}

proof fn lemma_inserted_len(sorted: Seq<Replacement>, edit: Replacement)
    ensures
        insert_by_start(sorted, edit).len() == sorted.len() + 1,
    decreases sorted.len(),
{
    if sorted.len() > 0 && sorted.last().start > edit.start {
        lemma_inserted_len(sorted.drop_last(), edit);
    }
}


proof fn lemma_no_edits(links: Seq<LinkModel>, count: int, embed: bool, from: Seq<char>, to: Seq<char>)
    requires
        0 <= count <= links.len(),
    ensures
        edits_upto(links, count, embed, from, to).len() == 0 <==> forall|k: int|
            0 <= k < count ==> !points_at(#[trigger] links[k].target, from),
    decreases count,
{
    if count > 0 {
        lemma_no_edits(links, count - 1, embed, from, to);
        if points_at(links[count - 1].target, from) {
            assert(edits_upto(links, count, embed, from, to).len() > 0);
        }
    }
}

/// A rename rewrites a note exactly when some link or embed in it points at
/// the renamed note: a note with nothing to change is left entirely alone,
/// so a rename produces no diff of no-op rewrites.
pub proof fn law_rename_leaves_unrelated_notes_alone(body: Seq<char>, from: Seq<char>, to: Seq<char>)
    ensures
        ({
            let found = extraction(body, scan_note(body).spans, scan_note(body).markers);
            renamed(body, from, to) is None <==> (forall|k: int|
                0 <= k < found.links.len() ==> !points_at(#[trigger] found.links[k].target, from))
                && (forall|k: int|
                0 <= k < found.embeds.len() ==> !points_at(#[trigger] found.embeds[k].target, from))
        }),
{
    let found = extraction(body, scan_note(body).spans, scan_note(body).markers);
    lemma_no_edits(found.links, found.links.len() as int, false, from, to);
    lemma_no_edits(found.embeds, found.embeds.len() as int, true, from, to);
    lemma_sorted_len(rename_edits(found, from, to));
}

/// `a` and `b` are the same characters but that a letter may be upper case
/// in one and lower case in the other.
pub open spec fn differs_only_in_ascii_case(a: Seq<char>, b: Seq<char>) -> bool {
    &&& a.len() == b.len()
    &&& forall|k: int|
        0 <= k < a.len() ==> {
            ||| #[trigger] a[k] == b[k]
            ||| 'a' <= a[k] <= 'z' && a[k] as int == b[k] as int + 32
            ||| 'a' <= b[k] <= 'z' && b[k] as int == a[k] as int + 32
        }
}

proof fn lemma_case_folds(a: Seq<char>, b: Seq<char>)
    requires
        differs_only_in_ascii_case(a, b),
    ensures
        same_ignoring_ascii_case(a, b),
{
    assert forall|k: int| 0 <= k < a.len() implies crate::text::ascii_lower(#[trigger] a[k])
        == crate::text::ascii_lower(b[k]) by {
        assert(a[k] == b[k] || ('a' <= a[k] <= 'z' && a[k] as int == b[k] as int + 32) || ('a' <= b[k] <= 'z'
            && b[k] as int == a[k] as int + 32));
    }
}

/// A rename repoints a link or embed whose target names the renamed note
/// but for ASCII case, as the whole trimmed target or as its last path
/// segment: the note is rewritten rather than left alone.
pub proof fn law_rename_ignores_ascii_case(body: Seq<char>, from: Seq<char>, to: Seq<char>, k: int, embed: bool)
    requires
        ({
            let found = extraction(body, scan_note(body).spans, scan_note(body).markers);
            let links = if embed {
                found.embeds
            } else {
                found.links
            };
            &&& 0 <= k < links.len()
            &&& differs_only_in_ascii_case(trimmed(links[k].target), from) || differs_only_in_ascii_case(
                last_segment(trimmed(links[k].target)),
                from,
            )
        }),
    ensures
        renamed(body, from, to) is Some,
{
    let found = extraction(body, scan_note(body).spans, scan_note(body).markers);
    let links = if embed {
        found.embeds
    } else {
        found.links
    };
    let t = trimmed(links[k].target);
    if differs_only_in_ascii_case(t, from) {
        lemma_case_folds(t, from);
    } else {
        lemma_case_folds(last_segment(t), from);
    }
    assert(points_at(links[k].target, from));
    law_rename_leaves_unrelated_notes_alone(body, from, to);
}

} // verus!
