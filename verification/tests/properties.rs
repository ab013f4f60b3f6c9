use quill::{
    extract, list_enter, parse, renumber, rewrite_target, scan_line, strip, Edit, Format,
    LineState, ListEnter, ListLevels, Marker, Style, MAX_LIST_DEPTH,
};

const BODY: &str = "# Heading\n\nSome **bold**, *it*, ~~gone~~ and `code`.\n\
- [ ] task with [[Target|shown]] and ![[pic.png|300]]\n  - nested #tag\n1. one\n3. three\n\n\
| a | b |\n|---|---|\n| c | d |\n\n```\n**not bold**\n```\nhttps://example.com.";

/// A note with frontmatter over `BODY`.
fn sample() -> String {
    format!("---\ntitle: x\n---\n{BODY}")
}

#[test]
fn every_scan_stays_within_its_note_with_markers_in_order() {
    let with_frontmatter = sample();
    for text in [with_frontmatter.as_str(), BODY, "", "\n", "**", "[[]]", "![[x]]]]", "🎉 **é** 🎉"] {
        let parsed = parse(text);
        let len = text.chars().count();
        for span in &parsed.spans {
            assert!(span.start < span.end && span.end <= len, "{text:?}: {span:?}");
        }
        for marker in &parsed.markers {
            assert!(marker.reveal.0 <= marker.start, "{text:?}: {marker:?}");
            assert!(marker.start < marker.end, "{text:?}: {marker:?}");
            assert!(marker.end <= marker.reveal.1 && marker.reveal.1 <= len, "{text:?}: {marker:?}");
        }
        for pair in parsed.markers.windows(2) {
            assert!(pair[0].end <= pair[1].start, "{text:?}: {pair:?}");
        }
    }
}

#[test]
fn one_state_and_one_list_per_line() {
    assert_eq!(parse("").line_states.len(), 1);
    assert_eq!(parse("a\nb\n").line_states.len(), 3);
    let text = sample();
    let parsed = parse(&text);
    let lines = text.chars().filter(|c| *c == '\n').count() + 1;
    assert_eq!(parsed.line_states.len(), lines);
    assert_eq!(parsed.line_lists.len(), lines);
}

#[test]
fn rescanning_every_line_gives_back_the_whole_scan() {
    let parsed = parse(BODY);
    let lines: Vec<&str> = BODY.split('\n').collect();
    let mut offset = 0usize;
    let mut spans = Vec::new();
    let mut markers = Vec::new();
    for (index, line) in lines.iter().enumerate() {
        let (scanned, state, list) = scan_line(
            line,
            offset,
            parsed.line_states[index],
            parsed.line_lists[index],
            lines.get(index + 1).copied(),
        );
        if index + 1 < lines.len() {
            assert_eq!(state, parsed.line_states[index + 1], "line {index}");
            assert_eq!(list, parsed.line_lists[index + 1], "line {index}");
        }
        spans.extend(scanned.spans);
        markers.extend(scanned.markers);
        offset += line.chars().count() + 1;
    }
    assert_eq!(spans, parsed.spans);
    assert_eq!(markers, parsed.markers);
}

#[test]
fn headings_stay_between_one_and_six_and_lists_stop_deepening() {
    let parsed = parse("###### six\n####### seven");
    assert_eq!(parsed.spans[0].style, Style::Heading(6));
    assert!(!parsed.spans.iter().any(|s| matches!(s.style, Style::Heading(7))));

    let mut note = String::new();
    for level in 0..10 {
        note.push_str(&" ".repeat(level * 2));
        note.push_str("- item\n");
    }
    let depths: Vec<u8> = parse(&note)
        .spans
        .iter()
        .filter_map(|s| match s.style {
            Style::ListItem(depth) => Some(depth),
            _ => None,
        })
        .collect();
    assert_eq!(depths, vec![0, 1, 2, 3, 4, 4, 4, 4, 4, 4]);
    assert!(depths.iter().all(|d| *d <= MAX_LIST_DEPTH));
}

#[test]
fn mixed_indent_widths_nest_one_level_at_a_time() {
    let depths: Vec<u8> = parse("- a\n    - b\n      - c\n  - d")
        .spans
        .iter()
        .filter_map(|s| match s.style {
            Style::ListItem(depth) => Some(depth),
            _ => None,
        })
        .collect();
    assert_eq!(depths, vec![0, 1, 2, 1]);
}

#[test]
fn links_and_embeds_found_never_overlap() {
    let found = extract("[[a]][[b]] ![[c.png]]");
    let links: Vec<(usize, usize)> = found.links.iter().map(|l| (l.start, l.end)).collect();
    assert_eq!(links, vec![(0, 5), (5, 10)]);
    let embeds: Vec<(usize, usize)> = found.embeds.iter().map(|l| (l.start, l.end)).collect();
    assert_eq!(embeds, vec![(11, 21)]);
    assert_eq!(found.embeds[0].target, "c.png");
}

#[test]
fn adjacent_links_are_each_rewritten_once() {
    assert_eq!(
        rewrite_target("[[Old]][[Old]]", "Old", "New").as_deref(),
        Some("[[New]][[New]]")
    );
}

#[test]
fn an_embed_before_a_link_is_rewritten_in_place() {
    assert_eq!(
        rewrite_target("![[Old]] and [[old.md|x]]", "Old", "New").as_deref(),
        Some("![[New]] and [[New|x]]")
    );
}

#[test]
fn a_link_to_another_note_is_kept_between_rewrites() {
    assert_eq!(
        rewrite_target("[[Old]], [[Other]], [[Old]]", "Old", "New").as_deref(),
        Some("[[New]], [[Other]], [[New]]")
    );
}

#[test]
fn enter_on_list_items_of_every_shape() {
    assert_eq!(list_enter("- item"), Some(ListEnter::Continue("- ".to_string())));
    assert_eq!(list_enter("  + item"), Some(ListEnter::Continue("  + ".to_string())));
    assert_eq!(list_enter("9) item"), Some(ListEnter::Continue("10) ".to_string())));
    assert_eq!(list_enter("007. item"), Some(ListEnter::Continue("8. ".to_string())));
    assert_eq!(
        list_enter("- [X] done"),
        Some(ListEnter::Continue("- [ ] ".to_string()))
    );
    assert_eq!(list_enter("- [ ]   "), Some(ListEnter::EndList));
    assert_eq!(list_enter("12. "), Some(ListEnter::EndList));
    assert_eq!(list_enter("-item"), None);
    assert_eq!(list_enter("1.item"), None);
    assert_eq!(list_enter(""), None);
}

#[test]
fn enter_past_the_largest_number_repeats_it() {
    assert_eq!(
        list_enter("4294967295. x"),
        Some(ListEnter::Continue("4294967295. ".to_string()))
    );
    // Too long to count on: the next item starts from one.
    assert_eq!(
        list_enter("99999999999. x"),
        Some(ListEnter::Continue("1. ".to_string()))
    );
}

#[test]
fn renumbering_reports_only_wrong_numbers_in_order() {
    let edits = renumber("1. a\n3. b\n7. c");
    let found: Vec<(usize, usize, u32)> = edits.iter().map(|e| (e.start, e.end, e.number)).collect();
    assert_eq!(found, vec![(5, 6, 2), (10, 11, 3)]);
    assert!(renumber("1. a\n2. b\n3. c").is_empty());
    assert!(renumber("").is_empty());
}

#[test]
fn headings_are_written_with_one_to_six_hashes() {
    let prefix = |level: u8| match Format::Heading(level).edit() {
        Edit::Prefix { prefix } => prefix,
        other => panic!("{other:?}"),
    };
    assert_eq!(prefix(0), "# ");
    assert_eq!(prefix(3), "### ");
    assert_eq!(prefix(9), "###### ");
}

#[test]
fn every_block_puts_the_caret_within_what_it_wrote() {
    for (format, expected) in [(Format::CodeBlock, 4), (Format::Table, 2), (Format::Rule, 4)] {
        match format.edit() {
            Edit::Block { text, caret } => {
                assert_eq!(caret, expected);
                assert!(caret <= text.chars().count());
            }
            other => panic!("{other:?}"),
        }
    }
}

#[test]
fn labels_and_syntax_name_what_a_button_does() {
    assert_eq!(Format::Heading(1).label(), "Heading 1");
    assert_eq!(Format::Heading(2).label(), "Heading 2");
    assert_eq!(Format::Heading(5).label(), "Heading 3");
    assert_eq!(Format::Bullet.label(), "List");
    assert_eq!(Format::Rule.label(), "Separator");
    assert_eq!(Format::Heading(6).syntax(), "### ");
    assert_eq!(Format::Link.syntax(), "[text](…)");
    assert_eq!(Format::Table.syntax(), "| a | b |");
    assert_eq!(Format::Quote.style(), None);
    assert_eq!(Format::Link.style(), Some(Style::Link));
}

#[test]
fn a_marker_is_revealed_from_just_before_to_just_after_its_construct() {
    let marker = Marker { start: 4, end: 6, reveal: (4, 12) };
    assert!(!marker.revealed_by(3));
    assert!(marker.revealed_by(4));
    assert!(marker.revealed_by(12));
    assert!(!marker.revealed_by(13));
}

#[test]
fn a_new_list_has_no_levels() {
    assert_eq!(ListLevels::default(), ListLevels::new());
    assert_eq!(parse("x").line_lists[0], ListLevels::default());
    assert_eq!(parse("x").line_states[0], LineState::Normal);
}

#[test]
fn tags_begin_with_any_letter_and_continue_with_any_letter_or_digit() {
    let tags: Vec<String> = extract("#café #été #日本 #a٣ #٣a #1x")
        .tags
        .into_iter()
        .map(|t| t.name)
        .collect();
    assert_eq!(tags, vec!["café", "été", "日本", "a٣"]);
}

#[test]
fn strip_keeps_the_words_of_every_construct() {
    assert_eq!(strip("# Title\n- [ ] buy **milk**"), "Title\n[ ] buy milk");
    assert_eq!(strip("[[Target|shown]] and ![[pic.png]]"), "shown and ");
}

#[test]
fn no_span_or_marker_covers_a_line_break() {
    let text = format!("{}\n**a\nb** [[x\ny]]", sample());
    let chars: Vec<char> = text.chars().collect();
    let parsed = parse(&text);
    for span in &parsed.spans {
        assert!(!chars[span.start..span.end].contains(&'\n'), "{span:?}");
    }
    for marker in &parsed.markers {
        assert!(!chars[marker.start..marker.end].contains(&'\n'), "{marker:?}");
    }
}

#[test]
fn strip_keeps_every_line_break() {
    let text = sample();
    let stripped = strip(&text);
    assert_eq!(stripped.matches('\n').count(), text.matches('\n').count());
}

#[test]
fn enter_on_a_continuation_ends_the_list() {
    for line in ["- milk", "  9) nine", "- [x] done", "4294967295. x"] {
        match list_enter(line) {
            Some(ListEnter::Continue(prefix)) => {
                assert_eq!(list_enter(&prefix), Some(ListEnter::EndList), "{line:?}")
            }
            other => panic!("{line:?} gave {other:?}"),
        }
    }
}

#[test]
fn a_line_scanned_further_on_reports_the_same_shifted() {
    let line = "- [ ] **b** `c` [l](u) [[W|s]] ![[f]] #tag";
    let (near, near_state, near_list) = scan_line(line, 3, LineState::Normal, ListLevels::new(), None);
    let (far, far_state, far_list) = scan_line(line, 40, LineState::Normal, ListLevels::new(), None);
    assert_eq!(near_state, far_state);
    assert_eq!(near_list, far_list);
    assert_eq!(near.spans.len(), far.spans.len());
    for (a, b) in near.spans.iter().zip(far.spans.iter()) {
        assert_eq!((a.start + 37, a.end + 37, a.style), (b.start, b.end, b.style));
    }
    for (a, b) in near.markers.iter().zip(far.markers.iter()) {
        assert_eq!(
            (a.start + 37, a.end + 37, a.reveal.0 + 37, a.reveal.1 + 37),
            (b.start, b.end, b.reveal.0, b.reveal.1)
        );
    }
}

#[test]
fn found_links_open_and_close_on_their_brackets() {
    let text = "a [[one]] b ![[two.png|3]] [[x|y]] #tag/sub";
    let chars: Vec<char> = text.chars().collect();
    let found = extract(text);
    for link in &found.links {
        assert_eq!(&chars[link.start..link.start + 2], &['[', '[']);
        assert_eq!(&chars[link.end - 2..link.end], &[']', ']']);
    }
    for embed in &found.embeds {
        assert_eq!(&chars[embed.start..embed.start + 3], &['!', '[', '[']);
        assert_eq!(&chars[embed.end - 2..embed.end], &[']', ']']);
    }
    for tag in &found.tags {
        let range: String = chars[tag.start..tag.end].iter().collect();
        assert_eq!(range, format!("#{}", tag.name));
    }
}

#[test]
fn frontmatter_runs_to_its_closing_line() {
    let states = parse("---\na: 1\n---\nbody\n---").line_states;
    assert_eq!(
        states,
        vec![
            LineState::Frontmatter,
            LineState::Frontmatter,
            LineState::Frontmatter,
            LineState::Normal,
            LineState::Normal
        ]
    );
    assert!(!parse("text\n---\nx").line_states.contains(&LineState::Frontmatter));
    assert!(parse("---\nnever closed").line_states.iter().all(|s| *s == LineState::Frontmatter));
}

#[test]
fn renumbering_touches_only_item_numbers() {
    let text = "1. a\n```\n5. b\n```\n  3. c\n 7) d";
    let chars: Vec<char> = text.chars().collect();
    for edit in renumber(text) {
        assert!(chars[edit.start..edit.end].iter().all(|c| c.is_ascii_digit()));
        assert!(edit.start == 0 || chars[edit.start - 1] == ' ' || chars[edit.start - 1] == '\n');
        assert!(!chars[edit.end].is_ascii_digit());
    }
}
