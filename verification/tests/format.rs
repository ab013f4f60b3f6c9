use quill::{parse, Edit, Format, LineState, Style};

/// Every format must write syntax this scanner actually styles, or a
/// button would produce text the editor renders as plain prose.
#[test]
fn every_format_writes_syntax_the_scanner_recognises() {
    let cases: &[(Format, Style)] = &[
        (Format::Bold, Style::Bold),
        (Format::Italic, Style::Italic),
        (Format::Strikethrough, Style::Strikethrough),
        (Format::Code, Style::Code),
        (Format::Heading(1), Style::Heading(1)),
        (Format::Heading(2), Style::Heading(2)),
        (Format::Heading(3), Style::Heading(3)),
        (Format::Quote, Style::Quote),
        (Format::Bullet, Style::ListItem(0)),
        (Format::Task, Style::Task(false)),
        (Format::WikiLink, Style::WikiLink),
        (Format::Link, Style::Link),
    ];

    for (format, expected) in cases {
        let written = match format.edit() {
            Edit::Wrap { before, after } => format!("{before}sample{after}"),
            Edit::Prefix { prefix } => format!("{prefix}sample"),
            Edit::Block { text, .. } => text,
        };
        let styles: Vec<Style> = parse(&written).spans.iter().map(|s| s.style).collect();
        assert!(
            styles.contains(expected),
            "{format:?} wrote {written:?}, which parses as {styles:?}"
        );
    }
}

#[test]
fn block_formats_parse_as_their_block() {
    let Edit::Block { text, .. } = Format::Table.edit() else {
        panic!("a block");
    };
    let styles: Vec<Style> = parse(&text).spans.iter().map(|s| s.style).collect();
    assert!(styles.contains(&Style::TableRow), "{styles:?}");

    // A freshly inserted code block is empty, so there is no line inside
    // it to style — what proves it is a fence is the state it opens.
    let Edit::Block { text, .. } = Format::CodeBlock.edit() else {
        panic!("a block");
    };
    assert!(
        parse(&text).line_states.contains(&LineState::Fence),
        "the inserted fence does not open a code block"
    );

    // A rule is only a rule below the first line, since a leading `---`
    // opens frontmatter.
    let Edit::Block { text, .. } = Format::Rule.edit() else {
        panic!("a block");
    };
    let styles: Vec<Style> = parse(&format!("Prose.\n{text}"))
        .spans
        .iter()
        .map(|s| s.style)
        .collect();
    assert!(styles.contains(&Style::Rule), "{styles:?}");
}

#[test]
fn the_caret_lands_inside_the_block_it_wrote() {
    for format in [Format::CodeBlock, Format::Table, Format::Rule] {
        let Edit::Block { text, caret } = format.edit() else {
            panic!("a block");
        };
        assert!(
            caret <= text.chars().count(),
            "{format:?} puts the caret past the end of what it wrote"
        );
    }
}
