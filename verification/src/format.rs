//! The formatting actions the UI can apply, and how each is written.
//!
//! Named here rather than in the UI because what each one means (which
//! characters wrap a bold run, what prefixes a task) is the scanner's
//! business, and the two must agree or a button would write syntax the editor
//! does not style.
use vstd::prelude::*;
use crate::types::Style;

verus! {

/// A formatting action the UI can apply to a selection or a line.
#[derive(Debug, Clone, Copy, PartialEq, Eq, Structural)]
pub enum Format {
    Bold,
    Italic,
    Strikethrough,
    Code,
    /// `# ` … `###### `
    Heading(u8),
    Quote,
    Bullet,
    Task,
    /// `[[ ]]`, left for the completion popover to fill in.
    WikiLink,
    Link,
    CodeBlock,
    Table,
    Rule,
}

/// How a [`Format`] is written.
#[derive(Debug, Clone, PartialEq, Eq)]
pub enum Edit {
    /// Put `before` and `after` either side of the selection. With nothing
    /// selected the caret lands between them.
    Wrap { before: String, after: String },
    /// Put `prefix` at the start of each selected line, or remove it if every
    /// one already has it.
    Prefix { prefix: String },
    /// Insert a block of text on lines of its own. `caret` is how many
    /// characters into it the cursor should land.
    Block { text: String, caret: usize },
}

/// An [`Edit`], by characters.
pub enum EditModel {
    Wrap { before: Seq<char>, after: Seq<char> },
    Prefix { prefix: Seq<char> },
    Block { text: Seq<char>, caret: usize },
}

/// `edit`, by characters.
pub open spec fn edit_model(edit: Edit) -> EditModel {
    match edit {
        Edit::Wrap { before, after } => EditModel::Wrap { before: before@, after: after@ },
        Edit::Prefix { prefix } => EditModel::Prefix { prefix: prefix@ },
        Edit::Block { text, caret } => EditModel::Block { text: text@, caret },
    }
}

/// A heading level held to the six Markdown has.
pub open spec fn heading_depth(level: u8) -> nat {
    if level < 1 {
        1
    } else if level > 6 {
        6
    } else {
        level as nat
    }
}

/// The same text before and after.
pub open spec fn wrap_in(marker: Seq<char>) -> EditModel {
    EditModel::Wrap { before: marker, after: marker }
}

/// What each format writes.
pub open spec fn written(format: Format) -> EditModel {
    match format {
        Format::Bold => wrap_in(seq!['*', '*']),
        Format::Italic => wrap_in(seq!['*']),
        Format::Strikethrough => wrap_in(seq!['~', '~']),
        Format::Code => wrap_in(seq!['`']),
        Format::WikiLink => EditModel::Wrap { before: seq!['[', '['], after: seq![']', ']'] },
        Format::Link => EditModel::Wrap {
            before: seq!['['],
            after: seq![']', '(', 'h', 't', 't', 'p', 's', ':', '/', '/', ')'],
        },
        Format::Heading(level) => EditModel::Prefix {
            prefix: Seq::new(heading_depth(level), |k: int| '#').push(' '),
        },
        Format::Quote => EditModel::Prefix { prefix: seq!['>', ' '] },
        Format::Bullet => EditModel::Prefix { prefix: seq!['-', ' '] },
        Format::Task => EditModel::Prefix { prefix: seq!['-', ' ', '[', ' ', ']', ' '] },
        Format::CodeBlock => EditModel::Block { text: code_block_text(), caret: 4 },
        Format::Table => EditModel::Block { text: table_text(), caret: 2 },
        Format::Rule => EditModel::Block { text: seq!['-', '-', '-', '\n'], caret: 4 },
    }
}

/// An empty fenced code block.
pub open spec fn code_block_text() -> Seq<char> {
    seq!['`', '`', '`', '\n', '\n', '`', '`', '`', '\n']
}

/// A table row of two columns.
pub open spec fn table_row_text(fill: Seq<char>) -> Seq<char> {
    seq!['|'] + fill + seq!['|'] + fill + seq!['|', '\n']
}

/// A two-column table: header, delimiter and one empty row.
pub open spec fn table_text() -> Seq<char> {
    table_row_text(seq![' ', 'C', 'o', 'l', 'u', 'm', 'n', ' ']) + table_row_text(
        Seq::new(8, |k: int| '-'),
    ) + table_row_text(Seq::new(8, |k: int| ' '))
}

/// A `String` holding exactly `chars`.
fn owned(chars: &[char]) -> (text: String)
    ensures
        text@ == chars@,
{
    crate::text::string_of(chars)
}

impl Format {
    /// How this format is written.
    pub fn edit(self) -> (edit: Edit)
        ensures
            edit_model(edit) == written(self),
    {
        match self {
            Format::Bold => {
                let marker = ['*', '*'];
                assert(marker@ =~= seq!['*', '*']);
                Edit::Wrap { before: owned(&marker), after: owned(&marker) }
            },
            Format::Italic => {
                let marker = ['*'];
                assert(marker@ =~= seq!['*']);
                Edit::Wrap { before: owned(&marker), after: owned(&marker) }
            },
            Format::Strikethrough => {
                let marker = ['~', '~'];
                assert(marker@ =~= seq!['~', '~']);
                Edit::Wrap { before: owned(&marker), after: owned(&marker) }
            },
            Format::Code => {
                let marker = ['`'];
                assert(marker@ =~= seq!['`']);
                Edit::Wrap { before: owned(&marker), after: owned(&marker) }
            },
            Format::WikiLink => {
                let before = ['[', '['];
                assert(before@ =~= seq!['[', '[']);
                let after = [']', ']'];
                assert(after@ =~= seq![']', ']']);
                Edit::Wrap { before: owned(&before), after: owned(&after) }
            },
            Format::Link => {
                let before = ['['];
                assert(before@ =~= seq!['[']);
                let after = [']', '(', 'h', 't', 't', 'p', 's', ':', '/', '/', ')'];
                assert(after@ =~= seq![']', '(', 'h', 't', 't', 'p', 's', ':', '/', '/', ')']);
                Edit::Wrap { before: owned(&before), after: owned(&after) }
            },
            Format::Heading(level) => {
                let depth: u8 = if level < 1 {
                    1
                } else if level > 6 {
                    6
                } else {
                    level
                };
                let mut prefix: Vec<char> = Vec::new();
                let mut k: u8 = 0;
                while k < depth
                    invariant
                        k <= depth,
                        prefix@ == Seq::new(k as nat, |j: int| '#'),
                    decreases depth - k,
                {
                    prefix.push('#');
                    k = k + 1;
                    assert(prefix@ =~= Seq::new(k as nat, |j: int| '#'));
                }
                prefix.push(' ');
                Edit::Prefix { prefix: owned(&prefix) }
            },
            Format::Quote => {
                let prefix = ['>', ' '];
                assert(prefix@ =~= seq!['>', ' ']);
                Edit::Prefix { prefix: owned(&prefix) }
            },
            Format::Bullet => {
                let prefix = ['-', ' '];
                assert(prefix@ =~= seq!['-', ' ']);
                Edit::Prefix { prefix: owned(&prefix) }
            },
            Format::Task => {
                let prefix = ['-', ' ', '[', ' ', ']', ' '];
                assert(prefix@ =~= seq!['-', ' ', '[', ' ', ']', ' ']);
                Edit::Prefix { prefix: owned(&prefix) }
            },
            Format::CodeBlock => {
                let text = ['`', '`', '`', '\n', '\n', '`', '`', '`', '\n'];
                assert(text@ =~= code_block_text());
                Edit::Block { text: owned(&text), caret: 4 }
            },
            Format::Table => {
                let text = [
                    '|', ' ', 'C', 'o', 'l', 'u', 'm', 'n', ' ', '|', ' ', 'C', 'o', 'l', 'u', 'm',
                    'n', ' ', '|', '\n', '|', '-', '-', '-', '-', '-', '-', '-', '-', '|', '-',
                    '-', '-', '-', '-', '-', '-', '-', '|', '\n', '|', ' ', ' ', ' ', ' ', ' ',
                    ' ', ' ', ' ', '|', ' ', ' ', ' ', ' ', ' ', ' ', ' ', ' ', '|', '\n',
                ];
                assert(text@ =~= table_text());
                Edit::Block { text: owned(&text), caret: 2 }
            },
            Format::Rule => {
                let text = ['-', '-', '-', '\n'];
                assert(text@ =~= seq!['-', '-', '-', '\n']);
                Edit::Block { text: owned(&text), caret: 4 }
            },
        }
    }

    /// The style this format produces, for the inline ones.
    ///
    /// The editor uses it to ask the scanner whether the cursor is already
    /// inside one of these, so pressing the button again takes it off rather
    /// than nesting a second pair of markers.
    pub fn style(self) -> (style: Option<Style>)
        ensures
            style == match self {
                Format::Bold => Some(Style::Bold),
                Format::Italic => Some(Style::Italic),
                Format::Strikethrough => Some(Style::Strikethrough),
                Format::Code => Some(Style::Code),
                Format::WikiLink => Some(Style::WikiLink),
                Format::Link => Some(Style::Link),
                _ => None,
            },
    {
        match self {
            Format::Bold => Some(Style::Bold),
            Format::Italic => Some(Style::Italic),
            Format::Strikethrough => Some(Style::Strikethrough),
            Format::Code => Some(Style::Code),
            Format::WikiLink => Some(Style::WikiLink),
            Format::Link => Some(Style::Link),
            _ => None,
        }
    }

    /// What the button says.
    pub fn label(self) -> (label: &'static str)
        ensures
            label@ == match self {
                Format::Bold => "Bold"@,
                Format::Italic => "Italic"@,
                Format::Strikethrough => "Strikethrough"@,
                Format::Code => "Code"@,
                Format::Heading(1) => "Heading 1"@,
                Format::Heading(2) => "Heading 2"@,
                Format::Heading(_) => "Heading 3"@,
                Format::Quote => "Quote"@,
                Format::Bullet => "List"@,
                Format::Task => "Task"@,
                Format::WikiLink => "Link to Note"@,
                Format::Link => "Web Link"@,
                Format::CodeBlock => "Code Block"@,
                Format::Table => "Table"@,
                Format::Rule => "Separator"@,
            },
    {
        match self {
            Format::Bold => "Bold",
            Format::Italic => "Italic",
            Format::Strikethrough => "Strikethrough",
            Format::Code => "Code",
            Format::Heading(1) => "Heading 1",
            Format::Heading(2) => "Heading 2",
            Format::Heading(_) => "Heading 3",
            Format::Quote => "Quote",
            Format::Bullet => "List",
            Format::Task => "Task",
            Format::WikiLink => "Link to Note",
            Format::Link => "Web Link",
            Format::CodeBlock => "Code Block",
            Format::Table => "Table",
            Format::Rule => "Separator",
        }
    }

    /// The syntax it writes, shown beside the label so the panel teaches the
    /// Markdown rather than hiding it.
    pub fn syntax(self) -> (syntax: &'static str)
        ensures
            syntax@ == match self {
                Format::Bold => "**text**"@,
                Format::Italic => "*text*"@,
                Format::Strikethrough => "~~text~~"@,
                Format::Code => "`code`"@,
                Format::Heading(1) => "# "@,
                Format::Heading(2) => "## "@,
                Format::Heading(_) => "### "@,
                Format::Quote => "> "@,
                Format::Bullet => "- "@,
                Format::Task => "- [ ] "@,
                Format::WikiLink => "[[Note]]"@,
                Format::Link => "[text](…)"@,
                Format::CodeBlock => "```"@,
                Format::Table => "| a | b |"@,
                Format::Rule => "---"@,
            },
    {
        match self {
            Format::Bold => "**text**",
            Format::Italic => "*text*",
            Format::Strikethrough => "~~text~~",
            Format::Code => "`code`",
            Format::Heading(level) => match level {
                1 => "# ",
                2 => "## ",
                _ => "### ",
            },
            Format::Quote => "> ",
            Format::Bullet => "- ",
            Format::Task => "- [ ] ",
            Format::WikiLink => "[[Note]]",
            Format::Link => "[text](…)",
            Format::CodeBlock => "```",
            Format::Table => "| a | b |",
            Format::Rule => "---",
        }
    }
}

/// Every block a format inserts puts the caret within what it wrote, never
/// past its end.
pub proof fn law_caret_lands_inside_the_block(format: Format)
    ensures
        written(format) matches EditModel::Block { text, caret } ==> caret <= text.len(),
{
}

} // verus!
