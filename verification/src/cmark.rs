//! The markdown event stream, as pulldown-cmark produces it.
//!
//! pulldown-cmark's events borrow from the input and carry types Verus cannot
//! look into, so the stream is handed to the library converted, one event for
//! one event, into the plain `MdEvent` type below. Only the tags that slides use
//! keep their identity; every other tag and event becomes `Other`.
use pulldown_cmark::{CodeBlockKind, Event, Options, Parser, Tag, TagEnd};
use vstd::prelude::*;

verus! {

/// pulldown-cmark's start tag, carried through opaquely.
#[verifier::external_type_specification]
#[verifier::external_body]
pub struct ExTag<'a>(Tag<'a>);

/// pulldown-cmark's end tag, carried through opaquely.
#[verifier::external_type_specification]
#[verifier::external_body]
pub struct ExTagEnd(TagEnd);

/// pulldown-cmark's code block kind, carried through opaquely.
#[verifier::external_type_specification]
#[verifier::external_body]
pub struct ExCodeBlockKind<'a>(CodeBlockKind<'a>);

/// A start tag.
#[derive(Debug)]
pub enum MdTag {
    Paragraph,
    /// A heading of level 1 to 6.
    Heading(u8),
    BlockQuote,
    /// A code block with its info string (empty for an indented block).
    CodeBlock(String),
    List,
    Item,
    Table,
    TableRow,
    TableCell,
    Emphasis,
    Strong,
    /// A link to the destination URL.
    Link(String),
    /// An image with its destination URL and title.
    Image { url: String, title: String },
    Other,
}

/// An end tag.
#[derive(Debug)]
pub enum MdTagEnd {
    Paragraph,
    Heading,
    BlockQuote,
    CodeBlock,
    List,
    Item,
    Table,
    TableRow,
    TableCell,
    Emphasis,
    Strong,
    Link,
    Image,
    Other,
}

/// One event of the markdown stream.
#[derive(Debug)]
pub enum MdEvent {
    Start(MdTag),
    End(MdTagEnd),
    Text(String),
    Code(String),
    SoftBreak,
    HardBreak,
    Rule,
    Other,
}

pub enum MdTagModel {
    Paragraph,
    Heading(u8),
    BlockQuote,
    CodeBlock(Seq<char>),
    List,
    Item,
    Table,
    TableRow,
    TableCell,
    Emphasis,
    Strong,
    Link(Seq<char>),
    Image { url: Seq<char>, title: Seq<char> },
    Other,
}

pub enum MdEventModel {
    Start(MdTagModel),
    End(MdTagEnd),
    Text(Seq<char>),
    Code(Seq<char>),
    SoftBreak,
    HardBreak,
    Rule,
    Other,
}

impl View for MdTag {
    type V = MdTagModel;

    open spec fn view(&self) -> MdTagModel {
        match self {
            MdTag::Paragraph => MdTagModel::Paragraph,
            MdTag::Heading(l) => MdTagModel::Heading(*l),
            MdTag::BlockQuote => MdTagModel::BlockQuote,
            MdTag::CodeBlock(lang) => MdTagModel::CodeBlock(lang@),
            MdTag::List => MdTagModel::List,
            MdTag::Item => MdTagModel::Item,
            MdTag::Table => MdTagModel::Table,
            MdTag::TableRow => MdTagModel::TableRow,
            MdTag::TableCell => MdTagModel::TableCell,
            MdTag::Emphasis => MdTagModel::Emphasis,
            MdTag::Strong => MdTagModel::Strong,
            MdTag::Link(url) => MdTagModel::Link(url@),
            MdTag::Image { url, title } => MdTagModel::Image { url: url@, title: title@ },
            MdTag::Other => MdTagModel::Other,
        }
    }
}

impl View for MdTagEnd {
    type V = MdTagEnd;

    open spec fn view(&self) -> MdTagEnd {
        match self {
            MdTagEnd::Paragraph => MdTagEnd::Paragraph,
            MdTagEnd::Heading => MdTagEnd::Heading,
            MdTagEnd::BlockQuote => MdTagEnd::BlockQuote,
            MdTagEnd::CodeBlock => MdTagEnd::CodeBlock,
            MdTagEnd::List => MdTagEnd::List,
            MdTagEnd::Item => MdTagEnd::Item,
            MdTagEnd::Table => MdTagEnd::Table,
            MdTagEnd::TableRow => MdTagEnd::TableRow,
            MdTagEnd::TableCell => MdTagEnd::TableCell,
            MdTagEnd::Emphasis => MdTagEnd::Emphasis,
            MdTagEnd::Strong => MdTagEnd::Strong,
            MdTagEnd::Link => MdTagEnd::Link,
            MdTagEnd::Image => MdTagEnd::Image,
            MdTagEnd::Other => MdTagEnd::Other,
        }
    }
}

impl View for MdEvent {
    type V = MdEventModel;

    open spec fn view(&self) -> MdEventModel {
        match self {
            MdEvent::Start(t) => MdEventModel::Start(t@),
            MdEvent::End(t) => MdEventModel::End(t@),
            MdEvent::Text(t) => MdEventModel::Text(t@),
            MdEvent::Code(t) => MdEventModel::Code(t@),
            MdEvent::SoftBreak => MdEventModel::SoftBreak,
            MdEvent::HardBreak => MdEventModel::HardBreak,
            MdEvent::Rule => MdEventModel::Rule,
            MdEvent::Other => MdEventModel::Other,
        }
    }
}

impl DeepView for MdEvent {
    type V = MdEventModel;

    open spec fn deep_view(&self) -> MdEventModel {
        self@
    }
}

/// The event stream pulldown-cmark produces for a document with every
/// extension (`Options::all()`) switched on, each event converted as `MdEvent` describes.
pub uninterp spec fn markdown_events(content: Seq<char>) -> Seq<MdEventModel>;

/// Runs pulldown-cmark's `Parser::new_ext(content, Options::all())` to the end.
/// Claimed: the converted events are `markdown_events(content)`, which depends on
/// the text alone. Nothing is stated about their shape (balance of start and end tags).
#[verifier::external_body]
pub(crate) fn cmark_events(content: &str) -> (events: Vec<MdEvent>)
    ensures
        events.deep_view() == markdown_events(content@),
{
    let mut events = Vec::new();
    for event in Parser::new_ext(content, Options::all()) {
        events.push(match event {
            Event::Start(tag) => MdEvent::Start(block_tag(tag)),
            Event::End(tag) => MdEvent::End(block_tag_end(tag)),
            Event::Text(text) => MdEvent::Text(text.into_string()),
            Event::Code(code) => MdEvent::Code(code.into_string()),
            Event::SoftBreak => MdEvent::SoftBreak,
            Event::HardBreak => MdEvent::HardBreak,
            Event::Rule => MdEvent::Rule,
            _ => MdEvent::Other,
        });
    }
    events
}

/// Converts a block-level start tag of pulldown-cmark, variant for variant.
#[verifier::external_body]
fn block_tag(tag: Tag) -> MdTag {
    match tag {
        Tag::Paragraph => MdTag::Paragraph,
        Tag::Heading { level, .. } => MdTag::Heading(level as u8),
        Tag::BlockQuote(_) => MdTag::BlockQuote,
        Tag::CodeBlock(kind) => MdTag::CodeBlock(code_info(kind)),
        Tag::List(_) => MdTag::List,
        Tag::Item => MdTag::Item,
        Tag::Table(_) => MdTag::Table,
        Tag::TableRow => MdTag::TableRow,
        Tag::TableCell => MdTag::TableCell,
        other => inline_tag(other),
    }
}

/// Converts a span-level start tag of pulldown-cmark, variant for variant.
#[verifier::external_body]
fn inline_tag(tag: Tag) -> MdTag {
    match tag {
        Tag::Emphasis => MdTag::Emphasis,
        Tag::Strong => MdTag::Strong,
        Tag::Link { dest_url, .. } => MdTag::Link(dest_url.into_string()),
        Tag::Image { dest_url, title, .. } => MdTag::Image {
            url: dest_url.into_string(),
            title: title.into_string(),
        },
        _ => MdTag::Other,
    }
}

/// Converts a code block kind to its info string (empty for an indented block).
#[verifier::external_body]
fn code_info(kind: CodeBlockKind) -> String {
    match kind {
        CodeBlockKind::Fenced(info) => info.into_string(),
        CodeBlockKind::Indented => String::new(),
    }
}

/// Converts a block-level end tag of pulldown-cmark, variant for variant.
#[verifier::external_body]
fn block_tag_end(tag: TagEnd) -> MdTagEnd {
    match tag {
        TagEnd::Paragraph => MdTagEnd::Paragraph,
        TagEnd::Heading(_) => MdTagEnd::Heading,
        TagEnd::BlockQuote(_) => MdTagEnd::BlockQuote,
        TagEnd::CodeBlock => MdTagEnd::CodeBlock,
        TagEnd::List(_) => MdTagEnd::List,
        TagEnd::Item => MdTagEnd::Item,
        TagEnd::Table => MdTagEnd::Table,
        TagEnd::TableRow => MdTagEnd::TableRow,
        TagEnd::TableCell => MdTagEnd::TableCell,
        other => inline_tag_end(other),
    }
}

/// Converts a span-level end tag of pulldown-cmark, variant for variant.
#[verifier::external_body]
fn inline_tag_end(tag: TagEnd) -> MdTagEnd {
    match tag {
        TagEnd::Emphasis => MdTagEnd::Emphasis,
        TagEnd::Strong => MdTagEnd::Strong,
        TagEnd::Link => MdTagEnd::Link,
        TagEnd::Image => MdTagEnd::Image,
        _ => MdTagEnd::Other,
    }
}

} // verus!
