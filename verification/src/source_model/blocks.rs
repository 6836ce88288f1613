//! From the event stream of a markdown tokenizer to an owned list of typed
//! content blocks.

use crate::text::{ends_with, text_ends_with, text_equal, texts};
use pulldown_cmark::{CodeBlockKind, Event, Parser, Tag, TagEnd};
use vstd::prelude::*;

verus! {

/// `pulldown_cmark::Event`. Verified code hands events on and never looks
/// into them; what it needs of an event it has from `classify`.
#[verifier::external_type_specification]
#[verifier::external_body]
pub struct ExEvent<'a>(Event<'a>);

/// What an event of the tokenizer means to the block parser.
#[derive(Debug)]
pub enum EventKind {
    /// An image opens; its alternative text follows as text events.
    ImageStart { url: String },
    /// An image closes.
    ImageEnd,
    /// A hyperlink opens.
    LinkStart { url: String },
    /// A code block opens. A fenced block carries its info string, an
    /// indented block carries none.
    CodeBlockStart { language: Option<String> },
    /// A code block closes.
    CodeBlockEnd,
    /// A run of text.
    Text { text: String },
    /// Any other event.
    Other,
}

/// The kind of an event by its characters.
pub enum EventKindView {
    ImageStart { url: Seq<char> },
    ImageEnd,
    LinkStart { url: Seq<char> },
    CodeBlockStart { language: Option<Seq<char>> },
    CodeBlockEnd,
    Text { text: Seq<char> },
    Other,
}

/// An optional string by its characters.
pub open spec fn optional_text(text: Option<String>) -> Option<Seq<char>> {
    match text {
        Some(t) => Some(t@),
        None => None,
    }
}

impl View for EventKind {
    type V = EventKindView;

    open spec fn view(&self) -> EventKindView {
        match self {
            EventKind::ImageStart { url } => EventKindView::ImageStart { url: url@ },
            EventKind::ImageEnd => EventKindView::ImageEnd,
            EventKind::LinkStart { url } => EventKindView::LinkStart { url: url@ },
            EventKind::CodeBlockStart { language } => EventKindView::CodeBlockStart {
                language: optional_text(*language),
            },
            EventKind::CodeBlockEnd => EventKindView::CodeBlockEnd,
            EventKind::Text { text } => EventKindView::Text { text: text@ },
            EventKind::Other => EventKindView::Other,
        }
    }
}

/// One event of the tokenizer: the event itself, owned, and what it means to
/// the block parser. The parser reads the kind and hands the event on where
/// it does not consume it.
#[derive(Debug)]
pub struct MarkdownEvent {
    pub kind: EventKind,
    pub source: Event<'static>,
}

/// An event with its kind by its characters.
pub struct MarkdownEventView {
    pub kind: EventKindView,
    pub source: Event<'static>,
}

impl View for MarkdownEvent {
    type V = MarkdownEventView;

    open spec fn view(&self) -> MarkdownEventView {
        MarkdownEventView { kind: self.kind@, source: self.source }
    }
}

/// The events of a list by their views.
pub open spec fn event_views(events: Seq<MarkdownEvent>) -> Seq<MarkdownEventView> {
    events.map_values(|e: MarkdownEvent| e@)
}

/// One block of a section's content.
#[derive(Debug)]
pub enum MarkdownBlock {
    /// A run of text.
    Text { text: String },
    /// An image with its destination and its alternative text.
    Image { url: String, alt_text: String },
    /// A link to a table file.
    TableReference { path: String },
    /// A code block with its language tag, if it has one, and its literal
    /// body.
    CodeBlock { language: Option<String>, content: String },
    /// Content that is handed on in its place and not looked into: the
    /// event of the tokenizer as it came.
    Other { source: Event<'static> },
}

/// A block by its characters.
pub enum MarkdownBlockView {
    Text { text: Seq<char> },
    Image { url: Seq<char>, alt_text: Seq<char> },
    TableReference { path: Seq<char> },
    CodeBlock { language: Option<Seq<char>>, content: Seq<char> },
    Other { source: Event<'static> },
}

impl View for MarkdownBlock {
    type V = MarkdownBlockView;

    open spec fn view(&self) -> MarkdownBlockView {
        match self {
            MarkdownBlock::Text { text } => MarkdownBlockView::Text { text: text@ },
            MarkdownBlock::Image { url, alt_text } => MarkdownBlockView::Image {
                url: url@,
                alt_text: alt_text@,
            },
            MarkdownBlock::TableReference { path } => MarkdownBlockView::TableReference { path: path@ },
            MarkdownBlock::CodeBlock { language, content } => MarkdownBlockView::CodeBlock {
                language: optional_text(*language),
                content: content@,
            },
            MarkdownBlock::Other { source } => MarkdownBlockView::Other { source: *source },
        }
    }
}

/// The blocks of a list by their views.
pub open spec fn block_views(blocks: Seq<MarkdownBlock>) -> Seq<MarkdownBlockView> {
    blocks.map_values(|b: MarkdownBlock| b@)
}

/// Suffix of a link destination that marks a table file.
pub open spec fn table_suffix() -> Seq<char> {
    ".csv"@
}

/// Language tag of a fenced code block that holds section metadata.
pub open spec fn metadata_tag() -> Seq<char> {
    "sysdoc"@
}

/// What the parser is in the middle of.
pub enum Mode {
    /// Nothing is open.
    Flow,
    /// An image is open; `depth` counts the images opened inside it that
    /// have not closed yet.
    Image { url: Seq<char>, alt_text: Seq<char>, depth: nat },
    /// A code block is open.
    Code { language: Option<Seq<char>>, content: Seq<char> },
}

/// What the parser has produced so far, and what it is in the middle of.
pub struct Progress {
    /// The blocks, in source order.
    pub blocks: Seq<MarkdownBlockView>,
    /// The literal bodies of the metadata blocks, in source order.
    pub metadata: Seq<Seq<char>>,
    pub mode: Mode,
}

/// The effect of one event.
///
/// With nothing open: an image or a code block opens; a link to a table file
/// becomes a table reference; text becomes a text block; any other event is
/// handed on as an opaque block.
/// Inside an image only its text is read: text is appended to the
/// alternative text, nested images are counted, and the closing event of the
/// outermost image emits one image block.
/// Inside a code block text is appended to the body; the closing event emits
/// a code block, unless the language tag is the metadata tag: then the body
/// is set aside as metadata and no block is emitted.
pub open spec fn advance(p: Progress, event: MarkdownEventView) -> Progress {
    match p.mode {
        Mode::Flow => match event.kind {
            EventKindView::ImageStart { url } => Progress {
                blocks: p.blocks,
                metadata: p.metadata,
                mode: Mode::Image { url, alt_text: Seq::empty(), depth: 0 },
            },
            EventKindView::CodeBlockStart { language } => Progress {
                blocks: p.blocks,
                metadata: p.metadata,
                mode: Mode::Code { language, content: Seq::empty() },
            },
            EventKindView::LinkStart { url } => Progress {
                blocks: p.blocks.push(
                    if ends_with(url, table_suffix()) {
                        MarkdownBlockView::TableReference { path: url }
                    } else {
                        MarkdownBlockView::Other { source: event.source }
                    },
                ),
                metadata: p.metadata,
                mode: Mode::Flow,
            },
            EventKindView::Text { text } => Progress {
                blocks: p.blocks.push(MarkdownBlockView::Text { text }),
                metadata: p.metadata,
                mode: Mode::Flow,
            },
            _ => Progress {
                blocks: p.blocks.push(MarkdownBlockView::Other { source: event.source }),
                metadata: p.metadata,
                mode: Mode::Flow,
            },
        },
        Mode::Image { url, alt_text, depth } => match event.kind {
            EventKindView::Text { text } => Progress {
                blocks: p.blocks,
                metadata: p.metadata,
                mode: Mode::Image { url, alt_text: alt_text + text, depth },
            },
            EventKindView::ImageStart { url: _ } => Progress {
                blocks: p.blocks,
                metadata: p.metadata,
                mode: Mode::Image { url, alt_text, depth: depth + 1 },
            },
            EventKindView::ImageEnd => if depth == 0 {
                Progress {
                    blocks: p.blocks.push(MarkdownBlockView::Image { url, alt_text }),
                    metadata: p.metadata,
                    mode: Mode::Flow,
                }
            } else {
                Progress {
                    blocks: p.blocks,
                    metadata: p.metadata,
                    mode: Mode::Image { url, alt_text, depth: (depth - 1) as nat },
                }
            },
            _ => p,
        },
        Mode::Code { language, content } => match event.kind {
            EventKindView::Text { text } => Progress {
                blocks: p.blocks,
                metadata: p.metadata,
                mode: Mode::Code { language, content: content + text },
            },
            EventKindView::CodeBlockEnd => if language == Some(metadata_tag()) {
                Progress { blocks: p.blocks, metadata: p.metadata.push(content), mode: Mode::Flow }
            } else {
                Progress {
                    blocks: p.blocks.push(MarkdownBlockView::CodeBlock { language, content }),
                    metadata: p.metadata,
                    mode: Mode::Flow,
                }
            },
            _ => p,
        },
    }
}

/// The parser's progress after a run of events, from nothing.
pub open spec fn run(events: Seq<MarkdownEventView>) -> Progress
    decreases events.len(),
{
    if events.len() == 0 {
        Progress { blocks: Seq::empty(), metadata: Seq::empty(), mode: Mode::Flow }
    } else {
        advance(run(events.drop_last()), events.last())
    }
}

/// The events that the tokenizer yields for `content`, in order.
pub uninterp spec fn markdown_events(content: Seq<char>) -> Seq<Event<'static>>;

/// What an event means to the block parser.
pub uninterp spec fn event_kind(event: Event<'static>) -> EventKindView;

/// Runs `pulldown_cmark::Parser::new` over `content` to its end and makes
/// each event own its strings, with `Event::into_static`. Claimed: the events
/// are a function of `content` alone, named `markdown_events`.
#[verifier::external_body]
pub(crate) fn tokenize(content: &str) -> (events: Vec<Event<'static>>)
    ensures
        events@ == markdown_events(content@),
{
    Parser::new(content).map(|event| event.into_static()).collect()
}

/// Tells the variants of `pulldown_cmark::Event` apart and copies out the
/// strings that the block parser reads: the destination of an image or a
/// link, the info string of a fenced code block, the text of a text event.
/// Claimed: the kind is a function of the event alone, named `event_kind`.
#[verifier::external_body]
pub(crate) fn classify(event: &Event<'static>) -> (kind: EventKind)
    ensures
        kind@ == event_kind(*event),
{
    match event {
        Event::Start(Tag::Image { dest_url, .. }) => EventKind::ImageStart { url: dest_url.to_string() },
        Event::End(TagEnd::Image) => EventKind::ImageEnd,
        Event::Start(Tag::Link { dest_url, .. }) => EventKind::LinkStart { url: dest_url.to_string() },
        Event::Start(Tag::CodeBlock(CodeBlockKind::Fenced(info))) => EventKind::CodeBlockStart { language: Some(info.to_string()) },
        Event::Start(Tag::CodeBlock(CodeBlockKind::Indented)) => EventKind::CodeBlockStart { language: None },
        Event::End(TagEnd::CodeBlock) => EventKind::CodeBlockEnd,
        Event::Text(text) => EventKind::Text { text: text.to_string() },
        _ => EventKind::Other,
    }
}

/// An event of the tokenizer with its kind.
pub open spec fn classified(event: Event<'static>) -> MarkdownEventView {
    MarkdownEventView { kind: event_kind(event), source: event }
}

/// The events of `content`, each with its kind.
pub open spec fn classified_events(content: Seq<char>) -> Seq<MarkdownEventView> {
    markdown_events(content).map_values(|e: Event<'static>| classified(e))
}

/// Tokenizes `content` and gives each event its kind.
pub fn read_events(content: &str) -> (events: Vec<MarkdownEvent>)
    ensures
        event_views(events@) == classified_events(content@),
{
    let sources = tokenize(content);
    let ghost given = sources@;
    let mut events: Vec<MarkdownEvent> = Vec::new();
    for source in it: sources
        invariant
            it.seq() == given,
            events@.len() == it.index(),
            forall|k: int| 0 <= k < it.index() ==> (#[trigger] events@[k])@ == classified(given[k]),
    {
        let kind = classify(&source);
        events.push(MarkdownEvent { kind, source });
    }
    assert(event_views(events@) =~= given.map_values(|e: Event<'static>| classified(e)));
    events
}

/// The content of one section: its blocks and the literal bodies of its
/// metadata blocks, both in source order.
#[derive(Debug)]
pub struct ParsedContent {
    pub blocks: Vec<MarkdownBlock>,
    pub metadata_blocks: Vec<String>,
}

/// The mode that the parser's variables stand for.
pub open spec fn mode_of(
    in_image: bool,
    url: Seq<char>,
    alt_text: Seq<char>,
    depth: nat,
    in_code: bool,
    language: Option<Seq<char>>,
    content: Seq<char>,
) -> Mode {
    if in_image {
        Mode::Image { url, alt_text, depth }
    } else if in_code {
        Mode::Code { language, content }
    } else {
        Mode::Flow
    }
}

fn is_metadata_tag(language: &Option<String>) -> (yes: bool)
    ensures
        yes == (optional_text(*language) == Some(metadata_tag())),
{
    match language {
        Some(tag) => text_equal(tag.as_str(), "sysdoc"),
        None => false,
    }
}

/// Turns a stream of events into blocks, in one forward pass. An image or a
/// code block that never closes yields nothing.
pub fn parse_events(events: Vec<MarkdownEvent>) -> (parsed: ParsedContent)
    ensures
        block_views(parsed.blocks@) == run(event_views(events@)).blocks,
        texts(parsed.metadata_blocks@) == run(event_views(events@)).metadata,
{
    let ghost given = events@;
    let ghost all = event_views(events@);
    let count: usize = events.len();
    let mut blocks: Vec<MarkdownBlock> = Vec::new();
    let mut metadata: Vec<String> = Vec::new();
    let mut in_image = false;
    let mut image_url = String::new();
    let mut image_alt = String::new();
    let mut image_depth: usize = 0;
    let mut in_code = false;
    let mut code_language: Option<String> = None;
    let mut code_content = String::new();
    assert(block_views(blocks@) =~= Seq::empty());
    assert(texts(metadata@) =~= Seq::empty());
    for event in it: events
        invariant
            it.seq() == given,
            all == event_views(given),
            given.len() == count,
            image_depth <= it.index(),
            in_image ==> !in_code,
            run(all.take(it.index() as int)) == (Progress {
                blocks: block_views(blocks@),
                metadata: texts(metadata@),
                mode: mode_of(
                    in_image,
                    image_url@,
                    image_alt@,
                    image_depth as nat,
                    in_code,
                    optional_text(code_language),
                    code_content@,
                ),
            }),
    {
        let ghost i = it.index() as int;
        let ghost before = run(all.take(i));
        let ghost done = block_views(blocks@);
        let ghost set_aside = texts(metadata@);
        proof {
            assert(all.take(i + 1).drop_last() =~= all.take(i));
            assert(all.take(i + 1).last() == event@);
            assert(run(all.take(i + 1)) == advance(before, event@));
        }
        let MarkdownEvent { kind, source } = event;
        if in_image {
            match kind {
                EventKind::Text { text } => {
                    image_alt.append(text.as_str());
                },
                EventKind::ImageStart { url: _ } => {
                    image_depth = image_depth + 1;
                },
                EventKind::ImageEnd => {
                    if image_depth == 0 {
                        let block = MarkdownBlock::Image { url: image_url, alt_text: image_alt };
                        blocks.push(block);
                        image_url = String::new();
                        image_alt = String::new();
                        in_image = false;
                        assert(block_views(blocks@) =~= done.push(block@));
                    } else {
                        image_depth = image_depth - 1;
                    }
                },
                _ => {},
            }
        } else if in_code {
            match kind {
                EventKind::Text { text } => {
                    code_content.append(text.as_str());
                },
                EventKind::CodeBlockEnd => {
                    if is_metadata_tag(&code_language) {
                        metadata.push(code_content);
                        assert(texts(metadata@) =~= set_aside.push(before.mode->Code_content));
                    } else {
                        let block = MarkdownBlock::CodeBlock { language: code_language, content: code_content };
                        blocks.push(block);
                        assert(block_views(blocks@) =~= done.push(block@));
                    }
                    code_language = None;
                    code_content = String::new();
                    in_code = false;
                },
                _ => {},
            }
        } else {
            let block = match kind {
                EventKind::ImageStart { url } => {
                    in_image = true;
                    image_url = url;
                    image_alt = String::new();
                    image_depth = 0;
                    None
                },
                EventKind::CodeBlockStart { language } => {
                    in_code = true;
                    code_language = language;
                    code_content = String::new();
                    None
                },
                EventKind::LinkStart { url } => {
                    if text_ends_with(url.as_str(), ".csv") {
                        Some(MarkdownBlock::TableReference { path: url })
                    } else {
                        Some(MarkdownBlock::Other { source })
                    }
                },
                EventKind::Text { text } => Some(MarkdownBlock::Text { text }),
                _ => Some(MarkdownBlock::Other { source }),
            };
            match block {
                Some(block) => {
                    blocks.push(block);
                    assert(block_views(blocks@) =~= done.push(block@));
                },
                None => {},
            }
        }
    }
    assert(all.take(given.len() as int) =~= all);
    ParsedContent { blocks, metadata_blocks: metadata }
}

/// Tokenizes `content` and turns the events into blocks.
pub fn parse_markdown(content: &str) -> (parsed: ParsedContent)
    ensures
        block_views(parsed.blocks@) == run(classified_events(content@)).blocks,
        texts(parsed.metadata_blocks@) == run(classified_events(content@)).metadata,
{
    let events = read_events(content);
    parse_events(events)
}

} // verus!
