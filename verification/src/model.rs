//! Section numbers and the per-file section record.

use crate::source_model::blocks::{
    advance, classified, classified_events, event_views, markdown_events, read_events, run, table_suffix,
    EventKind, EventKindView, MarkdownBlockView, MarkdownEvent, MarkdownEventView, Mode,
};
use crate::text::{
    chars_of, decimal_number_up_to, decimal_string, decimal_text, ends_with, is_digit, join, join_strings,
    lemma_decimal_text_reads_back, lemma_lex_asymmetric, lemma_lex_irreflexive, lemma_lex_skip_common,
    lemma_lex_total, lemma_lex_transitive, lemma_split_of_join, lex_lt, parse_decimal, piece_views, split,
    split_chars, text_ends_with, texts,
};
use pulldown_cmark::Event;
use std::cmp::Ordering;
use std::path::PathBuf;
use vstd::prelude::*;
use vstd::std_specs::cmp::{PartialEqSpecImpl, PartialOrdSpecImpl};

verus! {

/// `std::path::PathBuf`. The library hands paths on for diagnostics and never
/// looks into them.
#[verifier::external_type_specification]
#[verifier::external_body]
pub struct ExPathBuf(PathBuf);

/// Hierarchical number of a section, such as `[1, 2, 3]` for `01.02.03`.
#[derive(Debug, Eq, Ord)]
pub struct SectionNumber {
    /// The components, outermost first.
    pub parts: Vec<u32>,
}

impl View for SectionNumber {
    type V = Seq<u32>;

    open spec fn view(&self) -> Seq<u32> {
        self.parts@
    }
}

/// The components of a number as mathematical integers.
pub open spec fn part_keys(parts: Seq<u32>) -> Seq<int> {
    parts.map_values(|p: u32| p as int)
}

/// Numbers with the same keys are the same number.
pub proof fn lemma_part_keys_injective(a: Seq<u32>, b: Seq<u32>)
    requires
        part_keys(a) == part_keys(b),
    ensures
        a == b,
{
    assert(a.len() == part_keys(a).len());
    assert(b.len() == part_keys(b).len());
    assert forall|i: int| 0 <= i < a.len() implies a[i] == b[i] by {
        assert(part_keys(a)[i] == a[i] as int);
        assert(part_keys(b)[i] == b[i] as int);
    }
    assert(a =~= b);
}

/// Strict order of section numbers: component by component as integers; a
/// number that is a strict prefix of another comes first.
pub open spec fn number_lt(a: Seq<u32>, b: Seq<u32>) -> bool {
    lex_lt(part_keys(a), part_keys(b))
}

/// The component that one piece of a dotted prefix denotes, if it is a
/// number that fits.
pub open spec fn component(piece: Seq<char>) -> Option<u32> {
    match decimal_number_up_to(piece, u32::MAX as nat) {
        Some(n) => Some(n as u32),
        None => None,
    }
}

/// The components that a dotted prefix denotes: every piece between dots
/// must be a number.
pub open spec fn parse_components(s: Seq<char>) -> Option<Seq<u32>> {
    let pieces = split(s, '.');
    if forall|i: int| 0 <= i < pieces.len() ==> (#[trigger] component(pieces[i])) is Some {
        Some(pieces.map_values(|p: Seq<char>| component(p).unwrap()))
    } else {
        None
    }
}

/// The components in decimal notation, joined by dots.
pub open spec fn dotted(parts: Seq<u32>) -> Seq<char> {
    join(parts.map_values(|p: u32| decimal_text(p as nat)), seq!['.'])
}

fn parts_equal(a: &Vec<u32>, b: &Vec<u32>) -> (same: bool)
    ensures
        same == (a@ == b@),
{
    if a.len() != b.len() {
        return false;
    }
    let mut i: usize = 0;
    while i < a.len()
        invariant
            i <= a.len(),
            a.len() == b.len(),
            forall|k: int| 0 <= k < i ==> a@[k] == b@[k],
        decreases a.len() - i,
    {
        if a[i] != b[i] {
            return false;
        }
        i = i + 1;
    }
    assert(a@ =~= b@);
    true
}

fn parts_less(a: &Vec<u32>, b: &Vec<u32>) -> (less: bool)
    ensures
        less == number_lt(a@, b@),
{
    let ghost ka = part_keys(a@);
    let ghost kb = part_keys(b@);
    let mut i: usize = 0;
    while i < a.len() && i < b.len() && a[i] == b[i]
        invariant
            i <= a.len(),
            i <= b.len(),
            ka == part_keys(a@),
            kb == part_keys(b@),
            forall|k: int| 0 <= k < i ==> ka[k] == kb[k],
        decreases a.len() - i,
    {
        i = i + 1;
    }
    proof {
        lemma_lex_skip_common(ka, kb, i as int);
        if i < a.len() && i < b.len() {
            assert(ka.skip(i as int)[0] == a@[i as int] as int);
            assert(kb.skip(i as int)[0] == b@[i as int] as int);
        }
    }
    if i >= b.len() {
        false
    } else if i >= a.len() {
        true
    } else {
        a[i] < b[i]
    }
}

impl SectionNumber {
    /// Whether `self` comes before `other` in document order.
    pub open spec fn precedes(&self, other: &SectionNumber) -> bool {
        number_lt(self@, other@)
    }

    /// Reads a section number from a dotted prefix such as `01.02`. Every
    /// piece between dots must be a decimal number that fits in 32 bits;
    /// otherwise there is no number.
    pub fn parse(s: &str) -> (number: Option<SectionNumber>)
        ensures
            match number {
                Some(n) => parse_components(s@) == Some(n@),
                None => parse_components(s@) is None,
            },
    {
        let chars = chars_of(s);
        let pieces = split_chars(&chars, '.');
        let ghost views = split(s@, '.');
        let mut parts: Vec<u32> = Vec::new();
        let mut i: usize = 0;
        while i < pieces.len()
            invariant
                i <= pieces.len(),
                views == split(s@, '.'),
                piece_views(pieces@) == views,
                parts@.len() == i,
                forall|k: int| 0 <= k < i ==> (#[trigger] component(views[k])) == Some(parts@[k]),
            decreases pieces.len() - i,
        {
            assert(views[i as int] == pieces@[i as int]@);
            match parse_decimal(&pieces[i], 0xFFFF_FFFF) {
                Some(value) => {
                    parts.push(value as u32);
                },
                None => {
                    assert(component(views[i as int]) is None);
                    return None;
                },
            }
            i = i + 1;
        }
        assert(parts@ =~= views.map_values(|p: Seq<char>| component(p).unwrap()));
        Some(SectionNumber { parts })
    }

    /// Whether `self` comes before `other` in document order.
    pub fn comes_before(&self, other: &SectionNumber) -> (before: bool)
        ensures
            before == self.precedes(other),
    {
        parts_less(&self.parts, &other.parts)
    }

    /// Whether `self` and `other` have the same components.
    pub fn same_as(&self, other: &SectionNumber) -> (same: bool)
        ensures
            same == (self@ == other@),
    {
        parts_equal(&self.parts, &other.parts)
    }

    /// Nesting level: one less than the number of components.
    pub fn depth(&self) -> (level: usize)
        ensures
            level == if self@.len() == 0 {
                0
            } else {
                self@.len() - 1
            },
    {
        if self.parts.len() == 0 {
            0
        } else {
            self.parts.len() - 1
        }
    }

    /// The components in decimal notation, joined by dots: `[1, 2]` gives
    /// `1.2`.
    pub fn to_string(&self) -> (text: String)
        ensures
            text@ == dotted(self@),
    {
        let mut pieces: Vec<String> = Vec::new();
        let mut i: usize = 0;
        while i < self.parts.len()
            invariant
                i <= self.parts.len(),
                pieces@.len() == i,
                forall|k: int| 0 <= k < i ==> (#[trigger] pieces@[k])@ == decimal_text(self.parts@[k] as nat),
            decreases self.parts.len() - i,
        {
            pieces.push(decimal_string(self.parts[i] as u64));
            i = i + 1;
        }
        proof {
            reveal_strlit(".");
            assert(texts(pieces@) =~= self@.map_values(|p: u32| decimal_text(p as nat)));
            assert("."@ =~= seq!['.']);
        }
        join_strings(&pieces, ".")
    }
}

impl Clone for SectionNumber {
    fn clone(&self) -> (copy: Self)
        ensures
            copy@ == self@,
    {
        let mut parts: Vec<u32> = Vec::new();
        let mut i: usize = 0;
        while i < self.parts.len()
            invariant
                i <= self.parts.len(),
                parts@ == self.parts@.take(i as int),
            decreases self.parts.len() - i,
        {
            parts.push(self.parts[i]);
            assert(parts@ =~= self.parts@.take(i + 1));
            i = i + 1;
        }
        assert(parts@ =~= self.parts@);
        SectionNumber { parts }
    }
}

impl PartialEq for SectionNumber {
    fn eq(&self, other: &Self) -> (same: bool) {
        parts_equal(&self.parts, &other.parts)
    }
}

impl PartialEqSpecImpl for SectionNumber {
    open spec fn obeys_eq_spec() -> bool {
        true
    }

    open spec fn eq_spec(&self, other: &Self) -> bool {
        self@ == other@
    }
}

impl PartialOrd for SectionNumber {
    fn partial_cmp(&self, other: &Self) -> (order: Option<Ordering>) {
        if parts_equal(&self.parts, &other.parts) {
            Some(Ordering::Equal)
        } else if parts_less(&self.parts, &other.parts) {
            Some(Ordering::Less)
        } else {
            Some(Ordering::Greater)
        }
    }
}

impl PartialOrdSpecImpl for SectionNumber {
    open spec fn obeys_partial_cmp_spec() -> bool {
        true
    }

    open spec fn partial_cmp_spec(&self, other: &Self) -> Option<Ordering> {
        if self@ == other@ {
            Some(Ordering::Equal)
        } else if self.precedes(other) {
            Some(Ordering::Less)
        } else {
            Some(Ordering::Greater)
        }
    }
}

/// Of two section numbers exactly one holds: they are equal, the first
/// precedes the second, or the second precedes the first.
pub proof fn lemma_number_order_total(a: Seq<u32>, b: Seq<u32>)
    ensures
        a == b || number_lt(a, b) || number_lt(b, a),
        !(a == b && number_lt(a, b)),
        !(a == b && number_lt(b, a)),
        !(number_lt(a, b) && number_lt(b, a)),
{
    lemma_lex_total(part_keys(a), part_keys(b));
    if part_keys(a) == part_keys(b) {
        lemma_part_keys_injective(a, b);
    }
    lemma_lex_irreflexive(part_keys(a));
    if number_lt(a, b) {
        lemma_lex_asymmetric(part_keys(a), part_keys(b));
    }
}

/// The order of section numbers is transitive.
pub proof fn lemma_number_order_transitive(a: Seq<u32>, b: Seq<u32>, c: Seq<u32>)
    requires
        number_lt(a, b),
        number_lt(b, c),
    ensures
        number_lt(a, c),
{
    lemma_lex_transitive(part_keys(a), part_keys(b), part_keys(c));
}

/// The first component in which two numbers differ decides their order,
/// whatever follows it: the comparison is by integer value, not by text.
pub proof fn lemma_first_difference_decides(a: Seq<u32>, b: Seq<u32>, k: int)
    requires
        0 <= k < a.len(),
        k < b.len(),
        forall|j: int| 0 <= j < k ==> a[j] == b[j],
        a[k] < b[k],
    ensures
        number_lt(a, b),
{
    let ka = part_keys(a);
    let kb = part_keys(b);
    lemma_lex_skip_common(ka, kb, k);
    assert(ka.skip(k)[0] == a[k] as int);
    assert(kb.skip(k)[0] == b[k] as int);
}

/// A number that is a strict prefix of another comes before it.
pub proof fn lemma_prefix_precedes(a: Seq<u32>, b: Seq<u32>)
    requires
        a.len() < b.len(),
        a == b.take(a.len() as int),
    ensures
        number_lt(a, b),
{
    let ka = part_keys(a);
    let kb = part_keys(b);
    assert forall|j: int| 0 <= j < a.len() implies ka[j] == kb[j] by {
        assert(a[j] == b.take(a.len() as int)[j]);
    }
    lemma_lex_skip_common(ka, kb, a.len() as int);
}

/// The text that a section number is displayed as reads back as the same
/// number.
pub proof fn lemma_display_parses_back(parts: Seq<u32>)
    requires
        parts.len() >= 1,
    ensures
        parse_components(dotted(parts)) == Some(parts),
{
    let written = parts.map_values(|p: u32| decimal_text(p as nat));
    assert forall|i: int, j: int| 0 <= i < written.len() && 0 <= j < written[i].len() implies written[i][j]
        != '.' by {
        lemma_decimal_text_reads_back(parts[i] as nat);
        assert(is_digit(written[i][j]));
    }
    lemma_split_of_join(written, '.');
    let pieces = split(dotted(parts), '.');
    assert(pieces == written);
    assert forall|i: int| 0 <= i < pieces.len() implies #[trigger] component(pieces[i]) == Some(parts[i]) by {
        lemma_decimal_text_reads_back(parts[i] as nat);
    }
    assert(pieces.map_values(|p: Seq<char>| component(p).unwrap()) =~= parts);
}

/// Reference to an image in a section's markdown.
#[derive(Debug, Clone)]
pub struct ImageReference {
    /// URL or path of the image.
    pub url: String,
    /// Alternative text of the image.
    pub alt_text: String,
}

/// An image reference by its characters.
pub struct ImageReferenceView {
    pub url: Seq<char>,
    pub alt_text: Seq<char>,
}

impl View for ImageReference {
    type V = ImageReferenceView;

    open spec fn view(&self) -> ImageReferenceView {
        ImageReferenceView { url: self.url@, alt_text: self.alt_text@ }
    }
}

/// The image references of a list by their views.
pub open spec fn image_views(images: Seq<ImageReference>) -> Seq<ImageReferenceView> {
    images.map_values(|i: ImageReference| i@)
}

/// The image blocks among `blocks`, in order, as image references.
pub open spec fn images_among(blocks: Seq<MarkdownBlockView>) -> Seq<ImageReferenceView>
    decreases blocks.len(),
{
    if blocks.len() == 0 {
        Seq::empty()
    } else {
        let before = images_among(blocks.drop_last());
        match blocks.last() {
            MarkdownBlockView::Image { url, alt_text } => before.push(ImageReferenceView { url, alt_text }),
            _ => before,
        }
    }
}

/// One reference for every image of `events`, in order: the images that the
/// block parser finds, each with its destination and the alternative text
/// that its events add up to.
pub open spec fn image_references(events: Seq<MarkdownEventView>) -> Seq<ImageReferenceView> {
    images_among(run(events).blocks)
}

/// The destination of every link in `events` that ends with the suffix of a
/// table file, in order.
pub open spec fn table_links(events: Seq<MarkdownEventView>) -> Seq<Seq<char>>
    decreases events.len(),
{
    if events.len() == 0 {
        Seq::empty()
    } else {
        let before = table_links(events.drop_last());
        match events.last().kind {
            EventKindView::LinkStart { url } => if ends_with(url, table_suffix()) {
                before.push(url)
            } else {
                before
            },
            _ => before,
        }
    }
}

/// Whether the variables of `extract_references` stand for `mode`.
spec fn tracks(
    mode: Mode,
    in_image: bool,
    url: Seq<char>,
    alt_text: Seq<char>,
    depth: nat,
    in_code: bool,
) -> bool {
    match mode {
        Mode::Flow => !in_image && !in_code,
        Mode::Image { url: u, alt_text: a, depth: d } => in_image && !in_code && u == url && a == alt_text
            && d == depth,
        Mode::Code { language: _, content: _ } => !in_image && in_code,
    }
}

proof fn lemma_images_among_push(blocks: Seq<MarkdownBlockView>, block: MarkdownBlockView)
    ensures
        images_among(blocks.push(block)) == match block {
            MarkdownBlockView::Image { url, alt_text } => images_among(blocks).push(
                ImageReferenceView { url, alt_text },
            ),
            _ => images_among(blocks),
        },
{
    assert(blocks.push(block).drop_last() =~= blocks);
}

/// The image references and the links to table files among `events`. An
/// image is read as the block parser reads it: its text events add up to its
/// alternative text, and an image that never closes yields nothing.
pub fn extract_references(events: &Vec<MarkdownEvent>) -> (found: (Vec<ImageReference>, Vec<String>))
    ensures
        image_views(found.0@) == image_references(event_views(events@)),
        texts(found.1@) == table_links(event_views(events@)),
{
    let ghost all = event_views(events@);
    let mut images: Vec<ImageReference> = Vec::new();
    let mut tables: Vec<String> = Vec::new();
    let mut in_image = false;
    let mut image_url = String::new();
    let mut image_alt = String::new();
    let mut image_depth: usize = 0;
    let mut in_code = false;
    let mut i: usize = 0;
    assert(image_views(images@) =~= Seq::empty());
    assert(texts(tables@) =~= Seq::empty());
    while i < events.len()
        invariant
            i <= events.len(),
            all == event_views(events@),
            image_depth <= i,
            image_views(images@) == images_among(run(all.take(i as int)).blocks),
            texts(tables@) == table_links(all.take(i as int)),
            tracks(
                run(all.take(i as int)).mode,
                in_image,
                image_url@,
                image_alt@,
                image_depth as nat,
                in_code,
            ),
        decreases events.len() - i,
    {
        let ghost before = run(all.take(i as int));
        let ghost seen = image_views(images@);
        let ghost linked = texts(tables@);
        proof {
            assert(all.take(i + 1).drop_last() =~= all.take(i as int));
            assert(all.take(i + 1).last() == events@[i as int]@);
            let after = advance(before, events@[i as int]@);
            assert(run(all.take(i + 1)) == after);
            if after.blocks != before.blocks {
                assert(after.blocks == before.blocks.push(after.blocks.last()));
                lemma_images_among_push(before.blocks, after.blocks.last());
            }
        }
        let kind = &events[i].kind;
        match kind {
            EventKind::LinkStart { url } => {
                if text_ends_with(url.as_str(), ".csv") {
                    tables.push(url.clone());
                    assert(texts(tables@) =~= linked.push(url@));
                }
            },
            _ => {},
        }
        if in_image {
            match kind {
                EventKind::Text { text } => {
                    image_alt.append(text.as_str());
                },
                EventKind::ImageStart { url: _ } => {
                    image_depth = image_depth + 1;
                },
                EventKind::ImageEnd => {
                    if image_depth == 0 {
                        let image = ImageReference { url: image_url, alt_text: image_alt };
                        images.push(image);
                        image_url = String::new();
                        image_alt = String::new();
                        in_image = false;
                        assert(image_views(images@) =~= seen.push(image@));
                    } else {
                        image_depth = image_depth - 1;
                    }
                },
                _ => {},
            }
        } else if in_code {
            match kind {
                EventKind::CodeBlockEnd => {
                    in_code = false;
                },
                _ => {},
            }
        } else {
            match kind {
                EventKind::ImageStart { url } => {
                    in_image = true;
                    image_url = url.clone();
                    image_alt = String::new();
                    image_depth = 0;
                },
                EventKind::CodeBlockStart { language: _ } => {
                    in_code = true;
                },
                _ => {},
            }
        }
        i = i + 1;
    }
    assert(all.take(events.len() as int) =~= all);
    (images, tables)
}

/// A section of the document: one markdown file.
#[derive(Debug)]
pub struct Section {
    /// Section number read from the file name.
    pub number: SectionNumber,
    /// Title read from the file name.
    pub title: String,
    /// Nesting level; 0 is the top level.
    pub depth: usize,
    /// Raw markdown content.
    pub content: String,
    /// The events of the content, as the tokenizer yields them.
    pub events: Vec<Event<'static>>,
    /// The images that the content refers to.
    pub images: Vec<ImageReference>,
    /// The table files that the content links to.
    pub tables: Vec<String>,
    /// Path of the source file, for diagnostics.
    pub source_path: PathBuf,
}

impl Section {
    /// Parses the content and fills in the events, the image references
    /// with their alternative texts, and the links to table files. Nothing
    /// else changes.
    pub fn parse_content(&mut self)
        ensures
            final(self).number == old(self).number,
            final(self).title == old(self).title,
            final(self).depth == old(self).depth,
            final(self).content == old(self).content,
            final(self).source_path == old(self).source_path,
            final(self).events@ == markdown_events(old(self).content@),
            image_views(final(self).images@) == image_references(classified_events(old(self).content@)),
            texts(final(self).tables@) == table_links(classified_events(old(self).content@)),
    {
        let events = read_events(self.content.as_str());
        let (images, tables) = extract_references(&events);
        let ghost given = events@;
        let mut sources: Vec<Event<'static>> = Vec::new();
        for event in it: events
            invariant
                it.seq() == given,
                sources@.len() == it.index(),
                forall|k: int| 0 <= k < it.index() ==> #[trigger] sources@[k] == given[k].source,
        {
            sources.push(event.source);
        }
        proof {
            let yielded = markdown_events(self.content@);
            assert(event_views(given).len() == yielded.len());
            assert forall|k: int| 0 <= k < yielded.len() implies sources@[k] == yielded[k] by {
                assert(event_views(given)[k] == classified(yielded[k]));
            }
            assert(sources@ =~= yielded);
        }
        self.events = sources;
        self.images = images;
        self.tables = tables;
    }
}

/// The document being built: its sections in order.
#[derive(Debug)]
pub struct Document {
    /// Root directory of the source.
    pub root: PathBuf,
    /// The sections, in order.
    pub sections: Vec<Section>,
}

impl Document {
    /// A document without sections.
    pub fn new(root: PathBuf) -> (document: Self)
        ensures
            document.root == root,
            document.sections@.len() == 0,
    {
        Document { root, sections: Vec::new() }
    }
}

} // verus!
