//! The unified document: all sections in order, the tables they link to,
//! and the figures derived from them.

use crate::model::{lemma_number_order_total, lemma_number_order_transitive, number_lt, SectionNumber};
use crate::source_model::blocks::{block_views, MarkdownBlock};
use crate::source_model::section::{
    table_references, table_views, MarkdownSection, TableSource, TableSourceView,
};
use crate::text::{
    chars_of, decimal_number, decimal_number_up_to, decimal_string, decimal_text, find_char, parse_decimal,
    piece_views, position, split, split_chars,
};
use std::path::PathBuf;
use vstd::prelude::*;
use vstd::seq_lib::{to_multiset_build, to_multiset_contains, to_multiset_insert, to_multiset_len};

verus! {

/// Person information.
#[derive(Debug, Clone)]
pub struct Person {
    pub name: String,
    pub email: String,
}

/// A single row of the revision history.
#[derive(Debug, Clone)]
pub struct RevisionHistoryEntry {
    /// Version identifier, typically the name of a tag.
    pub version: String,
    /// Date of the revision, ready for display.
    pub date: String,
    /// Description of the changes.
    pub description: String,
}

/// Descriptive data of a document.
#[derive(Debug, Clone)]
pub struct DocumentMetadata {
    /// System identifier, if any.
    pub system_id: Option<String>,
    /// Unique identifier of the document.
    pub document_id: String,
    /// Title.
    pub title: String,
    /// Subtitle, if any.
    pub subtitle: Option<String>,
    /// Description, if any.
    pub description: Option<String>,
    /// Kind of document, such as SDD or SRS.
    pub doc_type: String,
    /// Standard that the document follows.
    pub standard: String,
    /// Template that the document uses.
    pub template: String,
    /// Owner of the document.
    pub owner: Person,
    /// Approver of the document.
    pub approver: Person,
    /// Version, if any.
    pub version: Option<String>,
    /// Date of the last change.
    pub modified: Option<String>,
    /// Rows of the revision history.
    pub revision_history: Vec<RevisionHistoryEntry>,
    /// Protection or classification marking, if any.
    pub protection_mark: Option<String>,
    /// Path of a background image for the title page, if any.
    pub title_page_background: Option<String>,
    /// Colour of headings, as a hex colour such as `#2B579A`.
    pub heading_color: String,
}

/// Abbreviated name of the month with the number `month`, from 1 to 12.
pub open spec fn month_abbreviation(month: nat) -> Seq<char> {
    if month == 1 {
        "Jan"@
    } else if month == 2 {
        "Feb"@
    } else if month == 3 {
        "Mar"@
    } else if month == 4 {
        "Apr"@
    } else if month == 5 {
        "May"@
    } else if month == 6 {
        "Jun"@
    } else if month == 7 {
        "Jul"@
    } else if month == 8 {
        "Aug"@
    } else if month == 9 {
        "Sep"@
    } else if month == 10 {
        "Oct"@
    } else if month == 11 {
        "Nov"@
    } else {
        "Dec"@
    }
}

/// A date written as day, abbreviated month and year, with single spaces
/// between them.
pub open spec fn written_date(day: nat, month: nat, year: nat) -> Seq<char> {
    decimal_text(day) + " "@ + month_abbreviation(month) + " "@ + decimal_text(year)
}

/// The display form of an ISO 8601 timestamp. What stands before the first
/// `T` is split at `-`; where the first three pieces are a year that fits a
/// signed 32-bit number, a month from 1 to 12 and a day that fits an unsigned
/// 32-bit number, the result is the written date. In every other case it is
/// `iso` itself.
pub open spec fn display_date(iso: Seq<char>) -> Seq<char> {
    let pieces = split(iso.take(position(iso, 'T')), '-');
    if pieces.len() >= 3 {
        let year = decimal_number_up_to(pieces[0], i32::MAX as nat);
        let month = decimal_number(pieces[1]);
        let day = decimal_number_up_to(pieces[2], u32::MAX as nat);
        if year is Some && month is Some && day is Some && 1 <= month.unwrap() <= 12 {
            written_date(day.unwrap(), month.unwrap(), year.unwrap())
        } else {
            iso
        }
    } else {
        iso
    }
}

fn month_name(month: u64) -> (name: &'static str)
    requires
        1 <= month <= 12,
    ensures
        name@ == month_abbreviation(month as nat),
{
    if month == 1 {
        "Jan"
    } else if month == 2 {
        "Feb"
    } else if month == 3 {
        "Mar"
    } else if month == 4 {
        "Apr"
    } else if month == 5 {
        "May"
    } else if month == 6 {
        "Jun"
    } else if month == 7 {
        "Jul"
    } else if month == 8 {
        "Aug"
    } else if month == 9 {
        "Sep"
    } else if month == 10 {
        "Oct"
    } else if month == 11 {
        "Nov"
    } else {
        "Dec"
    }
}

/// Formats an ISO 8601 timestamp such as `2026-07-06T12:34:56+00:00` for
/// display, as `6 Jul 2026`. A text that is no such date comes back
/// unchanged.
pub fn format_display_date(iso_date: &str) -> (shown: String)
    ensures
        shown@ == display_date(iso_date@),
{
    let chars = chars_of(iso_date);
    let end = find_char(&chars, 'T');
    let date = chars_of(iso_date.substring_char(0, end));
    assert(date@ =~= iso_date@.take(position(iso_date@, 'T')));
    let pieces = split_chars(&date, '-');
    let ghost views = piece_views(pieces@);
    if pieces.len() >= 3 {
        assert(views[0] == pieces@[0]@);
        assert(views[1] == pieces@[1]@);
        assert(views[2] == pieces@[2]@);
        let year = parse_decimal(&pieces[0], 0x7FFF_FFFF);
        let month = parse_decimal(&pieces[1], 12);
        let day = parse_decimal(&pieces[2], 0xFFFF_FFFF);
        match (year, month, day) {
            (Some(y), Some(m), Some(d)) => {
                if m >= 1 {
                    let mut shown = decimal_string(d);
                    shown.append(" ");
                    shown.append(month_name(m));
                    shown.append(" ");
                    shown.append(decimal_string(y).as_str());
                    return shown;
                }
            },
            _ => {},
        }
    }
    iso_date.to_owned()
}

/// One tag of the version history, as a version-control reader supplies it.
#[derive(Debug, Clone)]
pub struct TagRecord {
    /// Name of the tag.
    pub name: String,
    /// ISO 8601 timestamp of the tag.
    pub timestamp: String,
    /// Message of the tag.
    pub message: String,
}

/// The revision rows for a list of tags: one row per tag, in the order
/// given, with the timestamp formatted for display.
pub fn revision_history(tags: &Vec<TagRecord>) -> (rows: Vec<RevisionHistoryEntry>)
    ensures
        rows@.len() == tags@.len(),
        forall|i: int|
            0 <= i < tags@.len() ==> (#[trigger] rows@[i]).version@ == tags@[i].name@ && rows@[i].date@
                == display_date(tags@[i].timestamp@) && rows@[i].description@ == tags@[i].message@,
{
    let mut rows: Vec<RevisionHistoryEntry> = Vec::new();
    let mut i: usize = 0;
    while i < tags.len()
        invariant
            i <= tags.len(),
            rows@.len() == i,
            forall|k: int|
                0 <= k < i ==> (#[trigger] rows@[k]).version@ == tags@[k].name@ && rows@[k].date@
                    == display_date(tags@[k].timestamp@) && rows@[k].description@ == tags@[k].message@,
        decreases tags.len() - i,
    {
        let tag = &tags[i];
        rows.push(
            RevisionHistoryEntry {
                version: tag.name.clone(),
                date: format_display_date(tag.timestamp.as_str()),
                description: tag.message.clone(),
            },
        );
        i = i + 1;
    }
    rows
}

/// Whether the sections stand in strictly ascending order of their numbers.
pub open spec fn ascending(sections: Seq<MarkdownSection>) -> bool {
    forall|i: int, j: int|
        #![trigger sections[i], sections[j]]
        0 <= i < j < sections.len() ==> sections[i].precedes(&sections[j])
}

/// Whether no two sections carry the same number.
pub open spec fn numbers_distinct(sections: Seq<MarkdownSection>) -> bool {
    forall|i: int, j: int|
        #![trigger sections[i], sections[j]]
        0 <= i < j < sections.len() ==> sections[i].section_number@ != sections[j].section_number@
}

/// Whether `first` and `second` are the places of the first clash of
/// numbers: the section at `second` is the earliest one whose number occurred
/// before it, and the section at `first` is the earliest one that carries that
/// number.
pub open spec fn is_first_duplicate(sections: Seq<MarkdownSection>, first: int, second: int) -> bool {
    &&& 0 <= first < second < sections.len()
    &&& sections[first].section_number@ == sections[second].section_number@
    &&& numbers_distinct(sections.take(second))
    &&& forall|p: int|
        0 <= p < first ==> (#[trigger] sections[p]).section_number@ != sections[second].section_number@
}

/// The tables that the sections link to: section by section, within a
/// section in source order.
pub open spec fn all_tables(sections: Seq<MarkdownSection>) -> Seq<TableSourceView>
    decreases sections.len(),
{
    if sections.len() == 0 {
        Seq::empty()
    } else {
        all_tables(sections.drop_last()) + table_references(
            block_views(sections.last().content@),
            sections.last().section_number@,
        )
    }
}

/// The number of image blocks among `blocks`.
pub open spec fn image_blocks(blocks: Seq<MarkdownBlock>) -> nat
    decreases blocks.len(),
{
    if blocks.len() == 0 {
        0
    } else {
        image_blocks(blocks.drop_last()) + if blocks.last() is Image {
            1nat
        } else {
            0nat
        }
    }
}

/// The number of image blocks in all sections.
pub open spec fn image_total(sections: Seq<MarkdownSection>) -> nat
    decreases sections.len(),
{
    if sections.len() == 0 {
        0
    } else {
        image_total(sections.drop_last()) + image_blocks(sections.last().content@)
    }
}

/// The number of content blocks in all sections.
pub open spec fn block_total(sections: Seq<MarkdownSection>) -> nat
    decreases sections.len(),
{
    if sections.len() == 0 {
        0
    } else {
        block_total(sections.drop_last()) + sections.last().content@.len()
    }
}

proof fn lemma_image_total_prefix(sections: Seq<MarkdownSection>, n: int)
    requires
        0 <= n <= sections.len(),
    ensures
        image_total(sections.take(n)) <= image_total(sections),
    decreases sections.len(),
{
    if n == sections.len() {
        assert(sections.take(n) =~= sections);
    } else {
        lemma_image_total_prefix(sections.drop_last(), n);
        assert(sections.drop_last().take(n) =~= sections.take(n));
    }
}

proof fn lemma_block_total_prefix(sections: Seq<MarkdownSection>, n: int)
    requires
        0 <= n <= sections.len(),
    ensures
        block_total(sections.take(n)) <= block_total(sections),
    decreases sections.len(),
{
    if n == sections.len() {
        assert(sections.take(n) =~= sections);
    } else {
        lemma_block_total_prefix(sections.drop_last(), n);
        assert(sections.drop_last().take(n) =~= sections.take(n));
    }
}

proof fn lemma_image_blocks_insert(blocks: Seq<MarkdownBlock>, at: int, block: MarkdownBlock)
    requires
        0 <= at <= blocks.len(),
    ensures
        image_blocks(blocks.insert(at, block)) == image_blocks(blocks) + if block is Image {
            1nat
        } else {
            0nat
        },
    decreases blocks.len(),
{
    let grown = blocks.insert(at, block);
    if at == blocks.len() {
        assert(grown.drop_last() =~= blocks);
    } else {
        lemma_image_blocks_insert(blocks.drop_last(), at, block);
        assert(grown.drop_last() =~= blocks.drop_last().insert(at, block));
        assert(grown.last() == blocks.last());
    }
}

/// A block that is no image, put into any section at any place, leaves the
/// number of images of the document as it was.
pub proof fn lemma_image_count_ignores_other_blocks(
    sections: Seq<MarkdownSection>,
    changed: Seq<MarkdownSection>,
    index: int,
    at: int,
    block: MarkdownBlock,
)
    requires
        0 <= index < sections.len(),
        0 <= at <= sections[index].content@.len(),
        !(block is Image),
        changed.len() == sections.len(),
        changed[index].content@ == sections[index].content@.insert(at, block),
        forall|k: int|
            0 <= k < sections.len() && k != index ==> (#[trigger] changed[k]).content@
                == sections[k].content@,
    ensures
        image_total(changed) == image_total(sections),
    decreases sections.len(),
{
    let last = sections.len() - 1;
    if index == last {
        lemma_image_blocks_insert(sections[index].content@, at, block);
        lemma_image_total_same_contents(sections.drop_last(), changed.drop_last());
    } else {
        lemma_image_count_ignores_other_blocks(sections.drop_last(), changed.drop_last(), index, at, block);
        assert(changed[last].content@ == sections[last].content@);
    }
}

proof fn lemma_image_total_same_contents(a: Seq<MarkdownSection>, b: Seq<MarkdownSection>)
    requires
        a.len() == b.len(),
        forall|k: int| 0 <= k < a.len() ==> (#[trigger] b[k]).content@ == a[k].content@,
    ensures
        image_total(a) == image_total(b),
    decreases a.len(),
{
    if a.len() > 0 {
        lemma_image_total_same_contents(a.drop_last(), b.drop_last());
        assert(b[a.len() - 1].content@ == a[a.len() - 1].content@);
    }
}

/// Sections in strictly ascending order are determined by which sections
/// they are: two such lists with the same members are the same list. So the
/// order of an assembled document does not depend on the order in which its
/// sections were given.
pub proof fn lemma_ascending_order_unique(a: Seq<MarkdownSection>, b: Seq<MarkdownSection>)
    requires
        ascending(a),
        ascending(b),
        a.to_multiset() == b.to_multiset(),
    ensures
        a == b,
    decreases a.len(),
{
    broadcast use vstd::multiset::group_multiset_axioms;

    to_multiset_len(a);
    to_multiset_len(b);
    if a.len() == 0 {
        assert(a =~= b);
    } else {
        let top = a.last();
        let shorter_a = a.drop_last();
        let shorter_b = b.drop_last();
        assert(a[a.len() - 1] == top);
        assert(a.contains(top));
        to_multiset_contains(a, top);
        to_multiset_contains(b, top);
        let j = choose|j: int| 0 <= j < b.len() && b[j] == top;
        if j < b.len() - 1 {
            let other = b.last();
            assert(b[b.len() - 1] == other);
            assert(b.contains(other));
            to_multiset_contains(b, other);
            to_multiset_contains(a, other);
            let i = choose|i: int| 0 <= i < a.len() && a[i] == other;
            assert(b[j].precedes(&b[b.len() - 1]));
            lemma_number_order_total(top.section_number@, other.section_number@);
            if i < a.len() - 1 {
                assert(a[i].precedes(&a[a.len() - 1]));
            }
            assert(false);
        }
        assert(a =~= shorter_a.push(top));
        assert(b =~= shorter_b.push(top));
        to_multiset_build(shorter_a, top);
        to_multiset_build(shorter_b, top);
        assert(shorter_a.to_multiset() =~= a.to_multiset().remove(top));
        assert(shorter_b.to_multiset() =~= b.to_multiset().remove(top));
        assert forall|p: int, q: int|
            #![trigger shorter_a[p], shorter_a[q]]
            0 <= p < q < shorter_a.len() implies shorter_a[p].precedes(&shorter_a[q]) by {
            assert(a[p].precedes(&a[q]));
        }
        assert forall|p: int, q: int|
            #![trigger shorter_b[p], shorter_b[q]]
            0 <= p < q < shorter_b.len() implies shorter_b[p].precedes(&shorter_b[q]) by {
            assert(b[p].precedes(&b[q]));
        }
        lemma_ascending_order_unique(shorter_a, shorter_b);
    }
}

proof fn lemma_insert_keeps_ascending(sorted: Seq<MarkdownSection>, at: int, section: MarkdownSection)
    requires
        ascending(sorted),
        0 <= at <= sorted.len(),
        forall|k: int| 0 <= k < at ==> (#[trigger] sorted[k]).precedes(&section),
        forall|k: int| at <= k < sorted.len() ==> section.precedes(#[trigger] &sorted[k]),
    ensures
        ascending(sorted.insert(at, section)),
{
    let grown = sorted.insert(at, section);
    assert forall|a: int, b: int|
        #![trigger grown[a], grown[b]]
        0 <= a < b < grown.len() implies grown[a].precedes(&grown[b]) by {
        if b < at {
            assert(grown[a] == sorted[a] && grown[b] == sorted[b]);
        } else if b == at {
            assert(grown[a] == sorted[a]);
        } else if a < at {
            assert(grown[a] == sorted[a] && grown[b] == sorted[b - 1]);
        } else if a == at {
            assert(grown[b] == sorted[b - 1]);
        } else {
            assert(grown[a] == sorted[a - 1] && grown[b] == sorted[b - 1]);
        }
    }
}

fn find_duplicate(sections: &Vec<MarkdownSection>) -> (clash: Option<(usize, usize)>)
    ensures
        match clash {
            Some((first, second)) => is_first_duplicate(sections@, first as int, second as int),
            None => numbers_distinct(sections@),
        },
{
    let mut second: usize = 0;
    while second < sections.len()
        invariant
            second <= sections.len(),
            numbers_distinct(sections@.take(second as int)),
        decreases sections.len() - second,
    {
        let mut first: usize = 0;
        while first < second
            invariant
                first <= second < sections.len(),
                numbers_distinct(sections@.take(second as int)),
                forall|p: int|
                    0 <= p < first ==> (#[trigger] sections@[p]).section_number@
                        != sections@[second as int].section_number@,
            decreases second - first,
        {
            if sections[first].section_number.same_as(&sections[second].section_number) {
                return Some((first, second));
            }
            first = first + 1;
        }
        proof {
            let shorter = sections@.take(second as int);
            let longer = sections@.take(second + 1);
            assert forall|i: int, j: int|
                #![trigger longer[i], longer[j]]
                0 <= i < j < longer.len() implies longer[i].section_number@
                != longer[j].section_number@ by {
                if j < second {
                    assert(longer[i] == shorter[i] && longer[j] == shorter[j]);
                } else {
                    assert(longer[i] == sections@[i]);
                }
            }
        }
        second = second + 1;
    }
    assert(sections@.take(sections.len() as int) =~= sections@);
    None
}

fn insertion_point(sorted: &Vec<MarkdownSection>, number: &SectionNumber) -> (at: usize)
    ensures
        at <= sorted@.len(),
        forall|k: int| 0 <= k < at ==> number_lt((#[trigger] sorted@[k]).section_number@, number@),
        at < sorted@.len() ==> !number_lt(sorted@[at as int].section_number@, number@),
{
    let mut at: usize = 0;
    while at < sorted.len() && sorted[at].section_number.comes_before(number)
        invariant
            at <= sorted@.len(),
            forall|k: int| 0 <= k < at ==> number_lt((#[trigger] sorted@[k]).section_number@, number@),
        decreases sorted.len() - at,
    {
        at = at + 1;
    }
    at
}

fn sort_sections(sections: Vec<MarkdownSection>) -> (sorted: Vec<MarkdownSection>)
    requires
        numbers_distinct(sections@),
    ensures
        ascending(sorted@),
        sorted@.to_multiset() == sections@.to_multiset(),
        sorted@.len() == sections@.len(),
{
    let ghost input = sections@;
    let mut sorted: Vec<MarkdownSection> = Vec::new();
    assert(sorted@ =~= input.take(0));
    for section in it: sections
        invariant
            it.seq() == input,
            numbers_distinct(input),
            ascending(sorted@),
            sorted@.to_multiset() == input.take(it.index() as int).to_multiset(),
            sorted@.len() == it.index(),
    {
        let ghost n = it.index() as int;
        let ghost before = sorted@;
        let at = insertion_point(&sorted, &section.section_number);
        proof {
            assert(section == input[n]);
            assert forall|k: int| at <= k < before.len() implies section.precedes(#[trigger] &before[k]) by {
                assert forall|m: int| 0 <= m < before.len() implies (#[trigger] before[m]).section_number@
                    != section.section_number@ by {
                    to_multiset_contains(before, before[m]);
                    to_multiset_contains(input.take(n), before[m]);
                    assert(before.contains(before[m]));
                    let p = choose|p: int| 0 <= p < n && input.take(n)[p] == before[m];
                    assert(input[p] == before[m]);
                }
                lemma_number_order_total(before[at as int].section_number@, section.section_number@);
                if k > at {
                    assert(before[at as int].precedes(&before[k]));
                    lemma_number_order_transitive(
                        section.section_number@,
                        before[at as int].section_number@,
                        before[k].section_number@,
                    );
                }
            }
            lemma_insert_keeps_ascending(before, at as int, section);
            to_multiset_insert(before, at as int, section);
            to_multiset_build(input.take(n), section);
            assert(input.take(n + 1) =~= input.take(n).push(section));
        }
        sorted.insert(at, section);
    }
    assert(input.take(input.len() as int) =~= input);
    sorted
}

fn collect_tables(sections: &Vec<MarkdownSection>) -> (tables: Vec<TableSource>)
    ensures
        table_views(tables@) == all_tables(sections@),
{
    let mut tables: Vec<TableSource> = Vec::new();
    let mut i: usize = 0;
    assert(table_views(tables@) =~= Seq::empty());
    while i < sections.len()
        invariant
            i <= sections.len(),
            table_views(tables@) == all_tables(sections@.take(i as int)),
        decreases sections.len() - i,
    {
        let ghost found = table_views(tables@);
        let mut more = sections[i].table_sources();
        let ghost added = table_views(more@);
        proof {
            assert(sections@.take(i + 1).drop_last() =~= sections@.take(i as int));
            assert(sections@.take(i + 1).last() == sections@[i as int]);
        }
        tables.append(&mut more);
        assert(table_views(tables@) =~= found + added);
        i = i + 1;
    }
    assert(sections@.take(sections.len() as int) =~= sections@);
    tables
}

fn count_images(blocks: &Vec<MarkdownBlock>) -> (count: usize)
    ensures
        count == image_blocks(blocks@),
{
    let mut count: usize = 0;
    let mut i: usize = 0;
    while i < blocks.len()
        invariant
            i <= blocks.len(),
            count == image_blocks(blocks@.take(i as int)),
            count <= i,
        decreases blocks.len() - i,
    {
        proof {
            assert(blocks@.take(i + 1).drop_last() =~= blocks@.take(i as int));
            assert(blocks@.take(i + 1).last() == blocks@[i as int]);
        }
        match &blocks[i] {
            MarkdownBlock::Image { url: _, alt_text: _ } => {
                count = count + 1;
            },
            _ => {},
        }
        i = i + 1;
    }
    assert(blocks@.take(blocks.len() as int) =~= blocks@);
    count
}

/// The document ready for export.
#[derive(Debug)]
pub struct UnifiedDocument {
    /// Descriptive data of the document.
    pub metadata: DocumentMetadata,
    /// Root directory of the source.
    pub root: PathBuf,
    /// The sections of all source files.
    pub sections: Vec<MarkdownSection>,
    /// The tables that the document uses.
    pub tables: Vec<TableSource>,
}

/// Why a set of sections is no document.
#[derive(Debug)]
pub enum AssemblyError {
    /// Two source files carry the same section number.
    DuplicateSectionNumber {
        /// The number that occurs twice.
        number: SectionNumber,
        /// The file that carries it first in the order given.
        first_source: PathBuf,
        /// The earliest file that repeats a number.
        second_source: PathBuf,
    },
}

impl UnifiedDocument {
    /// The invariant of an assembled document: its sections stand in
    /// strictly ascending order of their numbers, so no number occurs twice.
    pub open spec fn well_formed(&self) -> bool {
        ascending(self.sections@)
    }

    /// A document without sections and tables.
    pub fn new(metadata: DocumentMetadata, root: PathBuf) -> (document: Self)
        ensures
            document.metadata == metadata,
            document.root == root,
            document.sections@.len() == 0,
            document.tables@.len() == 0,
            document.well_formed(),
    {
        UnifiedDocument { metadata, root, sections: Vec::new(), tables: Vec::new() }
    }

    /// Merges the sections of all source files into one document: sorted by
    /// section number, with the tables that they link to collected section by
    /// section. Two sections with the same number are an error, whatever
    /// else the sections hold; the error names the first clash in the order
    /// given.
    pub fn assemble(metadata: DocumentMetadata, root: PathBuf, sections: Vec<MarkdownSection>) -> (result:
        Result<UnifiedDocument, AssemblyError>)
        ensures
            match result {
                Ok(document) => {
                    &&& numbers_distinct(sections@)
                    &&& document.metadata == metadata
                    &&& document.root == root
                    &&& document.well_formed()
                    &&& document.sections@.to_multiset() == sections@.to_multiset()
                    &&& document.sections@.len() == sections@.len()
                    &&& table_views(document.tables@) == all_tables(document.sections@)
                },
                Err(AssemblyError::DuplicateSectionNumber { number, first_source, second_source }) => {
                    exists|first: int, second: int|
                        {
                            &&& #[trigger] is_first_duplicate(sections@, first, second)
                            &&& number == sections@[first].section_number
                            &&& first_source == sections@[first].source_file
                            &&& second_source == sections@[second].source_file
                        }
                },
            },
    {
        let ghost given = sections@;
        let mut builder = DocumentBuilder::new(metadata, root);
        assert(given.take(0) =~= Seq::<MarkdownSection>::empty());
        for section in it: sections
            invariant
                it.seq() == given,
                builder.metadata() == metadata,
                builder.root() == root,
                builder.sections() == given.take(it.index() as int),
                builder.tables() == Seq::<TableSource>::empty(),
        {
            builder.add_section(section);
            assert(given.take(it.index() + 1) =~= given.take(it.index() as int).push(section));
        }
        assert(given.take(given.len() as int) =~= given);
        match builder.build() {
            Ok(document) => {
                let mut document = document;
                let tables = collect_tables(&document.sections);
                document.tables = tables;
                Ok(document)
            },
            Err(error) => Err(error),
        }
    }

    /// Whether the sections stand in strictly ascending order of their
    /// numbers.
    pub fn is_well_formed(&self) -> (yes: bool)
        ensures
            yes == self.well_formed(),
    {
        if self.sections.len() < 2 {
            return true;
        }
        let mut i: usize = 1;
        while i < self.sections.len()
            invariant
                1 <= i <= self.sections.len(),
                ascending(self.sections@.take(i as int)),
            decreases self.sections.len() - i,
        {
            if !self.sections[i - 1].section_number.comes_before(&self.sections[i].section_number) {
                return false;
            }
            proof {
                let shorter = self.sections@.take(i as int);
                let longer = self.sections@.take(i + 1);
                assert forall|p: int, q: int|
                    #![trigger longer[p], longer[q]]
                    0 <= p < q < longer.len() implies longer[p].precedes(&longer[q]) by {
                    if q < i {
                        assert(shorter[p].precedes(&shorter[q]));
                    } else if p < i - 1 {
                        assert(shorter[p].precedes(&shorter[i - 1]));
                        lemma_number_order_transitive(
                            longer[p].section_number@,
                            longer[i - 1].section_number@,
                            longer[q].section_number@,
                        );
                    }
                }
            }
            i = i + 1;
        }
        assert(self.sections@.take(self.sections.len() as int) =~= self.sections@);
        true
    }

    /// The number of tables.
    pub fn table_count(&self) -> (count: usize)
        ensures
            count == self.tables@.len(),
    {
        self.tables.len()
    }

    /// The number of sections.
    pub fn section_count(&self) -> (count: usize)
        ensures
            count == self.sections@.len(),
    {
        self.sections.len()
    }

    /// The size of the document, where it fits the machine's numbers: the
    /// number of content blocks in all sections. There is no result where
    /// that number is beyond `usize`.
    pub fn checked_word_count(&self) -> (count: Option<usize>)
        ensures
            match count {
                Some(n) => n == block_total(self.sections@),
                None => block_total(self.sections@) > usize::MAX,
            },
    {
        let mut count: usize = 0;
        let mut i: usize = 0;
        while i < self.sections.len()
            invariant
                i <= self.sections.len(),
                count == block_total(self.sections@.take(i as int)),
            decreases self.sections.len() - i,
        {
            proof {
                assert(self.sections@.take(i + 1).drop_last() =~= self.sections@.take(i as int));
                assert(self.sections@.take(i + 1).last() == self.sections@[i as int]);
                lemma_block_total_prefix(self.sections@, i + 1);
            }
            match count.checked_add(self.sections[i].content.len()) {
                Some(sum) => {
                    count = sum;
                },
                None => {
                    return None;
                },
            }
            i = i + 1;
        }
        assert(self.sections@.take(self.sections.len() as int) =~= self.sections@);
        Some(count)
    }

    /// The size of the document: the number of content blocks in all
    /// sections. It is a measure of size, not a count of words.
    pub fn word_count(&self) -> (count: usize)
        requires
            block_total(self.sections@) <= usize::MAX,
        ensures
            count == block_total(self.sections@),
    {
        self.checked_word_count().unwrap()
    }

    /// The number of image blocks in all sections, where it fits the
    /// machine's numbers. Blocks of other kinds do not count. There is no
    /// result where that number is beyond `usize`.
    pub fn checked_image_count(&self) -> (count: Option<usize>)
        ensures
            match count {
                Some(n) => n == image_total(self.sections@),
                None => image_total(self.sections@) > usize::MAX,
            },
    {
        let mut count: usize = 0;
        let mut i: usize = 0;
        while i < self.sections.len()
            invariant
                i <= self.sections.len(),
                count == image_total(self.sections@.take(i as int)),
            decreases self.sections.len() - i,
        {
            proof {
                assert(self.sections@.take(i + 1).drop_last() =~= self.sections@.take(i as int));
                assert(self.sections@.take(i + 1).last() == self.sections@[i as int]);
                lemma_image_total_prefix(self.sections@, i + 1);
            }
            match count.checked_add(count_images(&self.sections[i].content)) {
                Some(sum) => {
                    count = sum;
                },
                None => {
                    return None;
                },
            }
            i = i + 1;
        }
        assert(self.sections@.take(self.sections.len() as int) =~= self.sections@);
        Some(count)
    }

    /// The number of image blocks in all sections. Blocks of other kinds do
    /// not count.
    pub fn image_count(&self) -> (count: usize)
        requires
            image_total(self.sections@) <= usize::MAX,
        ensures
            count == image_total(self.sections@),
    {
        self.checked_image_count().unwrap()
    }
}

/// Accumulates sections and tables one by one and finishes them into a
/// document.
pub struct DocumentBuilder {
    metadata: DocumentMetadata,
    root: PathBuf,
    sections: Vec<MarkdownSection>,
    tables: Vec<TableSource>,
}

impl DocumentBuilder {
    /// The descriptive data that the builder was made with.
    pub closed spec fn metadata(&self) -> DocumentMetadata {
        self.metadata
    }

    /// The root directory that the builder was made with.
    pub closed spec fn root(&self) -> PathBuf {
        self.root
    }

    /// The sections added so far, in the order of their adding.
    pub closed spec fn sections(&self) -> Seq<MarkdownSection> {
        self.sections@
    }

    /// The tables added so far, in the order of their adding.
    pub closed spec fn tables(&self) -> Seq<TableSource> {
        self.tables@
    }

    /// A builder without sections and tables.
    pub fn new(metadata: DocumentMetadata, root: PathBuf) -> (builder: Self)
        ensures
            builder.metadata() == metadata,
            builder.root() == root,
            builder.sections() == Seq::<MarkdownSection>::empty(),
            builder.tables() == Seq::<TableSource>::empty(),
    {
        DocumentBuilder { metadata, root, sections: Vec::new(), tables: Vec::new() }
    }

    /// Adds a section after those added before.
    pub fn add_section(&mut self, section: MarkdownSection)
        ensures
            final(self).sections() == old(self).sections().push(section),
            final(self).tables() == old(self).tables(),
            final(self).metadata() == old(self).metadata(),
            final(self).root() == old(self).root(),
    {
        self.sections.push(section);
    }

    /// Adds a table after those added before.
    pub fn add_table(&mut self, table: TableSource)
        ensures
            final(self).tables() == old(self).tables().push(table),
            final(self).sections() == old(self).sections(),
            final(self).metadata() == old(self).metadata(),
            final(self).root() == old(self).root(),
    {
        self.tables.push(table);
    }

    /// Finishes the document. The sections are put into ascending order of
    /// their numbers, whatever the order of their adding; the tables stay as
    /// they were added. Two sections with the same number are an error, and
    /// no document is made; the error names the first clash in the order of
    /// adding.
    pub fn build(self) -> (result: Result<UnifiedDocument, AssemblyError>)
        ensures
            match result {
                Ok(document) => {
                    &&& numbers_distinct(self.sections())
                    &&& document.metadata == self.metadata()
                    &&& document.root == self.root()
                    &&& document.well_formed()
                    &&& document.sections@.to_multiset() == self.sections().to_multiset()
                    &&& document.sections@.len() == self.sections().len()
                    &&& document.tables@ == self.tables()
                },
                Err(AssemblyError::DuplicateSectionNumber { number, first_source, second_source }) => {
                    exists|first: int, second: int|
                        {
                            &&& #[trigger] is_first_duplicate(self.sections(), first, second)
                            &&& number == self.sections()[first].section_number
                            &&& first_source == self.sections()[first].source_file
                            &&& second_source == self.sections()[second].source_file
                        }
                },
            },
    {
        let DocumentBuilder { metadata, root, sections, tables } = self;
        let mut sections = sections;
        let ghost given = sections@;
        assert(given == self.sections());
        match find_duplicate(&sections) {
            Some((first, second)) => {
                let later = sections.remove(second);
                let earlier = sections.remove(first);
                assert(later == given[second as int]);
                assert(earlier == given[first as int]);
                assert(is_first_duplicate(given, first as int, second as int));
                Err(
                    AssemblyError::DuplicateSectionNumber {
                        number: earlier.section_number,
                        first_source: earlier.source_file,
                        second_source: later.source_file,
                    },
                )
            },
            None => {
                let sorted = sort_sections(sections);
                Ok(UnifiedDocument { metadata, root, sections: sorted, tables })
            },
        }
    }
}

} // verus!
