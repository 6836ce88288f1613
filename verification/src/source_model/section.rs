//! The section that one source file becomes.

use crate::model::{number_lt, parse_components, SectionNumber};
use crate::source_model::blocks::{
    block_views, classified_events, parse_markdown, run, MarkdownBlock, MarkdownBlockView, ParsedContent,
};
use crate::source_model::section_metadata::{
    parsed_metadata, MetadataError, MetadataFault, SectionMetadata, SectionMetadataView,
};
use crate::text::{chars_of, find_char, position, texts};
use std::path::PathBuf;
use vstd::prelude::*;

verus! {

/// One source file's content as a numbered node of the document.
#[derive(Debug)]
pub struct MarkdownSection {
    /// Level of the section's heading.
    pub heading_level: usize,
    /// Text of the section's heading.
    pub heading_text: String,
    /// Position of the section in the document.
    pub section_number: SectionNumber,
    /// Line of the source file at which the section starts.
    pub line_number: usize,
    /// The source file, for diagnostics.
    pub source_file: PathBuf,
    /// The content blocks, in source order.
    pub content: Vec<MarkdownBlock>,
    /// The section's metadata, if it embeds a metadata block.
    pub metadata: Option<SectionMetadata>,
}

/// A table file that a section links to.
#[derive(Debug)]
pub struct TableSource {
    /// Destination of the link.
    pub path: String,
    /// Number of the section that holds the link.
    pub section: SectionNumber,
}

/// A table source by its characters and components.
pub struct TableSourceView {
    pub path: Seq<char>,
    pub section: Seq<u32>,
}

impl View for TableSource {
    type V = TableSourceView;

    open spec fn view(&self) -> TableSourceView {
        TableSourceView { path: self.path@, section: self.section@ }
    }
}

/// The tables of a list by their views.
pub open spec fn table_views(tables: Seq<TableSource>) -> Seq<TableSourceView> {
    tables.map_values(|t: TableSource| t@)
}

/// The table references among `blocks`, in order, each owned by `section`.
pub open spec fn table_references(blocks: Seq<MarkdownBlockView>, section: Seq<u32>) -> Seq<
    TableSourceView,
>
    decreases blocks.len(),
{
    if blocks.len() == 0 {
        Seq::empty()
    } else {
        let before = table_references(blocks.drop_last(), section);
        match blocks.last() {
            MarkdownBlockView::TableReference { path } => before.push(TableSourceView { path, section }),
            _ => before,
        }
    }
}

/// What is wrong with a source file.
#[derive(Debug)]
pub enum SectionFailure {
    /// The name of the file does not start with a section number.
    MalformedSectionNumber,
    /// The one metadata block of the section is malformed.
    Metadata(MetadataError),
    /// The section embeds more than one metadata block.
    SeveralMetadataBlocks,
}

/// What is wrong with a source file, without the parser's report.
pub enum SectionFault {
    MalformedSectionNumber,
    Metadata(MetadataFault),
    SeveralMetadataBlocks,
}

impl View for SectionFailure {
    type V = SectionFault;

    open spec fn view(&self) -> SectionFault {
        match self {
            SectionFailure::MalformedSectionNumber => SectionFault::MalformedSectionNumber,
            SectionFailure::Metadata(error) => SectionFault::Metadata(error@),
            SectionFailure::SeveralMetadataBlocks => SectionFault::SeveralMetadataBlocks,
        }
    }
}

/// Why a source file yields no section, with the file and the line that the
/// failure belongs to.
#[derive(Debug)]
pub struct SectionError {
    /// The source file.
    pub source_file: PathBuf,
    /// Line of the source file at which the section starts.
    pub line_number: usize,
    /// What is wrong.
    pub failure: SectionFailure,
}

/// The metadata of a section whose metadata blocks have the bodies `bodies`:
/// none without a block, the record of the one block, and a fault where there
/// are several.
pub open spec fn chosen_metadata(bodies: Seq<Seq<char>>) -> Result<
    Option<SectionMetadataView>,
    SectionFault,
> {
    if bodies.len() == 0 {
        Ok(None)
    } else if bodies.len() == 1 {
        match parsed_metadata(bodies[0]) {
            Ok(metadata) => Ok(Some(metadata)),
            Err(fault) => Err(SectionFault::Metadata(fault)),
        }
    } else {
        Err(SectionFault::SeveralMetadataBlocks)
    }
}

/// Optional metadata by its view.
pub open spec fn metadata_view(metadata: Option<SectionMetadata>) -> Option<SectionMetadataView> {
    match metadata {
        Some(m) => Some(m@),
        None => None,
    }
}

/// The numeric prefix of a file stem: what stands before the first `_`.
pub open spec fn stem_prefix(stem: Seq<char>) -> Seq<char> {
    stem.take(position(stem, '_'))
}

/// The slug of a file stem: what follows the first `_`, or nothing where the
/// stem holds no `_`.
pub open spec fn stem_slug(stem: Seq<char>) -> Seq<char> {
    if position(stem, '_') < stem.len() {
        stem.skip(position(stem, '_') + 1)
    } else {
        Seq::empty()
    }
}

/// Reads the stem of a file name such as `01.02_overview`: the section
/// number from the prefix before the first `_`, and the slug after it, from
/// which a title is derived. There is no result where the prefix is no
/// section number.
pub fn parse_file_stem(stem: &str) -> (parts: Option<(SectionNumber, String)>)
    ensures
        match parts {
            Some((number, slug)) => parse_components(stem_prefix(stem@)) == Some(number@) && slug@
                == stem_slug(stem@),
            None => parse_components(stem_prefix(stem@)) is None,
        },
{
    let chars = chars_of(stem);
    let at = find_char(&chars, '_');
    let prefix = stem.substring_char(0, at);
    assert(prefix@ =~= stem_prefix(stem@));
    match SectionNumber::parse(prefix) {
        Some(number) => {
            let slug = if at < chars.len() {
                let rest = stem.substring_char(at + 1, chars.len());
                assert(rest@ =~= stem_slug(stem@));
                rest.to_owned()
            } else {
                String::new()
            };
            Some((number, slug))
        },
        None => None,
    }
}

impl MarkdownSection {
    /// Whether `self` comes before `other` in document order.
    pub open spec fn precedes(&self, other: &MarkdownSection) -> bool {
        number_lt(self.section_number@, other.section_number@)
    }

    /// Makes a section of parsed content. Without a metadata block the
    /// section has no metadata; one block is decoded; several are an error.
    /// An error carries the source file and the line given.
    pub fn from_parsed(
        heading_level: usize,
        heading_text: String,
        section_number: SectionNumber,
        line_number: usize,
        source_file: PathBuf,
        parsed: ParsedContent,
    ) -> (result: Result<MarkdownSection, SectionError>)
        ensures
            match chosen_metadata(texts(parsed.metadata_blocks@)) {
                Ok(metadata) => result matches Ok(section) && section.heading_level == heading_level
                    && section.heading_text == heading_text && section.section_number
                    == section_number && section.line_number == line_number && section.source_file
                    == source_file && section.content == parsed.blocks && metadata_view(
                    section.metadata,
                ) == metadata,
                Err(fault) => result matches Err(error) && error.failure@ == fault && error.source_file
                    == source_file && error.line_number == line_number,
            },
    {
        let ParsedContent { blocks, metadata_blocks } = parsed;
        let metadata = if metadata_blocks.len() == 0 {
            None
        } else if metadata_blocks.len() == 1 {
            assert(texts(metadata_blocks@)[0] == metadata_blocks@[0]@);
            match SectionMetadata::parse(metadata_blocks[0].as_str()) {
                Ok(metadata) => Some(metadata),
                Err(error) => {
                    return Err(
                        SectionError { source_file, line_number, failure: SectionFailure::Metadata(error) },
                    );
                },
            }
        } else {
            return Err(
                SectionError { source_file, line_number, failure: SectionFailure::SeveralMetadataBlocks },
            );
        };
        Ok(
            MarkdownSection {
                heading_level,
                heading_text,
                section_number,
                line_number,
                source_file,
                content: blocks,
                metadata,
            },
        )
    }

    /// Parses the markdown text of one source file into a section.
    pub fn from_markdown(
        heading_level: usize,
        heading_text: String,
        section_number: SectionNumber,
        line_number: usize,
        source_file: PathBuf,
        markdown: &str,
    ) -> (result: Result<MarkdownSection, SectionError>)
        ensures
            match chosen_metadata(run(classified_events(markdown@)).metadata) {
                Ok(metadata) => result matches Ok(section) && section.heading_level == heading_level
                    && section.heading_text == heading_text && section.section_number
                    == section_number && section.line_number == line_number && section.source_file
                    == source_file && block_views(section.content@) == run(
                    classified_events(markdown@),
                ).blocks && metadata_view(section.metadata) == metadata,
                Err(fault) => result matches Err(error) && error.failure@ == fault && error.source_file
                    == source_file && error.line_number == line_number,
            },
    {
        let parsed = parse_markdown(markdown);
        MarkdownSection::from_parsed(
            heading_level,
            heading_text,
            section_number,
            line_number,
            source_file,
            parsed,
        )
    }

    /// Makes a section of one source file, given the stem of its name, its
    /// path and its text. The number comes from the prefix of the stem and
    /// the heading from its slug, as it stands; the level of the heading is
    /// the number of components, and the section starts at line 1.
    /// A stem without a section number is an error, and so is malformed
    /// metadata; the error carries the path.
    pub fn from_file(stem: &str, source_file: PathBuf, markdown: &str) -> (result: Result<
        MarkdownSection,
        SectionError,
    >)
        ensures
            match parse_components(stem_prefix(stem@)) {
                None => result matches Err(error) && error.failure@ == SectionFault::MalformedSectionNumber
                    && error.source_file == source_file && error.line_number == 1,
                Some(number) => match chosen_metadata(run(classified_events(markdown@)).metadata) {
                    Ok(metadata) => result matches Ok(section) && section.section_number@ == number
                        && section.heading_level == number.len() && section.heading_text@
                        == stem_slug(stem@) && section.line_number == 1 && section.source_file
                        == source_file && block_views(section.content@) == run(
                        classified_events(markdown@),
                    ).blocks && metadata_view(section.metadata) == metadata,
                    Err(fault) => result matches Err(error) && error.failure@ == fault
                        && error.source_file == source_file && error.line_number == 1,
                },
            },
    {
        match parse_file_stem(stem) {
            Some((number, slug)) => {
                let heading_level = number.parts.len();
                MarkdownSection::from_markdown(heading_level, slug, number, 1, source_file, markdown)
            },
            None => Err(
                SectionError { source_file, line_number: 1, failure: SectionFailure::MalformedSectionNumber },
            ),
        }
    }

    /// The tables that this section links to, in source order.
    pub fn table_sources(&self) -> (tables: Vec<TableSource>)
        ensures
            table_views(tables@) == table_references(block_views(self.content@), self.section_number@),
    {
        let ghost all = block_views(self.content@);
        let ghost owner = self.section_number@;
        let mut tables: Vec<TableSource> = Vec::new();
        let mut i: usize = 0;
        assert(table_views(tables@) =~= Seq::empty());
        while i < self.content.len()
            invariant
                i <= self.content.len(),
                all == block_views(self.content@),
                owner == self.section_number@,
                table_views(tables@) == table_references(all.take(i as int), owner),
            decreases self.content.len() - i,
        {
            let ghost found = table_views(tables@);
            proof {
                assert(all.take(i + 1).drop_last() =~= all.take(i as int));
                assert(all.take(i + 1).last() == self.content@[i as int]@);
            }
            match &self.content[i] {
                MarkdownBlock::TableReference { path } => {
                    let table = TableSource { path: path.clone(), section: self.section_number.clone() };
                    tables.push(table);
                    assert(table_views(tables@) =~= found.push(table@));
                },
                _ => {},
            }
            i = i + 1;
        }
        assert(all.take(self.content.len() as int) =~= all);
        tables
    }
}

} // verus!
