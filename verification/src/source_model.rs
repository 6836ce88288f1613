//! What one source file contributes to a document.

pub mod blocks;
pub mod section;
pub mod section_metadata;

pub use blocks::MarkdownBlock;
pub use section::{MarkdownSection, TableSource};
pub use section_metadata::SectionMetadata;
