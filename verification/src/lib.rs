//! Assembly of a structured technical document from numbered markdown
//! sections, with traceability tables derived from section metadata.

pub mod model;
pub mod source_model;
pub mod text;
pub mod traceability;
pub mod unified_document;
