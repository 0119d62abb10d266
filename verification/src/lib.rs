//! Editor support for the ƒink language: what an editor shows of a document, worked out from
//! what the language's front end says of it.
//!
//! `document` holds the parsed document and its queries, `sm` the source maps of the
//! compiler's test files; the other modules are their parts. `laws` states, in words of its own,
//! what an editor can rely on.

pub mod blockmap;
pub mod bytes;
pub mod candidates;
pub mod diagnostics;
pub mod document;
pub mod imports;
pub mod json;
pub mod laws;
pub mod lexer;
pub mod scope;
pub mod sm;
pub mod smblock;
pub mod smtext;
pub mod sort;
pub mod syntax;
pub mod text;
pub mod tokens;

pub use document::ParsedDocument;
pub use sm::get_sm_mappings;
