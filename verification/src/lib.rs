//! Verified core of a PDF parser: cross-reference bookkeeping, header and
//! stream-filter decoding, JPEG/JBIG2/CCITT inspection and text decoding.

pub mod content;
pub mod encoding;
pub mod encryption_handler;
pub mod error;
pub mod filters;
pub mod filter_impls;
pub mod header;
pub mod lexer;
pub mod lexical;
pub mod object_stream;
pub mod page_tree;
pub mod objects;
pub mod parse_options;
pub mod reader;
pub mod stack_safe;
pub mod text;
pub mod xref;
pub mod xref_stream;
pub mod xref_types;
