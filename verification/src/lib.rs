//! A read-only virtual filesystem built from a shell-session transcript.
//!
//! The transcript (commands `cd` and `ls` together with their output) is
//! parsed into a flat collection of uniquely identified entries that form
//! a directory tree; the adapter then answers identifier-based lookups,
//! attribute queries and paginated directory listings against that tree.
//!
//! The collection's invariants — sequential unique ids, parent links
//! mirrored in child lists, a leading `..` child in every non-root
//! directory — are stated in [`model`] and proved to hold of every built
//! collection; the parse itself is proved equal to the spec-level
//! interpreter [`parser::spec_parse`].

pub mod adapter;
pub mod model;
pub mod parser;
pub mod text;
