//! A minimal embedded, schema-less document store: documents are ordered
//! key/value mappings gathered into named collections, collections into a
//! database that can be serialized to and restored from a single binary image.
//!
//! The crate is the data and execution engine alone: the data model, the
//! statement preparation stage, the execution dispatcher, query matching and
//! the persistence codec.  Reading lines from a terminal, parsing document
//! payload text into [`document::Doc`] values and touching the file system are
//! left to the embedding program.  A driver runs one line as follows: hand it
//! to [`statement::prepare_statement`]; where the prepared statement carries
//! payload text, run that text through a JSON-like parser of the driver's
//! choosing and hand the outcome to [`statement::complete_prepare`]; then call
//! [`statement::execute_statement`], print what it emitted, and, where it
//! produced a binary image, write the image to the database's file and map the
//! write's outcome through [`statement::commit_result`].  Loading goes through
//! [`codec::db_open`], which falls back to a fresh, empty database when the
//! file is missing or its content does not decode.

use vstd::prelude::*;

pub mod codec;
pub mod collection;
pub mod database;
pub mod document;
pub mod queries;
pub mod statement;

verus! {

/// Fixed bound on how many documents a single collection may hold; it exists
/// only to bound the memory use of the in-memory design.
pub const TABLE_MAX_DOCUMENTS: usize = 10000;

} // verus!
