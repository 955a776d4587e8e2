//! Ingestion of Markdown notes into a catalog of directories and documents.
//!
//! The library holds what the ingestion decides and computes; reading the
//! filesystem, deserialising YAML and talking to the catalog are left to the
//! caller, who hands over what these gave.
//!
//! - [`document`]: the records, the front-matter parser, the title and the
//!   reading time.
//! - [`walk`]: the stages of the visit of one directory.
//! - [`batch`]: how the files of a directory fall into rounds and batches, and
//!   what is kept of what was loaded.
//! - [`catalog`] and [`tree`]: what the catalog holds, and what a walk
//!   guarantees of it.
//! - [`error`]: the failures.
//! - [`text`]: searching and trimming sequences of characters.

pub mod batch;
pub mod catalog;
pub mod document;
pub mod error;
pub mod text;
pub mod tree;
pub mod walk;

pub use crate::batch::FILES_PER_THREAD;
