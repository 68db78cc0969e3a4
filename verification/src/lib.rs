//! Applies text-based patches, written in a block-structured diff dialect,
//! to in-memory file contents.
//!
//! The core is the hunk-application engine in [`applier`]: given the line
//! sequence of a file and a list of hunks (context, deletion and insertion
//! lines), it locates each hunk by its local context, refuses patches with
//! no valid placement or more than one materially distinct placement, and
//! produces the updated line sequence. [`apply`] wraps the engine with patch
//! parsing and multi-file routing over an in-memory file map.

pub mod applier;
pub mod apply;
pub mod data;
pub mod error;
pub mod get_llm_instructions;
pub mod parser;
pub mod text;
pub mod vfs;

pub use apply::apply;
pub use error::ZenpatchError;
