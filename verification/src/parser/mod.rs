//! Parsing of the textual patch format into structured actions.

pub mod parser;
pub mod text_to_patch;
