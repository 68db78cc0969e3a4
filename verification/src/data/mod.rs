//! Data structures representing patches: actions, hunks and line roles.

pub mod action_type;
pub mod chunk;
pub mod line_type;
pub mod patch_action;
