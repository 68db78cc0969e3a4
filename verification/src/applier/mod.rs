//! The hunk-application engine: matching modes, search state and the
//! backtracking patcher.

pub mod backtracking_patcher;
pub mod state;
pub mod whitespace_mode;
