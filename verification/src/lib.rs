//! Incrementally parse a growing shell-script buffer and report, after each
//! appended fragment, the normalized syntax tree together with a minimal
//! description of what changed since the previous parse.

pub mod ast;
pub mod buffer;
pub mod changes;
pub mod engine;
pub mod laws;
pub mod normalize;
pub mod raw;
pub mod session;
