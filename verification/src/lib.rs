//! A toolkit for GitHub CODEOWNERS files: parse them, format them, sort their
//! rules without changing who owns what, and query ownership.
pub mod ast;
pub mod commands;
pub mod disputed;
pub mod formatter;
pub mod layout_laws;
pub mod limit_laws;
pub mod limits;
pub mod match_laws;
pub mod matcher;
pub mod numbering;
pub mod order;
pub mod ownership_laws;
pub mod pattern;
pub mod pattern_laws;
pub mod reading_laws;
pub mod report_laws;
pub mod roundtrip;
pub mod sort_laws;
pub mod sorter;
pub mod text;
pub mod text_laws;
pub mod who_owns;
