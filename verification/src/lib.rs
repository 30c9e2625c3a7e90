//! Comment-keyword recognition for a TODO/FIXME highlighter: the keyword
//! vocabulary with its colours, and a line scanner that reports where each
//! keyword tag begins.

pub mod highlight;
pub mod keywords;
pub mod scanner;
pub mod text;
