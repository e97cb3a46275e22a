//! Correlation of log messages: a pattern trie that recognises messages and
//! extracts fields, and contexts that group related messages until one of
//! their closing conditions fires.

pub mod message;
pub mod conditions;
pub mod context;
pub mod version;
pub mod parsers;
mod text;
pub mod trie;
pub mod action;
pub mod correlator;
