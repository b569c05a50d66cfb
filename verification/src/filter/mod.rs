//! Rule parsing (hosts files and the DNS part of AdGuard syntax) and matching.

pub mod domains;
pub mod engine;
pub mod laws;
pub mod lines;
pub mod list;
pub mod matching;
pub mod parser;
pub mod regexes;
pub mod rule;
pub mod scan;
pub mod token;
pub mod wildcard;
pub mod written;
