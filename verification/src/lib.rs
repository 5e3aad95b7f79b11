//! A tokenizer built on a hand-written subset of regular expressions.
//!
//! Rule patterns (literals, `\d`/`\s`/`\w` classes, bracket classes with
//! ranges, and the `?`/`+`/`*` quantifiers) are compiled into a single
//! shared-prefix automaton; scanning walks that automaton greedily,
//! skipping separator rules and classifying everything else.

pub mod regex;
pub mod tokenization;

pub use tokenization::Tokenizer;
pub use tokenization::matcher::BuildableMatcher;
pub use tokenization::matcher::Matcher;
