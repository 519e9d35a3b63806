//! A cursor-based tokenizer over an immutable string view.
//!
//! The [`scanner::Scanner`] walks an input string and hands out the next
//! whitespace-delimited word, the next signed decimal number, or the next
//! newline-terminated line, advancing an internal offset on success and
//! leaving the state untouched on failure.

pub mod laws;
pub mod scan;
pub mod scanner;
