//! Exhaustive wordlist enumeration: exact counting and deterministic
//! generation of all strings over an alphabet, by length range or by a
//! positional template, with optional suppression of candidates holding
//! two adjacent equal non-digit characters.

pub mod chars;
pub mod config;
pub mod progress;
pub mod count;
pub mod range_gen;
pub mod template_gen;
pub mod generate;
pub mod fmt;
pub mod laws;
