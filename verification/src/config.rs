//! The resolved configuration consumed by the counter and the generators.

use vstd::prelude::*;

verus! {

/// An enumeration run, fixed once constructed.
///
/// When `template` is set it fully determines the output: `@` stands for
/// one charset character, `%` for one decimal digit, and any other
/// character is a literal passed through unchanged; `min_len` and
/// `max_len` are then ignored. Otherwise every string of each length in
/// `[min_len, max_len]` over `charset` is enumerated. With
/// `no_duplicates` set, candidates holding two adjacent equal non-digit
/// characters are suppressed.
pub struct Config {
    pub min_len: usize,
    pub max_len: usize,
    pub charset: String,
    pub template: Option<String>,
    pub no_duplicates: bool,
}

impl Config {
    /// The ordered alphabet as a character sequence.
    pub open spec fn charset_seq(&self) -> Seq<char> {
        self.charset@
    }

    /// The template as a character sequence; meaningful only when one is set.
    pub open spec fn template_seq(&self) -> Seq<char> {
        self.template->Some_0@
    }

    /// Basic validity: a non-empty alphabet, and an ordered length range
    /// whenever no template overrides it.
    pub open spec fn wf(&self) -> bool {
        &&& self.charset@.len() >= 1
        &&& (self.template is None ==> self.min_len <= self.max_len)
    }
}

} // verus!
