//! Regex matching over raw line bytes.
//!
//! A pattern is compiled once per scan and shared across chunks.  The
//! compiled matcher is opaque; what `is_match` returns is a function of
//! the pattern text and the haystack alone, named `re_match`, and every
//! contract downstream speaks of that name.

use vstd::prelude::*;

verus! {

#[verifier::external_type_specification]
#[verifier::external_body]
pub struct ExRegex(regex::bytes::Regex);

/// Whether the regex crate accepts `pat` as a valid pattern.
pub uninterp spec fn re_ok(pat: Seq<char>) -> bool;

/// What a compiled `pat` answers for haystack `hay`: a pure function of
/// the two, the same in every process.
pub uninterp spec fn re_match(pat: Seq<char>, hay: Seq<u8>) -> bool;

/// Relies on `regex::bytes::Regex::new`: compilation succeeds or fails on
/// the pattern text alone.
#[verifier::external_body]
fn compile_regex(pat: &str) -> (r: Option<regex::bytes::Regex>)
    ensures
        r is Some <==> re_ok(pat@),
{
    regex::bytes::Regex::new(pat).ok()
}

/// A compiled regex together with the pattern text it was compiled from.
pub struct RegexMatcher {
    re: regex::bytes::Regex,
    pattern: String,
}

impl RegexMatcher {
    /// The pattern text this matcher was compiled from.
    pub closed spec fn pat(self) -> Seq<char> {
        self.pattern@
    }

    /// Compile a pattern; `None` exactly when the pattern is invalid.
    pub fn new(pat: &str) -> (r: Option<RegexMatcher>)
        ensures
            r is Some <==> re_ok(pat@),
            match r {
                Some(m) => m.pat() == pat@,
                None => true,
            },
    {
        match compile_regex(pat) {
            Some(re) => Some(RegexMatcher { re, pattern: pat.to_owned() }),
            None => None,
        }
    }

    /// Relies on `regex::bytes::Regex::is_match`: the result depends on
    /// the pattern and the haystack alone.  The private fields pair the
    /// compiled regex with its pattern text, so the answer is `re_match`
    /// of that pattern.
    #[verifier::external_body]
    pub fn is_match(&self, hay: &[u8]) -> (r: bool)
        ensures
            r == re_match(self.pat(), hay@),
    {
        self.re.is_match(hay)
    }
}

} // verus!
