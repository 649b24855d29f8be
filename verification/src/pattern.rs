//! Pattern matching against a compiled regular expression.
//!
//! The matcher wraps a regex compiled once from a user-supplied pattern
//! string. Whether a given text matches is a pure function of the pattern
//! string and the text, named here by uninterpreted spec functions; the
//! regex engine itself is trusted to realize them.

use vstd::prelude::*;

verus! {

#[verifier::external_type_specification]
#[verifier::external_body]
pub struct ExRegex(regex::Regex);

#[verifier::external_type_specification]
#[verifier::external_body]
pub struct ExRegexError(regex::Error);

/// Whether a pattern string is a valid regular expression, i.e. whether
/// compiling it under the engine's default settings succeeds.
pub uninterp spec fn regex_valid(pat: Seq<char>) -> bool;

/// Whether the regular expression given by `pat` matches anywhere in `text`
/// (a search, not a full-line anchor).
pub uninterp spec fn regex_match(pat: Seq<char>, text: Seq<char>) -> bool;

/// A compiled pattern, remembering (in ghost state) the pattern string it
/// was compiled from.
pub struct Matcher {
    re: regex::Regex,
    pattern: Ghost<Seq<char>>,
}

/// An error from compiling an invalid pattern, carrying a human-readable
/// diagnostic.
#[derive(Debug)]
pub struct PatternError {
    pub message: String,
}

/// Relies on regex::Error's Display implementation for the diagnostic text.
#[verifier::external_body]
fn regex_error_text(e: &regex::Error) -> (s: String) {
    format!("{}", e)
}

impl Matcher {
    /// The pattern string this matcher was compiled from.
    pub closed spec fn pat(&self) -> Seq<char> {
        self.pattern@
    }

    /// Relies on regex::Regex::new: compilation succeeds exactly on valid
    /// pattern strings (under the engine's default settings), and the
    /// compiled regex searches for that pattern.
    #[verifier::external_body]
    fn compile_raw(pat: &str) -> (r: Result<Matcher, regex::Error>)
        ensures
            r is Ok <==> regex_valid(pat@),
            r matches Ok(m) ==> m.pat() == pat@,
    {
        match regex::Regex::new(pat) {
            Ok(re) => Ok(Matcher { re, pattern: Ghost(pat@) }),
            Err(e) => Err(e),
        }
    }

    /// Compiles a pattern string, reporting an invalid pattern as an error.
    pub fn compile(pat: &str) -> (r: Result<Matcher, PatternError>)
        ensures
            r is Ok <==> regex_valid(pat@),
            r matches Ok(m) ==> m.pat() == pat@,
    {
        match Self::compile_raw(pat) {
            Ok(m) => Ok(m),
            Err(e) => Err(PatternError { message: regex_error_text(&e) }),
        }
    }

    /// Relies on regex::Regex::is_match: whether the haystack matches is a
    /// pure function of the pattern string and the haystack alone.
    #[verifier::external_body]
    pub fn is_match(&self, text: &str) -> (r: bool)
        ensures
            r == regex_match(self.pat(), text@),
    {
        self.re.is_match(text)
    }
}

} // verus!
