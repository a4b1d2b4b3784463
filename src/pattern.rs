//! Regular-expression patterns over keys.

use vstd::prelude::*;

verus! {

#[verifier::external_type_specification]
#[verifier::external_body]
pub struct ExRegex(regex::Regex);

/// Whether `pattern` is a regular expression that compiles.
pub uninterp spec fn regex_compiles(pattern: Seq<char>) -> bool;

/// Whether `text` holds a match of the regular expression `pattern`.
pub uninterp spec fn regex_matches(pattern: Seq<char>, text: Seq<char>) -> bool;

/// Relies on `regex::Regex::new`: whether a pattern compiles depends on the
/// pattern alone.
#[verifier::external_body]
fn compile(source: &str) -> (r: Option<regex::Regex>)
    ensures
        r is Some <==> regex_compiles(source@),
{
    regex::Regex::new(source).ok()
}

/// A compiled regular expression with its source.
pub struct Pattern {
    source: String,
    regex: regex::Regex,
}

impl Pattern {
    /// The source of the pattern.
    pub closed spec fn source(&self) -> Seq<char> {
        self.source@
    }

    /// Compiles `source`.
    pub fn new(source: &str) -> (r: Result<Pattern, crate::error::Error>)
        ensures
            r is Ok <==> regex_compiles(source@),
            r matches Ok(p) ==> p.source() == source@,
    {
        match compile(source) {
            Some(regex) => Ok(Pattern { source: source.to_owned(), regex }),
            None => Err(crate::error::Error::CodingError(source.to_owned())),
        }
    }
}

/// Relies on `regex::Regex::is_match`: whether `text` holds a match of the
/// expression compiled from the pattern's source.
#[verifier::external_body]
pub(crate) fn pattern_is_match(pattern: &Pattern, text: &str) -> (r: bool)
    ensures
        r == regex_matches(pattern.source(), text@),
{
    pattern.regex.is_match(text)
}

} // verus!
