//! Regular expressions that are compiled once and matched many times.

use regex::Regex;
use vstd::prelude::*;

verus! {

#[verifier::external_type_specification]
#[verifier::external_body]
pub struct ExRegex(Regex);

#[verifier::external_type_specification]
#[verifier::external_body]
pub struct ExRegexError(regex::Error);

/// Whether `regex` accepts `source` as a pattern.
pub uninterp spec fn pattern_compiles(source: Seq<char>) -> bool;

/// Whether the pattern `source` has a match anywhere in `text`.
pub uninterp spec fn pattern_matches(source: Seq<char>, text: Seq<char>) -> bool;

/// A compiled regular expression together with the text it was compiled from.
///
/// The fields are private and [`Pattern::new`] is the only way to a value, so
/// the compiled form always belongs to the source text.
#[derive(Debug)]
pub struct Pattern {
    source: String,
    regex: Regex,
}

impl View for Pattern {
    type V = Seq<char>;

    closed spec fn view(&self) -> Seq<char> {
        self.source@
    }
}

/// `Regex::new`: whether it accepts the pattern is what [`pattern_compiles`]
/// names; the pattern `.*` is accepted. The value keeps the source text beside
/// the compiled form.
#[verifier::external_body]
fn compile(source: &str) -> (r: Result<Pattern, regex::Error>)
    ensures
        r is Ok <==> pattern_compiles(source@),
        source@ == ".*"@ ==> r is Ok,
        r matches Ok(pattern) ==> pattern@ == source@,
{
    match Regex::new(source) {
        Ok(regex) => Ok(Pattern { source: source.to_string(), regex }),
        Err(error) => Err(error),
    }
}

/// `Regex::is_match` on the compiled form: whether the pattern matches
/// somewhere in the text is what [`pattern_matches`] names for the pattern's
/// source and the text.
#[verifier::external_body]
pub(crate) fn search(pattern: &Pattern, text: &str) -> (r: bool)
    ensures
        r == pattern_matches(pattern@, text@),
{
    pattern.regex.is_match(text)
}

impl Pattern {
    /// Compiles `source`, or says why it is no pattern.
    pub fn new(source: &str) -> (r: Result<Pattern, regex::Error>)
        ensures
            r is Ok <==> pattern_compiles(source@),
            r matches Ok(pattern) ==> pattern@ == source@,
    {
        compile(source)
    }

    /// The pattern that matches every text.
    pub fn any() -> (r: Pattern)
        ensures
            r@ == ".*"@,
    {
        match compile(".*") {
            Ok(pattern) => pattern,
            Err(_) => unreached(),
        }
    }

    /// The text the pattern was compiled from.
    pub fn as_str(&self) -> (r: &str)
        ensures
            r@ == self@,
    {
        self.source.as_str()
    }

    /// Whether the pattern matches somewhere in `text`.
    pub fn is_match(&self, text: &str) -> (r: bool)
        ensures
            r == pattern_matches(self@, text@),
    {
        search(self, text)
    }
}

} // verus!
