use vstd::prelude::*;

verus! {

/// The regex crate's compiled regular expression, carried opaquely.
#[verifier::external_type_specification]
#[verifier::external_body]
pub struct ExRegex(regex::Regex);

/// The regex crate's compilation error, carried opaquely.
#[verifier::external_type_specification]
#[verifier::external_body]
pub struct ExRegexError(regex::Error);

/// Whether `regex::Regex::new` accepts the pattern: its syntax is valid and
/// the compiled form stays within the default size limit.
pub uninterp spec fn pattern_compiles(pattern: Seq<char>) -> bool;

/// Whether the pattern, compiled by `regex::Regex::new`, matches somewhere in `line`.
pub uninterp spec fn pattern_matches(pattern: Seq<char>, line: Seq<char>) -> bool;

/// What `str::to_lowercase` makes of `s`.
pub uninterp spec fn lowercase_of(s: Seq<char>) -> Seq<char>;

/// A compiled regular expression together with the pattern it was compiled from.
pub struct LineMatcher {
    regex: regex::Regex,
    source: String,
}

impl LineMatcher {
    pub closed spec fn pattern(&self) -> Seq<char> {
        self.source@
    }
}

/// Relies on `regex::Regex::new`, which fails exactly on the patterns it
/// cannot compile. The pattern is kept beside the compiled regex.
#[verifier::external_body]
fn compile_regex(pattern: &str) -> (r: Result<LineMatcher, regex::Error>)
    ensures
        r is Ok <==> pattern_compiles(pattern@),
        r matches Ok(m) ==> m.pattern() == pattern@,
{
    match regex::Regex::new(pattern) {
        Ok(regex) => Ok(LineMatcher { regex, source: pattern.to_string() }),
        Err(e) => Err(e),
    }
}

/// Relies on `regex::Regex::is_match`: whether the regex matches anywhere in `line`.
#[verifier::external_body]
fn regex_hits(m: &LineMatcher, line: &str) -> (r: bool)
    ensures
        r == pattern_matches(m.pattern(), line@),
{
    m.regex.is_match(line)
}

/// Relies on `regex::Error`'s `Display`: a description of why compiling failed.
#[verifier::external_body]
fn regex_error_text(e: &regex::Error) -> String {
    e.to_string()
}

/// Relies on `str::to_lowercase`, whose result depends on the characters of `s` alone.
#[verifier::external_body]
pub(crate) fn lowercase(s: &str) -> (r: String)
    ensures
        r@ == lowercase_of(s@),
{
    s.to_lowercase()
}

impl LineMatcher {
    /// Compiles `pattern`; the error is the regex crate's description.
    pub fn compile(pattern: &str) -> (r: Result<LineMatcher, String>)
        ensures
            r is Ok <==> pattern_compiles(pattern@),
            r matches Ok(m) ==> m.pattern() == pattern@,
    {
        match compile_regex(pattern) {
            Ok(m) => Ok(m),
            Err(e) => Err(regex_error_text(&e)),
        }
    }

    /// Whether the pattern matches somewhere in `line`.
    pub fn is_match(&self, line: &str) -> (r: bool)
        ensures
            r == pattern_matches(self.pattern(), line@),
    {
        regex_hits(self, line)
    }
}

} // verus!
