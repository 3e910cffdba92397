//! File name matching by a glob pattern or a regular expression.

use vstd::prelude::*;

verus! {

/// A pattern syntax error of the glob crate.
#[verifier::external_type_specification]
#[verifier::external_body]
pub struct ExPatternError(glob::PatternError);

/// A parse or compile error of the regex crate.
#[verifier::external_type_specification]
#[verifier::external_body]
pub struct ExRegexError(regex::Error);

/// Whether `glob::Pattern::new` accepts `pattern`.
pub uninterp spec fn glob_valid(pattern: Seq<char>) -> bool;

/// Whether the glob `pattern` matches all of `text` (`glob::Pattern::matches`).
pub uninterp spec fn glob_match(pattern: Seq<char>, text: Seq<char>) -> bool;

/// Whether `regex::Regex::new` accepts `pattern`.
pub uninterp spec fn regex_valid(pattern: Seq<char>) -> bool;

/// Whether the regular expression `pattern` matches somewhere in `text`
/// (`regex::Regex::is_match`).
pub uninterp spec fn regex_match(pattern: Seq<char>, text: Seq<char>) -> bool;

/// Compiles `pattern` with `glob::Pattern::new`; claimed: it succeeds
/// exactly when `glob_valid` holds of the pattern.
#[verifier::external_body]
fn glob_compile(pattern: &str) -> (r: Result<(), glob::PatternError>)
    ensures
        r is Ok <==> glob_valid(pattern@),
{
    match glob::Pattern::new(pattern) {
        Ok(_) => Ok(()),
        Err(e) => Err(e),
    }
}

/// Matches `text` against the glob `pattern` with
/// `glob::Pattern::matches`; claimed: the answer is `glob_match` of the
/// pattern and the text.
#[verifier::external_body]
fn glob_is_match(pattern: &str, text: &str) -> (r: bool)
    requires
        glob_valid(pattern@),
    ensures
        r == glob_match(pattern@, text@),
{
    match glob::Pattern::new(pattern) {
        Ok(p) => p.matches(text),
        Err(_) => false,
    }
}

/// Compiles `pattern` with `regex::Regex::new`; claimed: it succeeds
/// exactly when `regex_valid` holds of the pattern.
#[verifier::external_body]
fn regex_compile(pattern: &str) -> (r: Result<(), regex::Error>)
    ensures
        r is Ok <==> regex_valid(pattern@),
{
    match regex::Regex::new(pattern) {
        Ok(_) => Ok(()),
        Err(e) => Err(e),
    }
}

/// Searches `text` for the regular expression `pattern` with
/// `regex::Regex::is_match`; claimed: the answer is `regex_match` of the
/// pattern and the text.
#[verifier::external_body]
fn regex_is_match(pattern: &str, text: &str) -> (r: bool)
    requires
        regex_valid(pattern@),
    ensures
        r == regex_match(pattern@, text@),
{
    match regex::Regex::new(pattern) {
        Ok(re) => re.is_match(text),
        Err(_) => false,
    }
}

/// How a pattern is read.
#[derive(Debug, Clone, Copy, PartialEq, Eq)]
pub enum MatchKind {
    Glob,
    Regex,
}

/// Why a pattern cannot be used.
#[derive(Debug)]
pub enum MatcherError {
    InvalidGlob(glob::PatternError),
    InvalidRegex(regex::Error),
}

/// A compiled name pattern: a glob that must match the whole name, or a
/// regular expression that must match somewhere in it.
#[derive(Debug)]
pub struct Matcher {
    kind: MatchKind,
    pattern: String,
}

/// Whether `pattern` is accepted as a pattern of the given kind.
pub open spec fn pattern_valid(kind: MatchKind, pattern: Seq<char>) -> bool {
    match kind {
        MatchKind::Glob => glob_valid(pattern),
        MatchKind::Regex => regex_valid(pattern),
    }
}

impl Matcher {
    #[verifier::type_invariant]
    spec fn wf(self) -> bool {
        pattern_valid(self.kind, self.pattern@)
    }

    /// How the pattern is read.
    pub closed spec fn spec_kind(self) -> MatchKind {
        self.kind
    }

    /// The pattern's text.
    pub closed spec fn spec_pattern(self) -> Seq<char> {
        self.pattern@
    }

    /// Whether the pattern matches `text`.
    pub open spec fn matches_spec(self, text: Seq<char>) -> bool {
        match self.spec_kind() {
            MatchKind::Glob => glob_match(self.spec_pattern(), text),
            MatchKind::Regex => regex_match(self.spec_pattern(), text),
        }
    }

    /// A glob matcher for `pattern`.
    pub fn new_glob(pattern: &str) -> (r: Result<Matcher, MatcherError>)
        ensures
            r is Ok <==> glob_valid(pattern@),
            r matches Ok(m) ==> m.spec_kind() == MatchKind::Glob && m.spec_pattern() == pattern@,
            r matches Err(e) ==> e is InvalidGlob,
    {
        match glob_compile(pattern) {
            Ok(()) => Ok(Matcher { kind: MatchKind::Glob, pattern: String::from_str(pattern) }),
            Err(e) => Err(MatcherError::InvalidGlob(e)),
        }
    }

    /// A regular expression matcher for `pattern`.
    pub fn new_regex(pattern: &str) -> (r: Result<Matcher, MatcherError>)
        ensures
            r is Ok <==> regex_valid(pattern@),
            r matches Ok(m) ==> m.spec_kind() == MatchKind::Regex && m.spec_pattern() == pattern@,
            r matches Err(e) ==> e is InvalidRegex,
    {
        match regex_compile(pattern) {
            Ok(()) => Ok(Matcher { kind: MatchKind::Regex, pattern: String::from_str(pattern) }),
            Err(e) => Err(MatcherError::InvalidRegex(e)),
        }
    }

    /// Whether the pattern matches `text`.
    pub fn is_match(&self, text: &str) -> (r: bool)
        ensures
            r == self.matches_spec(text@),
    {
        proof {
            use_type_invariant(self);
        }
        match self.kind {
            MatchKind::Glob => glob_is_match(self.pattern.as_str(), text),
            MatchKind::Regex => regex_is_match(self.pattern.as_str(), text),
        }
    }
}

/// A matcher for `pattern`: a regular expression when `use_regex`, a glob
/// otherwise.
pub fn create_matcher(pattern: &str, use_regex: bool) -> (r: Result<Matcher, MatcherError>)
    ensures
        ({
            let kind = if use_regex {
                MatchKind::Regex
            } else {
                MatchKind::Glob
            };
            &&& r is Ok <==> pattern_valid(kind, pattern@)
            &&& r matches Ok(m) ==> m.spec_kind() == kind && m.spec_pattern() == pattern@
            &&& r matches Err(e) ==> (e is InvalidRegex <==> use_regex)
        }),
{
    if use_regex {
        Matcher::new_regex(pattern)
    } else {
        Matcher::new_glob(pattern)
    }
}

} // verus!
