//! Glob patterns (the `glob` crate) over file paths.
use vstd::prelude::*;

verus! {

#[verifier::external_type_specification]
#[verifier::external_body]
pub struct ExPattern(glob::Pattern);

#[verifier::external_type_specification]
#[verifier::external_body]
pub struct ExPatternError(glob::PatternError);

/// Whether `glob::Pattern::new` accepts the pattern text.
pub uninterp spec fn glob_valid(pattern: Seq<char>) -> bool;

/// Whether the glob pattern with text `pattern` matches `path` under the
/// given rules (`glob::Pattern::matches_with` with those `MatchOptions`).
/// What counts as a path separator is fixed by the target the library is
/// built for: `/` everywhere, and `\` as well on Windows (glob's
/// `is_separator`), so the answer is the same for the same arguments only
/// within one target.
pub uninterp spec fn glob_matches(
    pattern: Seq<char>,
    path: Seq<char>,
    case_sensitive: bool,
    literal_separator: bool,
    literal_leading_dot: bool,
) -> bool;

/// How a path is matched against a glob pattern.
pub struct MatchRules {
    /// Letters must match in case.
    pub case_sensitive: bool,
    /// `*`, `?` and `[...]` do not match a path separator (`/`, and on
    /// Windows also `\`).
    pub literal_separator: bool,
    /// A leading `.` of a path component must be matched literally.
    pub literal_leading_dot: bool,
}

/// A compiled glob pattern together with the text it was compiled from.
pub struct GlobPattern {
    text: String,
    compiled: glob::Pattern,
}

impl GlobPattern {
    /// The text the pattern was compiled from.
    pub closed spec fn text(&self) -> Seq<char> {
        self.text@
    }
}

/// `glob::Pattern::new`: compiles `pattern`. Claimed: it succeeds exactly
/// when `glob_valid(pattern)`, and the result keeps the text it came from.
#[verifier::external_body]
pub(crate) fn compile_glob(pattern: &str) -> (r: Result<GlobPattern, glob::PatternError>)
    ensures
        r is Ok <==> glob_valid(pattern@),
        r matches Ok(g) ==> g.text() == pattern@,
{
    match glob::Pattern::new(pattern) {
        Ok(compiled) => Ok(GlobPattern { text: pattern.to_string(), compiled }),
        Err(e) => Err(e),
    }
}

/// `glob::Pattern::matches_with`: whether the compiled pattern matches
/// `path` under `rules`. Claimed: the answer is `glob_matches` of the
/// pattern's text, `path` and the rules.
#[verifier::external_body]
pub(crate) fn glob_match(pattern: &GlobPattern, path: &str, rules: &MatchRules) -> (r: bool)
    ensures
        r == glob_matches(pattern.text(), path@, rules.case_sensitive, rules.literal_separator, rules.literal_leading_dot),
{
    let options = glob::MatchOptions {
        case_sensitive: rules.case_sensitive,
        require_literal_separator: rules.literal_separator,
        require_literal_leading_dot: rules.literal_leading_dot,
    };
    pattern.compiled.matches_with(path, options)
}

} // verus!
