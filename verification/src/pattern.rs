//! Regular expressions, compiled and run by the `regex` crate.
//!
//! What a pattern matches is the `regex` crate's business and is only named
//! here (`regex_valid`, `regex_is_match`, ...): contracts elsewhere speak of
//! those names applied to the pattern text and the haystack.
use vstd::prelude::*;

verus! {

#[verifier::external_type_specification]
#[verifier::external_body]
pub struct ExRegex(regex::Regex);

/// Whether `regex::Regex::new` accepts the pattern.
pub uninterp spec fn regex_valid(pattern: Seq<char>) -> bool;

/// The `Display` text of the error `regex::Regex::new` reports for the pattern.
pub uninterp spec fn regex_error_text(pattern: Seq<char>) -> Seq<char>;

/// `regex::Regex::is_match` of the compiled pattern on the haystack.
pub uninterp spec fn regex_is_match(pattern: Seq<char>, haystack: Seq<char>) -> bool;

/// `regex::Regex::replace_all` with a literal-expanding replacement string.
pub uninterp spec fn regex_replace_all(
    pattern: Seq<char>,
    haystack: Seq<char>,
    replacement: Seq<char>,
) -> Seq<char>;

/// `regex::Regex::replace` (first match only).
pub uninterp spec fn regex_replace_first(
    pattern: Seq<char>,
    haystack: Seq<char>,
    replacement: Seq<char>,
) -> Seq<char>;

/// The texts of the successive non-overlapping matches (`regex::Regex::find_iter`).
pub uninterp spec fn regex_matches(pattern: Seq<char>, haystack: Seq<char>) -> Seq<Seq<char>>;

/// The texts between the matches (`regex::Regex::split`).
pub uninterp spec fn regex_gaps(pattern: Seq<char>, haystack: Seq<char>) -> Seq<Seq<char>>;

/// Capture group 1 of the first match (`regex::Regex::captures`), if any.
pub uninterp spec fn regex_group1(pattern: Seq<char>, haystack: Seq<char>) -> Option<Seq<char>>;

/// Gaps and matches laid end to end: `gaps[0] m[0] gaps[1] ... m[n-1] gaps[n]`.
pub open spec fn woven(gaps: Seq<Seq<char>>, matches: Seq<Seq<char>>) -> Seq<char>
    decreases matches.len(),
{
    if matches.len() == 0 {
        if gaps.len() > 0 {
            gaps[0]
        } else {
            Seq::<char>::empty()
        }
    } else {
        woven(gaps.drop_last(), matches.drop_last()) + matches.last() + gaps.last()
    }
}

/// A pattern together with the regex compiled from it.
///
/// The fields are private: a value exists only through `CompiledPattern::compile`,
/// so `re` is always the compilation of `source`.
pub struct CompiledPattern {
    source: String,
    re: regex::Regex,
}

impl CompiledPattern {
    /// The pattern text this regex was compiled from.
    pub closed spec fn source(&self) -> Seq<char> {
        self.source@
    }

    /// Compiles `pattern`; on failure, the error's text.
    pub fn compile(pattern: &str) -> (r: Result<CompiledPattern, String>)
        ensures
            r is Ok <==> regex_valid(pattern@),
            r matches Ok(p) ==> p.source() == pattern@,
            r matches Err(m) ==> m@ == regex_error_text(pattern@),
    {
        match regex_compile(pattern) {
            Ok(re) => Ok(CompiledPattern { source: pattern.to_owned(), re }),
            Err(m) => Err(m),
        }
    }

    /// Whether the regex matches somewhere in `haystack`.
    pub fn is_match(&self, haystack: &str) -> (b: bool)
        ensures
            b == regex_is_match(self.source(), haystack@),
    {
        pattern_is_match(self, haystack)
    }

    /// Every match replaced by `replacement`.
    pub fn replace_all(&self, haystack: &str, replacement: &str) -> (r: String)
        ensures
            r@ == regex_replace_all(self.source(), haystack@, replacement@),
    {
        pattern_replace_all(self, haystack, replacement)
    }

    /// The first match replaced by `replacement`.
    pub fn replace_first(&self, haystack: &str, replacement: &str) -> (r: String)
        ensures
            r@ == regex_replace_first(self.source(), haystack@, replacement@),
    {
        pattern_replace_first(self, haystack, replacement)
    }

    /// The texts of the successive matches.
    pub fn matches(&self, haystack: &str) -> (r: Vec<String>)
        ensures
            r@.map_values(|s: String| s@) == regex_matches(self.source(), haystack@),
    {
        pattern_matches(self, haystack)
    }

    /// The texts between the successive matches: one more than the matches, and
    /// with the matches between them they make up the haystack.
    pub fn gaps(&self, haystack: &str) -> (r: Vec<String>)
        ensures
            r@.map_values(|s: String| s@) == regex_gaps(self.source(), haystack@),
            regex_gaps(self.source(), haystack@).len() == regex_matches(self.source(), haystack@).len() + 1,
            woven(regex_gaps(self.source(), haystack@), regex_matches(self.source(), haystack@)) == haystack@,
    {
        pattern_gaps(self, haystack)
    }

    /// Capture group 1 of the first match.
    pub fn group1(&self, haystack: &str) -> (r: Option<String>)
        ensures
            match r {
                Some(s) => regex_group1(self.source(), haystack@) == Some(s@),
                None => regex_group1(self.source(), haystack@) is None,
            },
    {
        pattern_group1(self, haystack)
    }
}

/// `regex::Regex::new`; the error is converted to its `Display` text.
#[verifier::external_body]
fn regex_compile(pattern: &str) -> (r: Result<regex::Regex, String>)
    ensures
        r is Ok <==> regex_valid(pattern@),
        r matches Err(m) ==> m@ == regex_error_text(pattern@),
{
    regex::Regex::new(pattern).map_err(|e| e.to_string())
}

/// `regex::Regex::is_match`.
#[verifier::external_body]
fn pattern_is_match(p: &CompiledPattern, haystack: &str) -> (b: bool)
    ensures
        b == regex_is_match(p.source(), haystack@),
{
    p.re.is_match(haystack)
}

/// `regex::Regex::replace_all` with a string replacement (`$name` references expand
/// as the crate documents).
#[verifier::external_body]
fn pattern_replace_all(p: &CompiledPattern, haystack: &str, replacement: &str) -> (r: String)
    ensures
        r@ == regex_replace_all(p.source(), haystack@, replacement@),
{
    p.re.replace_all(haystack, replacement).to_string()
}

/// `regex::Regex::replace` with a string replacement.
#[verifier::external_body]
fn pattern_replace_first(p: &CompiledPattern, haystack: &str, replacement: &str) -> (r: String)
    ensures
        r@ == regex_replace_first(p.source(), haystack@, replacement@),
{
    p.re.replace(haystack, replacement).to_string()
}

/// `regex::Regex::find_iter`, each match converted to its text.
#[verifier::external_body]
fn pattern_matches(p: &CompiledPattern, haystack: &str) -> (r: Vec<String>)
    ensures
        r@.map_values(|s: String| s@) == regex_matches(p.source(), haystack@),
{
    p.re.find_iter(haystack).map(|m| m.as_str().to_string()).collect()
}

/// `regex::Regex::split`, each piece converted to a `String`. The pieces are the
/// spans between the matches that `find_iter` yields, plus the span after the last
/// one, so there is one more piece than matches, and pieces and matches in turn
/// make up the haystack.
#[verifier::external_body]
fn pattern_gaps(p: &CompiledPattern, haystack: &str) -> (r: Vec<String>)
    ensures
        r@.map_values(|s: String| s@) == regex_gaps(p.source(), haystack@),
        r@.len() == regex_matches(p.source(), haystack@).len() + 1,
        woven(r@.map_values(|s: String| s@), regex_matches(p.source(), haystack@)) == haystack@,
{
    p.re.split(haystack).map(|s| s.to_string()).collect()
}

/// `regex::Regex::captures`, group 1 converted to a `String`.
#[verifier::external_body]
fn pattern_group1(p: &CompiledPattern, haystack: &str) -> (r: Option<String>)
    ensures
        match r {
            Some(s) => regex_group1(p.source(), haystack@) == Some(s@),
            None => regex_group1(p.source(), haystack@) is None,
        },
{
    p.re.captures(haystack).and_then(|c| c.get(1)).map(|m| m.as_str().to_string())
}

} // verus!
