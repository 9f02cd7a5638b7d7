//! Regular expressions, through the `regex` crate.

use vstd::prelude::*;

verus! {

#[verifier::external_type_specification]
#[verifier::external_body]
pub struct ExRegex(regex::Regex);

#[verifier::external_type_specification]
#[verifier::external_body]
pub struct ExRegexError(regex::Error);

/// Whether `pattern` is accepted by `regex::Regex::new` (valid syntax and
/// within the default size limit).
pub uninterp spec fn regex_compiles(pattern: Seq<char>) -> bool;

/// Whether the regular expression `pattern` matches somewhere in `haystack`.
pub uninterp spec fn regex_is_match(pattern: Seq<char>, haystack: Seq<char>) -> bool;

/// For each successive non-overlapping match of `pattern` in `haystack`, the
/// text of its first capture group, or `None` when that group took no part.
pub uninterp spec fn regex_group1_captures(pattern: Seq<char>, haystack: Seq<char>) -> Seq<
    Option<Seq<char>>,
>;

/// A compiled regular expression together with the pattern it was compiled
/// from. Only `compile_pattern` builds one, so `re` is always the expression
/// compiled from `source`.
pub struct CompiledPattern {
    source: String,
    re: regex::Regex,
}

impl View for CompiledPattern {
    type V = Seq<char>;

    /// The pattern the expression was compiled from.
    closed spec fn view(&self) -> Seq<char> {
        self.source@
    }
}

/// Compiles a pattern (`regex::Regex::new`). Trusted: whether it succeeds
/// depends on the pattern alone (named `regex_compiles`), and the result keeps
/// the pattern it was compiled from.
#[verifier::external_body]
pub(crate) fn compile_pattern(pattern: &str) -> (r: Result<CompiledPattern, regex::Error>)
    ensures
        r is Ok <==> regex_compiles(pattern@),
        r matches Ok(p) ==> p@ == pattern@,
{
    match regex::Regex::new(pattern) {
        Ok(re) => Ok(CompiledPattern { source: pattern.to_string(), re }),
        Err(e) => Err(e),
    }
}

/// Whether the expression matches somewhere in `haystack`
/// (`regex::Regex::is_match`). Trusted: the answer is named
/// `regex_is_match` of the source pattern and the haystack.
#[verifier::external_body]
pub(crate) fn pattern_is_match(p: &CompiledPattern, haystack: &str) -> (b: bool)
    ensures
        b == regex_is_match(p@, haystack@),
{
    p.re.is_match(haystack)
}

pub open spec fn optional_strings_view(v: Seq<Option<String>>) -> Seq<Option<Seq<char>>> {
    v.map_values(|o: Option<String>| match o {
        Some(s) => Some(s@),
        None => None,
    })
}

/// The first capture group of every match (`regex::Regex::captures_iter`, with
/// `Captures::get(1)` and `Match::as_str` taken for each match). Trusted: the
/// list is named `regex_group1_captures` of the source pattern and the haystack.
#[verifier::external_body]
pub(crate) fn group1_captures(p: &CompiledPattern, haystack: &str) -> (r: Vec<Option<String>>)
    ensures
        optional_strings_view(r@) == regex_group1_captures(p@, haystack@),
{
    let mut out = Vec::new();
    for caps in p.re.captures_iter(haystack) {
        let group = match caps.get(1) {
            Some(m) => Some(m.as_str().to_string()),
            None => None,
        };
        out.push(group);
    }
    out
}

} // verus!
