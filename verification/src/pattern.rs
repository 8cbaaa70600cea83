use vstd::prelude::*;

verus! {

/// Whether the regex crate compiles `pattern` (`regex::Regex::new`
/// succeeds: the pattern is valid and within the default size limit).
pub uninterp spec fn pattern_compiles(pattern: Seq<char>) -> bool;

/// Whether the regex compiled from `pattern` matches somewhere in `text`
/// (`regex::Regex::is_match`).
pub uninterp spec fn pattern_matches(pattern: Seq<char>, text: Seq<char>) -> bool;

/// The regex crate's compiled regex, carried through opaque.
#[verifier::external_type_specification]
#[verifier::external_body]
pub struct ExRegex(regex::Regex);

/// A compiled `patternProperties` pattern. Its view is the pattern text it
/// was compiled from; only `compile_pattern` makes one.
pub struct CompiledPattern {
    regex: regex::Regex,
    source: Ghost<Seq<char>>,
}

impl View for CompiledPattern {
    type V = Seq<char>;

    closed spec fn view(&self) -> Seq<char> {
        self.source@
    }
}

/// `regex::Regex::new`: the compiled regex where the pattern compiles.
/// Claimed: the result is present exactly when `pattern_compiles` holds of
/// the pattern, which depends on the pattern alone.
#[verifier::external_body]
fn compile_regex(pattern: &str) -> (r: Option<regex::Regex>)
    ensures
        r is Some == pattern_compiles(pattern@),
{
    regex::Regex::new(pattern).ok()
}

/// `regex::Regex::is_match`: whether the regex matches somewhere in `text`.
/// Claimed: the result is `pattern_matches` of the pattern the regex was
/// compiled from (the view of `p`) and of `text`.
#[verifier::external_body]
pub(crate) fn pattern_is_match(p: &CompiledPattern, text: &str) -> (r: bool)
    ensures
        r == pattern_matches(p@, text@),
{
    p.regex.is_match(text)
}

/// Compiles a pattern; nothing where the regex crate refuses it.
pub fn compile_pattern(pattern: &str) -> (r: Option<CompiledPattern>)
    ensures
        r is Some == pattern_compiles(pattern@),
        r matches Some(p) ==> p@ == pattern@,
{
    match compile_regex(pattern) {
        Some(regex) => Some(CompiledPattern { regex, source: Ghost(pattern@) }),
        None => None,
    }
}

} // verus!
