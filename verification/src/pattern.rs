//! Compiled route patterns, backed by the `regex` crate.
use vstd::prelude::*;

verus! {

#[verifier::external_type_specification]
#[verifier::external_body]
pub struct ExRegex(regex::Regex);

/// Whether `regex::RegexBuilder::new(pattern).build()` succeeds on this pattern text.
pub uninterp spec fn regex_builds(pattern: Seq<char>) -> bool;

/// What `regex::Regex::is_match` answers, for a regex built from `pattern`, on `text`.
pub uninterp spec fn regex_is_match(pattern: Seq<char>, text: Seq<char>) -> bool;

/// What `regex::Regex::captures_iter` yields, for a regex built from `pattern`, on `text`:
/// one entry per successive non-overlapping match, holding, for each of `names` in order,
/// the text of the capture group of that name (`Captures::name`), or `None` when that group
/// did not take part in the match or does not exist.
pub uninterp spec fn regex_named_captures(
    pattern: Seq<char>,
    text: Seq<char>,
    names: Seq<Seq<char>>,
) -> Seq<Seq<Option<Seq<char>>>>;

/// A regular expression together with the text it was built from.
///
/// The fields are private and the only constructor is [`CompiledPattern::compile`], so the
/// regex held is always the one built from `source`.
pub struct CompiledPattern {
    source: String,
    regex: regex::Regex,
}

impl View for CompiledPattern {
    type V = Seq<char>;

    open spec fn view(&self) -> Seq<char> {
        self.source_text()
    }
}

impl CompiledPattern {
    /// The text the regex was built from.
    pub closed spec fn source_text(&self) -> Seq<char> {
        self.source@
    }

    /// Builds a regex from `pattern` with the default options.
    ///
    /// Trusted: calls `regex::RegexBuilder::new(..).build()`. Claims only that it succeeds
    /// exactly when `regex_builds` holds of the text (what the outside crate decides), and
    /// that the result remembers the text it came from.
    #[verifier::external_body]
    pub fn compile(pattern: &String) -> (r: Option<CompiledPattern>)
        ensures
            r is Some <==> regex_builds(pattern@),
            r matches Some(c) ==> c@ == pattern@,
    {
        match regex::RegexBuilder::new(pattern.as_str()).build() {
            Ok(regex) => Some(CompiledPattern { source: pattern.clone(), regex }),
            Err(_) => None,
        }
    }

    /// Whether the regex matches somewhere in `text`.
    ///
    /// Trusted: calls `regex::Regex::is_match`; its answer is named `regex_is_match` of the
    /// pattern text and `text`.
    #[verifier::external_body]
    pub fn is_match(&self, text: &str) -> (b: bool)
        ensures
            b == regex_is_match(self@, text@),
    {
        self.regex.is_match(text)
    }

    /// For each successive match of the regex in `text`, the captured text of each of
    /// `names`.
    ///
    /// Trusted: calls `regex::Regex::captures_iter` and `regex::Captures::name`, converting
    /// each found group to an owned string; the result is named `regex_named_captures`, and
    /// each match holds one entry per name, as the inner `map` over `names` gives. As the
    /// crate documents, `captures_iter` yields every successive match, so it yields at least
    /// one exactly when `is_match` holds.
    #[verifier::external_body]
    pub fn named_captures(&self, text: &str, names: &Vec<String>) -> (r: Vec<Vec<Option<String>>>)
        ensures
            r.deep_view() == regex_named_captures(self@, text@, names.deep_view()),
            (r.len() > 0) == regex_is_match(self@, text@),
            forall|i: int| 0 <= i < r.len() ==> (#[trigger] r@[i]).len() == names.len(),
    {
        self.regex.captures_iter(text).map(
            |c| names.iter().map(|n| c.name(n.as_str()).map(|m| m.as_str().to_string())).collect(),
        ).collect()
    }
}

} // verus!
