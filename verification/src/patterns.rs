//! Regular expressions over signal names.

use vstd::prelude::*;
use regex::Regex;

verus! {

/// Whether `regex::Regex::new` accepts a pattern.
pub uninterp spec fn regex_valid(pattern: Seq<char>) -> bool;

/// Whether the regular expression compiled from `pattern` matches somewhere in `text`.
pub uninterp spec fn regex_matches(pattern: Seq<char>, text: Seq<char>) -> bool;

/// Calls `regex::Regex::new`: whether it compiles the pattern is named
/// `regex_valid` of the pattern.
#[verifier::external_body]
pub(crate) fn regex_compiles(pattern: &str) -> (r: bool)
    ensures
        r == regex_valid(pattern@),
{
    Regex::new(pattern).is_ok()
}

/// Compiles `pattern` with `regex::Regex::new` and calls `Regex::is_match` on
/// `text`: the result is named `regex_matches` of the pattern and the text.
#[verifier::external_body]
pub(crate) fn regex_is_match(pattern: &str, text: &str) -> (r: bool)
    requires
        regex_valid(pattern@),
    ensures
        r == regex_matches(pattern@, text@),
{
    Regex::new(pattern).unwrap().is_match(text)
}

pub open spec fn patterns_view(v: Seq<String>) -> Seq<Seq<char>> {
    v.map_values(|s: String| s@)
}

/// A list of regular expressions, each of which compiles.
#[derive(Debug)]
pub struct RegexList {
    patterns: Vec<String>,
}

impl RegexList {
    #[verifier::type_invariant]
    spec fn all_valid(&self) -> bool {
        forall|k: int| 0 <= k < self.patterns@.len() ==> regex_valid(#[trigger] self.patterns@[k]@)
    }

    /// The patterns of the list.
    pub closed spec fn view_patterns(&self) -> Seq<Seq<char>> {
        patterns_view(self.patterns@)
    }

    /// The list of the patterns, or `None` where one does not compile.
    pub fn new(patterns: Vec<String>) -> (r: Option<RegexList>)
        ensures
            r.is_some() == (forall|k: int| 0 <= k < patterns@.len() ==> regex_valid(#[trigger] patterns_view(patterns@)[k])),
            r.is_some() ==> r.unwrap().view_patterns() == patterns_view(patterns@),
    {
        let n = patterns.len();
        for i in 0..n
            invariant
                n == patterns@.len(),
                forall|k: int| 0 <= k < i ==> regex_valid(#[trigger] patterns@[k]@),
        {
            if !regex_compiles(patterns[i].as_str()) {
                assert(!regex_valid(patterns_view(patterns@)[i as int]));
                return None;
            }
        }
        assert forall|k: int| 0 <= k < patterns@.len() implies regex_valid(#[trigger] patterns_view(patterns@)[k]) by {
            assert(patterns_view(patterns@)[k] == patterns@[k]@);
        }
        Some(RegexList { patterns })
    }

    /// The number of patterns.
    pub fn len(&self) -> (r: usize)
        ensures
            r == self.view_patterns().len(),
    {
        self.patterns.len()
    }

    /// The pattern at position `k`.
    pub fn pattern(&self, k: usize) -> (r: &String)
        requires
            k < self.view_patterns().len(),
        ensures
            r@ == self.view_patterns()[k as int],
    {
        &self.patterns[k]
    }

    /// Whether some pattern matches somewhere in `text`.
    pub fn any_match(&self, text: &str) -> (r: bool)
        ensures
            r == exists|k: int| 0 <= k < self.view_patterns().len() && regex_matches(#[trigger] self.view_patterns()[k], text@),
    {
        proof {
            use_type_invariant(self);
        }
        let n = self.patterns.len();
        for i in 0..n
            invariant
                n == self.patterns@.len(),
                forall|k: int| 0 <= k < self.patterns@.len() ==> regex_valid(#[trigger] self.patterns@[k]@),
                forall|k: int| 0 <= k < i ==> !regex_matches(#[trigger] self.view_patterns()[k], text@),
        {
            assert(self.view_patterns()[i as int] == self.patterns@[i as int]@);
            if regex_is_match(self.patterns[i].as_str(), text) {
                return true;
            }
        }
        false
    }
}

} // verus!
