//! Regular-expression filters, compiled by the `regex` crate.
use vstd::prelude::*;
use regex::RegexSet;
use regex::Error as RegexSyntaxError;

verus! {

#[verifier::external_type_specification]
#[verifier::external_body]
pub struct ExRegexSet(RegexSet);

#[verifier::external_type_specification]
#[verifier::external_body]
pub struct ExRegexError(RegexSyntaxError);

/// `RegexSet`'s derived `Clone`; nothing is claimed of the copy.
pub assume_specification[ <RegexSet as std::clone::Clone>::clone ](set: &RegexSet) -> RegexSet;

/// `regex::Error`'s derived `Clone`; nothing is claimed of the copy.
pub assume_specification[ <RegexSyntaxError as std::clone::Clone>::clone ](e: &RegexSyntaxError) -> RegexSyntaxError;

/// Whether `RegexSet::new` accepts these sources.
pub uninterp spec fn regex_set_compiles(sources: Seq<Seq<char>>) -> bool;

/// Whether one of the expressions compiled from `sources` matches somewhere in `text`.
pub uninterp spec fn regex_set_matches(sources: Seq<Seq<char>>, text: Seq<char>) -> bool;

/// The views of a list of strings.
pub open spec fn strs(v: Seq<String>) -> Seq<Seq<char>> {
    v.map_values(|s: String| s@)
}

/// A set of regular expressions compiled together, kept with its sources.
///
/// The fields are private and [`RegexFilter::compile`] is the only way to
/// build one, so `set` is always what `RegexSet::new` made of `sources`.
#[derive(Clone, Debug)]
pub struct RegexFilter {
    set: RegexSet,
    sources: Vec<String>,
}

impl RegexFilter {
    /// The expressions this set was compiled from.
    pub closed spec fn sources(&self) -> Seq<Seq<char>> {
        strs(self.sources@)
    }

    /// Relies on `RegexSet::new`: compiles all sources into one set; whether
    /// it succeeds depends on the sources alone.
    #[verifier::external_body]
    pub fn compile(sources: Vec<String>) -> (r: Result<RegexFilter, RegexSyntaxError>)
        ensures
            r is Ok <==> regex_set_compiles(strs(sources@)),
            r matches Ok(f) ==> f.sources() == strs(sources@),
    {
        match RegexSet::new(&sources) {
            Ok(set) => Ok(RegexFilter { set, sources }),
            Err(e) => Err(e),
        }
    }

    /// Relies on `RegexSet::is_match`: whether any expression of the set
    /// matches somewhere in `text`.
    #[verifier::external_body]
    pub fn is_match(&self, text: &str) -> (r: bool)
        ensures
            r == regex_set_matches(self.sources(), text@),
    {
        self.set.is_match(text)
    }
}

} // verus!
