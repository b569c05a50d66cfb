//! Regular expressions, as the `regex` crate compiles and matches them.
//!
//! What a regex matches rests on its source and on the options it was built with.
//! [`CompiledRegex`] and [`CompiledSet`] hold only what [`build`] and [`build_set`]
//! made, which set no option but a size limit, so that the source alone decides.

use vstd::prelude::*;

use crate::text;

verus! {

#[verifier::external_type_specification]
#[verifier::external_body]
pub struct ExRegex(regex::Regex);

#[verifier::external_type_specification]
#[verifier::external_body]
pub struct ExRegexSet(regex::RegexSet);

/// The source text a regex was compiled from, as `Regex::as_str` gives it.
pub uninterp spec fn regex_source(re: CompiledRegex) -> Seq<char>;

/// The source texts a regex set was compiled from, in order, as
/// `RegexSet::patterns` gives them.
pub uninterp spec fn set_sources(set: CompiledSet) -> Seq<Seq<char>>;

/// What `RegexBuilder::build` says of the source `src` under a size limit, on
/// a machine with pointers of `word_bits` bits: `None` where it compiles, or
/// the text of its error.
pub uninterp spec fn build_error(
    src: Seq<char>,
    size_limit: nat,
    word_bits: nat,
) -> Option<Seq<char>>;

/// Whether `RegexSetBuilder::build` compiles the sources under a size limit,
/// on a machine with pointers of `word_bits` bits.
pub uninterp spec fn set_builds(srcs: Seq<Seq<char>>, size_limit: nat, word_bits: nat) -> bool;

/// A regex that [`build`] made.
#[derive(Debug)]
pub struct CompiledRegex {
    re: regex::Regex,
}

impl View for CompiledRegex {
    type V = Seq<char>;

    /// The source text.
    open spec fn view(&self) -> Seq<char> {
        regex_source(*self)
    }
}

/// A regex set that [`build_set`] made.
#[derive(Debug)]
pub struct CompiledSet {
    set: regex::RegexSet,
}

impl View for CompiledSet {
    type V = Seq<Seq<char>>;

    /// The source texts, in order.
    open spec fn view(&self) -> Seq<Seq<char>> {
        set_sources(*self)
    }
}

/// Whether a regex compiled from `src`, with no option but a size limit, matches
/// somewhere in `text`.
pub uninterp spec fn regex_matches(src: Seq<char>, text: Seq<char>) -> bool;

/// `RegexBuilder::new(src).size_limit(limit).build()`, the error as its text.
#[verifier::external_body]
pub(crate) fn build(src: &str, size_limit: usize) -> (r: Result<CompiledRegex, String>)
    ensures
        match r {
            Ok(re) => {
                &&& build_error(src@, size_limit as nat, usize::BITS as nat) is None
                &&& regex_source(re) == src@
            },
            Err(e) => build_error(src@, size_limit as nat, usize::BITS as nat) == Some(e@),
        },
{
    match regex::RegexBuilder::new(src).size_limit(size_limit).build() {
        Ok(re) => Ok(CompiledRegex { re }),
        Err(e) => Err(e.to_string()),
    }
}

/// `Regex::as_str`: the source text.
#[verifier::external_body]
pub(crate) fn source(regex: &CompiledRegex) -> (r: String)
    ensures
        r@ == regex_source(*regex),
{
    regex.re.as_str().to_string()
}

/// `Regex::is_match`: whether the regex matches somewhere in the text.
#[verifier::external_body]
pub(crate) fn is_match(regex: &CompiledRegex, text: &str) -> (r: bool)
    ensures
        r == regex_matches(regex_source(*regex), text@),
{
    regex.re.is_match(text)
}

/// `RegexSetBuilder::new(srcs).size_limit(limit).build()`, without its error.
#[verifier::external_body]
pub(crate) fn build_set(srcs: &Vec<String>, size_limit: usize) -> (r: Option<CompiledSet>)
    ensures
        match r {
            Some(set) => {
                &&& set_builds(text::texts(srcs@), size_limit as nat, usize::BITS as nat)
                &&& set_sources(set) == text::texts(srcs@)
            },
            None => !set_builds(text::texts(srcs@), size_limit as nat, usize::BITS as nat),
        },
{
    match regex::RegexSetBuilder::new(srcs).size_limit(size_limit).build() {
        Ok(set) => Some(CompiledSet { set }),
        Err(_) => None,
    }
}

/// The indices of the sources that match somewhere in `text`, in order.
pub open spec fn matching(srcs: Seq<Seq<char>>, text: Seq<char>) -> Seq<int> {
    Seq::new(srcs.len(), |i: int| i).filter(|i: int| regex_matches(srcs[i], text))
}

/// `RegexSet::matches`: the indices of the set's sources that match somewhere
/// in the text, in ascending order.
#[verifier::external_body]
pub(crate) fn set_matches(regexes: &CompiledSet, text: &str) -> (r: Vec<usize>)
    ensures
        r@.map_values(|i: usize| i as int) == matching(set_sources(*regexes), text@),
{
    regexes.set.matches(text).into_iter().collect()
}

} // verus!
