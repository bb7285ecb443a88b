//! The outside matchers this library relies on: byte regular expressions and
//! multi-pattern plain replacement, and UTF-8 decoding.
use aho_corasick::AhoCorasick;
use regex::bytes::Regex;
use vstd::prelude::*;
use vstd::utf8::{decode_utf8, valid_utf8};

use crate::result::DictError;

verus! {

#[verifier::external_type_specification]
#[verifier::external_body]
pub struct ExRegex(regex::bytes::Regex);

#[verifier::external_type_specification]
#[verifier::external_body]
pub struct ExRegexError(regex::Error);

#[verifier::external_type_specification]
#[verifier::external_body]
pub struct ExAhoCorasick(aho_corasick::AhoCorasick);

#[verifier::external_type_specification]
#[verifier::external_body]
pub struct ExBuildError(aho_corasick::BuildError);

/// Whether the regular expression `pattern` compiles.
pub uninterp spec fn regex_compiles(pattern: Seq<char>) -> bool;

/// Whether the regular expression `pattern` matches somewhere in `hay`.
pub uninterp spec fn regex_finds(pattern: Seq<char>, hay: Seq<u8>) -> bool;

/// `hay` with every non-overlapping match of `pattern` replaced by the literal `rep`.
pub uninterp spec fn regex_rewrite(pattern: Seq<char>, hay: Seq<u8>, rep: Seq<u8>) -> Seq<u8>;

/// Whether an Aho-Corasick automaton can be built over `patterns`.
pub uninterp spec fn ac_builds(patterns: Seq<Seq<u8>>) -> bool;

/// `hay` with every match of `patterns[i]` replaced by `reps[i]`, in one
/// left-to-right pass.
pub uninterp spec fn ac_rewrite(patterns: Seq<Seq<u8>>, hay: Seq<u8>, reps: Seq<Seq<u8>>) -> Seq<u8>;

/// Relies on std::str::from_utf8: it succeeds exactly on valid UTF-8, and the
/// text is then the decoding of the bytes.
#[verifier::external_body]
pub(crate) fn utf8_string(b: &[u8]) -> (r: Option<String>)
    ensures
        r is Some <==> valid_utf8(b@),
        r matches Some(s) ==> s@ == decode_utf8(b@),
{
    match std::str::from_utf8(b) {
        Ok(s) => Some(s.to_string()),
        Err(_) => None,
    }
}

/// The views of a sequence of byte vectors.
pub open spec fn views(v: Seq<Vec<u8>>) -> Seq<Seq<u8>> {
    v.map_values(|x: Vec<u8>| x@)
}

/// A compiled byte regular expression, with the text it was compiled from.
pub struct Matcher {
    re: Regex,
    source: String,
}

impl Matcher {
    /// The text of the regular expression.
    pub closed spec fn source(&self) -> Seq<char> {
        self.source@
    }

    /// Compiles the regular expression `expr`. Fails with `Utf8` when `expr`
    /// is not UTF-8, with `My` when it does not compile.
    pub fn compile(expr: &[u8]) -> (r: Result<Matcher, DictError>)
        ensures
            r is Ok <==> valid_utf8(expr@) && regex_compiles(decode_utf8(expr@)),
            r matches Ok(m) ==> m.source() == decode_utf8(expr@),
            r matches Err(e) ==> (e is Utf8 <==> !valid_utf8(expr@)) && (e is My <==> valid_utf8(expr@)),
    {
        match utf8_string(expr) {
            None => Err(DictError::Utf8),
            Some(src) => match Matcher::new(src) {
                Ok(m) => Ok(m),
                Err(_) => Err(DictError::My(String::from_str("the regular expression does not compile"))),
            },
        }
    }

    /// Relies on regex::bytes::Regex::new: whether `source` compiles depends on
    /// `source` alone.
    #[verifier::external_body]
    pub(crate) fn new(source: String) -> (r: Result<Matcher, regex::Error>)
        ensures
            r is Ok <==> regex_compiles(source@),
            r matches Ok(m) ==> m.source() == source@,
    {
        match Regex::new(&source) {
            Ok(re) => Ok(Matcher { re, source }),
            Err(e) => Err(e),
        }
    }

    /// Relies on regex::bytes::Regex::is_match: whether the expression matches
    /// somewhere in `hay`.
    #[verifier::external_body]
    pub(crate) fn is_match(&self, hay: &[u8]) -> (r: bool)
        ensures
            r == regex_finds(self.source(), hay@),
    {
        self.re.is_match(hay)
    }

    /// Relies on regex::bytes::Regex::replace_all with regex::bytes::NoExpand:
    /// every match replaced by `rep` taken literally.
    #[verifier::external_body]
    pub(crate) fn replace_all(&self, hay: &[u8], rep: &[u8]) -> (r: Vec<u8>)
        ensures
            r@ == regex_rewrite(self.source(), hay@, rep@),
    {
        self.re.replace_all(hay, regex::bytes::NoExpand(rep)).into_owned()
    }
}

/// An Aho-Corasick automaton, with the patterns it was built over.
pub struct PlainSet {
    ac: AhoCorasick,
    patterns: Vec<Vec<u8>>,
}

impl PlainSet {
    /// The patterns, in order.
    pub closed spec fn patterns(&self) -> Seq<Seq<u8>> {
        views(self.patterns@)
    }

    /// Relies on aho_corasick::AhoCorasick::new with the default configuration:
    /// whether the automaton builds depends on the patterns alone.
    #[verifier::external_body]
    pub(crate) fn build(patterns: Vec<Vec<u8>>) -> (r: Result<PlainSet, aho_corasick::BuildError>)
        ensures
            r is Ok <==> ac_builds(views(patterns@)),
            r matches Ok(s) ==> s.patterns() == views(patterns@),
    {
        match AhoCorasick::new(&patterns) {
            Ok(ac) => Ok(PlainSet { ac, patterns }),
            Err(e) => Err(e),
        }
    }

    /// Relies on aho_corasick::AhoCorasick::replace_all_bytes: each match of
    /// pattern `i` replaced by `reps[i]`. It panics unless there is one
    /// replacement per pattern.
    #[verifier::external_body]
    pub(crate) fn replace_all(&self, hay: &[u8], reps: &Vec<Vec<u8>>) -> (r: Vec<u8>)
        requires
            reps@.len() == self.patterns().len(),
        ensures
            r@ == ac_rewrite(self.patterns(), hay@, views(reps@)),
    {
        self.ac.replace_all_bytes(hay, reps)
    }
}

} // verus!
