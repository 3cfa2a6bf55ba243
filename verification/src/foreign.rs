//! What this library takes on trust from code that is not verified here:
//! one function of the standard library, and the compiling and matching of
//! regular expressions by the `regex` crate.

use vstd::prelude::*;
use crate::lexicon::{continues_name, continues_number, starts_name, starts_number};
use crate::lexicon::{NAME_END, NAME_START, NUMBER_END, NUMBER_START};

verus! {

/// `String::push` appends one character to the string and leaves the rest
/// of it as it was.
pub assume_specification[ std::string::String::push ](s: &mut std::string::String, ch: char)
    ensures
        final(s)@ == old(s)@.push(ch),
;

/// A compiled regular expression of the `regex` crate. Nothing of its inside
/// is visible here.
#[verifier::external_type_specification]
#[verifier::external_body]
pub struct ExRegex(regex::Regex);

/// The error with which the `regex` crate refuses a pattern.
#[verifier::external_type_specification]
#[verifier::external_body]
pub struct ExRegexError(regex::Error);

/// The pattern that a compiled regular expression was made from, which it
/// keeps and gives back as `Regex::as_str`.
pub uninterp spec fn regex_pattern(re: regex::Regex) -> Seq<char>;

/// Whether a compiled regular expression is as `Regex::new` makes it: built
/// from its pattern with every option at its default. One that a
/// `RegexBuilder` built with an option changed is not.
pub uninterp spec fn regex_made_by_new(re: regex::Regex) -> bool;

/// Whether the `regex` crate accepts `pattern` as a regular expression.
pub uninterp spec fn regex_accepts(pattern: Seq<char>) -> bool;

/// Whether the regular expression that `Regex::new` makes from `pattern` has
/// a match anywhere in `haystack`.
pub uninterp spec fn regex_has_match(pattern: Seq<char>, haystack: Seq<char>) -> bool;

/// What the syntax of bracketed character classes fixes for a haystack of
/// one character and a regular expression as `Regex::new` makes it: `[..]`
/// matches the characters and ranges listed in it, `[^..]` matches every
/// other character. It is stated for the four classes of the scanner only.
pub open spec fn one_char_class_rule(pattern: Seq<char>, c: char, found: bool) -> bool {
    &&& pattern == NAME_START@ ==> found == starts_name(c)
    &&& pattern == NAME_END@ ==> found == !continues_name(c)
    &&& pattern == NUMBER_START@ ==> found == starts_number(c)
    &&& pattern == NUMBER_END@ ==> found == !continues_number(c)
}

/// Whether `pattern` is one of the four classes of the scanner, each of
/// which is one bracketed class of a few characters and ranges.
pub open spec fn is_scanner_class(pattern: Seq<char>) -> bool {
    pattern == NAME_START@ || pattern == NAME_END@ || pattern == NUMBER_START@ || pattern
        == NUMBER_END@
}

/// `Regex::new` compiles a pattern or refuses it. Whether it accepts
/// depends on the pattern alone. Of the patterns it accepts, only this is
/// claimed: the four classes of the scanner are among them, as the syntax of
/// bracketed classes has it. A regular expression that it returns was made
/// from the pattern given, with every option at its default.
pub assume_specification[ regex::Regex::new ](re: &str) -> (r: Result<regex::Regex, regex::Error>)
    ensures
        r is Ok == regex_accepts(re@),
        is_scanner_class(re@) ==> r is Ok,
        r matches Ok(compiled) ==> regex_pattern(compiled) == re@ && regex_made_by_new(compiled),
;

/// `Regex::is_match` tells whether the regular expression has a match
/// anywhere in the haystack. Of a regular expression as `Regex::new` makes
/// it, the answer depends on the pattern and the haystack alone, and for a
/// haystack of one character and one of the scanner's four classes it is
/// membership in that class. Of a regular expression built with other
/// options nothing is claimed.
pub assume_specification[ regex::Regex::is_match ](re: &regex::Regex, haystack: &str) -> (found: bool)
    ensures
        regex_made_by_new(*re) ==> found == regex_has_match(regex_pattern(*re), haystack@),
        regex_made_by_new(*re) && haystack@.len() == 1 ==> one_char_class_rule(
            regex_pattern(*re),
            haystack@[0],
            found,
        ),
;

} // verus!
