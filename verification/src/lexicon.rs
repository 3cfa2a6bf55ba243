//! The character classes on which the scanner decides where a name or a
//! number starts and ends, held as compiled regular expressions.

use vstd::prelude::*;
use regex::Regex;
use crate::foreign::{regex_made_by_new, regex_pattern};

verus! {

/// The class of characters that start a name.
pub const NAME_START: &'static str = "[A-Za-z_]";

/// The class of characters that end a name.
pub const NAME_END: &'static str = "[^A-Za-z1-9_]";

/// The class of characters that start a number.
pub const NUMBER_START: &'static str = "[1-9]";

/// The class of characters that end a number.
pub const NUMBER_END: &'static str = "[^1-9]";

/// An ASCII letter.
pub open spec fn is_letter(c: char) -> bool {
    ('A' <= c && c <= 'Z') || ('a' <= c && c <= 'z')
}

/// A digit other than zero. Zero is no digit of this language.
pub open spec fn is_digit(c: char) -> bool {
    '1' <= c && c <= '9'
}

/// Whether a name may start with `c`.
pub open spec fn starts_name(c: char) -> bool {
    is_letter(c) || c == '_'
}

/// Whether `c` may stand inside a name.
pub open spec fn continues_name(c: char) -> bool {
    is_letter(c) || is_digit(c) || c == '_'
}

/// Whether a number may start with `c`.
pub open spec fn starts_number(c: char) -> bool {
    is_digit(c)
}

/// Whether `c` may stand inside a number.
pub open spec fn continues_number(c: char) -> bool {
    is_digit(c)
}

/// Whether `re` is the class written as `pattern`, compiled as `Regex::new`
/// compiles it.
pub open spec fn is_class(re: Regex, pattern: Seq<char>) -> bool {
    regex_pattern(re) == pattern && regex_made_by_new(re)
}

/// One of the four character classes.
#[derive(Clone, Copy, Debug, PartialEq, Eq, Structural)]
pub enum CharClass {
    NameStart,
    NameEnd,
    NumberStart,
    NumberEnd,
}

/// The four character classes, compiled.
pub struct Lexicon {
    name_start: Regex,
    name_end: Regex,
    number_start: Regex,
    number_end: Regex,
}

impl Lexicon {
    #[verifier::type_invariant]
    spec fn made_from_its_patterns(self) -> bool {
        &&& is_class(self.name_start, NAME_START@)
        &&& is_class(self.name_end, NAME_END@)
        &&& is_class(self.number_start, NUMBER_START@)
        &&& is_class(self.number_end, NUMBER_END@)
    }

    /// Compiles the four classes. The regular expression engine accepts
    /// each of them, so there is always a lexicon.
    pub fn new() -> (r: Result<Lexicon, CharClass>)
        ensures
            r is Ok,
    {
        Lexicon::from_compiled(
            Regex::new(NAME_START),
            Regex::new(NAME_END),
            Regex::new(NUMBER_START),
            Regex::new(NUMBER_END),
        )
    }

    /// Puts the four compiled classes together: a lexicon if every pattern
    /// was accepted, else the first class whose pattern was refused.
    pub fn from_compiled(
        name_start: Result<Regex, regex::Error>,
        name_end: Result<Regex, regex::Error>,
        number_start: Result<Regex, regex::Error>,
        number_end: Result<Regex, regex::Error>,
    ) -> (r: Result<Lexicon, CharClass>)
        requires
            name_start matches Ok(re) ==> is_class(re, NAME_START@),
            name_end matches Ok(re) ==> is_class(re, NAME_END@),
            number_start matches Ok(re) ==> is_class(re, NUMBER_START@),
            number_end matches Ok(re) ==> is_class(re, NUMBER_END@),
        ensures
            r is Ok <==> name_start is Ok && name_end is Ok && number_start is Ok
                && number_end is Ok,
            r matches Err(class) ==> class == (if name_start is Err {
                CharClass::NameStart
            } else if name_end is Err {
                CharClass::NameEnd
            } else if number_start is Err {
                CharClass::NumberStart
            } else {
                CharClass::NumberEnd
            }),
    {
        let name_start = match name_start {
            Ok(re) => re,
            Err(_) => { return Err(CharClass::NameStart); },
        };
        let name_end = match name_end {
            Ok(re) => re,
            Err(_) => { return Err(CharClass::NameEnd); },
        };
        let number_start = match number_start {
            Ok(re) => re,
            Err(_) => { return Err(CharClass::NumberStart); },
        };
        let number_end = match number_end {
            Ok(re) => re,
            Err(_) => { return Err(CharClass::NumberEnd); },
        };
        Ok(Lexicon { name_start, name_end, number_start, number_end })
    }

    /// Whether a name may start with `c`.
    pub fn is_name_start(&self, c: char) -> (b: bool)
        ensures
            b == starts_name(c),
    {
        proof {
            use_type_invariant(self);
        }
        let mut one = String::new();
        one.push(c);
        self.name_start.is_match(one.as_str())
    }

    /// Whether `c` ends a name that stands before it.
    pub fn is_name_end(&self, c: char) -> (b: bool)
        ensures
            b == !continues_name(c),
    {
        proof {
            use_type_invariant(self);
        }
        let mut one = String::new();
        one.push(c);
        self.name_end.is_match(one.as_str())
    }

    /// Whether a number may start with `c`.
    pub fn is_number_start(&self, c: char) -> (b: bool)
        ensures
            b == starts_number(c),
    {
        proof {
            use_type_invariant(self);
        }
        let mut one = String::new();
        one.push(c);
        self.number_start.is_match(one.as_str())
    }

    /// Whether `c` ends a number that stands before it.
    pub fn is_number_end(&self, c: char) -> (b: bool)
        ensures
            b == !continues_number(c),
    {
        proof {
            use_type_invariant(self);
        }
        let mut one = String::new();
        one.push(c);
        self.number_end.is_match(one.as_str())
    }
}

} // verus!
