//! Unary code-point predicates, as data.
//!
//! The engine's predicate leaf tests the first code point of the remaining
//! text against one of these classes.
use vstd::prelude::*;

verus! {

use vstd::utf8::decode_first_scalar;
use vstd::utf8::length_of_first_scalar;
use vstd::utf8::valid_first_scalar;

/// Truth of `char::is_whitespace`, which depends on the code point alone.
pub uninterp spec fn char_whitespace(c: char) -> bool;

/// Truth of `char::is_alphabetic`, which depends on the code point alone.
pub uninterp spec fn char_alphabetic(c: char) -> bool;

/// Relies on `char::is_whitespace`: true exactly for code points with the
/// Unicode `White_Space` property, a function of the code point alone.
pub assume_specification[ char::is_whitespace ](c: char) -> (r: bool)
    ensures
        r == char_whitespace(c),
;

/// Relies on `char::is_alphabetic`: true exactly for code points in the
/// Unicode `Alphabetic` category, a function of the code point alone.
pub assume_specification[ char::is_alphabetic ](c: char) -> (r: bool)
    ensures
        r == char_alphabetic(c),
;

/// A predicate on a single code point.
#[derive(Clone, Copy, Debug)]
pub enum CharClass {
    /// The code point has the Unicode `White_Space` property.
    Whitespace,
    /// The code point is in the Unicode `Alphabetic` category.
    Alphabetic,
    /// The code point lies in the inclusive range.
    InRange(char, char),
    /// The code point differs from the given one.
    Ne(char),
}

impl CharClass {
    /// What the class means, point by point.
    pub open spec fn spec_holds(&self, c: char) -> bool {
        match *self {
            CharClass::Whitespace => char_whitespace(c),
            CharClass::Alphabetic => char_alphabetic(c),
            CharClass::InRange(lo, hi) => lo <= c && c <= hi,
            CharClass::Ne(d) => c != d,
        }
    }

    /// Matching a class: the first code point of the text, if it satisfies
    /// the class; its width in bytes is consumed.
    pub open spec fn spec_scan_class(&self, text: Seq<u8>) -> Option<nat> {
        if text.len() > 0 && valid_first_scalar(text) && self.spec_holds(
            decode_first_scalar(text) as char,
        ) {
            Some(length_of_first_scalar(text) as nat)
        } else {
            None
        }
    }

    /// Whether the code point satisfies the class.
    pub fn holds(&self, c: char) -> (r: bool)
        ensures
            r == self.spec_holds(c),
    {
        match *self {
            CharClass::Whitespace => c.is_whitespace(),
            CharClass::Alphabetic => c.is_alphabetic(),
            CharClass::InRange(lo, hi) => lo <= c && c <= hi,
            CharClass::Ne(d) => c != d,
        }
    }
}

} // verus!
