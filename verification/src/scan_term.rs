//! The terminal elements of a capturing pattern expression tree.
use vstd::prelude::*;

verus! {

use vstd::string::StringSliceAdditionalSpecFns;
use vstd::utf8::decode_first_scalar;
use vstd::utf8::encode_utf8;
use vstd::utf8::is_char_boundary;
use vstd::utf8::valid_utf8;
use crate::char_class::CharClass;
use crate::text::char_scan;
use crate::text::first_char;
use crate::text::is_prefix;
use crate::text::lemma_char_scan_first;
use crate::text::lemma_first_scalar_bounds;
use crate::text::lemma_lit_scan_bounds;
use crate::text::lemma_str_bytes_valid;
use crate::text::lit_scan;
use crate::text::starts_with_bytes;

/// How an `Option<usize>` reports a match length.
pub open spec fn matches_term(o: Option<nat>, r: Option<usize>) -> bool {
    match o {
        Some(l) => r is Some && r->Some_0 == l,
        None => r is None,
    }
}

/// An object which implements `ScanTerm` is a terminal element of a
/// pattern expression tree.
pub trait ScanTerm {
    /// The byte length of the match at the front of `text`, if any.
    spec fn spec_scan_term(&self, text: Seq<u8>) -> Option<nat>;

    /// A match fits in the text and ends on a character boundary.
    proof fn lemma_term_bounds(&self, text: Seq<u8>)
        requires
            valid_utf8(text),
            self.spec_scan_term(text) is Some,
        ensures
            self.spec_scan_term(text)->Some_0 <= text.len(),
            is_char_boundary(text, self.spec_scan_term(text)->Some_0 as int),
    ;

    /// A terminal that rejects the empty text never matches zero bytes.
    proof fn lemma_term_empty(&self, text: Seq<u8>)
        requires
            valid_utf8(text),
            self.spec_scan_term(Seq::<u8>::empty()) is None,
        ensures
            self.spec_scan_term(text) != Some(0nat),
    ;

    /// Pattern matching function.
    ///
    /// Returns `Some(len)` where the byte range `0..len` of `text` is the
    /// matched prefix, and `None` when no prefix matches.
    fn scan_term(&self, text: &str) -> (r: Option<usize>)
        ensures
            matches_term(self.spec_scan_term(text.spec_bytes()), r),
    ;

    /// The matched prefix and the remaining text, sliced apart.
    fn scan_split<'a>(&self, text: &'a str) -> (r: Option<(&'a str, &'a str)>)
        ensures
            r is Some <==> self.spec_scan_term(text.spec_bytes()) is Some,
            r matches Some((left, rest)) ==> {
                let l = self.spec_scan_term(text.spec_bytes())->Some_0 as int;
                &&& left.spec_bytes() == text.spec_bytes().subrange(0, l)
                &&& rest.spec_bytes() == text.spec_bytes().subrange(
                    l,
                    text.spec_bytes().len() as int,
                )
            },
    {
        match self.scan_term(text) {
            Some(len) => {
                proof {
                    lemma_str_bytes_valid(text);
                    self.lemma_term_bounds(text.spec_bytes());
                }
                Some(text.split_at(len))
            },
            None => None,
        }
    }
}

impl ScanTerm for &str {
    /// A text matches when it starts with the literal; the whole literal
    /// is consumed. The empty literal matches every text with length zero.
    open spec fn spec_scan_term(&self, text: Seq<u8>) -> Option<nat> {
        lit_scan(self.spec_bytes(), text)
    }

    proof fn lemma_term_bounds(&self, text: Seq<u8>) {
        lemma_str_bytes_valid(*self);
        lemma_lit_scan_bounds(self.spec_bytes(), text);
    }

    proof fn lemma_term_empty(&self, text: Seq<u8>) {
        if self.spec_bytes().len() == 0 {
            assert(Seq::<u8>::empty().subrange(0, 0) =~= self.spec_bytes());
            assert(is_prefix(self.spec_bytes(), Seq::<u8>::empty()));
        }
    }

    fn scan_term(&self, text: &str) -> (r: Option<usize>) {
        let pat = self.as_bytes();
        if starts_with_bytes(text.as_bytes(), pat) {
            Some(pat.len())
        } else {
            None
        }
    }
}

impl ScanTerm for String {
    /// Matches exactly as the string slice it holds.
    open spec fn spec_scan_term(&self, text: Seq<u8>) -> Option<nat> {
        lit_scan(encode_utf8(self@), text)
    }

    proof fn lemma_term_bounds(&self, text: Seq<u8>) {
        vstd::utf8::encode_utf8_valid_utf8(self@);
        lemma_lit_scan_bounds(encode_utf8(self@), text);
    }

    proof fn lemma_term_empty(&self, text: Seq<u8>) {
        if encode_utf8(self@).len() == 0 {
            assert(Seq::<u8>::empty().subrange(0, 0) =~= encode_utf8(self@));
            assert(is_prefix(encode_utf8(self@), Seq::<u8>::empty()));
        }
    }

    fn scan_term(&self, text: &str) -> (r: Option<usize>) {
        let pat: &str = self.as_str();
        pat.scan_term(text)
    }
}

impl ScanTerm for char {
    /// A text matches when its first code point is this one; the code
    /// point's encoded width is consumed.
    open spec fn spec_scan_term(&self, text: Seq<u8>) -> Option<nat> {
        char_scan(*self, text)
    }

    proof fn lemma_term_bounds(&self, text: Seq<u8>) {
        lemma_char_scan_first(*self, text);
        lemma_first_scalar_bounds(text);
    }

    proof fn lemma_term_empty(&self, text: Seq<u8>) {
        lemma_char_scan_first(*self, text);
        if text.len() > 0 {
            lemma_first_scalar_bounds(text);
        }
    }

    fn scan_term(&self, text: &str) -> (r: Option<usize>) {
        proof {
            lemma_str_bytes_valid(text);
            lemma_char_scan_first(*self, text.spec_bytes());
        }
        match first_char(text) {
            Some((c, w)) => {
                if c == *self {
                    Some(w)
                } else {
                    proof {
                        vstd::utf8::char_u32_cast(c, decode_first_scalar(text.spec_bytes()));
                        if decode_first_scalar(text.spec_bytes()) == *self as u32 {
                            vstd::utf8::char_u32_cast(
                                *self,
                                decode_first_scalar(text.spec_bytes()),
                            );
                        }
                    }
                    None
                }
            },
            None => None,
        }
    }
}

impl ScanTerm for CharClass {
    /// A text matches when its first code point satisfies the class; the
    /// code point's width is consumed. The empty text never matches.
    open spec fn spec_scan_term(&self, text: Seq<u8>) -> Option<nat> {
        self.spec_scan_class(text)
    }

    proof fn lemma_term_bounds(&self, text: Seq<u8>) {
        lemma_first_scalar_bounds(text);
    }

    proof fn lemma_term_empty(&self, text: Seq<u8>) {
        if text.len() > 0 {
            lemma_first_scalar_bounds(text);
        }
    }

    fn scan_term(&self, text: &str) -> (r: Option<usize>) {
        proof {
            lemma_str_bytes_valid(text);
        }
        match first_char(text) {
            Some((c, w)) => {
                proof {
                    vstd::utf8::char_u32_cast(c, decode_first_scalar(text.spec_bytes()));
                }
                if self.holds(c) {
                    Some(w)
                } else {
                    None
                }
            },
            None => None,
        }
    }
}

} // verus!
