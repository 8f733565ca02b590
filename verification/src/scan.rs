//! The plain matching contract: how many bytes of a text a pattern
//! consumes from the front, with no capture bookkeeping.
use vstd::prelude::*;

verus! {

use vstd::string::StringSliceAdditionalSpecFns;
use vstd::utf8::decode_first_scalar;
use vstd::utf8::encode_scalar;
use vstd::utf8::encode_utf8;
use vstd::utf8::is_char_boundary;
use vstd::utf8::valid_utf8;
use crate::char_class::CharClass;
use crate::text::char_scan;
use crate::text::first_char;
use crate::text::is_prefix;
use crate::text::lemma_char_scan_first;
use crate::text::lemma_first_scalar_bounds;
use crate::text::lemma_lit_scan_bounds;
use crate::text::lemma_str_bytes_valid;
use crate::text::lit_scan;
use crate::text::starts_with_bytes;

/// Result of the `scan` function in the `Scan` trait.
///
/// `Ok(len)` means the first `len` bytes of the text match the pattern;
/// `Err(())` means no prefix of the text matches.
pub type ScanResult = Result<usize, ()>;

/// How a `ScanResult` reports a match length.
pub open spec fn matches_scan(o: Option<nat>, r: ScanResult) -> bool {
    match o {
        Some(l) => r is Ok && r->Ok_0 == l,
        None => r is Err,
    }
}

/// A pattern that can be matched against the front of a text.
pub trait Scan {
    /// The byte length of the match at the front of `text`, if any.
    spec fn spec_scan(&self, text: Seq<u8>) -> Option<nat>;

    /// A match fits in the text and ends on a character boundary, so the
    /// matched prefix and the rest can be sliced apart and re-matched.
    proof fn lemma_scan_bounds(&self, text: Seq<u8>)
        requires
            valid_utf8(text),
            self.spec_scan(text) is Some,
        ensures
            self.spec_scan(text)->Some_0 <= text.len(),
            is_char_boundary(text, self.spec_scan(text)->Some_0 as int),
    ;

    /// A pattern that rejects the empty text never matches zero bytes of
    /// any text.
    proof fn lemma_scan_empty(&self, text: Seq<u8>)
        requires
            valid_utf8(text),
            self.spec_scan(Seq::<u8>::empty()) is None,
        ensures
            self.spec_scan(text) != Some(0nat),
    ;

    /// Pattern matching function.
    ///
    /// Returns `Ok(len)` where the byte range `0..len` of `text` is the
    /// matched prefix, and `Err(())` when no prefix matches.
    fn scan(&self, text: &str) -> (r: ScanResult)
        ensures
            matches_scan(self.spec_scan(text.spec_bytes()), r),
    ;

    /// Whether the pattern matches the whole text.
    fn test(&self, text: &str) -> (r: bool)
        ensures
            r == (self.spec_scan(text.spec_bytes()) == Some(text.spec_bytes().len() as nat)),
    {
        match self.scan(text) {
            Ok(len) => text.as_bytes().len() == len,
            Err(()) => false,
        }
    }

    /// The matched prefix and the remaining text, sliced apart.
    fn scan_split<'a>(&self, text: &'a str) -> (r: Result<(&'a str, &'a str), ()>)
        ensures
            r is Ok <==> self.spec_scan(text.spec_bytes()) is Some,
            r matches Ok((left, rest)) ==> {
                let l = self.spec_scan(text.spec_bytes())->Some_0 as int;
                &&& left.spec_bytes() == text.spec_bytes().subrange(0, l)
                &&& rest.spec_bytes() == text.spec_bytes().subrange(
                    l,
                    text.spec_bytes().len() as int,
                )
            },
    {
        match self.scan(text) {
            Ok(len) => {
                proof {
                    lemma_str_bytes_valid(text);
                    self.lemma_scan_bounds(text.spec_bytes());
                }
                Ok(text.split_at(len))
            },
            Err(()) => Err(()),
        }
    }
}

/// A match splits the text into two valid texts: the matched prefix and
/// the rest each decode on their own and can be matched again.
pub proof fn lemma_match_splits_text<T: Scan>(m: &T, text: Seq<u8>)
    requires
        valid_utf8(text),
        m.spec_scan(text) is Some,
    ensures
        m.spec_scan(text)->Some_0 <= text.len(),
        is_char_boundary(text, m.spec_scan(text)->Some_0 as int),
        valid_utf8(text.subrange(0, m.spec_scan(text)->Some_0 as int)),
        valid_utf8(text.subrange(m.spec_scan(text)->Some_0 as int, text.len() as int)),
{
    m.lemma_scan_bounds(text);
    vstd::utf8::valid_utf8_split(text, m.spec_scan(text)->Some_0 as int);
}

impl Scan for &str {
    /// A text matches when it starts with the literal; the whole literal
    /// is consumed. The empty literal matches every text with length zero.
    open spec fn spec_scan(&self, text: Seq<u8>) -> Option<nat> {
        lit_scan(self.spec_bytes(), text)
    }

    proof fn lemma_scan_bounds(&self, text: Seq<u8>) {
        lemma_str_bytes_valid(*self);
        lemma_lit_scan_bounds(self.spec_bytes(), text);
    }

    proof fn lemma_scan_empty(&self, text: Seq<u8>) {
        if self.spec_bytes().len() == 0 {
            assert(Seq::<u8>::empty().subrange(0, 0) =~= self.spec_bytes());
            assert(is_prefix(self.spec_bytes(), Seq::<u8>::empty()));
        }
    }

    fn scan(&self, text: &str) -> (r: ScanResult) {
        let pat = self.as_bytes();
        if starts_with_bytes(text.as_bytes(), pat) {
            Ok(pat.len())
        } else {
            Err(())
        }
    }
}

impl Scan for String {
    /// Matches exactly as the string slice it holds.
    open spec fn spec_scan(&self, text: Seq<u8>) -> Option<nat> {
        lit_scan(encode_utf8(self@), text)
    }

    proof fn lemma_scan_bounds(&self, text: Seq<u8>) {
        vstd::utf8::encode_utf8_valid_utf8(self@);
        lemma_lit_scan_bounds(encode_utf8(self@), text);
    }

    proof fn lemma_scan_empty(&self, text: Seq<u8>) {
        if encode_utf8(self@).len() == 0 {
            assert(Seq::<u8>::empty().subrange(0, 0) =~= encode_utf8(self@));
            assert(is_prefix(encode_utf8(self@), Seq::<u8>::empty()));
        }
    }

    fn scan(&self, text: &str) -> (r: ScanResult) {
        let pat: &str = self.as_str();
        pat.scan(text)
    }
}

impl Scan for char {
    /// A text matches when its first code point is this one; the code
    /// point's encoded width is consumed.
    open spec fn spec_scan(&self, text: Seq<u8>) -> Option<nat> {
        char_scan(*self, text)
    }

    proof fn lemma_scan_bounds(&self, text: Seq<u8>) {
        lemma_char_scan_first(*self, text);
        lemma_first_scalar_bounds(text);
    }

    proof fn lemma_scan_empty(&self, text: Seq<u8>) {
        lemma_char_scan_first(*self, text);
        if text.len() > 0 {
            lemma_first_scalar_bounds(text);
        }
    }

    fn scan(&self, text: &str) -> (r: ScanResult) {
        proof {
            lemma_str_bytes_valid(text);
            lemma_char_scan_first(*self, text.spec_bytes());
        }
        match first_char(text) {
            Some((c, w)) => {
                if c == *self {
                    Ok(w)
                } else {
                    proof {
                        vstd::utf8::char_u32_cast(c, decode_first_scalar(text.spec_bytes()));
                        if decode_first_scalar(text.spec_bytes()) == *self as u32 {
                            vstd::utf8::char_u32_cast(
                                *self,
                                decode_first_scalar(text.spec_bytes()),
                            );
                        }
                    }
                    Err(())
                }
            },
            None => Err(()),
        }
    }
}

impl Scan for CharClass {
    /// A text matches when its first code point satisfies the class; the
    /// code point's width is consumed. The empty text never matches.
    open spec fn spec_scan(&self, text: Seq<u8>) -> Option<nat> {
        self.spec_scan_class(text)
    }

    proof fn lemma_scan_bounds(&self, text: Seq<u8>) {
        lemma_first_scalar_bounds(text);
    }

    proof fn lemma_scan_empty(&self, text: Seq<u8>) {
        if text.len() > 0 {
            lemma_first_scalar_bounds(text);
        }
    }

    fn scan(&self, text: &str) -> (r: ScanResult) {
        proof {
            lemma_str_bytes_valid(text);
        }
        match first_char(text) {
            Some((c, w)) => {
                proof {
                    vstd::utf8::char_u32_cast(c, decode_first_scalar(text.spec_bytes()));
                }
                if self.holds(c) {
                    Ok(w)
                } else {
                    Err(())
                }
            },
            None => Err(()),
        }
    }
}

} // verus!
