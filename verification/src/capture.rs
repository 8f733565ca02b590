//! The capturing match contract: how many bytes a pattern consumes and
//! which sub-spans its capture nodes recorded.
use vstd::prelude::*;

verus! {

use vstd::string::StringSliceAdditionalSpecFns;
use vstd::utf8::is_char_boundary;
use vstd::utf8::valid_utf8;
use crate::captures::CaptureItems;
use crate::captures::Captures;
use crate::captures::NoneCapture;
use crate::scan_term::ScanTerm;
use crate::text::lemma_str_bytes_valid;

/// A successful capturing match: the captures, and the rest of the text
/// after the matched prefix.
pub struct CaptureResult<'a, T> {
    pub captures: Captures<'a, T>,
    pub rest: &'a str,
}

impl<'a, T> CaptureResult<'a, T> {
    pub fn new(captures: Captures<'a, T>, rest: &'a str) -> (r: CaptureResult<'a, T>)
        ensures
            r.captures == captures,
            r.rest == rest,
    {
        CaptureResult { captures, rest }
    }
}

/// A pattern that can be matched against the front of a text while
/// recording captured sub-spans.
pub trait Capture<'a> {
    /// The capture container this pattern produces.
    type Inner: CaptureItems<'a>;

    /// The byte length of the match at the front of `text` and the byte
    /// contents of the captured sub-spans, if the pattern matches.
    spec fn spec_capture(&self, text: Seq<u8>) -> Option<(nat, Seq<Seq<u8>>)>;

    /// The capture list of this pattern's empty match, used where a
    /// repetition succeeds after zero rounds.
    spec fn spec_capture_empty(&self) -> Seq<Seq<u8>>;

    /// A match fits in the text and ends on a character boundary.
    proof fn lemma_capture_bounds(&self, text: Seq<u8>)
        requires
            valid_utf8(text),
            self.spec_capture(text) is Some,
        ensures
            self.spec_capture(text)->Some_0.0 <= text.len(),
            is_char_boundary(text, self.spec_capture(text)->Some_0.0 as int),
    ;

    /// A pattern that rejects the empty text never matches zero bytes.
    proof fn lemma_capture_empty(&self, text: Seq<u8>)
        requires
            valid_utf8(text),
            self.spec_capture(Seq::<u8>::empty()) is None,
        ensures
            self.spec_capture(text) is Some ==> self.spec_capture(text)->Some_0.0 != 0,
    ;

    /// Matches the front of `text`, returning the captures and the rest.
    fn capture(&self, text: &'a str) -> (r: Option<CaptureResult<'a, Self::Inner>>)
        ensures
            r is Some <==> self.spec_capture(text.spec_bytes()) is Some,
            r matches Some(cr) ==> {
                let (l, items) = self.spec_capture(text.spec_bytes())->Some_0;
                &&& cr.captures.captured_str.spec_bytes() == text.spec_bytes().subrange(
                    0,
                    l as int,
                )
                &&& cr.captures.inner.items() == items
                &&& cr.rest.spec_bytes() == text.spec_bytes().subrange(
                    l as int,
                    text.spec_bytes().len() as int,
                )
            },
    ;

    /// The empty match at the front of `text`: zero bytes consumed, the
    /// pattern's empty capture list, the whole text left over.
    fn capture_empty(&self, text: &'a str) -> (r: CaptureResult<'a, Self::Inner>)
        ensures
            r.captures.captured_str.spec_bytes().len() == 0,
            r.captures.inner.items() == self.spec_capture_empty(),
            r.rest == text,
    ;
}

impl<'a, S: ScanTerm> Capture<'a> for S {
    type Inner = NoneCapture;

    /// A terminal consumes what it scans and captures nothing.
    open spec fn spec_capture(&self, text: Seq<u8>) -> Option<(nat, Seq<Seq<u8>>)> {
        match self.spec_scan_term(text) {
            Some(l) => Some((l, Seq::empty())),
            None => None,
        }
    }

    open spec fn spec_capture_empty(&self) -> Seq<Seq<u8>> {
        Seq::empty()
    }

    proof fn lemma_capture_bounds(&self, text: Seq<u8>) {
        self.lemma_term_bounds(text);
    }

    proof fn lemma_capture_empty(&self, text: Seq<u8>) {
        self.lemma_term_empty(text);
    }

    fn capture(&self, text: &'a str) -> (r: Option<CaptureResult<'a, Self::Inner>>) {
        match self.scan_split(text) {
            Some((left, rest)) => {
                let caps = Captures::without_capture(left);
                Some(CaptureResult::new(caps, rest))
            },
            None => None,
        }
    }

    fn capture_empty(&self, text: &'a str) -> (r: CaptureResult<'a, Self::Inner>) {
        let empty: &str = "";
        proof {
            reveal_strlit("");
            assert(vstd::utf8::encode_utf8(Seq::<char>::empty()) =~= Seq::<u8>::empty());
        }
        let caps = Captures::without_capture(empty);
        CaptureResult::new(caps, text)
    }
}

} // verus!
