//! The capture containers: what a capturing match hands back.
//!
//! Each container lists, in order, the substrings that the capture nodes
//! of a pattern recorded. The order is a depth-first, pre-order walk:
//! a capture node's own span comes before its children's spans.
use vstd::prelude::*;

verus! {

use vstd::string::StringSliceAdditionalSpecFns;

/// An ordered list of captured substrings, borrowed from the matched text.
pub trait CaptureItems<'a> {
    /// The byte contents of the captured substrings, in capture order.
    spec fn items(&self) -> Seq<Seq<u8>>;

    /// Appends the captured substrings to `out`, in capture order.
    fn append_to(&self, out: &mut Vec<&'a str>)
        ensures
            final(out)@.len() == old(out)@.len() + self.items().len(),
            forall|i: int| 0 <= i < old(out)@.len() ==> final(out)@[i] == old(out)@[i],
            forall|i: int|
                0 <= i < self.items().len() ==> (#[trigger] final(out)@[old(out)@.len() + i]).spec_bytes()
                    == self.items()[i],
    ;
}

/// The capture list of a pattern with no capture nodes: always empty.
#[derive(Clone, Copy, Debug)]
pub struct NoneCapture;

impl<'a> CaptureItems<'a> for NoneCapture {
    open spec fn items(&self) -> Seq<Seq<u8>> {
        Seq::empty()
    }

    fn append_to(&self, out: &mut Vec<&'a str>) {
    }
}

/// The capture list of whichever branch of an alternation matched.
#[derive(Clone, Copy, Debug)]
pub enum EitherCaptures<A, B> {
    Left(A),
    Right(B),
}

impl<'a, A: CaptureItems<'a>, B: CaptureItems<'a>> CaptureItems<'a> for EitherCaptures<A, B> {
    open spec fn items(&self) -> Seq<Seq<u8>> {
        match self {
            EitherCaptures::Left(a) => a.items(),
            EitherCaptures::Right(b) => b.items(),
        }
    }

    fn append_to(&self, out: &mut Vec<&'a str>) {
        match self {
            EitherCaptures::Left(a) => a.append_to(out),
            EitherCaptures::Right(b) => b.append_to(out),
        }
    }
}

/// The capture lists of the two halves of a concatenation, in order.
#[derive(Clone, Copy, Debug)]
pub struct DoubleCaptures<A, B> {
    pub a: A,
    pub b: B,
}

impl<A, B> DoubleCaptures<A, B> {
    pub fn new(a: A, b: B) -> (r: DoubleCaptures<A, B>)
        ensures
            r.a == a,
            r.b == b,
    {
        DoubleCaptures { a, b }
    }
}

impl<'a, A: CaptureItems<'a>, B: CaptureItems<'a>> CaptureItems<'a> for DoubleCaptures<A, B> {
    open spec fn items(&self) -> Seq<Seq<u8>> {
        self.a.items() + self.b.items()
    }

    fn append_to(&self, out: &mut Vec<&'a str>) {
        let ghost n0 = out@.len() as int;
        self.a.append_to(out);
        let ghost mid = out@;
        self.b.append_to(out);
        proof {
            let ai = self.a.items();
            let bi = self.b.items();
            assert forall|i: int| 0 <= i < self.items().len() implies (#[trigger] out@[n0
                + i]).spec_bytes() == self.items()[i] by {
                if i < ai.len() {
                    assert(out@[n0 + i] == mid[n0 + i]);
                    assert((ai + bi)[i] == ai[i]);
                } else {
                    assert(out@[mid.len() + (i - ai.len())].spec_bytes() == bi[i - ai.len()]);
                    assert((ai + bi)[i] == bi[i - ai.len()]);
                }
            }
        }
    }
}

/// A matched span paired with the captures recorded inside it: the span
/// itself comes first, its inner captures follow.
#[derive(Clone, Copy, Debug)]
pub struct Captures<'a, T> {
    pub captured_str: &'a str,
    pub inner: T,
}

impl<'a, T> Captures<'a, T> {
    pub fn new(matched_str: &'a str, inner: T) -> (r: Captures<'a, T>)
        ensures
            r.captured_str == matched_str,
            r.inner == inner,
    {
        Captures { captured_str: matched_str, inner }
    }

    /// The same span over a different inner capture list.
    pub fn with_inner<K>(&self, inner: K) -> (r: Captures<'a, K>)
        ensures
            r.captured_str == self.captured_str,
            r.inner == inner,
    {
        Captures { captured_str: self.captured_str, inner }
    }

    /// The byte length of the matched span.
    pub fn captured_len(&self) -> (r: usize)
        ensures
            r == self.captured_str.spec_bytes().len(),
    {
        self.captured_str.as_bytes().len()
    }
}

impl Captures<'_, NoneCapture> {
    /// A span with no captures recorded inside it.
    pub fn without_capture(matched_str: &str) -> (r: Captures<'_, NoneCapture>)
        ensures
            r.captured_str == matched_str,
    {
        Captures { captured_str: matched_str, inner: NoneCapture }
    }
}

impl<'a, T: CaptureItems<'a>> CaptureItems<'a> for Captures<'a, T> {
    open spec fn items(&self) -> Seq<Seq<u8>> {
        seq![self.captured_str.spec_bytes()] + self.inner.items()
    }

    fn append_to(&self, out: &mut Vec<&'a str>) {
        let ghost n0 = out@.len() as int;
        out.push(self.captured_str);
        let ghost mid = out@;
        self.inner.append_to(out);
        proof {
            let own = seq![self.captured_str.spec_bytes()];
            let rest = self.inner.items();
            assert forall|i: int| 0 <= i < self.items().len() implies (#[trigger] out@[n0
                + i]).spec_bytes() == self.items()[i] by {
                if i == 0 {
                    assert(out@[n0] == mid[n0]);
                    assert((own + rest)[0] == own[0]);
                } else {
                    assert(out@[mid.len() + (i - 1)].spec_bytes() == rest[i - 1]);
                    assert((own + rest)[i] == rest[i - 1]);
                }
            }
        }
    }
}

impl<'a, T: CaptureItems<'a>> Captures<'a, T> {
    /// All captured substrings: the whole matched span first, then each
    /// capture node's span in capture order.
    pub fn collect(&self) -> (r: Vec<&'a str>)
        ensures
            r@.len() == self.items().len(),
            forall|i: int|
                0 <= i < r@.len() ==> (#[trigger] r@[i]).spec_bytes() == self.items()[i],
    {
        let mut out: Vec<&'a str> = Vec::new();
        self.append_to(&mut out);
        proof {
            assert forall|i: int| 0 <= i < out@.len() implies (#[trigger] out@[i]).spec_bytes()
                == self.items()[i] by {
                assert(out@[0 + i].spec_bytes() == self.items()[i]);
            }
        }
        out
    }
}

} // verus!
