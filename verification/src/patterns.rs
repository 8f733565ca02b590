//! Combinators over the capturing match contract: the capture node
//! itself, ordered alternation, concatenation, and exact or bounded
//! repetition, each composing its children's capture lists.
use vstd::prelude::*;

verus! {

use vstd::string::StringSliceAdditionalSpecFns;
use vstd::utf8::is_char_boundary;
use vstd::utf8::valid_utf8;
use vstd::utf8::valid_utf8_split;
use crate::capture::Capture;
use crate::capture::CaptureResult;
use crate::captures::CaptureItems;
use crate::captures::Captures;
use crate::captures::DoubleCaptures;
use crate::captures::EitherCaptures;
use crate::match_iterator::MatchIterator;
use crate::match_iterator::lemma_find_bounds;
use crate::match_iterator::lemma_step_progress;
use crate::match_iterator::spec_find;
use crate::match_iterator::spec_matched;
use crate::match_iterator::spec_step;
use crate::reps::InvalidRepetitionConfiguration;
use crate::reps::Reps;
use crate::text::lemma_boundary_step;
use crate::text::lemma_str_bytes_valid;
use crate::text::lemma_str_empty_bytes;

/// The end position and surviving capture list after applying `m` exactly
/// `remaining` more times from byte offset `pos` of `text`. Each round
/// replaces the capture list with its own: only the last round's captures
/// survive; `items` is what a run of zero rounds reports.
pub open spec fn spec_many_caps<'a, S: Capture<'a>>(
    m: &S,
    text: Seq<u8>,
    pos: int,
    remaining: int,
    items: Seq<Seq<u8>>,
) -> Option<(int, Seq<Seq<u8>>)>
    decreases remaining,
{
    if remaining <= 0 {
        Some((pos, items))
    } else {
        match m.spec_capture(text.subrange(pos, text.len() as int)) {
            None => None,
            Some((l, it)) => spec_many_caps(m, text, pos + l, remaining - 1, it),
        }
    }
}

/// Repetition never moves the end position backwards.
proof fn lemma_many_caps_mono<'a, S: Capture<'a>>(
    m: &S,
    text: Seq<u8>,
    pos: int,
    remaining: int,
    items: Seq<Seq<u8>>,
)
    requires
        spec_many_caps(m, text, pos, remaining, items) is Some,
    ensures
        spec_many_caps(m, text, pos, remaining, items)->Some_0.0 >= pos,
    decreases remaining,
{
    if remaining > 0 {
        let (l, it) = m.spec_capture(text.subrange(pos, text.len() as int))->Some_0;
        lemma_many_caps_mono(m, text, pos + l, remaining - 1, it);
    }
}

/// Each round ends on a character boundary, so the whole repetition does.
proof fn lemma_many_caps_bounds<'a, S: Capture<'a>>(
    m: &S,
    text: Seq<u8>,
    pos: int,
    remaining: int,
    items: Seq<Seq<u8>>,
)
    requires
        valid_utf8(text),
        0 <= pos <= text.len(),
        is_char_boundary(text, pos),
        spec_many_caps(m, text, pos, remaining, items) is Some,
    ensures
        pos <= spec_many_caps(m, text, pos, remaining, items)->Some_0.0 <= text.len(),
        is_char_boundary(text, spec_many_caps(m, text, pos, remaining, items)->Some_0.0),
    decreases remaining,
{
    if remaining > 0 {
        let sub = text.subrange(pos, text.len() as int);
        valid_utf8_split(text, pos);
        let (l, it) = m.spec_capture(sub)->Some_0;
        m.lemma_capture_bounds(sub);
        lemma_boundary_step(text, pos, l as int);
        lemma_many_caps_bounds(m, text, pos + l, remaining - 1, it);
    }
}

/// A pattern that matches zero bytes of the empty text repeats on it any
/// number of times, ending where it began.
proof fn lemma_many_caps_stutter<'a, S: Capture<'a>>(m: &S, remaining: int, items: Seq<Seq<u8>>)
    requires
        m.spec_capture(Seq::<u8>::empty()) is Some,
        m.spec_capture(Seq::<u8>::empty())->Some_0.0 == 0,
    ensures
        spec_many_caps(m, Seq::<u8>::empty(), 0, remaining, items) is Some,
        spec_many_caps(m, Seq::<u8>::empty(), 0, remaining, items)->Some_0.0 == 0,
    decreases remaining,
{
    if remaining > 0 {
        assert(Seq::<u8>::empty().subrange(0, 0) =~= Seq::<u8>::empty());
        let (l, it) = m.spec_capture(Seq::<u8>::empty())->Some_0;
        lemma_many_caps_stutter(m, remaining - 1, it);
    }
}

/// A capture node: matches exactly as the wrapped pattern, and records
/// the matched span in front of the captures recorded inside it.
#[derive(Clone, Copy)]
pub struct Cap<S>(pub S);

impl<'a, S: Capture<'a>> Capture<'a> for Cap<S> {
    type Inner = Captures<'a, S::Inner>;

    /// The wrapped pattern's match, with the matched span itself placed
    /// before the wrapped pattern's captures.
    open spec fn spec_capture(&self, text: Seq<u8>) -> Option<(nat, Seq<Seq<u8>>)> {
        match self.0.spec_capture(text) {
            Some((l, items)) => if l <= text.len() {
                Some((l, seq![text.subrange(0, l as int)] + items))
            } else {
                None
            },
            None => None,
        }
    }

    open spec fn spec_capture_empty(&self) -> Seq<Seq<u8>> {
        seq![Seq::<u8>::empty()] + self.0.spec_capture_empty()
    }

    proof fn lemma_capture_bounds(&self, text: Seq<u8>) {
        self.0.lemma_capture_bounds(text);
    }

    proof fn lemma_capture_empty(&self, text: Seq<u8>) {
        let e = Seq::<u8>::empty();
        if self.0.spec_capture(e) is None {
            self.0.lemma_capture_empty(text);
        } else {
            self.0.lemma_capture_bounds(e);
            assert(self.0.spec_capture(e)->Some_0.0 == 0);
            assert(e.subrange(0, 0) =~= e);
            assert(self.spec_capture(e) is Some);
        }
    }

    fn capture(&self, text: &'a str) -> (r: Option<CaptureResult<'a, Self::Inner>>) {
        proof {
            lemma_str_bytes_valid(text);
            if self.0.spec_capture(text.spec_bytes()) is Some {
                self.0.lemma_capture_bounds(text.spec_bytes());
            }
        }
        match self.0.capture(text) {
            Some(cr) => {
                let CaptureResult { captures, rest } = cr;
                let Captures { captured_str, inner } = captures;
                let own = Captures::new(captured_str, inner);
                let caps = Captures::new(captured_str, own);
                proof {
                    assert(caps.inner.items() =~= self.spec_capture(
                        text.spec_bytes(),
                    )->Some_0.1);
                }
                Some(CaptureResult::new(caps, rest))
            },
            None => None,
        }
    }

    fn capture_empty(&self, text: &'a str) -> (r: CaptureResult<'a, Self::Inner>) {
        let ce = self.0.capture_empty(text);
        let CaptureResult { captures, rest } = ce;
        let Captures { captured_str, inner } = captures;
        let own = Captures::new(captured_str, inner);
        let caps = Captures::new(captured_str, own);
        proof {
            assert(captured_str.spec_bytes() =~= Seq::<u8>::empty());
            assert(caps.inner.items() =~= self.spec_capture_empty());
        }
        CaptureResult::new(caps, rest)
    }
}

/// Ordered alternation: the left pattern first; the right one only when
/// the left does not match at all. The captures are those of the branch
/// that matched; the untaken branch contributes nothing.
#[derive(Clone, Copy)]
pub struct OrPattern<A, B>(pub A, pub B);

impl<'a, A: Capture<'a>, B: Capture<'a>> Capture<'a> for OrPattern<A, B> {
    type Inner = EitherCaptures<A::Inner, B::Inner>;

    /// The left match when there is one, even when the right one would be
    /// longer; the right match only when the left pattern fails.
    open spec fn spec_capture(&self, text: Seq<u8>) -> Option<(nat, Seq<Seq<u8>>)> {
        match self.0.spec_capture(text) {
            Some(r) => Some(r),
            None => self.1.spec_capture(text),
        }
    }

    open spec fn spec_capture_empty(&self) -> Seq<Seq<u8>> {
        self.0.spec_capture_empty()
    }

    proof fn lemma_capture_bounds(&self, text: Seq<u8>) {
        if self.0.spec_capture(text) is Some {
            self.0.lemma_capture_bounds(text);
        } else {
            self.1.lemma_capture_bounds(text);
        }
    }

    proof fn lemma_capture_empty(&self, text: Seq<u8>) {
        self.0.lemma_capture_empty(text);
        if self.1.spec_capture(Seq::<u8>::empty()) is None {
            self.1.lemma_capture_empty(text);
        }
    }

    fn capture(&self, text: &'a str) -> (r: Option<CaptureResult<'a, Self::Inner>>) {
        match self.0.capture(text) {
            Some(cr) => {
                let CaptureResult { captures, rest } = cr;
                let Captures { captured_str, inner } = captures;
                let caps = Captures::new(captured_str, EitherCaptures::Left(inner));
                Some(CaptureResult::new(caps, rest))
            },
            None => {
                match self.1.capture(text) {
                    Some(cr) => {
                        let CaptureResult { captures, rest } = cr;
                        let Captures { captured_str, inner } = captures;
                        let caps = Captures::new(captured_str, EitherCaptures::Right(inner));
                        Some(CaptureResult::new(caps, rest))
                    },
                    None => None,
                }
            },
        }
    }

    fn capture_empty(&self, text: &'a str) -> (r: CaptureResult<'a, Self::Inner>) {
        let ce = self.0.capture_empty(text);
        let CaptureResult { captures, rest } = ce;
        let Captures { captured_str, inner } = captures;
        let caps = Captures::new(captured_str, EitherCaptures::Left(inner));
        CaptureResult::new(caps, rest)
    }
}

/// Concatenation: the left pattern at the front, then the right pattern
/// immediately after the left match; the lengths add up and the capture
/// lists follow one another.
#[derive(Clone, Copy)]
pub struct AndPattern<A, B>(pub A, pub B);

impl<'a, A: Capture<'a>, B: Capture<'a>> Capture<'a> for AndPattern<A, B> {
    type Inner = DoubleCaptures<A::Inner, B::Inner>;

    /// The sum of the left match and the right match on what follows it,
    /// with the left captures before the right ones; no match at all when
    /// either part fails.
    open spec fn spec_capture(&self, text: Seq<u8>) -> Option<(nat, Seq<Seq<u8>>)> {
        match self.0.spec_capture(text) {
            None => None,
            Some((la, ia)) => if la <= text.len() {
                match self.1.spec_capture(text.subrange(la as int, text.len() as int)) {
                    None => None,
                    Some((lb, ib)) => Some(((la + lb) as nat, ia + ib)),
                }
            } else {
                None
            },
        }
    }

    open spec fn spec_capture_empty(&self) -> Seq<Seq<u8>> {
        self.0.spec_capture_empty() + self.1.spec_capture_empty()
    }

    proof fn lemma_capture_bounds(&self, text: Seq<u8>) {
        let la = self.0.spec_capture(text)->Some_0.0;
        self.0.lemma_capture_bounds(text);
        valid_utf8_split(text, la as int);
        let rest = text.subrange(la as int, text.len() as int);
        self.1.lemma_capture_bounds(rest);
        let lb = self.1.spec_capture(rest)->Some_0.0;
        lemma_boundary_step(text, la as int, lb as int);
    }

    proof fn lemma_capture_empty(&self, text: Seq<u8>) {
        let e = Seq::<u8>::empty();
        if self.spec_capture(text) is Some && self.spec_capture(text)->Some_0.0 == 0 {
            let la = self.0.spec_capture(text)->Some_0.0;
            let rest = text.subrange(la as int, text.len() as int);
            assert(la == 0);
            assert(rest =~= text);
            if self.0.spec_capture(e) is None {
                self.0.lemma_capture_empty(text);
                assert(false);
            }
            self.0.lemma_capture_bounds(e);
            if self.1.spec_capture(e) is None {
                self.1.lemma_capture_empty(text);
                assert(false);
            }
            self.1.lemma_capture_bounds(e);
            assert(e.subrange(0, 0) =~= e);
            assert(self.spec_capture(e) is Some);
        }
    }

    fn capture(&self, text: &'a str) -> (r: Option<CaptureResult<'a, Self::Inner>>) {
        proof {
            lemma_str_bytes_valid(text);
        }
        let total = text.as_bytes().len();
        match self.0.capture(text) {
            Some(cra) => {
                proof {
                    self.0.lemma_capture_bounds(text.spec_bytes());
                    valid_utf8_split(
                        text.spec_bytes(),
                        self.0.spec_capture(text.spec_bytes())->Some_0.0 as int,
                    );
                }
                let CaptureResult { captures: caps_a, rest: rest_a } = cra;
                match self.1.capture(rest_a) {
                    Some(crb) => {
                        let CaptureResult { captures: caps_b, rest } = crb;
                        let la = caps_a.captured_len();
                        let lb = caps_b.captured_len();
                        proof {
                            self.1.lemma_capture_bounds(rest_a.spec_bytes());
                            lemma_boundary_step(text.spec_bytes(), la as int, lb as int);
                            assert(la + lb <= total);
                            assert(rest.spec_bytes() =~= text.spec_bytes().subrange(
                                la + lb,
                                text.spec_bytes().len() as int,
                            ));
                        }
                        let (captured, _) = text.split_at(la + lb);
                        let inner = DoubleCaptures::new(caps_a.inner, caps_b.inner);
                        let caps = Captures::new(captured, inner);
                        Some(CaptureResult::new(caps, rest))
                    },
                    None => None,
                }
            },
            None => None,
        }
    }

    fn capture_empty(&self, text: &'a str) -> (r: CaptureResult<'a, Self::Inner>) {
        let ca = self.0.capture_empty(text);
        let cb = self.1.capture_empty(text);
        let CaptureResult { captures: caps_a, rest: _ } = ca;
        let Captures { captured_str, inner: inner_a } = caps_a;
        let inner = DoubleCaptures::new(inner_a, cb.captures.inner);
        let caps = Captures::new(captured_str, inner);
        CaptureResult::new(caps, text)
    }
}

/// One capturing round of a repetition, at byte offset `from` of `whole`.
/// Returns the offset just past the round's match and the round's inner
/// capture list.
fn capture_round<'a, S: Capture<'a>>(m: &S, whole: &'a str, from: usize) -> (r: Option<
    (usize, S::Inner),
>)
    requires
        from <= whole.spec_bytes().len(),
        is_char_boundary(whole.spec_bytes(), from as int),
    ensures
        ({
            let o = m.spec_capture(
                whole.spec_bytes().subrange(from as int, whole.spec_bytes().len() as int),
            );
            &&& r is Some <==> o is Some
            &&& r matches Some((p, inner)) ==> {
                &&& o->Some_0.0 == p - from
                &&& inner.items() == o->Some_0.1
                &&& from <= p <= whole.spec_bytes().len()
                &&& is_char_boundary(whole.spec_bytes(), p as int)
            }
        }),
{
    proof {
        lemma_str_bytes_valid(whole);
        valid_utf8_split(whole.spec_bytes(), from as int);
    }
    let total = whole.as_bytes().len();
    let (_, rest) = whole.split_at(from);
    match m.capture(rest) {
        Some(cr) => {
            let l = cr.captures.captured_len();
            proof {
                m.lemma_capture_bounds(rest.spec_bytes());
                lemma_boundary_step(whole.spec_bytes(), from as int, l as int);
                assert(from + l <= total);
            }
            Some((from + l, cr.captures.inner))
        },
        None => None,
    }
}

/// Applies `m` exactly `remaining` more times from offset `from`; `acc`
/// is the capture list so far, replaced by each successful round's.
fn capture_many<'a, S: Capture<'a>>(
    m: &S,
    whole: &'a str,
    from: usize,
    remaining: u32,
    acc: S::Inner,
) -> (r: Option<(usize, S::Inner)>)
    requires
        from <= whole.spec_bytes().len(),
        is_char_boundary(whole.spec_bytes(), from as int),
    ensures
        ({
            let o = spec_many_caps(m, whole.spec_bytes(), from as int, remaining as int, acc.items());
            &&& r is Some <==> o is Some
            &&& r matches Some((p, inner)) ==> {
                &&& o == Some((p as int, inner.items()))
                &&& from <= p <= whole.spec_bytes().len()
                &&& is_char_boundary(whole.spec_bytes(), p as int)
            }
        }),
    decreases remaining,
{
    if remaining == 0 {
        Some((from, acc))
    } else {
        match capture_round(m, whole, from) {
            Some((p, inner)) => capture_many(m, whole, p, remaining - 1, inner),
            None => None,
        }
    }
}

/// Exact repetition: the inner pattern applied a fixed number of times,
/// each time where the previous round ended. Its reported span covers all
/// rounds, but only the last round's captures survive; earlier rounds'
/// captures are overwritten and lost. Zero rounds always match zero
/// bytes, without consulting the inner pattern.
#[derive(Clone, Copy)]
pub struct ManyPattern<S>(pub S, pub u32);

impl<'a, S: Capture<'a>> Capture<'a> for ManyPattern<S> {
    type Inner = S::Inner;

    /// The sum of the rounds' lengths and the last round's captures when
    /// every round matches; no match at all when any round fails.
    open spec fn spec_capture(&self, text: Seq<u8>) -> Option<(nat, Seq<Seq<u8>>)> {
        match spec_many_caps(&self.0, text, 0, self.1 as int, self.0.spec_capture_empty()) {
            Some((p, it)) => if 0 <= p <= text.len() {
                Some((p as nat, it))
            } else {
                None
            },
            None => None,
        }
    }

    open spec fn spec_capture_empty(&self) -> Seq<Seq<u8>> {
        self.0.spec_capture_empty()
    }

    proof fn lemma_capture_bounds(&self, text: Seq<u8>) {
        lemma_many_caps_bounds(&self.0, text, 0, self.1 as int, self.0.spec_capture_empty());
    }

    proof fn lemma_capture_empty(&self, text: Seq<u8>) {
        let e = Seq::<u8>::empty();
        let m = &self.0;
        let start = m.spec_capture_empty();
        if self.spec_capture(text) is Some && self.spec_capture(text)->Some_0.0 == 0 {
            assert(self.1 != 0);
            assert(text.subrange(0, text.len() as int) =~= text);
            let (l, it) = m.spec_capture(text)->Some_0;
            lemma_many_caps_mono(m, text, 0 + l as int, self.1 as int - 1, it);
            assert(l == 0);
            if m.spec_capture(e) is None {
                m.lemma_capture_empty(text);
                assert(false);
            }
            m.lemma_capture_bounds(e);
            lemma_many_caps_stutter(m, self.1 as int, start);
            assert(self.spec_capture(e) is Some);
        }
    }

    fn capture(&self, text: &'a str) -> (r: Option<CaptureResult<'a, Self::Inner>>) {
        proof {
            lemma_str_bytes_valid(text);
            assert(is_char_boundary(text.spec_bytes(), 0));
        }
        let ce = self.0.capture_empty(text);
        let CaptureResult { captures, rest: _ } = ce;
        match capture_many(&self.0, text, 0, self.1, captures.inner) {
            Some((p, inner)) => {
                let (captured, rest) = text.split_at(p);
                let caps = Captures::new(captured, inner);
                Some(CaptureResult::new(caps, rest))
            },
            None => None,
        }
    }

    fn capture_empty(&self, text: &'a str) -> (r: CaptureResult<'a, Self::Inner>) {
        self.0.capture_empty(text)
    }
}

/// Greedy capturing repetition of `m` from byte offset `pos` of `text`,
/// having already matched `count` rounds whose surviving capture list is
/// `items`: rounds are added until the upper bound is reached or a round
/// fails; each round replaces the capture list with its own. `None`
/// stands for the one configuration that cannot be evaluated: a round
/// that consumes nothing under no upper bound.
pub open spec fn spec_repeat_caps<'a, S: Capture<'a>>(
    m: &S,
    text: Seq<u8>,
    pos: int,
    count: int,
    max: Option<u32>,
    items: Seq<Seq<u8>>,
) -> Option<(int, int, Seq<Seq<u8>>)>
    decreases
            (match max {
                Some(mx) => mx as int - count,
                None => text.len() - pos,
            }),
{
    match max {
        Some(mx) => {
            if count >= mx as int {
                Some((pos, count, items))
            } else {
                match m.spec_capture(text.subrange(pos, text.len() as int)) {
                    None => Some((pos, count, items)),
                    Some((l, it)) => spec_repeat_caps(m, text, pos + l, count + 1, max, it),
                }
            }
        },
        None => {
            match m.spec_capture(text.subrange(pos, text.len() as int)) {
                None => Some((pos, count, items)),
                Some((l, it)) => {
                    if l == 0 || pos < 0 || pos + l > text.len() {
                        None
                    } else {
                        spec_repeat_caps(m, text, pos + l, count + 1, max, it)
                    }
                },
            }
        },
    }
}

/// Greedy capturing repetition never moves backwards, never drops rounds,
/// and never exceeds its upper bound.
proof fn lemma_repeat_caps_mono<'a, S: Capture<'a>>(
    m: &S,
    text: Seq<u8>,
    pos: int,
    count: int,
    max: Option<u32>,
    items: Seq<Seq<u8>>,
)
    requires
        spec_repeat_caps(m, text, pos, count, max, items) is Some,
    ensures
        spec_repeat_caps(m, text, pos, count, max, items)->Some_0.0 >= pos,
        spec_repeat_caps(m, text, pos, count, max, items)->Some_0.1 >= count,
        (match max {
            Some(mx) => count <= mx as int ==> spec_repeat_caps(
                m,
                text,
                pos,
                count,
                max,
                items,
            )->Some_0.1 <= mx as int,
            None => true,
        }),
    decreases
            (match max {
                Some(mx) => mx as int - count,
                None => text.len() - pos,
            }),
{
    match max {
        Some(mx) => {
            if count < mx as int {
                match m.spec_capture(text.subrange(pos, text.len() as int)) {
                    None => {},
                    Some((l, it)) => {
                        lemma_repeat_caps_mono(m, text, pos + l, count + 1, max, it);
                    },
                }
            }
        },
        None => {
            match m.spec_capture(text.subrange(pos, text.len() as int)) {
                None => {},
                Some((l, it)) => {
                    if !(l == 0 || pos < 0 || pos + l > text.len()) {
                        lemma_repeat_caps_mono(m, text, pos + l, count + 1, max, it);
                    }
                },
            }
        },
    }
}

/// Each round of a greedy capturing repetition ends on a character
/// boundary, so the whole repetition does.
proof fn lemma_repeat_caps_bounds<'a, S: Capture<'a>>(
    m: &S,
    text: Seq<u8>,
    pos: int,
    count: int,
    max: Option<u32>,
    items: Seq<Seq<u8>>,
)
    requires
        valid_utf8(text),
        0 <= pos <= text.len(),
        is_char_boundary(text, pos),
        spec_repeat_caps(m, text, pos, count, max, items) is Some,
    ensures
        pos <= spec_repeat_caps(m, text, pos, count, max, items)->Some_0.0 <= text.len(),
        is_char_boundary(text, spec_repeat_caps(m, text, pos, count, max, items)->Some_0.0),
    decreases
            (match max {
                Some(mx) => mx as int - count,
                None => text.len() - pos,
            }),
{
    let sub = text.subrange(pos, text.len() as int);
    match max {
        Some(mx) => {
            if count < mx as int && m.spec_capture(sub) is Some {
                let (l, it) = m.spec_capture(sub)->Some_0;
                valid_utf8_split(text, pos);
                m.lemma_capture_bounds(sub);
                lemma_boundary_step(text, pos, l as int);
                lemma_repeat_caps_bounds(m, text, pos + l, count + 1, max, it);
            }
        },
        None => {
            if m.spec_capture(sub) is Some {
                let (l, it) = m.spec_capture(sub)->Some_0;
                if !(l == 0 || pos + l > text.len()) {
                    valid_utf8_split(text, pos);
                    m.lemma_capture_bounds(sub);
                    lemma_boundary_step(text, pos, l as int);
                    lemma_repeat_caps_bounds(m, text, pos + l, count + 1, max, it);
                }
            }
        },
    }
}

/// A pattern that matches zero bytes of the empty text repeats on it up
/// to any upper bound, ending where it began with the bound exhausted.
proof fn lemma_repeat_caps_stutter<'a, S: Capture<'a>>(
    m: &S,
    count: int,
    mx: u32,
    items: Seq<Seq<u8>>,
)
    requires
        m.spec_capture(Seq::<u8>::empty()) is Some,
        m.spec_capture(Seq::<u8>::empty())->Some_0.0 == 0,
        count <= mx as int,
    ensures
        spec_repeat_caps(m, Seq::<u8>::empty(), 0, count, Some(mx), items) is Some,
        spec_repeat_caps(m, Seq::<u8>::empty(), 0, count, Some(mx), items)->Some_0.0 == 0,
        spec_repeat_caps(m, Seq::<u8>::empty(), 0, count, Some(mx), items)->Some_0.1 == mx as int,
    decreases mx as int - count,
{
    assert(Seq::<u8>::empty().subrange(0, 0) =~= Seq::<u8>::empty());
    if count < mx as int {
        let (l, it) = m.spec_capture(Seq::<u8>::empty())->Some_0;
        lemma_repeat_caps_stutter(m, count + 1, mx, it);
    }
}

/// Bounded repetition: the inner pattern applied greedily, as often as
/// the upper bound allows; the match stands only when the achieved count
/// reaches the lower bound. Its reported span covers all rounds, but only
/// the last round's captures survive; earlier rounds' captures are
/// overwritten and lost.
#[derive(Clone, Copy)]
pub struct RangePattern<S>(pub S, pub Reps);

impl<'a, S: Capture<'a>> RangePattern<S> {
    /// Rejects the one configuration the engine cannot evaluate: no upper
    /// bound over an inner pattern that matches the empty text, where
    /// greedy repetition would never stop.
    pub fn check_repetition(&self) -> (r: Result<(), InvalidRepetitionConfiguration>)
        ensures
            r is Ok <==> !(self.1.max is None && self.0.spec_capture(Seq::<u8>::empty())
                is Some),
    {
        if self.1.max.is_none() {
            let probe: &str = "";
            proof {
                reveal_strlit("");
                assert(probe.spec_bytes() =~= Seq::<u8>::empty()) by {
                    assert(vstd::utf8::encode_utf8(Seq::<char>::empty()) =~= Seq::<u8>::empty());
                }
            }
            match self.0.capture(probe) {
                Some(_) => Err(InvalidRepetitionConfiguration),
                None => Ok(()),
            }
        } else {
            Ok(())
        }
    }
}

impl<'a, S: Capture<'a>> Capture<'a> for RangePattern<S> {
    type Inner = S::Inner;

    /// The greedy repetition's total length and last-round captures when
    /// its count reaches the lower bound; no match when it falls short,
    /// and no match ever for the rejected unbounded-over-empty
    /// configuration.
    open spec fn spec_capture(&self, text: Seq<u8>) -> Option<(nat, Seq<Seq<u8>>)> {
        if self.1.max is None && self.0.spec_capture(Seq::<u8>::empty()) is Some {
            None
        } else {
            match spec_repeat_caps(&self.0, text, 0, 0, self.1.max, self.0.spec_capture_empty()) {
                Some((p, c, it)) => if c >= self.1.min as int && 0 <= p <= text.len() {
                    Some((p as nat, it))
                } else {
                    None
                },
                None => None,
            }
        }
    }

    open spec fn spec_capture_empty(&self) -> Seq<Seq<u8>> {
        self.0.spec_capture_empty()
    }

    proof fn lemma_capture_bounds(&self, text: Seq<u8>) {
        lemma_repeat_caps_bounds(&self.0, text, 0, 0, self.1.max, self.0.spec_capture_empty());
    }

    proof fn lemma_capture_empty(&self, text: Seq<u8>) {
        let e = Seq::<u8>::empty();
        let m = &self.0;
        let start = m.spec_capture_empty();
        if self.spec_capture(text) is Some && self.spec_capture(text)->Some_0.0 == 0 {
            let pc = spec_repeat_caps(m, text, 0, 0, self.1.max, start)->Some_0;
            assert(text.subrange(0, text.len() as int) =~= text);
            assert(e.subrange(0, 0) =~= e);
            match self.1.max {
                Some(mx) => {
                    lemma_repeat_caps_mono(m, text, 0, 0, self.1.max, start);
                    if mx == 0 {
                        assert(self.spec_capture(e) is Some);
                    } else {
                        match m.spec_capture(text) {
                            None => {
                                assert(pc.1 == 0 && self.1.min == 0);
                                match m.spec_capture(e) {
                                    None => {
                                        assert(self.spec_capture(e) is Some);
                                    },
                                    Some(ke) => {
                                        m.lemma_capture_bounds(e);
                                        lemma_repeat_caps_stutter(m, 0, mx, start);
                                        assert(self.spec_capture(e) is Some);
                                    },
                                }
                            },
                            Some((l, it)) => {
                                lemma_repeat_caps_mono(m, text, 0 + l as int, 1, self.1.max, it);
                                assert(l == 0);
                                if m.spec_capture(e) is None {
                                    m.lemma_capture_empty(text);
                                    assert(false);
                                }
                                m.lemma_capture_bounds(e);
                                lemma_repeat_caps_stutter(m, 0, mx, start);
                                assert(self.spec_capture(e) is Some);
                            },
                        }
                    }
                    assert(false);
                },
                None => {
                    assert(m.spec_capture(e) is None);
                    m.lemma_capture_empty(text);
                    match m.spec_capture(text) {
                        None => {
                            assert(pc.1 == 0 && self.1.min == 0);
                            assert(spec_repeat_caps(m, e, 0, 0, self.1.max, start) == Some(
                                (0int, 0int, start),
                            ));
                            assert(self.spec_capture(e) is Some);
                            assert(false);
                        },
                        Some((l, it)) => {
                            assert(l >= 1);
                            if 0 + l as int <= text.len() {
                                lemma_repeat_caps_mono(m, text, 0 + l as int, 1, self.1.max, it);
                            }
                            assert(false);
                        },
                    }
                },
            }
        }
    }

    fn capture(&self, text: &'a str) -> (r: Option<CaptureResult<'a, Self::Inner>>) {
        proof {
            lemma_str_bytes_valid(text);
            assert(is_char_boundary(text.spec_bytes(), 0));
        }
        if self.1.max.is_none() {
            let probe: &str = "";
            proof {
                reveal_strlit("");
                assert(probe.spec_bytes() =~= Seq::<u8>::empty()) by {
                    assert(vstd::utf8::encode_utf8(Seq::<char>::empty()) =~= Seq::<u8>::empty());
                }
            }
            if self.0.capture(probe).is_some() {
                return None;
            }
        }
        let ce = self.0.capture_empty(text);
        let CaptureResult { captures, rest: _ } = ce;
        let (p, c, inner) = capture_repeat(&self.0, text, 0, 0, self.1.max, captures.inner);
        if c >= self.1.min as usize {
            let (captured, rest) = text.split_at(p);
            let caps = Captures::new(captured, inner);
            Some(CaptureResult::new(caps, rest))
        } else {
            None
        }
    }

    fn capture_empty(&self, text: &'a str) -> (r: CaptureResult<'a, Self::Inner>) {
        self.0.capture_empty(text)
    }
}

/// Applies `m` greedily from offset `from`, `count` rounds already done,
/// `acc` being the capture list those rounds left behind.
fn capture_repeat<'a, S: Capture<'a>>(
    m: &S,
    whole: &'a str,
    from: usize,
    count: usize,
    max: Option<u32>,
    acc: S::Inner,
) -> (r: (usize, usize, S::Inner))
    requires
        from <= whole.spec_bytes().len(),
        is_char_boundary(whole.spec_bytes(), from as int),
        max is None ==> m.spec_capture(Seq::<u8>::empty()) is None && count <= from,
        max matches Some(mx) ==> count <= mx,
    ensures
        spec_repeat_caps(m, whole.spec_bytes(), from as int, count as int, max, acc.items())
            == Some((r.0 as int, r.1 as int, r.2.items())),
        from <= r.0 <= whole.spec_bytes().len(),
        is_char_boundary(whole.spec_bytes(), r.0 as int),
    decreases
            (match max {
                Some(mx) => mx as int - count,
                None => whole.spec_bytes().len() - from,
            }),
{
    match max {
        Some(mx) => {
            if count >= mx as usize {
                (from, count, acc)
            } else {
                match capture_round(m, whole, from) {
                    Some((p, inner)) => capture_repeat(m, whole, p, count + 1, max, inner),
                    None => (from, count, acc),
                }
            }
        },
        None => {
            match capture_round(m, whole, from) {
                Some((p, inner)) => {
                    proof {
                        lemma_str_bytes_valid(whole);
                        valid_utf8_split(whole.spec_bytes(), from as int);
                        m.lemma_capture_empty(
                            whole.spec_bytes().subrange(
                                from as int,
                                whole.spec_bytes().len() as int,
                            ),
                        );
                        assert(p > from);
                    }
                    capture_repeat(m, whole, p, count + 1, max, inner)
                },
                None => (from, count, acc),
            }
        },
    }
}

/// An unbounded repetition over a pattern that matches the empty text is
/// the rejected configuration: it reports no match on any text, rather
/// than evaluating a repetition that could never stop.
pub proof fn lemma_unbounded_empty_capture_rejected<'a, S: Capture<'a>>(
    p: &RangePattern<S>,
    text: Seq<u8>,
)
    requires
        p.1.max is None,
        p.0.spec_capture(Seq::<u8>::empty()) is Some,
    ensures
        p.spec_capture(text) is None,
{
}

/// Struct for `Capture` trait using: `Pattern<S: Capture>` itself
/// implements `Capture`, and offers the builders that compose patterns
/// and the whole-text and global matching entry points.
#[derive(Clone, Copy)]
pub struct Pattern<S>(pub S);

/// Wraps a pattern in a capture node: the wrapped pattern's matched span
/// is recorded in front of the captures recorded inside it.
pub fn cap<'a, P: Capture<'a>>(pattern: P) -> (r: Pattern<Cap<P>>)
    ensures
        r.0.0 == pattern,
{
    Pattern(Cap(pattern))
}

impl<'a, S: Capture<'a>> Capture<'a> for Pattern<S> {
    type Inner = S::Inner;

    /// Matches exactly as the pattern it wraps.
    open spec fn spec_capture(&self, text: Seq<u8>) -> Option<(nat, Seq<Seq<u8>>)> {
        self.0.spec_capture(text)
    }

    open spec fn spec_capture_empty(&self) -> Seq<Seq<u8>> {
        self.0.spec_capture_empty()
    }

    proof fn lemma_capture_bounds(&self, text: Seq<u8>) {
        self.0.lemma_capture_bounds(text);
    }

    proof fn lemma_capture_empty(&self, text: Seq<u8>) {
        self.0.lemma_capture_empty(text);
    }

    fn capture(&self, text: &'a str) -> (r: Option<CaptureResult<'a, Self::Inner>>) {
        self.0.capture(text)
    }

    fn capture_empty(&self, text: &'a str) -> (r: CaptureResult<'a, Self::Inner>) {
        self.0.capture_empty(text)
    }
}

impl<'a, S: Capture<'a>> Pattern<S> {
    /// All non-overlapping matches of the pattern across `text`, left to
    /// right, as an iterator.
    pub fn matches(self, text: &'a str) -> (r: MatchIterator<'a, S>)
        ensures
            r.spec_pattern() == self.0,
            r.remaining() == text.spec_bytes(),
            !r.exhausted(),
    {
        MatchIterator::new(self.0, text)
    }

    /// The whole matched span of every non-overlapping match of the
    /// pattern across `text`, left to right.
    pub fn matched_strs(self, text: &'a str) -> (r: Vec<&'a str>)
        ensures
            r@.len() == spec_matched(&self.0, text.spec_bytes()).len(),
            forall|i: int|
                0 <= i < r@.len() ==> (#[trigger] r@[i]).spec_bytes() == spec_matched(
                    &self.0,
                    text.spec_bytes(),
                )[i],
    {
        let ghost p = self.0;
        let ghost whole = spec_matched(&p, text.spec_bytes());
        let mut it = MatchIterator::new(self.0, text);
        let mut out: Vec<&'a str> = Vec::new();
        proof {
            lemma_str_bytes_valid(text);
        }
        loop
            invariant_except_break
                it.spec_pattern() == p,
                valid_utf8(it.remaining()),
                whole == spec_matched(&p, text.spec_bytes()),
                out@.len() <= whole.len(),
                forall|i: int|
                    0 <= i < out@.len() ==> (#[trigger] out@[i]).spec_bytes() == whole[i],
                !it.exhausted() ==> spec_matched(&p, it.remaining()) == whole.subrange(
                    out@.len() as int,
                    whole.len() as int,
                ),
                it.exhausted() ==> out@.len() == whole.len(),
            ensures
                out@.len() == whole.len(),
                forall|i: int|
                    0 <= i < out@.len() ==> (#[trigger] out@[i]).spec_bytes() == whole[i],
            decreases it.remaining().len() + (if it.exhausted() {
                0int
            } else {
                1int
            }),
        {
            let ghost cur = it.remaining();
            let ghost was_done = it.exhausted();
            proof {
                if !was_done {
                    lemma_step_progress(&p, cur);
                    if spec_find(&p, cur) is Some {
                        lemma_find_bounds(&p, cur);
                    }
                }
            }
            match it.next() {
                Some(caps) => {
                    proof {
                        let part = spec_matched(&p, cur);
                        let (m, rem, fin) = spec_step(&p, cur);
                        let (s, l, items) = m->Some_0;
                        assert(part[0] == cur.subrange(s as int, (s + l) as int));
                        if !fin {
                            assert(part.subrange(1, part.len() as int) =~= spec_matched(
                                &p,
                                rem,
                            ));
                        }
                        assert(whole.subrange(out@.len() as int, whole.len() as int)[0]
                            == whole[out@.len() as int]);
                        assert(part =~= whole.subrange(out@.len() as int, whole.len() as int));
                    }
                    out.push(caps.captured_str);
                    proof {
                        let part = spec_matched(&p, cur);
                        let (m, rem, fin) = spec_step(&p, cur);
                        if !fin {
                            assert(spec_matched(&p, rem) =~= whole.subrange(
                                out@.len() as int,
                                whole.len() as int,
                            ));
                        }
                    }
                },
                None => {
                    proof {
                        if !was_done {
                            assert(spec_matched(&p, cur) =~= Seq::<Seq<u8>>::empty());
                            assert(whole.subrange(out@.len() as int, whole.len() as int).len()
                                == 0);
                        }
                    }
                    break ;
                },
            }
        }
        out
    }

    /// Whether the pattern matches the whole text.
    pub fn test(&self, text: &'a str) -> (r: bool)
        ensures
            r == (match self.0.spec_capture(text.spec_bytes()) {
                Some((l, items)) => l == text.spec_bytes().len(),
                None => false,
            }),
    {
        proof {
            lemma_str_bytes_valid(text);
            if self.0.spec_capture(text.spec_bytes()) is Some {
                self.0.lemma_capture_bounds(text.spec_bytes());
            }
        }
        match self.0.capture(text) {
            Some(res) => {
                proof {
                    lemma_str_empty_bytes(res.rest);
                }
                res.rest.is_empty()
            },
            None => false,
        }
    }

    /// Alternation: this pattern, or `rhs` where this one fails.
    pub fn or<B: Capture<'a>>(self, rhs: B) -> (r: Pattern<OrPattern<S, B>>)
        ensures
            r.0.0 == self.0,
            r.0.1 == rhs,
    {
        Pattern(OrPattern(self.0, rhs))
    }

    /// Concatenation: this pattern, then `rhs` right after it.
    pub fn and<B: Capture<'a>>(self, rhs: B) -> (r: Pattern<AndPattern<S, B>>)
        ensures
            r.0.0 == self.0,
            r.0.1 == rhs,
    {
        Pattern(AndPattern(self.0, rhs))
    }

    /// Exact repetition: this pattern `n` times in a row.
    pub fn times(self, n: u32) -> (r: Pattern<ManyPattern<S>>)
        ensures
            r.0.0 == self.0,
            r.0.1 == n,
    {
        Pattern(ManyPattern(self.0, n))
    }

    /// Bounded repetition: this pattern as often as `reps` allows.
    pub fn repeats(self, reps: Reps) -> (r: Pattern<RangePattern<S>>)
        ensures
            r.0.0 == self.0,
            r.0.1 == reps,
    {
        Pattern(RangePattern(self.0, reps))
    }
}

} // verus!
