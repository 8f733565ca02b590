//! The global match iterator: all non-overlapping matches of a pattern
//! across a text, scanning left to right.
//!
//! At each cursor position the pattern is tried; on failure the cursor
//! advances by one whole code point, never splitting a multi-byte
//! encoding. A zero-length match is reported and then the cursor still
//! advances by one code point, so scanning always makes progress.
use vstd::prelude::*;

verus! {

use vstd::string::StringSliceAdditionalSpecFns;
use vstd::utf8::is_char_boundary;
use vstd::utf8::length_of_first_scalar;
use vstd::utf8::valid_utf8;
use vstd::utf8::valid_utf8_split;
use crate::capture::Capture;
use crate::captures::CaptureItems;
use crate::captures::Captures;
use crate::text::first_char;
use crate::text::lemma_boundary_step;
use crate::text::lemma_first_scalar_bounds;
use crate::text::lemma_str_bytes_valid;

/// The first match of `p` at or after the front of `text`: the byte
/// offset where it begins, its length, and its captures.
pub open spec fn spec_find<'a, P: Capture<'a>>(p: &P, text: Seq<u8>) -> Option<
    (nat, nat, Seq<Seq<u8>>),
>
    decreases text.len(),
{
    match p.spec_capture(text) {
        Some((l, items)) => if l <= text.len() {
            Some((0, l, items))
        } else {
            None
        },
        None => {
            if text.len() == 0 {
                None
            } else {
                let w = length_of_first_scalar(text);
                if 1 <= w <= text.len() {
                    match spec_find(p, text.subrange(w, text.len() as int)) {
                        Some((s, l, it)) => Some(((s + w) as nat, l, it)),
                        None => None,
                    }
                } else {
                    None
                }
            }
        },
    }
}

/// A found match lies inside the text, beginning and ending on character
/// boundaries.
pub proof fn lemma_find_bounds<'a, P: Capture<'a>>(p: &P, text: Seq<u8>)
    requires
        valid_utf8(text),
        spec_find(p, text) is Some,
    ensures
        spec_find(p, text)->Some_0.0 + spec_find(p, text)->Some_0.1 <= text.len(),
        is_char_boundary(text, spec_find(p, text)->Some_0.0 as int),
        is_char_boundary(
            text,
            spec_find(p, text)->Some_0.0 + spec_find(p, text)->Some_0.1 as int,
        ),
    decreases text.len(),
{
    if p.spec_capture(text) is Some {
        p.lemma_capture_bounds(text);
    } else {
        lemma_first_scalar_bounds(text);
        let w = length_of_first_scalar(text);
        let tail = text.subrange(w, text.len() as int);
        assert(tail =~= vstd::utf8::pop_first_scalar(text));
        lemma_find_bounds(p, tail);
        let (s, l, it) = spec_find(p, tail)->Some_0;
        lemma_boundary_step(text, w, s as int);
        lemma_boundary_step(text, w, s + l as int);
    }
}

/// What one step of the iterator does to `text`, the unscanned suffix:
/// the match it reports, the suffix the cursor moves to, and whether
/// scanning is finished.
pub open spec fn spec_step<'a, P: Capture<'a>>(p: &P, text: Seq<u8>) -> (
    Option<(nat, nat, Seq<Seq<u8>>)>,
    Seq<u8>,
    bool,
) {
    match spec_find(p, text) {
        None => (None, text, true),
        Some((s, l, items)) => {
            let after = text.subrange((s + l) as int, text.len() as int);
            if l > 0 {
                (Some((s, l, items)), after, false)
            } else if after.len() == 0 {
                (Some((s, l, items)), after, true)
            } else {
                (
                    Some((s, l, items)),
                    after.subrange(length_of_first_scalar(after), after.len() as int),
                    false,
                )
            }
        },
    }
}

/// A step that does not finish leaves a strictly shorter suffix: the
/// cursor always makes progress.
pub proof fn lemma_step_progress<'a, P: Capture<'a>>(p: &P, text: Seq<u8>)
    requires
        valid_utf8(text),
    ensures
        ({
            let (m, rem, fin) = spec_step(p, text);
            &&& !fin ==> rem.len() < text.len()
            &&& valid_utf8(rem)
            &&& (m is Some <==> spec_find(p, text) is Some)
        }),
{
    if spec_find(p, text) is Some {
        let (s, l, items) = spec_find(p, text)->Some_0;
        lemma_find_bounds(p, text);
        valid_utf8_split(text, (s + l) as int);
        let after = text.subrange((s + l) as int, text.len() as int);
        if l == 0 && after.len() > 0 {
            lemma_first_scalar_bounds(after);
            assert(after.subrange(length_of_first_scalar(after), after.len() as int)
                =~= vstd::utf8::pop_first_scalar(after));
        }
    }
}

/// The byte contents of every match the iterator reports on `text`, in
/// the order it reports them.
pub open spec fn spec_matched<'a, P: Capture<'a>>(p: &P, text: Seq<u8>) -> Seq<Seq<u8>>
    decreases text.len(),
{
    let (m, rem, fin) = spec_step(p, text);
    match m {
        None => Seq::empty(),
        Some((s, l, items)) => seq![text.subrange(s as int, (s + l) as int)] + (if fin
            || rem.len() >= text.len() {
            Seq::<Seq<u8>>::empty()
        } else {
            spec_matched(p, rem)
        }),
    }
}

/// The byte spans of every match the iterator reports on `text`, as
/// (start, length) pairs counted from `base`, in reported order.
pub open spec fn spec_spans<'a, P: Capture<'a>>(p: &P, text: Seq<u8>, base: int) -> Seq<
    (int, int),
>
    decreases text.len(),
{
    let (m, rem, fin) = spec_step(p, text);
    match m {
        None => Seq::empty(),
        Some((s, l, items)) => seq![(base + s, l as int)] + (if fin || rem.len()
            >= text.len() {
            Seq::<(int, int)>::empty()
        } else {
            spec_spans(p, rem, base + text.len() - rem.len())
        }),
    }
}

/// Matches reported by the iterator never share a byte position: each
/// one ends at or before the next one begins.
pub proof fn lemma_matches_non_overlapping<'a, P: Capture<'a>>(
    p: &P,
    text: Seq<u8>,
    base: int,
    i: int,
)
    requires
        valid_utf8(text),
        0 <= i,
        i + 1 < spec_spans(p, text, base).len(),
    ensures
        spec_spans(p, text, base)[i].0 + spec_spans(p, text, base)[i].1 <= spec_spans(
            p,
            text,
            base,
        )[i + 1].0,
    decreases text.len(),
{
    let (m, rem, fin) = spec_step(p, text);
    let (s, l, items) = m->Some_0;
    lemma_step_progress(p, text);
    lemma_find_bounds(p, text);
    let spans = spec_spans(p, text, base);
    let base2 = base + text.len() - rem.len();
    let tail = spec_spans(p, rem, base2);
    assert(!(fin || rem.len() >= text.len())) by {
        if fin || rem.len() >= text.len() {
            assert(spans.len() == 1);
        }
    }
    if i == 0 {
        assert(spans[1] == tail[0]);
        let (m2, rem2, fin2) = spec_step(p, rem);
        assert(m2 is Some) by {
            if m2 is None {
                assert(tail.len() == 0);
            }
        }
        let (s2, l2, it2) = m2->Some_0;
        assert(tail[0] == (base2 + s2, l2 as int));
        assert(base + s + l <= base2 + s2) by {
            let after = text.subrange((s + l) as int, text.len() as int);
            if l == 0 {
                valid_utf8_split(text, s as int);
                lemma_first_scalar_bounds(after);
                assert(rem == after.subrange(
                    length_of_first_scalar(after),
                    after.len() as int,
                ));
                assert(rem.len() == text.len() - s - length_of_first_scalar(after));
            } else {
                assert(rem == after);
                assert(rem.len() == text.len() - s - l);
            }
        }
    } else {
        lemma_matches_non_overlapping(p, rem, base2, i - 1);
        assert(spans[i] == tail[i - 1]);
        assert(spans[i + 1] == tail[i]);
    }
}

/// The span list and the match list are in step: one span for each match.
pub proof fn lemma_spans_matched_len<'a, P: Capture<'a>>(p: &P, text: Seq<u8>, base: int)
    requires
        valid_utf8(text),
    ensures
        spec_spans(p, text, base).len() == spec_matched(p, text).len(),
    decreases text.len(),
{
    let (m, rem, fin) = spec_step(p, text);
    lemma_step_progress(p, text);
    if m is Some && !(fin || rem.len() >= text.len()) {
        lemma_spans_matched_len(p, rem, base + text.len() - rem.len());
    }
}

/// The span list and the match list describe the same matches: each
/// reported match is exactly the text under its span.
pub proof fn lemma_spans_match_contents<'a, P: Capture<'a>>(
    p: &P,
    text: Seq<u8>,
    base: int,
    i: int,
)
    requires
        valid_utf8(text),
        0 <= i < spec_spans(p, text, base).len(),
    ensures
        spec_matched(p, text)[i] == text.subrange(
            spec_spans(p, text, base)[i].0 - base,
            spec_spans(p, text, base)[i].0 - base + spec_spans(p, text, base)[i].1,
        ),
    decreases text.len(),
{
    let (m, rem, fin) = spec_step(p, text);
    let (s, l, items) = m->Some_0;
    lemma_step_progress(p, text);
    lemma_find_bounds(p, text);
    let spans = spec_spans(p, text, base);
    let found = spec_matched(p, text);
    let base2 = base + text.len() - rem.len();
    if i == 0 {
        assert(spans[0] == (base + s, l as int));
        assert(found[0] == text.subrange(s as int, (s + l) as int));
    } else {
        lemma_spans_matched_len(p, text, base);
        assert(!(fin || rem.len() >= text.len())) by {
            if fin || rem.len() >= text.len() {
                assert(spans.len() == 1);
            }
        }
        lemma_spans_match_contents(p, rem, base2, i - 1);
        let tail_spans = spec_spans(p, rem, base2);
        let tail_found = spec_matched(p, rem);
        assert(spans[i] == tail_spans[i - 1]);
        assert(found[i] == tail_found[i - 1]);
        let start2 = tail_spans[i - 1].0 - base2;
        let len2 = tail_spans[i - 1].1;
        assert(tail_found[i - 1] == rem.subrange(start2, start2 + len2));
        lemma_find_bounds(p, rem);
        lemma_spans_inside(p, rem, base2, i - 1);
        assert(rem =~= text.subrange(
            text.len() - rem.len(),
            text.len() as int,
        )) by {
            lemma_step_rem_suffix(p, text);
        }
        assert(rem.subrange(start2, start2 + len2) =~= text.subrange(
            spans[i].0 - base,
            spans[i].0 - base + spans[i].1,
        ));
    }
}

/// Every span in the list lies inside the text it was scanned from.
proof fn lemma_spans_inside<'a, P: Capture<'a>>(p: &P, text: Seq<u8>, base: int, i: int)
    requires
        valid_utf8(text),
        0 <= i < spec_spans(p, text, base).len(),
    ensures
        base <= spec_spans(p, text, base)[i].0,
        0 <= spec_spans(p, text, base)[i].1,
        spec_spans(p, text, base)[i].0 - base + spec_spans(p, text, base)[i].1 <= text.len(),
    decreases text.len(),
{
    let (m, rem, fin) = spec_step(p, text);
    let (s, l, items) = m->Some_0;
    lemma_step_progress(p, text);
    lemma_find_bounds(p, text);
    let spans = spec_spans(p, text, base);
    let base2 = base + text.len() - rem.len();
    if i == 0 {
    } else {
        let tail_spans = spec_spans(p, rem, base2);
        assert(spans[i] == tail_spans[i - 1]);
        lemma_spans_inside(p, rem, base2, i - 1);
    }
}

/// The suffix a step leaves behind is a suffix of the text it stepped on.
proof fn lemma_step_rem_suffix<'a, P: Capture<'a>>(p: &P, text: Seq<u8>)
    requires
        valid_utf8(text),
        spec_find(p, text) is Some,
    ensures
        ({
            let (m, rem, fin) = spec_step(p, text);
            rem =~= text.subrange(text.len() - rem.len(), text.len() as int)
        }),
{
    let (m, rem, fin) = spec_step(p, text);
    let (s, l, items) = m->Some_0;
    lemma_find_bounds(p, text);
    let after = text.subrange((s + l) as int, text.len() as int);
    if l == 0 && after.len() > 0 {
        valid_utf8_split(text, s as int);
        lemma_first_scalar_bounds(after);
        assert(rem == after.subrange(length_of_first_scalar(after), after.len() as int));
    }
}

/// The first match in `text`, with the captures and the remaining text.
fn find_step<'a, P: Capture<'a>>(p: &P, text: &'a str) -> (r: Option<
    (Captures<'a, P::Inner>, &'a str),
>)
    ensures
        r is Some <==> spec_find(p, text.spec_bytes()) is Some,
        r matches Some((caps, rest)) ==> {
            let (s, l, items) = spec_find(p, text.spec_bytes())->Some_0;
            &&& caps.captured_str.spec_bytes() == text.spec_bytes().subrange(
                s as int,
                (s + l) as int,
            )
            &&& caps.inner.items() == items
            &&& rest.spec_bytes() == text.spec_bytes().subrange(
                (s + l) as int,
                text.spec_bytes().len() as int,
            )
        },
    decreases text.spec_bytes().len(),
{
    proof {
        lemma_str_bytes_valid(text);
        if p.spec_capture(text.spec_bytes()) is Some {
            p.lemma_capture_bounds(text.spec_bytes());
        }
    }
    match p.capture(text) {
        Some(cr) => Some((cr.captures, cr.rest)),
        None => {
            match first_char(text) {
                Some((_, w)) => {
                    let (_, tail) = text.split_at(w);
                    match find_step(p, tail) {
                        Some((caps, rest)) => {
                            proof {
                                let b = text.spec_bytes();
                                lemma_str_bytes_valid(tail);
                                lemma_find_bounds(p, tail.spec_bytes());
                                let (s, l, it) = spec_find(p, tail.spec_bytes())->Some_0;
                                assert(tail.spec_bytes().subrange(s as int, (s + l) as int)
                                    =~= b.subrange((w + s) as int, (w + s + l) as int));
                                assert(tail.spec_bytes().subrange(
                                    (s + l) as int,
                                    tail.spec_bytes().len() as int,
                                ) =~= b.subrange((w + s + l) as int, b.len() as int));
                            }
                            Some((caps, rest))
                        },
                        None => None,
                    }
                },
                None => None,
            }
        },
    }
}

/// Scans a text for every non-overlapping match of a pattern, left to
/// right, one match per call to `next`.
pub struct MatchIterator<'a, P> {
    pattern: P,
    rest: &'a str,
    done: bool,
}

impl<'a, P: Capture<'a>> MatchIterator<'a, P> {
    /// The pattern being scanned for.
    pub closed spec fn spec_pattern(&self) -> P {
        self.pattern
    }

    /// The unscanned suffix of the text, as bytes.
    pub closed spec fn remaining(&self) -> Seq<u8> {
        self.rest.spec_bytes()
    }

    /// Whether scanning has reached the end of the text.
    pub closed spec fn exhausted(&self) -> bool {
        self.done
    }

    pub fn new(pattern: P, text: &'a str) -> (r: MatchIterator<'a, P>)
        ensures
            r.spec_pattern() == pattern,
            r.remaining() == text.spec_bytes(),
            !r.exhausted(),
    {
        MatchIterator { pattern, rest: text, done: false }
    }

    /// The next match, if any: its captures, the whole matched span in
    /// front. The cursor moves past the match, and past one further code
    /// point when the match was empty.
    pub fn next(&mut self) -> (r: Option<Captures<'a, P::Inner>>)
        ensures
            final(self).spec_pattern() == old(self).spec_pattern(),
            old(self).exhausted() ==> r is None && final(self).exhausted()
                && final(self).remaining() == old(self).remaining(),
            !old(self).exhausted() ==> ({
                let (m, rem, fin) = spec_step(
                    &old(self).spec_pattern(),
                    old(self).remaining(),
                );
                &&& final(self).remaining() == rem
                &&& final(self).exhausted() == fin
                &&& (r is Some <==> m is Some)
                &&& r matches Some(caps) ==> {
                    let (s, l, items) = m->Some_0;
                    &&& caps.captured_str.spec_bytes() == old(self).remaining().subrange(
                        s as int,
                        (s + l) as int,
                    )
                    &&& caps.inner.items() == items
                }
            }),
    {
        if self.done {
            return None;
        }
        proof {
            lemma_str_bytes_valid(self.rest);
            if spec_find(&self.pattern, self.rest.spec_bytes()) is Some {
                lemma_find_bounds(&self.pattern, self.rest.spec_bytes());
            }
        }
        match find_step(&self.pattern, self.rest) {
            Some((caps, rest)) => {
                let l = caps.captured_len();
                if l > 0 {
                    self.rest = rest;
                } else {
                    match first_char(rest) {
                        Some((_, w)) => {
                            proof {
                                lemma_str_bytes_valid(rest);
                            }
                            let (_, tail) = rest.split_at(w);
                            self.rest = tail;
                        },
                        None => {
                            self.rest = rest;
                            self.done = true;
                        },
                    }
                }
                Some(caps)
            },
            None => {
                self.done = true;
                None
            },
        }
    }
}

} // verus!
