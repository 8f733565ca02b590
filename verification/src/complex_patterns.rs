//! Combinators over the plain matching contract: ordered alternation,
//! concatenation, and exact or bounded repetition.
use vstd::prelude::*;

verus! {

use vstd::string::StringSliceAdditionalSpecFns;
use vstd::utf8::is_char_boundary;
use vstd::utf8::valid_utf8;
use vstd::utf8::valid_utf8_split;
use crate::reps::InvalidRepetitionConfiguration;
use crate::reps::Reps;
use crate::scan::Scan;
use crate::scan::ScanResult;
use crate::text::lemma_boundary_step;
use crate::text::lemma_str_bytes_valid;

/// The end position after applying `m` exactly `remaining` more times,
/// each time at the front of what is left of `text` after `pos`.
pub open spec fn spec_many<T: Scan>(m: &T, text: Seq<u8>, pos: int, remaining: int) -> Option<int>
    decreases remaining,
{
    if remaining <= 0 {
        Some(pos)
    } else {
        match m.spec_scan(text.subrange(pos, text.len() as int)) {
            None => None,
            Some(l) => spec_many(m, text, pos + l, remaining - 1),
        }
    }
}

/// Repetition never moves the end position backwards.
proof fn lemma_many_mono<T: Scan>(m: &T, text: Seq<u8>, pos: int, remaining: int)
    requires
        spec_many(m, text, pos, remaining) is Some,
    ensures
        spec_many(m, text, pos, remaining)->Some_0 >= pos,
    decreases remaining,
{
    if remaining > 0 {
        let l = m.spec_scan(text.subrange(pos, text.len() as int))->Some_0;
        lemma_many_mono(m, text, pos + l, remaining - 1);
    }
}

/// Each round ends on a character boundary, so the whole repetition does.
proof fn lemma_many_bounds<T: Scan>(m: &T, text: Seq<u8>, pos: int, remaining: int)
    requires
        valid_utf8(text),
        0 <= pos <= text.len(),
        is_char_boundary(text, pos),
        spec_many(m, text, pos, remaining) is Some,
    ensures
        pos <= spec_many(m, text, pos, remaining)->Some_0 <= text.len(),
        is_char_boundary(text, spec_many(m, text, pos, remaining)->Some_0),
    decreases remaining,
{
    if remaining > 0 {
        let sub = text.subrange(pos, text.len() as int);
        valid_utf8_split(text, pos);
        let l = m.spec_scan(sub)->Some_0;
        m.lemma_scan_bounds(sub);
        lemma_boundary_step(text, pos, l as int);
        lemma_many_bounds(m, text, pos + l, remaining - 1);
    }
}

/// A pattern that matches zero bytes of the empty text repeats on it any
/// number of times, still matching zero bytes.
proof fn lemma_many_stutter<T: Scan>(m: &T, remaining: int)
    requires
        m.spec_scan(Seq::<u8>::empty()) == Some(0nat),
    ensures
        spec_many(m, Seq::<u8>::empty(), 0, remaining) == Some(0int),
    decreases remaining,
{
    if remaining > 0 {
        assert(Seq::<u8>::empty().subrange(0, 0) =~= Seq::<u8>::empty());
        lemma_many_stutter(m, remaining - 1);
    }
}

/// Ordered alternation: the left pattern first; the right one only when
/// the left does not match at all.
///
/// # Examples
/// ```
/// # use rep::{Scan, complex_patterns::OrPattern};
/// let pattern = OrPattern("ab", "xy");
/// assert!(pattern.test("ab"));
/// assert!(pattern.test("xy"));
/// ```
#[derive(Clone, Copy)]
pub struct OrPattern<A, B>(pub A, pub B);

impl<A: Scan, B: Scan> Scan for OrPattern<A, B> {
    /// The left match when there is one, even when the right one would be
    /// longer; the right match only when the left pattern fails.
    open spec fn spec_scan(&self, text: Seq<u8>) -> Option<nat> {
        match self.0.spec_scan(text) {
            Some(l) => Some(l),
            None => self.1.spec_scan(text),
        }
    }

    proof fn lemma_scan_bounds(&self, text: Seq<u8>) {
        if self.0.spec_scan(text) is Some {
            self.0.lemma_scan_bounds(text);
        } else {
            self.1.lemma_scan_bounds(text);
        }
    }

    proof fn lemma_scan_empty(&self, text: Seq<u8>) {
        self.0.lemma_scan_empty(text);
        if self.1.spec_scan(Seq::<u8>::empty()) is None {
            self.1.lemma_scan_empty(text);
        }
    }

    fn scan(&self, text: &str) -> (r: ScanResult) {
        match self.0.scan(text) {
            Ok(l) => Ok(l),
            Err(()) => self.1.scan(text),
        }
    }
}

/// Concatenation: the left pattern at the front, then the right pattern
/// immediately after the left match; the lengths add up.
///
/// # Examples
/// ```
/// # use rep::{Scan, complex_patterns::AndPattern};
/// let pattern = AndPattern("ab", "xy");
/// assert!(pattern.test("abxy"));
/// ```
#[derive(Clone, Copy)]
pub struct AndPattern<A, B>(pub A, pub B);

impl<A: Scan, B: Scan> Scan for AndPattern<A, B> {
    /// The sum of the left match and the right match on what follows it;
    /// no match at all when either part fails.
    open spec fn spec_scan(&self, text: Seq<u8>) -> Option<nat> {
        match self.0.spec_scan(text) {
            None => None,
            Some(la) => if la <= text.len() {
                match self.1.spec_scan(text.subrange(la as int, text.len() as int)) {
                    None => None,
                    Some(lb) => Some((la + lb) as nat),
                }
            } else {
                None
            },
        }
    }

    proof fn lemma_scan_bounds(&self, text: Seq<u8>) {
        let la = self.0.spec_scan(text)->Some_0;
        self.0.lemma_scan_bounds(text);
        valid_utf8_split(text, la as int);
        let rest = text.subrange(la as int, text.len() as int);
        self.1.lemma_scan_bounds(rest);
        let lb = self.1.spec_scan(rest)->Some_0;
        lemma_boundary_step(text, la as int, lb as int);
    }

    proof fn lemma_scan_empty(&self, text: Seq<u8>) {
        let e = Seq::<u8>::empty();
        if self.spec_scan(text) == Some(0nat) {
            let la = self.0.spec_scan(text)->Some_0;
            let rest = text.subrange(la as int, text.len() as int);
            let lb = self.1.spec_scan(rest)->Some_0;
            assert(la == 0 && lb == 0);
            assert(rest =~= text);
            if self.0.spec_scan(e) is None {
                self.0.lemma_scan_empty(text);
                assert(false);
            }
            self.0.lemma_scan_bounds(e);
            assert(self.0.spec_scan(e) == Some(0nat));
            if self.1.spec_scan(e) is None {
                self.1.lemma_scan_empty(text);
                assert(false);
            }
            self.1.lemma_scan_bounds(e);
            assert(self.1.spec_scan(e) == Some(0nat));
            assert(e.subrange(0, 0) =~= e);
            assert(self.spec_scan(e) == Some(0nat));
        }
    }

    fn scan(&self, text: &str) -> (r: ScanResult) {
        proof {
            lemma_str_bytes_valid(text);
        }
        let limit = text.as_bytes().len();
        match self.0.scan(text) {
            Ok(la) => {
                proof {
                    self.0.lemma_scan_bounds(text.spec_bytes());
                    valid_utf8_split(text.spec_bytes(), la as int);
                }
                let (_, rest) = text.split_at(la);
                match self.1.scan(rest) {
                    Ok(lb) => {
                        proof {
                            self.1.lemma_scan_bounds(rest.spec_bytes());
                        }
                        Ok(la + lb)
                    },
                    Err(()) => Err(()),
                }
            },
            Err(()) => Err(()),
        }
    }
}

/// One round of a repetition, applied at byte offset `from` of `text`.
/// Returns the offset just past the round's match.
fn scan_round<T: Scan>(m: &T, text: &str, from: usize) -> (r: Option<usize>)
    requires
        from <= text.spec_bytes().len(),
        is_char_boundary(text.spec_bytes(), from as int),
    ensures
        ({
            let o = m.spec_scan(
                text.spec_bytes().subrange(from as int, text.spec_bytes().len() as int),
            );
            &&& r is Some <==> o is Some
            &&& r matches Some(p) ==> {
                &&& o == Some((p - from) as nat)
                &&& from <= p <= text.spec_bytes().len()
                &&& is_char_boundary(text.spec_bytes(), p as int)
            }
        }),
{
    proof {
        lemma_str_bytes_valid(text);
        valid_utf8_split(text.spec_bytes(), from as int);
    }
    let total = text.as_bytes().len();
    let (_, rest) = text.split_at(from);
    match m.scan(rest) {
        Ok(l) => {
            proof {
                m.lemma_scan_bounds(rest.spec_bytes());
                lemma_boundary_step(text.spec_bytes(), from as int, l as int);
                assert(from + l <= total);
            }
            Some(from + l)
        },
        Err(()) => None,
    }
}

/// Applies `m` exactly `remaining` more times, starting at offset `from`.
fn scan_many<T: Scan>(m: &T, text: &str, from: usize, remaining: u32) -> (r: Option<usize>)
    requires
        from <= text.spec_bytes().len(),
        is_char_boundary(text.spec_bytes(), from as int),
    ensures
        ({
            let o = spec_many(m, text.spec_bytes(), from as int, remaining as int);
            &&& r is Some <==> o is Some
            &&& r matches Some(p) ==> {
                &&& o == Some(p as int)
                &&& from <= p <= text.spec_bytes().len()
                &&& is_char_boundary(text.spec_bytes(), p as int)
            }
        }),
    decreases remaining,
{
    if remaining == 0 {
        Some(from)
    } else {
        match scan_round(m, text, from) {
            Some(p) => scan_many(m, text, p, remaining - 1),
            None => None,
        }
    }
}

/// Exact repetition: the inner pattern applied a fixed number of times,
/// each time where the previous round ended. Zero rounds always match
/// zero bytes, without consulting the inner pattern.
///
/// # Examples
/// ```
/// # use rep::{Scan, complex_patterns::ManyPattern};
/// let pattern = ManyPattern("a", 3);
/// assert!(pattern.test("aaa"));
/// ```
#[derive(Clone, Copy)]
pub struct ManyPattern<T>(pub T, pub u32);

impl<T: Scan> Scan for ManyPattern<T> {
    /// The sum of the rounds' lengths when every round matches; no match
    /// at all when any round fails.
    open spec fn spec_scan(&self, text: Seq<u8>) -> Option<nat> {
        match spec_many(&self.0, text, 0, self.1 as int) {
            Some(p) => if 0 <= p <= text.len() {
                Some(p as nat)
            } else {
                None
            },
            None => None,
        }
    }

    proof fn lemma_scan_bounds(&self, text: Seq<u8>) {
        lemma_many_bounds(&self.0, text, 0, self.1 as int);
    }

    proof fn lemma_scan_empty(&self, text: Seq<u8>) {
        let e = Seq::<u8>::empty();
        if self.spec_scan(text) == Some(0nat) {
            if self.1 == 0 {
                assert(self.spec_scan(e) == Some(0nat));
            } else {
                assert(m_first_round_empty(&self.0, text, self.1 as int)) by {
                    let l = self.0.spec_scan(text.subrange(0, text.len() as int))->Some_0;
                    lemma_many_mono(&self.0, text, l as int, self.1 as int - 1);
                }
                assert(text.subrange(0, text.len() as int) =~= text);
                if self.0.spec_scan(e) is None {
                    self.0.lemma_scan_empty(text);
                    assert(false);
                }
                self.0.lemma_scan_bounds(e);
                lemma_many_stutter(&self.0, self.1 as int);
                assert(self.spec_scan(e) == Some(0nat));
            }
        }
    }

    fn scan(&self, text: &str) -> (r: ScanResult) {
        proof {
            lemma_str_bytes_valid(text);
            assert(is_char_boundary(text.spec_bytes(), 0));
        }
        match scan_many(&self.0, text, 0, self.1) {
            Some(p) => Ok(p),
            None => Err(()),
        }
    }
}

/// The first round of a nonempty exact repetition that ends where it
/// began matched zero bytes.
spec fn m_first_round_empty<T: Scan>(m: &T, text: Seq<u8>, n: int) -> bool {
    (n > 0 && spec_many(m, text, 0, n) == Some(0int)) ==> m.spec_scan(
        text.subrange(0, text.len() as int),
    ) == Some(0nat)
}

/// Greedy repetition of `m` from byte offset `pos` of `text`, having
/// already matched `count` rounds: rounds are added until the upper bound
/// is reached or a round fails, and the final offset and count are
/// reported. `None` stands for the one configuration that cannot be
/// evaluated: a round that consumes nothing under no upper bound.
pub open spec fn spec_repeat<T: Scan>(
    m: &T,
    text: Seq<u8>,
    pos: int,
    count: int,
    max: Option<u32>,
) -> Option<(int, int)>
    decreases
            (match max {
                Some(mx) => mx as int - count,
                None => text.len() - pos,
            }),
{
    match max {
        Some(mx) => {
            if count >= mx as int {
                Some((pos, count))
            } else {
                match m.spec_scan(text.subrange(pos, text.len() as int)) {
                    None => Some((pos, count)),
                    Some(l) => spec_repeat(m, text, pos + l, count + 1, max),
                }
            }
        },
        None => {
            match m.spec_scan(text.subrange(pos, text.len() as int)) {
                None => Some((pos, count)),
                Some(l) => {
                    if l == 0 || pos < 0 || pos + l > text.len() {
                        None
                    } else {
                        spec_repeat(m, text, pos + l, count + 1, max)
                    }
                },
            }
        },
    }
}

/// Greedy repetition never moves backwards, never drops rounds, and never
/// exceeds its upper bound.
proof fn lemma_repeat_mono<T: Scan>(m: &T, text: Seq<u8>, pos: int, count: int, max: Option<u32>)
    requires
        spec_repeat(m, text, pos, count, max) is Some,
    ensures
        spec_repeat(m, text, pos, count, max)->Some_0.0 >= pos,
        spec_repeat(m, text, pos, count, max)->Some_0.1 >= count,
        (match max {
            Some(mx) => count <= mx as int ==> spec_repeat(m, text, pos, count, max)->Some_0.1
                <= mx as int,
            None => true,
        }),
    decreases
            (match max {
                Some(mx) => mx as int - count,
                None => text.len() - pos,
            }),
{
    match max {
        Some(mx) => {
            if count < mx as int {
                match m.spec_scan(text.subrange(pos, text.len() as int)) {
                    None => {},
                    Some(l) => {
                        lemma_repeat_mono(m, text, pos + l, count + 1, max);
                    },
                }
            }
        },
        None => {
            match m.spec_scan(text.subrange(pos, text.len() as int)) {
                None => {},
                Some(l) => {
                    if !(l == 0 || pos < 0 || pos + l > text.len()) {
                        lemma_repeat_mono(m, text, pos + l, count + 1, max);
                    }
                },
            }
        },
    }
}

/// Each round of a greedy repetition ends on a character boundary, so the
/// whole repetition does.
proof fn lemma_repeat_bounds<T: Scan>(m: &T, text: Seq<u8>, pos: int, count: int, max: Option<u32>)
    requires
        valid_utf8(text),
        0 <= pos <= text.len(),
        is_char_boundary(text, pos),
        spec_repeat(m, text, pos, count, max) is Some,
    ensures
        pos <= spec_repeat(m, text, pos, count, max)->Some_0.0 <= text.len(),
        is_char_boundary(text, spec_repeat(m, text, pos, count, max)->Some_0.0),
    decreases
            (match max {
                Some(mx) => mx as int - count,
                None => text.len() - pos,
            }),
{
    let sub = text.subrange(pos, text.len() as int);
    match max {
        Some(mx) => {
            if count < mx as int && m.spec_scan(sub) is Some {
                let l = m.spec_scan(sub)->Some_0;
                valid_utf8_split(text, pos);
                m.lemma_scan_bounds(sub);
                lemma_boundary_step(text, pos, l as int);
                lemma_repeat_bounds(m, text, pos + l, count + 1, max);
            }
        },
        None => {
            if m.spec_scan(sub) is Some {
                let l = m.spec_scan(sub)->Some_0;
                if !(l == 0 || pos + l > text.len()) {
                    valid_utf8_split(text, pos);
                    m.lemma_scan_bounds(sub);
                    lemma_boundary_step(text, pos, l as int);
                    lemma_repeat_bounds(m, text, pos + l, count + 1, max);
                }
            }
        },
    }
}

/// A pattern that matches zero bytes of the empty text repeats on it up
/// to any upper bound, ending where it began with the bound exhausted.
proof fn lemma_repeat_stutter<T: Scan>(m: &T, count: int, mx: u32)
    requires
        m.spec_scan(Seq::<u8>::empty()) == Some(0nat),
        count <= mx as int,
    ensures
        spec_repeat(m, Seq::<u8>::empty(), 0, count, Some(mx)) == Some((0int, mx as int)),
    decreases mx as int - count,
{
    assert(Seq::<u8>::empty().subrange(0, 0) =~= Seq::<u8>::empty());
    if count < mx as int {
        lemma_repeat_stutter(m, count + 1, mx);
    }
}

/// Bounded repetition: the inner pattern applied greedily, as often as
/// the upper bound allows, never fewer times than a round's failure
/// forces; the match stands only when the achieved count reaches the
/// lower bound. Greedy with no backtracking: the count only grows.
///
/// # Examples
/// ```
/// # use rep::{Scan, Reps, complex_patterns::RangePattern};
/// let pattern = RangePattern("a", Reps::between(1, 2));
/// assert!(pattern.test("a"));
/// assert!(pattern.test("aa"));
/// ```
#[derive(Clone, Copy)]
pub struct RangePattern<T>(pub T, pub Reps);

impl<T: Scan> RangePattern<T> {
    /// Rejects the one configuration the engine cannot evaluate: no upper
    /// bound over an inner pattern that matches the empty text, where
    /// greedy repetition would never stop.
    pub fn check_repetition(&self) -> (r: Result<(), InvalidRepetitionConfiguration>)
        ensures
            r is Ok <==> !(self.1.max is None && self.0.spec_scan(Seq::<u8>::empty()) is Some),
    {
        if self.1.max.is_none() {
            let probe: &str = "";
            proof {
                reveal_strlit("");
                lemma_probe_is_empty(probe);
            }
            match self.0.scan(probe) {
                Ok(_) => Err(InvalidRepetitionConfiguration),
                Err(()) => Ok(()),
            }
        } else {
            Ok(())
        }
    }
}

/// The literal `""` has no bytes.
proof fn lemma_probe_is_empty(probe: &str)
    requires
        probe@ =~= Seq::<char>::empty(),
    ensures
        probe.spec_bytes() =~= Seq::<u8>::empty(),
{
    assert(vstd::utf8::encode_utf8(Seq::<char>::empty()) =~= Seq::<u8>::empty());
}

impl<T: Scan> Scan for RangePattern<T> {
    /// The greedy repetition's total length when its count reaches the
    /// lower bound; no match when it falls short, and no match ever for
    /// the rejected unbounded-over-empty configuration.
    open spec fn spec_scan(&self, text: Seq<u8>) -> Option<nat> {
        if self.1.max is None && self.0.spec_scan(Seq::<u8>::empty()) is Some {
            None
        } else {
            match spec_repeat(&self.0, text, 0, 0, self.1.max) {
                Some((p, c)) => if c >= self.1.min as int && 0 <= p <= text.len() {
                    Some(p as nat)
                } else {
                    None
                },
                None => None,
            }
        }
    }

    proof fn lemma_scan_bounds(&self, text: Seq<u8>) {
        lemma_repeat_bounds(&self.0, text, 0, 0, self.1.max);
    }

    proof fn lemma_scan_empty(&self, text: Seq<u8>) {
        let e = Seq::<u8>::empty();
        let m = &self.0;
        if self.spec_scan(text) == Some(0nat) {
            let pc = spec_repeat(m, text, 0, 0, self.1.max)->Some_0;
            assert(text.subrange(0, text.len() as int) =~= text);
            assert(e.subrange(0, 0) =~= e);
            match self.1.max {
                Some(mx) => {
                    lemma_repeat_mono(m, text, 0, 0, self.1.max);
                    if mx == 0 {
                        assert(self.spec_scan(e) == Some(0nat));
                    } else {
                        match m.spec_scan(text) {
                            None => {
                                assert(pc.1 == 0 && self.1.min == 0);
                                match m.spec_scan(e) {
                                    None => {
                                        assert(self.spec_scan(e) == Some(0nat));
                                    },
                                    Some(k) => {
                                        m.lemma_scan_bounds(e);
                                        lemma_repeat_stutter(m, 0, mx);
                                        assert(self.spec_scan(e) == Some(0nat));
                                    },
                                }
                            },
                            Some(l) => {
                                lemma_repeat_mono(m, text, 0 + l as int, 1, self.1.max);
                                assert(l == 0);
                                if m.spec_scan(e) is None {
                                    m.lemma_scan_empty(text);
                                    assert(false);
                                }
                                m.lemma_scan_bounds(e);
                                lemma_repeat_stutter(m, 0, mx);
                                assert(self.spec_scan(e) == Some(0nat));
                            },
                        }
                    }
                    assert(false);
                },
                None => {
                    assert(m.spec_scan(e) is None);
                    m.lemma_scan_empty(text);
                    match m.spec_scan(text) {
                        None => {
                            assert(pc.1 == 0 && self.1.min == 0);
                            assert(spec_repeat(m, e, 0, 0, self.1.max) == Some((0int, 0int)));
                            assert(self.spec_scan(e) == Some(0nat));
                            assert(false);
                        },
                        Some(l) => {
                            assert(l >= 1);
                            if 0 + l <= text.len() {
                                lemma_repeat_mono(m, text, 0 + l as int, 1, self.1.max);
                            }
                            assert(false);
                        },
                    }
                },
            }
        }
    }

    fn scan(&self, text: &str) -> (r: ScanResult) {
        proof {
            lemma_str_bytes_valid(text);
            assert(is_char_boundary(text.spec_bytes(), 0));
        }
        if self.1.max.is_none() {
            let probe: &str = "";
            proof {
                reveal_strlit("");
                lemma_probe_is_empty(probe);
            }
            if self.0.scan(probe).is_ok() {
                return Err(());
            }
        }
        let (p, c) = scan_repeat(&self.0, text, 0, 0, self.1.max);
        if c >= self.1.min as usize {
            Ok(p)
        } else {
            Err(())
        }
    }
}

/// Applies `m` greedily from offset `from`, `count` rounds already done.
fn scan_repeat<T: Scan>(m: &T, text: &str, from: usize, count: usize, max: Option<u32>) -> (r: (
    usize,
    usize,
))
    requires
        from <= text.spec_bytes().len(),
        is_char_boundary(text.spec_bytes(), from as int),
        max is None ==> m.spec_scan(Seq::<u8>::empty()) is None && count <= from,
        max matches Some(mx) ==> count <= mx,
    ensures
        spec_repeat(m, text.spec_bytes(), from as int, count as int, max) == Some(
            (r.0 as int, r.1 as int),
        ),
        from <= r.0 <= text.spec_bytes().len(),
        is_char_boundary(text.spec_bytes(), r.0 as int),
    decreases
            (match max {
                Some(mx) => mx as int - count,
                None => text.spec_bytes().len() - from,
            }),
{
    match max {
        Some(mx) => {
            if count >= mx as usize {
                (from, count)
            } else {
                match scan_round(m, text, from) {
                    Some(p) => scan_repeat(m, text, p, count + 1, max),
                    None => (from, count),
                }
            }
        },
        None => {
            match scan_round(m, text, from) {
                Some(p) => {
                    proof {
                        lemma_str_bytes_valid(text);
                        valid_utf8_split(text.spec_bytes(), from as int);
                        m.lemma_scan_empty(
                            text.spec_bytes().subrange(
                                from as int,
                                text.spec_bytes().len() as int,
                            ),
                        );
                        assert(p > from);
                    }
                    scan_repeat(m, text, p, count + 1, max)
                },
                None => (from, count),
            }
        },
    }
}

/// An unbounded repetition over a pattern that matches the empty text is
/// the rejected configuration: it reports no match on any text, rather
/// than evaluating a repetition that could never stop.
pub proof fn lemma_unbounded_empty_rejected<T: Scan>(p: &RangePattern<T>, text: Seq<u8>)
    requires
        p.1.max is None,
        p.0.spec_scan(Seq::<u8>::empty()) is Some,
    ensures
        p.spec_scan(text) is None,
{
}

/// Repeating any pattern exactly zero times matches every text with
/// length zero; the inner pattern is never consulted.
pub proof fn lemma_repeat_zero_always_empty<T: Scan>(p: &ManyPattern<T>, text: Seq<u8>)
    requires
        p.1 == 0,
    ensures
        p.spec_scan(text) == Some(0nat),
{
}

/// Concatenation accepts the same matches however it is grouped: what the
/// left-nested sequence matches, the right-nested one matches, byte for
/// byte, and neither matches where the other does not.
pub proof fn lemma_sequence_associative<A: Scan, B: Scan, C: Scan>(
    left: &AndPattern<AndPattern<A, B>, C>,
    right: &AndPattern<A, AndPattern<B, C>>,
    text: Seq<u8>,
)
    requires
        valid_utf8(text),
        left.0.0 == right.0,
        left.0.1 == right.1.0,
        left.1 == right.1.1,
    ensures
        left.spec_scan(text) == right.spec_scan(text),
{
    let a = &left.0.0;
    let b = &left.0.1;
    let c = &left.1;
    if a.spec_scan(text) is Some {
        let la = a.spec_scan(text)->Some_0;
        a.lemma_scan_bounds(text);
        valid_utf8_split(text, la as int);
        let rest1 = text.subrange(la as int, text.len() as int);
        if b.spec_scan(rest1) is Some {
            let lb = b.spec_scan(rest1)->Some_0;
            b.lemma_scan_bounds(rest1);
            assert(text.subrange((la + lb) as int, text.len() as int) =~= rest1.subrange(
                lb as int,
                rest1.len() as int,
            ));
        }
    }
}

} // verus!
