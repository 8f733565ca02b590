//! A wrapper that gives any plain pattern the combinator builders.
use vstd::prelude::*;

verus! {

use crate::complex_patterns::AndPattern;
use crate::complex_patterns::ManyPattern;
use crate::complex_patterns::OrPattern;
use crate::complex_patterns::RangePattern;
use crate::reps::Reps;
use crate::scan::Scan;
use crate::scan::ScanResult;

/// Struct for `Scan` trait using: `Pattern<T: Scan>` itself implements
/// `Scan`, and offers the builders that compose patterns.
///
/// # Examples
/// ```
/// # use rep::{Scan, pattern::Pattern};
/// let a_or_b = Pattern("a").or(Pattern("b"));
/// assert!(a_or_b.test("a"));
/// assert!(a_or_b.test("b"));
/// ```
#[derive(Clone, Copy)]
pub struct Pattern<T>(pub T);

impl<T: Scan> Scan for Pattern<T> {
    /// Matches exactly as the pattern it wraps.
    open spec fn spec_scan(&self, text: Seq<u8>) -> Option<nat> {
        self.0.spec_scan(text)
    }

    proof fn lemma_scan_bounds(&self, text: Seq<u8>) {
        self.0.lemma_scan_bounds(text);
    }

    proof fn lemma_scan_empty(&self, text: Seq<u8>) {
        self.0.lemma_scan_empty(text);
    }

    fn scan(&self, text: &str) -> (r: ScanResult) {
        self.0.scan(text)
    }
}

impl<T: Scan> Pattern<T> {
    /// Alternation: this pattern, or `rhs` where this one fails.
    ///
    /// # Examples
    /// ```
    /// # use rep::{Scan, pattern::Pattern};
    /// let a_or_b = Pattern("a").or("b");
    /// assert!(a_or_b.test("a"));
    /// assert!(a_or_b.test("b"));
    /// ```
    pub fn or<B: Scan>(self, rhs: B) -> (r: Pattern<OrPattern<T, B>>)
        ensures
            r.0.0 == self.0,
            r.0.1 == rhs,
    {
        Pattern(OrPattern(self.0, rhs))
    }

    /// Concatenation: this pattern, then `rhs` right after it.
    ///
    /// # Examples
    /// ```
    /// # use rep::{Scan, pattern::Pattern};
    /// let ab = Pattern("a").and("b");
    /// assert!(ab.test("ab"));
    /// ```
    pub fn and<B: Scan>(self, rhs: B) -> (r: Pattern<AndPattern<T, B>>)
        ensures
            r.0.0 == self.0,
            r.0.1 == rhs,
    {
        Pattern(AndPattern(self.0, rhs))
    }

    /// Exact repetition: this pattern `n` times in a row.
    ///
    /// # Examples
    /// ```
    /// # use rep::{Scan, pattern::Pattern};
    /// let aaa = Pattern("a").times(3);
    /// assert!(aaa.test("aaa"));
    /// ```
    pub fn times(self, n: u32) -> (r: Pattern<ManyPattern<T>>)
        ensures
            r.0.0 == self.0,
            r.0.1 == n,
    {
        Pattern(ManyPattern(self.0, n))
    }

    /// Bounded repetition: this pattern as often as `reps` allows.
    ///
    /// # Examples
    /// ```
    /// # use rep::{Scan, Reps, pattern::Pattern};
    /// let some_a = Pattern("a").repeats(Reps::between(1, 2));
    /// assert!(some_a.test("a"));
    /// assert!(some_a.test("aa"));
    /// ```
    pub fn repeats(self, reps: Reps) -> (r: Pattern<RangePattern<T>>)
        ensures
            r.0.0 == self.0,
            r.0.1 == reps,
    {
        Pattern(RangePattern(self.0, reps))
    }
}

} // verus!
