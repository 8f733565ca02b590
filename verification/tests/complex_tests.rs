use rep::pattern::Pattern;
use rep::CharClass;
use rep::Reps;
use rep::Scan;

#[test]
fn complex_patterns_or_pattern() {
    let pattern = Pattern("foo").or("bar");
    assert!(pattern.test("foo"));
    assert!(pattern.test("bar"));
    assert!(!pattern.test("baz"));
    assert!(!pattern.test(""));

    assert_eq!(pattern.scan_split("foo bar"), Ok(("foo", " bar")));
    assert_eq!(pattern.scan_split("bar"), Ok(("bar", "")));
    assert_eq!(pattern.scan_split(""), Err(()));
}

#[test]
fn complex_patterns_and_pattern() {
    let pattern = Pattern("foo").and("bar");
    assert!(pattern.test("foobar"));
    assert!(!pattern.test("foo"));
    assert!(!pattern.test("bar"));
    assert!(!pattern.test(""));

    assert_eq!(pattern.scan_split("foobar baz"), Ok(("foobar", " baz")));
    assert_eq!(pattern.scan_split("foobar"), Ok(("foobar", "")));
    assert_eq!(pattern.scan_split(""), Err(()));
}

#[test]
fn complex_patterns_many_pattern() {
    let pattern = Pattern("a").times(3);
    assert!(pattern.test("aaa"));
    assert!(!pattern.test("aa"));
    assert!(!pattern.test("aaaa"));
    assert!(!pattern.test(""));

    assert_eq!(pattern.scan_split("aaaa"), Ok(("aaa", "a")));
    assert_eq!(pattern.scan_split("aaa"), Ok(("aaa", "")));
    assert_eq!(pattern.scan_split(""), Err(()));

    let empty_pattern = Pattern("b").times(0);
    assert!(empty_pattern.test(""));
}

#[test]
fn complex_patterns_range_pattern() {
    let full = Pattern("a").repeats(Reps::any());
    assert!(full.test(""));
    assert!(full.test("a"));
    assert!(full.test("aa"));
    assert!(full.test("aaa"));

    let from = Pattern("b").repeats(Reps::at_least(2));
    assert!(!from.test(""));
    assert!(!from.test("b"));
    assert!(from.test("bb"));
    assert!(from.test("bbb"));

    let to = Pattern("c").repeats(Reps::at_most(1));
    assert!(to.test(""));
    assert!(to.test("c"));
    assert!(!to.test("cc"));

    let to_inclusive = Pattern("d").repeats(Reps::at_most(2));
    assert!(to_inclusive.test(""));
    assert!(to_inclusive.test("d"));
    assert!(to_inclusive.test("dd"));
    assert!(!to_inclusive.test("ddd"));

    let range = Pattern("e").repeats(Reps::between(1, 2));
    assert!(!range.test(""));
    assert!(range.test("e"));
    assert!(range.test("ee"));
    assert!(!range.test("eee"));

    let range_inclusive = Pattern("f").repeats(Reps::between(1, 2));
    assert!(!range_inclusive.test(""));
    assert!(range_inclusive.test("f"));
    assert!(range_inclusive.test("ff"));
    assert!(!range_inclusive.test("fff"));
}

#[test]
fn complex_patterns_combine_patterns() {
    let a = Pattern("a").or("b").or("c");
    let b = Pattern("0").and("").and("1");

    let ab = a.and(b);
    assert!(ab.test("a01"));
    assert!(ab.test("b01"));
    assert!(ab.test("c01"));
    assert!(!ab.test("c0"));

    let a_b = a.or(b);
    assert!(a_b.test("a"));
    assert!(a_b.test("b"));
    assert!(a_b.test("c"));
    assert!(a_b.test("01"));
    assert!(!a_b.test("0"));

    let aaa = a.times(3);
    assert!(aaa.test("aaa"));
    assert!(aaa.test("abc"));
    assert!(aaa.test("bac"));

    let bb = b.times(2);
    assert!(bb.test("0101"));
    assert!(!bb.test("01"));
    assert!(!bb.test("010101"));

    let a_aaa = a.repeats(Reps::between(1, 3));
    assert!(a_aaa.test("b"));
    assert!(a_aaa.test("cb"));
    assert!(a_aaa.test("bca"));
    assert!(!a_aaa.test("aabb"));
    assert!(!a_aaa.test(""));

    let b_bb = b.repeats(Reps::between(1, 2));
    assert!(b_bb.test("01"));
    assert!(b_bb.test("0101"));
    assert!(!b_bb.test("010101"));
    assert!(!b_bb.test(""));
}

#[test]
fn pattern_str() {
    let pattern = Pattern("some text");
    let same = "some text";
    assert_eq!(pattern.scan(same), Ok(same.len()));
    assert_eq!(pattern.scan("some text more"), Ok(pattern.0.len()));
    assert_eq!(pattern.scan("text"), Err(()));
}

#[test]
fn pattern_char() {
    let pattern = Pattern('a');
    assert_eq!(pattern.scan("a"), Ok(1));
    assert_eq!(pattern.scan("ab"), Ok(1));
    assert_eq!(pattern.scan("b"), Err(()));
}

#[test]
fn combine_class_patterns() {
    let not_a_3 = Pattern(CharClass::Ne('a')).times(3);
    assert!(not_a_3.test("zzz"));
    assert!(!not_a_3.test("zz"));
    assert!(!not_a_3.test("zzzz"));
    assert!(!not_a_3.test("aaa"));
    assert!(!not_a_3.test("zza"));

    let whitespace_or_alpha = Pattern(CharClass::Whitespace).or(CharClass::Alphabetic);
    assert!(whitespace_or_alpha.test("a"));
    assert!(whitespace_or_alpha.test(" "));
    assert!(!whitespace_or_alpha.test("*"));

    let w_a_range = whitespace_or_alpha.repeats(Reps::between(1, 2));
    assert!(w_a_range.test("a"));
    assert!(w_a_range.test("a "));
    assert!(!w_a_range.test(""));
    assert!(!w_a_range.test("z+"));
    assert!(!w_a_range.test(" f "));
}
