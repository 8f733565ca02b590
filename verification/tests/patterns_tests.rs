use rep::cap;
use rep::CharClass;
use rep::Pattern;
use rep::Reps;

#[test]
fn and_pattern_and_pattern() {
    let pattern = Pattern("foo").and("bar");
    assert!(pattern.test("foobar"));
    assert!(!pattern.test("foo"));
    assert!(!pattern.test("bar"));
    assert!(!pattern.test(""));

    let a = Pattern("").and("a");
    assert!(a.test("a"));

    let b = Pattern("").and("b");
    assert!(b.test("b"));

    let empty_pattern = Pattern("").and("");
    assert!(empty_pattern.test(""));
    assert!(!empty_pattern.test("a"));
    assert!(!empty_pattern.test("b"));
}

#[test]
fn or_pattern_or_pattern() {
    let pattern = Pattern("foo").or("bar");
    assert!(pattern.test("foo"));
    assert!(pattern.test("bar"));
    assert!(!pattern.test("baz"));
    assert!(!pattern.test(""));

    let a = Pattern("a").or("");
    assert!(a.test(""));
    assert!(a.test("a"));
    assert!(!a.test("b"));

    let b = Pattern("").or("b");
    assert!(b.test(""));

    // This pattern will match "" first
    // thus "b" will never match
    assert!(!b.test("b"));
    assert!(!b.test("a"));

    let empty_pattern = Pattern("").or("");
    assert!(empty_pattern.test(""));
    assert!(!empty_pattern.test("x"));
}

#[test]
fn many_pattern_many_pattern() {
    let pattern = Pattern("ab").times(3);
    assert!(pattern.test("ababab"));
    assert!(!pattern.test("aba"));
    assert!(!pattern.test("a"));
    assert!(!pattern.test("abab"));
    assert!(!pattern.test("abababab"));
    assert!(!pattern.test(""));

    let empty_pattern = Pattern("b").times(0);
    assert!(empty_pattern.test(""));

    let pattern = Pattern("z").times(4);
    assert!(!pattern.test(""));
    assert!(!pattern.test("z"));
    assert!(!pattern.test("zz"));
    assert!(!pattern.test("zzz"));
    assert!(pattern.test("zzzz"));
    assert!(!pattern.test("zzzzz"));
}

#[test]
fn range_pattern_range_pattern() {
    let full = Pattern("a").repeats(Reps::any());
    assert!(full.test(""));
    assert!(full.test("a"));
    assert!(full.test("aa"));
    assert!(full.test("aaa"));

    let from = Pattern("b").repeats(Reps::at_least(2));
    assert!(!from.test(""));
    assert!(!from.test("b"));
    assert!(from.test("bb"));
    assert!(from.test("bbb"));

    let to = Pattern("c").repeats(Reps::at_most(1));
    assert!(to.test(""));
    assert!(to.test("c"));
    assert!(!to.test("cc"));

    let to_inclusive = Pattern("d").repeats(Reps::at_most(2));
    assert!(to_inclusive.test(""));
    assert!(to_inclusive.test("d"));
    assert!(to_inclusive.test("dd"));
    assert!(!to_inclusive.test("ddd"));

    let range = Pattern("e").repeats(Reps::between(1, 2));
    assert!(!range.test(""));
    assert!(range.test("e"));
    assert!(range.test("ee"));
    assert!(!range.test("eee"));

    let range_inclusive = Pattern("f").repeats(Reps::between(1, 2));
    assert!(!range_inclusive.test(""));
    assert!(range_inclusive.test("f"));
    assert!(range_inclusive.test("ff"));
    assert!(!range_inclusive.test("fff"));
}

#[test]
fn pattern_pattern_str() {
    let pattern = Pattern("some text");
    assert!(pattern.test("some text"));
    assert!(!pattern.test("some text_"));
    assert!(!pattern.test("text"));
    assert!(!pattern.test(""));
}

#[test]
fn pattern_pattern_char() {
    let pattern = Pattern('a');
    assert!(pattern.test("a"));
    assert!(!pattern.test("ab"));
    assert!(!pattern.test("b"));
}

#[test]
fn pattern_matches() {
    let xy = Pattern("xy");
    let xy_matches: Vec<&str> = xy.matched_strs("ab cxy yx xy x xxy.");
    assert_eq!(xy_matches, ["xy", "xy", "xy"]);

    let x_y = Pattern('x').or('y');
    let x_y_matches: Vec<&str> = x_y.matched_strs("ab cx y lol*yx");
    assert_eq!(x_y_matches, ["x", "y", "y", "x"]);
}

#[test]
fn pattern_caps() {
    let x = Pattern('x');
    let y = Pattern('y');
    let xy = cap(x).and(cap(y));
    let mut xy_matches = xy.matches("zxy.");

    let caps = xy_matches.next().unwrap();
    let captures: Vec<&str> = caps.collect();
    assert_eq!(captures, ["xy", "x", "y"]);

    assert!(xy_matches.next().is_none());
}

#[test]
fn pattern_combine_patterns() {
    let a = Pattern("a").or("b").or("c");
    let b = Pattern("0").and("").and("1");

    let ab = a.and(b);
    assert!(ab.test("a01"));
    assert!(ab.test("b01"));
    assert!(ab.test("c01"));
    assert!(!ab.test("c0"));

    let a_b = a.or(b);
    assert!(a_b.test("a"));
    assert!(a_b.test("b"));
    assert!(a_b.test("c"));
    assert!(a_b.test("01"));
    assert!(!a_b.test("0"));

    let aaa = a.times(3);
    assert!(aaa.test("aaa"));
    assert!(aaa.test("abc"));
    assert!(aaa.test("bac"));

    let bb = b.times(2);
    assert!(bb.test("0101"));
    assert!(!bb.test("01"));
    assert!(!bb.test("010101"));

    let a_aaa = a.repeats(Reps::between(1, 3));
    assert!(a_aaa.test("b"));
    assert!(a_aaa.test("cb"));
    assert!(a_aaa.test("bca"));
    assert!(!a_aaa.test("aabb"));
    assert!(!a_aaa.test(""));

    let b_bb = b.repeats(Reps::between(1, 2));
    assert!(b_bb.test("01"));
    assert!(b_bb.test("0101"));
    assert!(!b_bb.test("010101"));
    assert!(!b_bb.test(""));

    let not_a_3 = Pattern(CharClass::Ne('a')).times(3);
    assert!(not_a_3.test("zzz"));
    assert!(!not_a_3.test("zz"));
    assert!(!not_a_3.test("zzzz"));
    assert!(!not_a_3.test("aaa"));
    assert!(!not_a_3.test("zza"));

    let whitespace_or_alpha = Pattern(CharClass::Whitespace).or(CharClass::Alphabetic);
    assert!(whitespace_or_alpha.test("a"));
    assert!(whitespace_or_alpha.test(" "));
    assert!(!whitespace_or_alpha.test("*"));

    let w_a_range = whitespace_or_alpha.repeats(Reps::between(1, 2));
    assert!(w_a_range.test("a"));
    assert!(w_a_range.test("a "));
    assert!(!w_a_range.test(""));
    assert!(!w_a_range.test("z+"));
    assert!(!w_a_range.test(" f "));
}

#[test]
fn parse_hex() {
    let number = Pattern(CharClass::InRange('A', 'F')).or(CharClass::InRange('0', '9'));
    let hex = Pattern('0').and('x').and(number.repeats(Reps::at_least(1)));

    assert!(hex.test("0xFF94"));
    assert!(hex.test("0x12AB"));
    assert!(!hex.test("0x0G"));
    assert!(!hex.test("0x"));
    assert!(!hex.test("0+0"));
    assert!(!hex.test("0A"));

    let numbers: Vec<&str> = hex.matched_strs("0x00 0x01 0xAB 0xFF");
    assert_eq!(numbers, ["0x00", "0x01", "0xAB", "0xFF"]);
}

#[test]
fn parse() {
    let space = Pattern(' ').repeats(Reps::any());
    let name = Pattern(CharClass::Alphabetic).and(
        Pattern(CharClass::Alphabetic).repeats(Reps::any()),
    );
    let arg = name.and(',').and(space);
    let args = arg.repeats(Reps::any()).and(name).and(space).or(space);
    let func = name
        .and(space)
        .and('(')
        .and(space)
        .and(args)
        .and(')')
        .and(space)
        .and(';');

    assert!(func.test("func();"));
    assert!(func.test("func ( bar,  num,  str ) ;"));
    assert!(func.test("func(bar, str);"));
    assert!(func.test("func(bar);"));
    assert!(!func.test("func num, str);"));
    assert!(!func.test("func(bar, num, );"));
    assert!(!func.test("func(bar, num, str)"));
    assert!(!func.test("func(bar str);"));
}
