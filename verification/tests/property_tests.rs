use rep::cap;
use rep::pattern::Pattern as ScanPattern;
use rep::InvalidRepetitionConfiguration;
use rep::Pattern;
use rep::Reps;
use rep::Scan;

#[test]
fn empty_literal_matches_everything() {
    let empty = Pattern("");
    assert!(empty.test(""));
    assert!(!empty.test("abc"));
    let first = empty.matches("abc").next().unwrap();
    assert_eq!(first.captured_str, "");
    assert_eq!("".scan("any text at all"), Ok(0));
    assert_eq!("".scan("привет"), Ok(0));
}

#[test]
fn match_splits_into_rematchable_parts() {
    let pattern = "при";
    let (left, rest) = pattern.scan_split("привет").unwrap();
    assert_eq!(left, "при");
    assert_eq!(rest, "вет");
    assert_eq!(pattern.scan(left), Ok(left.len()));
    assert_eq!("вет".scan(rest), Ok(rest.len()));
}

#[test]
fn alternation_order_sensitivity() {
    let empty_first = Pattern("").or("b");
    assert!(!empty_first.test("b"));

    let b_first = Pattern("b").or("");
    assert!(b_first.test("b"));
}

#[test]
fn sequence_associativity() {
    let left = ScanPattern("a").and("b").and("c");
    let right = ScanPattern("a").and(ScanPattern("b").and("c"));
    for text in ["abc", "abcd", "ab", "", "xbc", "abx"] {
        assert_eq!(left.scan(text), right.scan(text));
        assert_eq!(left.test(text), right.test(text));
    }
}

#[test]
fn repeat_zero_always_matches_empty() {
    let never = Pattern("no such text").times(0);
    assert!(never.test(""));
    assert!(!never.test("x"));

    let never_scan = ScanPattern("no such text").times(0);
    assert_eq!(never_scan.scan("x"), Ok(0));
    assert_eq!(never_scan.scan(""), Ok(0));
}

#[test]
fn bounded_repeat_is_greedy() {
    let p = ScanPattern("a").repeats(Reps::between(1, 3));
    assert_eq!(p.scan("aaaa"), Ok(3));
    assert_eq!(p.scan_split("aaaa"), Ok(("aaa", "a")));
    assert_eq!(p.scan("aa"), Ok(2));
    assert_eq!(p.scan(""), Err(()));
}

#[test]
fn unbounded_empty_repeat_is_rejected() {
    let empty_repeat = Pattern("").repeats(Reps::at_least(1));
    assert_eq!(
        empty_repeat.0.check_repetition(),
        Err(InvalidRepetitionConfiguration)
    );
    assert!(!empty_repeat.test("a"));
    assert!(!empty_repeat.test(""));

    let empty_repeat_scan = ScanPattern("").repeats(Reps::at_least(1));
    assert_eq!(
        empty_repeat_scan.0.check_repetition(),
        Err(InvalidRepetitionConfiguration)
    );
    assert_eq!(empty_repeat_scan.scan("a"), Err(()));

    let bounded_is_fine = Pattern("").repeats(Reps::between(1, 4));
    assert_eq!(bounded_is_fine.0.check_repetition(), Ok(()));
    assert!(bounded_is_fine.test(""));

    let nonempty_is_fine = Pattern("a").repeats(Reps::at_least(1));
    assert_eq!(nonempty_is_fine.0.check_repetition(), Ok(()));
    assert!(nonempty_is_fine.test("aa"));
}

#[test]
fn capture_ordering_is_preorder() {
    let p = cap(Pattern("x")).and(cap(Pattern("y")));
    let mut found = p.matches("xy and then some");
    let caps = found.next().unwrap();
    let spans: Vec<&str> = caps.collect();
    assert_eq!(spans, ["xy", "x", "y"]);
}

#[test]
fn repeat_keeps_last_capture_only() {
    let p = cap(Pattern("ab")).times(2);
    let mut found = p.matches("abab");
    let caps = found.next().unwrap();
    let spans: Vec<&str> = caps.collect();
    // The repetition's own span covers both rounds; of the two individually
    // captured rounds only the last survives.
    assert_eq!(spans, ["abab", "ab"]);
    assert!(found.next().is_none());
}

#[test]
fn find_all_matches_do_not_overlap() {
    let xy = Pattern("xy");
    let found: Vec<&str> = xy.matched_strs("xyxy x xxy");
    assert_eq!(found, ["xy", "xy", "xy"]);
}

#[test]
fn failed_positions_skip_whole_code_points() {
    let p = Pattern("б");
    let found: Vec<&str> = p.matched_strs("абвб");
    assert_eq!(found, ["б", "б"]);
}

#[test]
fn empty_matches_advance_the_cursor() {
    let p = Pattern("");
    let found: Vec<&str> = p.matched_strs("ab");
    assert_eq!(found, ["", "", ""]);
}

#[test]
fn code_point_classes_use_encoded_width() {
    let p = Pattern(rep::CharClass::Alphabetic);
    let mut found = p.matches("ф!");
    let caps = found.next().unwrap();
    assert_eq!(caps.captured_str, "ф");
    assert_eq!(caps.captured_len(), 'ф'.len_utf8());
}
