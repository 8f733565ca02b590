use rep::CharClass;
use rep::Scan;

#[test]
fn scan_scan_str() {
    let pattern = "some text";
    let same = "some text";
    assert_eq!(pattern.scan(same), Ok(same.len()));

    let part = "some text more";
    assert_eq!(pattern.scan(part), Ok(pattern.len()));

    let another = "text";
    assert_eq!(pattern.scan(another), Err(()));
}

#[test]
fn scan_scan_str_utf8() {
    let pattern = "привет";
    assert_eq!(pattern.scan("привет"), Ok(pattern.len()));
    assert_eq!(pattern.scan("привет, мир!"), Ok(pattern.len()));
    assert_eq!(pattern.scan("прив"), Err(()));
}

#[test]
fn scan_scan_empty_str() {
    let empty_pattern = "";
    let text = "text";
    assert_eq!(empty_pattern.scan(text), Ok(0));
    assert_eq!(empty_pattern.scan(""), Ok(0));

    let pattern = "baz";
    assert_eq!(pattern.scan(""), Err(()));
}

#[test]
fn scan_scan_empty_string() {
    let pattern = String::from("some text");
    assert_eq!(pattern.scan("some text"), Ok(pattern.len()));
    assert_eq!(pattern.scan("some text more"), Ok(pattern.len()));
    assert_eq!(pattern.scan("text"), Err(()));
}

#[test]
fn test_str() {
    let pattern = "baz";
    assert!(pattern.test("baz"));
    assert!(!pattern.test("bar"));

    let empty_pattern = "";
    assert!(empty_pattern.test(""));
}

#[test]
fn scan_scan_split_str() {
    let pattern = "foo";
    let text = "foobar";
    assert_eq!(pattern.scan_split(text), Ok(("foo", "bar")));

    let err_split = "bar";
    assert_eq!(pattern.scan_split(err_split), Err(()));
}

#[test]
fn scan_scan_char() {
    let pattern = 'a';
    assert_eq!(pattern.scan("a"), Ok(1));
    assert_eq!(pattern.scan("ab"), Ok(1));
    assert_eq!(pattern.scan("b"), Err(()));
    assert_eq!(pattern.scan(""), Err(()));
}

#[test]
fn scan_scan_char_utf8() {
    let pattern = 'ф';
    assert_eq!(pattern.scan("ф"), Ok(pattern.len_utf8()));
    assert_eq!(pattern.scan("фы"), Ok(pattern.len_utf8()));
    assert_eq!(pattern.scan("ы"), Err(()));
}

#[test]
fn scan_scan_fn() {
    let whitespace = CharClass::Whitespace;
    assert_eq!(whitespace.scan(" "), Ok(1));
    assert_eq!(whitespace.scan(""), Err(()));
    assert_eq!(whitespace.scan("."), Err(()));

    let alpha = CharClass::Alphabetic;
    assert_eq!(alpha.scan("a"), Ok(1));
    assert_eq!(alpha.scan("."), Err(()));

    let a_or_b = CharClass::InRange('a', 'b');
    assert_eq!(a_or_b.scan("a"), Ok(1));
    assert_eq!(a_or_b.scan("b"), Ok(1));
    assert_eq!(a_or_b.scan("c"), Err(()));
}

#[test]
fn test_fn() {
    let whitespace = CharClass::Whitespace;
    assert!(whitespace.test(" "));
    assert!(!whitespace.test("-"));

    let not_a = CharClass::Ne('a');
    assert!(not_a.test("x"));
    assert!(!not_a.test("a"));
}
