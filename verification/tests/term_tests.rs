use rep::CharClass;
use rep::ScanTerm;

#[test]
fn scan_term_scan_str() {
    let pattern = "some text";
    let same = "some text";
    assert_eq!(pattern.scan_term(same), Some(same.len()));

    let part = "some text more";
    assert_eq!(pattern.scan_term(part), Some(pattern.len()));

    let another = "text";
    assert_eq!(pattern.scan_term(another), None);
}

#[test]
fn scan_term_scan_str_utf8() {
    let pattern = "привет";
    assert_eq!(pattern.scan_term("привет"), Some(pattern.len()));
    assert_eq!(pattern.scan_term("привет, мир!"), Some(pattern.len()));
    assert_eq!(pattern.scan_term("прив"), None);
}

#[test]
fn scan_term_scan_empty_str() {
    let empty_pattern = "";
    let text = "text";
    assert_eq!(empty_pattern.scan_term(text), Some(0));
    assert_eq!(empty_pattern.scan_term(""), Some(0));

    let pattern = "baz";
    assert_eq!(pattern.scan_term(""), None);
}

#[test]
fn scan_term_scan_empty_string() {
    let pattern = String::from("some text");
    assert_eq!(pattern.scan_term("some text"), Some(pattern.len()));
    assert_eq!(pattern.scan_term("some text more"), Some(pattern.len()));
    assert_eq!(pattern.scan_term("text"), None);
}

#[test]
fn scan_term_scan_split_str() {
    let pattern = "foo";
    let text = "foobar";
    assert_eq!(pattern.scan_split(text), Some(("foo", "bar")));

    let err_split = "bar";
    assert_eq!(pattern.scan_split(err_split), None);
}

#[test]
fn scan_term_scan_char() {
    let pattern = 'a';
    assert_eq!(pattern.scan_term("a"), Some(1));
    assert_eq!(pattern.scan_term("ab"), Some(1));
    assert_eq!(pattern.scan_term("b"), None);
    assert_eq!(pattern.scan_term(""), None);
}

#[test]
fn scan_term_scan_char_utf8() {
    let pattern = 'ф';
    assert_eq!(pattern.scan_term("ф"), Some(pattern.len_utf8()));
    assert_eq!(pattern.scan_term("фы"), Some(pattern.len_utf8()));
    assert_eq!(pattern.scan_term("ы"), None);
}

#[test]
fn scan_term_scan_fn() {
    let whitespace = CharClass::Whitespace;
    assert_eq!(whitespace.scan_term(" "), Some(1));
    assert_eq!(whitespace.scan_term(""), None);
    assert_eq!(whitespace.scan_term("."), None);

    let alpha = CharClass::Alphabetic;
    assert_eq!(alpha.scan_term("a"), Some(1));
    assert_eq!(alpha.scan_term("."), None);

    let a_or_b = CharClass::InRange('a', 'b');
    assert_eq!(a_or_b.scan_term("a"), Some(1));
    assert_eq!(a_or_b.scan_term("b"), Some(1));
    assert_eq!(a_or_b.scan_term("c"), None);

    let not_a = CharClass::Ne('a');
    assert_eq!(not_a.scan_term("x"), Some(1));
    assert_eq!(not_a.scan_term("a"), None);
}
