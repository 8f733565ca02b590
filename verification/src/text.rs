//! Byte-level facts about UTF-8 texts shared by every matcher.
//!
//! A text enters the engine as a `&str`; the engine reasons about its
//! byte encoding (`spec_bytes`), because every reported match length is a
//! byte length and must fall on a character boundary.
use vstd::prelude::*;

verus! {

use vstd::string::StringSliceAdditionalSpecFns;
use vstd::utf8::encode_scalar;
use vstd::utf8::encode_utf8;
use vstd::utf8::has_width_1_encoding;
use vstd::utf8::has_width_2_encoding;
use vstd::utf8::has_width_3_encoding;
use vstd::utf8::is_char_boundary;
use vstd::utf8::is_leading_byte_width_1;
use vstd::utf8::is_leading_byte_width_2;
use vstd::utf8::is_leading_byte_width_3;
use vstd::utf8::length_of_first_scalar;
use vstd::utf8::pop_first_scalar;
use vstd::utf8::valid_first_scalar;
use vstd::utf8::valid_utf8;
use vstd::utf8::valid_utf8_concat;
use vstd::utf8::valid_utf8_split;
use vstd::utf8::decode_first_scalar;
use vstd::utf8::decode_utf8;
use vstd::utf8::decode_utf8_first_scalar;
use vstd::utf8::encode_utf8_valid_utf8;
use vstd::utf8::encode_utf8_decode_utf8;

/// `p` is an initial segment of `t`.
pub open spec fn is_prefix(p: Seq<u8>, t: Seq<u8>) -> bool {
    p.len() <= t.len() && t.subrange(0, p.len() as int) == p
}

/// Matching a fixed byte string: the whole pattern, or nothing.
pub open spec fn lit_scan(pat: Seq<u8>, text: Seq<u8>) -> Option<nat> {
    if is_prefix(pat, text) {
        Some(pat.len())
    } else {
        None
    }
}

/// Matching a single fixed code point: its encoding, or nothing.
pub open spec fn char_scan(c: char, text: Seq<u8>) -> Option<nat> {
    lit_scan(encode_scalar(c as u32), text)
}

/// The bytes of any `&str` are a valid UTF-8 encoding.
pub proof fn lemma_str_bytes_valid(s: &str)
    ensures
        valid_utf8(s.spec_bytes()),
{
    encode_utf8_valid_utf8(s@);
}

/// A valid UTF-8 prefix of a valid UTF-8 text ends on a character boundary.
pub proof fn lemma_prefix_boundary(t: Seq<u8>, k: int)
    requires
        0 <= k <= t.len(),
        valid_utf8(t),
        valid_utf8(t.subrange(0, k)),
    ensures
        is_char_boundary(t, k),
    decreases k,
{
    if k > 0 {
        let p = t.subrange(0, k);
        assert(p.len() == k);
        assert(valid_first_scalar(p));
        assert(valid_first_scalar(t));
        assert(p[0] == t[0]);
        let w = length_of_first_scalar(t);
        assert(length_of_first_scalar(p) == w);
        assert(1 <= w <= k);
        assert(pop_first_scalar(p) =~= pop_first_scalar(t).subrange(0, k - w));
        lemma_prefix_boundary(pop_first_scalar(t), k - w);
    }
}

/// The first code point of a nonempty valid text is at least one byte wide,
/// fits in the text, and ends on a character boundary.
pub proof fn lemma_first_scalar_bounds(t: Seq<u8>)
    requires
        valid_utf8(t),
        t.len() > 0,
    ensures
        valid_first_scalar(t),
        1 <= length_of_first_scalar(t) <= t.len(),
        is_char_boundary(t, length_of_first_scalar(t)),
{
    assert(is_char_boundary(pop_first_scalar(t), 0));
}

/// Walking one character boundary after another lands on a boundary of the
/// whole text.
pub proof fn lemma_boundary_step(t: Seq<u8>, k: int, l: int)
    requires
        valid_utf8(t),
        is_char_boundary(t, k),
        0 <= k,
        0 <= l,
        k + l <= t.len(),
        is_char_boundary(t.subrange(k, t.len() as int), l),
    ensures
        is_char_boundary(t, k + l),
{
    valid_utf8_split(t, k);
    let suf = t.subrange(k, t.len() as int);
    valid_utf8_split(suf, l);
    assert(t.subrange(0, k + l) =~= t.subrange(0, k) + suf.subrange(0, l));
    valid_utf8_concat(t.subrange(0, k), suf.subrange(0, l));
    lemma_prefix_boundary(t, k + l);
}

/// A literal that is a byte prefix of a valid text ends on a character
/// boundary of that text, provided the literal itself is valid UTF-8.
pub proof fn lemma_lit_scan_bounds(pat: Seq<u8>, text: Seq<u8>)
    requires
        valid_utf8(pat),
        valid_utf8(text),
        lit_scan(pat, text) is Some,
    ensures
        lit_scan(pat, text)->Some_0 <= text.len(),
        is_char_boundary(text, lit_scan(pat, text)->Some_0 as int),
{
    lemma_prefix_boundary(text, pat.len() as int);
}

/// A fixed code point matches exactly when it is the first code point of
/// the text, and then consumes that code point's width.
pub proof fn lemma_char_scan_first(d: char, text: Seq<u8>)
    requires
        valid_utf8(text),
    ensures
        text.len() == 0 ==> char_scan(d, text) is None,
        text.len() > 0 ==> (char_scan(d, text) is Some <==> decode_first_scalar(text)
            == d as u32),
        char_scan(d, text) is Some ==> char_scan(d, text)->Some_0 == length_of_first_scalar(
            text,
        ),
{
    let enc = encode_scalar(d as u32);
    assert(encode_utf8(seq![d]) =~= enc) by {
        let s = seq![d];
        assert(s.drop_first() =~= Seq::<char>::empty());
        assert(encode_utf8(Seq::<char>::empty()) =~= Seq::<u8>::empty());
        assert(encode_utf8(s) == encode_scalar(s[0] as u32) + encode_utf8(s.drop_first()));
        assert(s[0] == d);
        assert(enc + Seq::<u8>::empty() =~= enc);
    }
    vstd::utf8::encode_utf8_first_scalar(seq![d]);
    assert(decode_first_scalar(enc) == d as u32);
    assert(length_of_first_scalar(enc) == enc.len());
    assert(valid_first_scalar(enc));
    assert(enc.len() >= 1);
    if text.len() > 0 {
        lemma_first_scalar_bounds(text);
        let c0 = decode_first_scalar(text);
        let w0 = length_of_first_scalar(text);
        decode_utf8_first_scalar(text);
        if c0 == d as u32 {
            vstd::utf8::char_u32_cast(d, c0);
            assert(encode_scalar((c0 as char) as u32) == enc);
            assert(vstd::utf8::take_first_scalar(text) == enc);
            assert(text.subrange(0, enc.len() as int) == enc);
            assert(is_prefix(enc, text));
        }
        if is_prefix(enc, text) {
            assert(forall|i: int| 0 <= i < enc.len() ==> text[i] == enc[i]) by {
                assert(forall|i: int|
                    0 <= i < enc.len() ==> text.subrange(0, enc.len() as int)[i] == text[i]);
            }
            assert(text[0] == enc[0]);
            assert(w0 == enc.len());
            assert(vstd::utf8::take_first_scalar(text) =~= enc);
            assert(decode_first_scalar(text) == decode_first_scalar(enc));
        }
    }
}

/// The empty literal matches every text, consuming zero bytes.
pub proof fn lemma_empty_literal_matches(pat: Seq<u8>, text: Seq<u8>)
    requires
        pat.len() == 0,
    ensures
        lit_scan(pat, text) == Some(0nat),
{
    assert(text.subrange(0, 0) =~= pat);
}

/// A text has no characters exactly when its encoding has no bytes.
pub proof fn lemma_str_empty_bytes(s: &str)
    ensures
        s@.len() == 0 <==> s.spec_bytes().len() == 0,
{
    if s@.len() == 0 {
        assert(s.spec_bytes() =~= Seq::<u8>::empty());
    } else {
        assert(encode_utf8(s@) == encode_scalar(s@[0] as u32) + encode_utf8(s@.drop_first()));
        assert(encode_scalar(s@[0] as u32).len() >= 1);
    }
}

/// Whether `text` begins with the bytes of `pat`.
pub fn starts_with_bytes(text: &[u8], pat: &[u8]) -> (r: bool)
    ensures
        r == is_prefix(pat@, text@),
{
    let n = pat.len();
    if n > text.len() {
        return false;
    }
    let mut i: usize = 0;
    while i < n
        invariant
            0 <= i <= n,
            n == pat@.len() <= text@.len(),
            forall|j: int| 0 <= j < i ==> text@[j] == pat@[j],
        decreases n - i,
    {
        if text[i] != pat[i] {
            assert(!is_prefix(pat@, text@)) by {
                assert(text@.subrange(0, n as int)[i as int] != pat@[i as int]);
            }
            return false;
        }
        i = i + 1;
    }
    assert(text@.subrange(0, n as int) =~= pat@);
    true
}

/// The width in bytes of the UTF-8 encoding of a code point.
pub fn utf8_width(c: char) -> (r: usize)
    ensures
        r == encode_scalar(c as u32).len(),
        1 <= r <= 4,
{
    let u = c as u32;
    if u < 0x80 {
        assert(has_width_1_encoding(u));
        1
    } else if u < 0x800 {
        assert(has_width_2_encoding(u));
        2
    } else if u < 0x10000 {
        assert(has_width_3_encoding(u)) by {
            vstd::utf8::char_is_scalar(c);
        }
        3
    } else {
        assert(!has_width_1_encoding(u) && !has_width_2_encoding(u) && !has_width_3_encoding(u));
        4
    }
}

/// The first code point of a text, with its width in bytes.
/// `None` exactly when the text is empty.
pub fn first_char(s: &str) -> (r: Option<(char, usize)>)
    ensures
        r is Some <==> s.spec_bytes().len() > 0,
        r matches Some((c, w)) ==> {
            &&& c == s@[0]
            &&& c as u32 == decode_first_scalar(s.spec_bytes())
            &&& valid_first_scalar(s.spec_bytes())
            &&& w == length_of_first_scalar(s.spec_bytes())
            &&& encode_scalar(c as u32) == s.spec_bytes().subrange(0, w as int)
            &&& 1 <= w <= s.spec_bytes().len()
            &&& is_char_boundary(s.spec_bytes(), w as int)
        },
{
    proof {
        lemma_str_bytes_valid(s);
        if s@.len() > 0 {
            vstd::utf8::encode_utf8_first_scalar(s@);
        }
        encode_utf8_decode_utf8(s@);
    }
    if s.is_empty() {
        proof {
            assert(s.spec_bytes() =~= Seq::<u8>::empty());
        }
        None
    } else {
        let c = s.get_char(0);
        let w = utf8_width(c);
        proof {
            let bytes = s.spec_bytes();
            lemma_first_scalar_bounds(bytes);
            assert(decode_utf8(bytes) == s@);
            assert(decode_utf8(bytes)[0] == decode_first_scalar(bytes) as char);
            assert(c as u32 == decode_first_scalar(bytes)) by {
                vstd::utf8::char_u32_cast(c, decode_first_scalar(bytes));
                assert(c == decode_first_scalar(bytes) as char);
                vstd::utf8::char_is_scalar(c);
            }
            decode_utf8_first_scalar(bytes);
            assert(encode_scalar(c as u32) == vstd::utf8::take_first_scalar(bytes));
            assert(w == length_of_first_scalar(bytes)) by {
                assert(vstd::utf8::take_first_scalar(bytes).len() == length_of_first_scalar(
                    bytes,
                ));
            }
        }
        Some((c, w))
    }
}

} // verus!
