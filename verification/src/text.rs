//! Byte strings, ASCII digits and literal text.

use vstd::prelude::*;
use vstd::utf8::encode_utf8;

verus! {

/// The bytes of ASCII text.
pub open spec fn ascii(text: Seq<char>) -> Seq<u8> {
    Seq::new(text.len(), |i: int| text[i] as u8)
}

pub open spec fn is_digit(b: u8) -> bool {
    '0' as u8 <= b <= '9' as u8
}

/// The first position from `i` on that holds no digit.
pub open spec fn digits_end(s: Seq<u8>, i: nat) -> nat
    decreases s.len() - i,
{
    if i < s.len() && is_digit(s[i as int]) {
        digits_end(s, i + 1)
    } else {
        i
    }
}

/// The number that a run of decimal digits writes.
pub open spec fn number(digits: Seq<u8>) -> nat
    decreases digits.len(),
{
    if digits.len() == 0 {
        0
    } else {
        10 * number(digits.drop_last()) + (digits.last() - '0' as u8) as nat
    }
}

/// Whether a byte is an ASCII digit.
pub fn check_digit(b: u8) -> (r: bool)
    ensures
        r == is_digit(b),
{
    '0' as u8 <= b && b <= '9' as u8
}

/// `a == b`, byte by byte.
pub fn same_bytes(a: &[u8], b: &[u8]) -> (r: bool)
    ensures
        r == (a@ == b@),
{
    if a.len() != b.len() {
        return false;
    }
    let mut i: usize = 0;
    while i < a.len()
        invariant
            i <= a@.len() == b@.len(),
            forall|j: int| 0 <= j < i ==> a@[j] == b@[j],
        decreases a@.len() - i,
    {
        if a[i] != b[i] {
            assert(a@[i as int] != b@[i as int]);
            return false;
        }
        i = i + 1;
    }
    assert(a@ =~= b@);
    true
}

/// Whether a byte string is the given ASCII text.
pub fn is_text(a: &[u8], text: &str) -> (r: bool)
    requires
        text.is_ascii(),
    ensures
        r == (a@ == ascii(text@)),
{
    proof {
        vstd::string::is_ascii_spec_bytes(text);
        assert(encode_utf8(text@) =~= ascii(text@));
    }
    same_bytes(a, text.as_bytes())
}

/// `a == b` for text.
pub fn same_text(a: &str, b: &str) -> (r: bool)
    ensures
        r == (a@ == b@),
{
    proof {
        vstd::utf8::encode_utf8_decode_utf8(a@);
        vstd::utf8::encode_utf8_decode_utf8(b@);
    }
    same_bytes(a.as_bytes(), b.as_bytes())
}

/// Whether the bytes from `i` on begin with the given ASCII text.
pub open spec fn has_text_at(s: Seq<u8>, i: int, text: Seq<char>) -> bool {
    i + text.len() <= s.len() && s.subrange(i, i + text.len()) == ascii(text)
}

/// Whether the bytes from `i` on begin with the given ASCII text.
pub fn starts_with_at(s: &[u8], i: usize, text: &str) -> (r: bool)
    requires
        i <= s@.len(),
        text.is_ascii(),
    ensures
        r == has_text_at(s@, i as int, text@),
        r ==> i + text@.len() <= usize::MAX,
{
    proof {
        vstd::string::is_ascii_spec_bytes(text);
        assert(encode_utf8(text@) =~= ascii(text@));
    }
    let bytes = text.as_bytes();
    let len: usize = s.len();
    if len - i < bytes.len() {
        return false;
    }
    same_bytes(&s[i..i + bytes.len()], bytes)
}

pub proof fn lemma_digits_end(s: Seq<u8>, i: nat)
    requires
        i <= s.len(),
    ensures
        i <= digits_end(s, i) <= s.len(),
        forall|j: int| i <= j < digits_end(s, i) ==> is_digit(s[j]),
        digits_end(s, i) < s.len() ==> !is_digit(s[digits_end(s, i) as int]),
    decreases s.len() - i,
{
    if i < s.len() && is_digit(s[i as int]) {
        lemma_digits_end(s, i + 1);
    }
}

/// Digits write a number in the decimal way: none of them write zero, and one more makes it
/// ten times as large and adds itself.
pub proof fn law_digits_are_decimal(digits: Seq<u8>, b: u8)
    requires
        is_digit(b),
    ensures
        48 <= b <= 57,
        number(Seq::empty()) == 0,
        number(digits.push(b)) == 10 * number(digits) + (b - 48),
{
    assert(digits.push(b).drop_last() =~= digits);
}

} // verus!
