//! Settings, from the text of environment variables.

use vstd::prelude::*;
use vstd::utf8::encode_utf8;

use crate::text::{check_digit, is_digit, number, same_text};

verus! {

/// The search timeout where none is set, in microseconds.
pub const DEFAULT_KNN_TIMEOUT_US: u64 = 1_000;

/// The digits of a numeral, which may begin with a plus sign.
pub open spec fn numeral_digits(t: Seq<u8>) -> Seq<u8> {
    if t.len() > 0 && t[0] == '+' as u8 {
        t.subrange(1, t.len() as int)
    } else {
        t
    }
}

/// The number up to `max` that a text writes.
pub open spec fn unsigned(t: Seq<u8>, max: nat) -> Option<nat> {
    let digits = numeral_digits(t);
    if digits.len() > 0 && (forall|i: int| 0 <= i < digits.len() ==> is_digit(#[trigger] digits[i]))
        && number(digits) <= max {
        Some(number(digits))
    } else {
        None
    }
}

/// The number that a setting writes, if there is one.
pub open spec fn number_set(raw: Option<&str>, max: nat) -> Option<nat> {
    match raw {
        Some(text) => unsigned(encode_utf8(text@), max),
        None => None,
    }
}

/// A number that is set, or the default.
pub open spec fn usize_or(raw: Option<&str>, default: usize) -> usize {
    match number_set(raw, usize::MAX as nat) {
        Some(n) => n as usize,
        None => default,
    }
}

/// The switch that a text writes.
pub open spec fn switch(text: Seq<char>) -> Option<bool> {
    if text == "1"@ || text == "true"@ || text == "TRUE"@ || text == "yes"@ || text == "YES"@ {
        Some(true)
    } else if text == "0"@ || text == "false"@ || text == "FALSE"@ || text == "no"@ || text
        == "NO"@ {
        Some(false)
    } else {
        None
    }
}

/// A switch that is set, or the default.
pub open spec fn bool_or(raw: Option<&str>, default: bool) -> bool {
    match raw {
        Some(text) => match switch(text@) {
            Some(b) => b,
            None => default,
        },
        None => default,
    }
}

/// The timeout that is set, in microseconds; zero counts as not set.
pub open spec fn timeout_micros(raw: Option<&str>) -> nat {
    match number_set(raw, u64::MAX as nat) {
        Some(n) => if n > 0 {
            n
        } else {
            DEFAULT_KNN_TIMEOUT_US as nat
        },
        None => DEFAULT_KNN_TIMEOUT_US as nat,
    }
}

/// Reads a number of 64 bits.
#[verifier::rlimit(40)]
fn parse_u64(text: &str) -> (r: Option<u64>)
    ensures
        r is Some == unsigned(encode_utf8(text@), u64::MAX as nat) is Some,
        r matches Some(n) ==> unsigned(encode_utf8(text@), u64::MAX as nat) == Some(n as nat),
{
    let t: &[u8] = text.as_bytes();
    let ghost s = t@;
    let ghost digits = numeral_digits(s);
    let start: usize = if t.len() > 0 && t[0] == '+' as u8 {
        1
    } else {
        0
    };
    if t.len() == start {
        return None;
    }
    let mut v: u64 = 0;
    let mut i: usize = start;
    assert(digits.subrange(0, 0) =~= Seq::empty());
    while i < t.len()
        invariant
            s == t@,
            s == encode_utf8(text@),
            digits == numeral_digits(s),
            start <= i <= s.len(),
            digits == s.subrange(start as int, s.len() as int),
            v == number(digits.subrange(0, i - start)),
            forall|k: int| 0 <= k < i - start ==> is_digit(#[trigger] digits[k]),
        decreases s.len() - i,
    {
        let b: u8 = t[i];
        assert(digits[i - start] == b);
        if !check_digit(b) {
            return None;
        }
        let digit: u64 = (b - '0' as u8) as u64;
        proof {
            let next = digits.subrange(0, i - start + 1);
            assert(next.drop_last() =~= digits.subrange(0, i - start));
            crate::calendar::lemma_number_prefix(digits, i - start + 1);
        }
        if v > 0x1999_9999_9999_9999 || (v == 0x1999_9999_9999_9999 && digit > 5) {
            return None;
        }
        v = v * 10 + digit;
        i = i + 1;
    }
    assert(digits.subrange(0, i - start) =~= digits);
    Some(v)
}

/// A number that is set, or the default.
pub fn env_usize(raw: Option<&str>, default: usize) -> (r: usize)
    ensures
        r == usize_or(raw, default),
{
    match raw {
        Some(text) => match parse_u64(text) {
            Some(n) => if n <= usize::MAX as u64 {
                n as usize
            } else {
                default
            },
            None => default,
        },
        None => default,
    }
}

/// A switch that is set, or the default.
pub fn env_bool(raw: Option<&str>, default: bool) -> (r: bool)
    ensures
        r == bool_or(raw, default),
{
    match raw {
        Some(text) => {
            if same_text(text, "1") || same_text(text, "true") || same_text(text, "TRUE")
                || same_text(text, "yes") || same_text(text, "YES") {
                true
            } else if same_text(text, "0") || same_text(text, "false") || same_text(text, "FALSE")
                || same_text(text, "no") || same_text(text, "NO") {
                false
            } else {
                default
            }
        },
        None => default,
    }
}

/// The search timeout, in nanoseconds.
pub fn configured_timeout(raw: Option<&str>) -> (r: u128)
    ensures
        r == timeout_micros(raw) * 1_000,
{
    let micros: u64 = match raw {
        Some(text) => match parse_u64(text) {
            Some(n) => if n > 0 {
                n
            } else {
                DEFAULT_KNN_TIMEOUT_US
            },
            None => DEFAULT_KNN_TIMEOUT_US,
        },
        None => DEFAULT_KNN_TIMEOUT_US,
    };
    micros as u128 * 1_000
}

/// Whether bytes are digits, one at least.
pub open spec fn are_digits(t: Seq<u8>) -> bool {
    t.len() > 0 && forall|i: int| 0 <= i < t.len() ==> 48 <= #[trigger] t[i] <= 57
}

/// A number that is set counts as it is written, with a plus sign or without; what is no
/// number, or out of range, counts as not set. The timeout is in microseconds, one thousand
/// of them where it is not set, or set to none.
pub proof fn law_numbers_count_as_they_are_set(text: &str, default: usize)
    ensures
        ({
            let t = encode_utf8(text@);
            let signed = t.len() > 0 && t[0] == 43;
            let digits = if signed {
                t.subrange(1, t.len() as int)
            } else {
                t
            };
            let n = number(digits);
            &&& usize_or(None, default) == default
            &&& are_digits(digits) && n <= usize::MAX ==> usize_or(Some(text), default) == n
            &&& !are_digits(digits) || n > usize::MAX ==> usize_or(Some(text), default) == default
            &&& timeout_micros(None) == 1_000
            &&& are_digits(digits) && 0 < n <= u64::MAX ==> timeout_micros(Some(text)) == n
            &&& !are_digits(digits) || n == 0 || n > u64::MAX ==> timeout_micros(Some(text))
                == 1_000
        }),
{
    let t = encode_utf8(text@);
    let digits = numeral_digits(t);
    assert(are_digits(digits) == (digits.len() > 0 && (forall|i: int|
        0 <= i < digits.len() ==> is_digit(#[trigger] digits[i]))));
}

/// A switch is on by `1`, `true` or `yes`, off by `0`, `false` or `no`, in lower or upper case;
/// any other text counts as not set.
pub proof fn law_switches_are_on_or_off(text: &str, default: bool)
    ensures
        bool_or(None, default) == default,
        text@ == "1"@ || text@ == "true"@ || text@ == "TRUE"@ || text@ == "yes"@ || text@ == "YES"@
            ==> bool_or(Some(text), default),
        text@ == "0"@ || text@ == "false"@ || text@ == "FALSE"@ || text@ == "no"@ || text@ == "NO"@
            ==> !bool_or(Some(text), default),
        text@ != "1"@ && text@ != "true"@ && text@ != "TRUE"@ && text@ != "yes"@ && text@ != "YES"@
            && text@ != "0"@ && text@ != "false"@ && text@ != "FALSE"@ && text@ != "no"@ && text@
            != "NO"@ ==> bool_or(Some(text), default) == default,
{
    reveal_strlit("1");
    reveal_strlit("true");
    reveal_strlit("TRUE");
    reveal_strlit("yes");
    reveal_strlit("YES");
    reveal_strlit("0");
    reveal_strlit("false");
    reveal_strlit("FALSE");
    reveal_strlit("no");
    reveal_strlit("NO");
    assert("1"@[0] == '1' && "true"@[0] == 't' && "TRUE"@[0] == 'T' && "yes"@[0] == 'y');
    assert("YES"@[0] == 'Y' && "0"@[0] == '0' && "false"@[0] == 'f' && "FALSE"@[0] == 'F');
    assert("no"@[0] == 'n' && "NO"@[0] == 'N');
}

} // verus!
