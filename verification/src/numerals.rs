//! What numerals and timestamps stand for, by the way they are written.

use vstd::prelude::*;
use vstd::arithmetic::power::*;
use vstd::arithmetic::power2::*;

use crate::calendar::{civil_days, digits_at, seconds_end, timestamp};
use crate::decimal::{after_sign, decimal, decimal_magnitude, denoted, exponent_part};
use crate::framing::lemma_digits;
use crate::precision::{is_closest, lemma_rounded, lemma_rounds, rounds};
use crate::rounding::{law_nearest_is_the_closest, INFINITY_BITS};
use crate::single::Single;
use crate::text::{digits_end, is_digit, lemma_digits_end, number};

verus! {

/// Whether bytes are digits.
pub open spec fn all_digits(t: Seq<u8>) -> bool {
    forall|i: int| 0 <= i < t.len() ==> 48 <= #[trigger] t[i] <= 57
}

/// Whether bytes are a sign, or none.
pub open spec fn is_sign_or_none(t: Seq<u8>) -> bool {
    t.len() == 0 || (t.len() == 1 && (t[0] == '+' as u8 || t[0] == '-' as u8))
}

/// A sign, digits, and behind a point, if there is one, further digits.
pub open spec fn fraction_text(
    sign: Seq<u8>,
    whole: Seq<u8>,
    point: bool,
    fraction: Seq<u8>,
) -> Seq<u8> {
    sign + whole + if point {
        seq!['.' as u8] + fraction
    } else {
        Seq::empty()
    }
}

/// A letter, a sign and digits, or nothing.
pub open spec fn exponent_text(letter: Option<u8>, sign: Seq<u8>, digits: Seq<u8>) -> Seq<u8> {
    match letter {
        Some(e) => seq![e] + sign + digits,
        None => Seq::empty(),
    }
}

/// Whether the pieces make a numeral.
pub open spec fn makes_numeral(
    sign: Seq<u8>,
    whole: Seq<u8>,
    point: bool,
    fraction: Seq<u8>,
    letter: Option<u8>,
    exponent_sign: Seq<u8>,
    exponent: Seq<u8>,
) -> bool {
    &&& is_sign_or_none(sign)
    &&& all_digits(whole)
    &&& all_digits(fraction)
    &&& whole.len() + fraction.len() > 0
    &&& fraction.len() > 0 ==> point
    &&& letter matches Some(e) ==> {
        &&& e == 'e' as u8 || e == 'E' as u8
        &&& is_sign_or_none(exponent_sign)
        &&& all_digits(exponent)
        &&& exponent.len() > 0
    }
}

/// The power of ten that a numeral is scaled by.
pub open spec fn scale(
    fraction: Seq<u8>,
    letter: Option<u8>,
    exponent_sign: Seq<u8>,
    exponent: Seq<u8>,
) -> int {
    (if letter is None {
        0
    } else if exponent_sign.len() == 1 && exponent_sign[0] == '-' as u8 {
        -(number(exponent) as int)
    } else {
        number(exponent) as int
    }) - fraction.len()
}

/// Whether a number rounds `n * 10^k`: it is the closest one, or infinite where infinity is
/// closer.
pub open spec fn is_closest_decimal(x: Single, n: nat, k: int) -> bool {
    if k >= 0 {
        let m = (n * pow(10, k as nat) * pow2(149)) as int;
        rounds(x, m, 1) && (x.is_infinite() || is_closest(x, m, 1))
    } else {
        let m = (n * pow2(149)) as int;
        let d = pow(10, (-k) as nat) as int;
        rounds(x, m, d) && (x.is_infinite() || is_closest(x, m, d))
    }
}

/// What a numeral writes.
#[verifier::rlimit(60)]
proof fn lemma_decimal(
    sign: Seq<u8>,
    whole: Seq<u8>,
    point: bool,
    fraction: Seq<u8>,
    letter: Option<u8>,
    exponent_sign: Seq<u8>,
    exponent: Seq<u8>,
)
    requires
        makes_numeral(sign, whole, point, fraction, letter, exponent_sign, exponent),
    ensures
        ({
            let t = fraction_text(sign, whole, point, fraction) + exponent_text(
                letter,
                exponent_sign,
                exponent,
            );
            decimal(t) matches Some(d) && d.negative == (sign.len() == 1 && sign[0] == '-' as u8)
                && d.digits == number(whole + fraction) && d.exponent == scale(
                fraction,
                letter,
                exponent_sign,
                exponent,
            )
        }),
{
    let front = fraction_text(sign, whole, point, fraction);
    let tail = exponent_text(letter, exponent_sign, exponent);
    let t = front + tail;
    let a = sign.len();
    let b = a + whole.len();
    let f = if point {
        b + 1
    } else {
        b
    };
    let e = f + fraction.len();
    assert(front.len() == e);
    assert(t.subrange(a as int, b as int) =~= whole);
    assert(t.subrange(f as int, e as int) =~= fraction);
    assert(t.subrange(e as int, t.len() as int) =~= tail);
    assert forall|i: int| a <= i < b implies 48 <= #[trigger] t[i] <= 57 by {
        assert(t[i] == whole[i - a]);
    }
    assert forall|i: int| f <= i < e implies 48 <= #[trigger] t[i] <= 57 by {
        assert(t[i] == fraction[i - f]);
    }
    if point {
        assert(t[b as int] == '.' as u8);
    }
    if letter is Some {
        assert(t[e as int] == letter.unwrap());
    }
    assert(after_sign(t, 0) == a) by {
        if a == 1 {
            assert(t[0] == sign[0]);
        } else if whole.len() > 0 {
            assert(48 <= t[0] <= 57);
        }
    }
    lemma_digits(t, a, b);
    if point {
        lemma_digits(t, f, e);
    }
    if let Some(l) = letter {
        let g = e + 1 + exponent_sign.len();
        let h = g + exponent.len();
        assert(t.len() == h);
        assert forall|i: int| g <= i < h implies 48 <= #[trigger] t[i] <= 57 by {
            assert(t[i] == exponent[i - g]);
        }
        assert(after_sign(t, e + 1) == g) by {
            if exponent_sign.len() == 1 {
                assert(t[e as int + 1] == exponent_sign[0]);
            } else {
                assert(t[e as int + 1] == exponent[0]);
            }
        }
        lemma_digits(t, g, h);
        assert(t.subrange(g as int, h as int) =~= exponent);
        if exponent_sign.len() == 1 {
            assert(t[e as int + 1] == exponent_sign[0]);
        }
    }
    if a == 1 {
        assert(t[0] == sign[0]);
    }
}

/// A numeral denotes the number closest to what it writes: all its digits, those behind the
/// point too, times a power of ten, with its sign.
#[verifier::rlimit(40)]
pub proof fn law_numerals_denote_the_closest(
    sign: Seq<u8>,
    whole: Seq<u8>,
    point: bool,
    fraction: Seq<u8>,
    letter: Option<u8>,
    exponent_sign: Seq<u8>,
    exponent: Seq<u8>,
)
    requires
        makes_numeral(sign, whole, point, fraction, letter, exponent_sign, exponent),
    ensures
        ({
            let t = fraction_text(sign, whole, point, fraction) + exponent_text(
                letter,
                exponent_sign,
                exponent,
            );
            denoted(t) matches Some(x) && x.is_negative() == (sign.len() == 1 && sign[0]
                == '-' as u8) && is_closest_decimal(
                Single::of(false, x.magnitude()),
                number(whole + fraction),
                scale(fraction, letter, exponent_sign, exponent),
            )
        }),
{
    let t = fraction_text(sign, whole, point, fraction) + exponent_text(
        letter,
        exponent_sign,
        exponent,
    );
    lemma_decimal(sign, whole, point, fraction, letter, exponent_sign, exponent);
    reveal(decimal_magnitude);
    let n = number(whole + fraction);
    let k = scale(fraction, letter, exponent_sign, exponent);
    let m = decimal_magnitude(n, k);
    if k >= 0 {
        let p = pow(10, k as nat);
        lemma_pow_positive(10, k as nat);
        let a = n * p as nat * pow2(149);
        law_nearest_is_the_closest(a, 1, 0);
        lemma_rounds(Single::of(false, m), false, a, 1);
        if m < INFINITY_BITS {
            lemma_rounded(false, a, 1);
        }
    } else {
        let p = pow(10, (-k) as nat);
        lemma_pow_positive(10, (-k) as nat);
        let a = n * pow2(149);
        law_nearest_is_the_closest(a, p as nat, 0);
        lemma_rounds(Single::of(false, m), false, a, p as nat);
        if m < INFINITY_BITS {
            lemma_rounded(false, a, p as nat);
        }
    }
}

/// Only numerals denote a number: whatever does is made of a sign or none, digits with a point
/// among them or not, and an exponent or none.
#[verifier::rlimit(40)]
pub proof fn law_only_numerals_denote(t: Seq<u8>)
    ensures
        denoted(t) is Some ==> exists|
            sign: Seq<u8>,
            whole: Seq<u8>,
            point: bool,
            fraction: Seq<u8>,
            letter: Option<u8>,
            exponent_sign: Seq<u8>,
            exponent: Seq<u8>,
        | #[trigger]
            makes_numeral(sign, whole, point, fraction, letter, exponent_sign, exponent) && t
                == fraction_text(sign, whole, point, fraction) + exponent_text(
                letter,
                exponent_sign,
                exponent,
            ),
{
    if denoted(t) is Some {
        let a = after_sign(t, 0);
        lemma_digits_end(t, a);
        let b = digits_end(t, a);
        let point = b < t.len() && t[b as int] == '.' as u8;
        let f = if point {
            b + 1
        } else {
            b
        };
        if point {
            lemma_digits_end(t, f);
        }
        let e = if point {
            digits_end(t, f)
        } else {
            b
        };
        let sign = t.subrange(0, a as int);
        let whole = t.subrange(a as int, b as int);
        let fraction = t.subrange(f as int, e as int);
        assert(exponent_part(t, e) is Some);
        let front = fraction_text(sign, whole, point, fraction);
        if point {
            assert(front =~= t.subrange(0, e as int));
        } else {
            assert(fraction =~= Seq::empty());
            assert(front =~= t.subrange(0, e as int));
        }
        if e == t.len() {
            let none = Seq::<u8>::empty();
            assert(t =~= front + exponent_text(None, none, none));
            assert(makes_numeral(sign, whole, point, fraction, None, none, none));
        } else {
            let g = after_sign(t, e + 1);
            lemma_digits_end(t, g);
            let letter = Some(t[e as int]);
            let exponent_sign = t.subrange(e as int + 1, g as int);
            let exponent = t.subrange(g as int, t.len() as int);
            assert(exponent_text(letter, exponent_sign, exponent) =~= t.subrange(
                e as int,
                t.len() as int,
            ));
            assert(t =~= front + exponent_text(letter, exponent_sign, exponent));
            assert(makes_numeral(
                sign,
                whole,
                point,
                fraction,
                letter,
                exponent_sign,
                exponent,
            ));
        }
    }
}

/// The calendar: a day is one more than the day before it, months have 28 to 31 days, and a
/// year has a leap day if it is a multiple of four, but of a hundred only if of four hundred.
/// The first of January 1970 is day 0. Months beyond December go on in the same way, five of
/// them taking 153 days, and a month before January has 31.
pub proof fn law_calendar_is_gregorian(y: int, m: int, d: int)
    ensures
        civil_days(1970, 1, 1) == 0,
        civil_days(y, m, d) == civil_days(y, m, 1) + d - 1,
        m >= 3 ==> civil_days(y, m + 5, d) == civil_days(y, m, d) + 153,
        civil_days(y, 1, 1) - civil_days(y, 0, 1) == 31,
        civil_days(y, 2, 1) - civil_days(y, 1, 1) == 31,
        civil_days(y, 3, 1) - civil_days(y, 2, 1) == if y % 4 == 0 && (y % 100 != 0 || y % 400
            == 0) {
            29int
        } else {
            28
        },
        civil_days(y, 4, 1) - civil_days(y, 3, 1) == 31,
        civil_days(y, 5, 1) - civil_days(y, 4, 1) == 30,
        civil_days(y, 6, 1) - civil_days(y, 5, 1) == 31,
        civil_days(y, 7, 1) - civil_days(y, 6, 1) == 30,
        civil_days(y, 8, 1) - civil_days(y, 7, 1) == 31,
        civil_days(y, 9, 1) - civil_days(y, 8, 1) == 31,
        civil_days(y, 10, 1) - civil_days(y, 9, 1) == 30,
        civil_days(y, 11, 1) - civil_days(y, 10, 1) == 31,
        civil_days(y, 12, 1) - civil_days(y, 11, 1) == 30,
        civil_days(y + 1, 1, 1) - civil_days(y, 12, 1) == 31,
{
    crate::calendar::lemma_leap_day(y);
}

/// The number that the bytes from `i` to `j` write.
pub open spec fn written(s: Seq<u8>, i: int, j: int) -> int {
    number(s.subrange(i, j)) as int
}

/// Whether a text begins with the six fields of a timestamp, in digits.
pub open spec fn has_fields(s: Seq<u8>) -> bool {
    &&& s.len() >= 19
    &&& all_digits(s.subrange(0, 4))
    &&& all_digits(s.subrange(5, 7))
    &&& all_digits(s.subrange(8, 10))
    &&& all_digits(s.subrange(11, 13))
    &&& all_digits(s.subrange(14, 16))
    &&& all_digits(s.subrange(17, 19))
}

proof fn lemma_digits_at(s: Seq<u8>, i: int, j: int)
    requires
        0 <= i <= j <= s.len(),
    ensures
        digits_at(s, i, j) == all_digits(s.subrange(i, j)),
{
    let t = s.subrange(i, j);
    if all_digits(t) {
        assert forall|k: int| i <= k < j implies is_digit(#[trigger] s[k]) by {
            assert(t[k - i] == s[k]);
        }
    }
    if digits_at(s, i, j) {
        assert forall|k: int| 0 <= k < t.len() implies 48 <= #[trigger] t[k] <= 57 by {
            assert(is_digit(s[i + k]));
        }
    }
}

/// The seconds from the beginning of 1970 to the date and time that a timestamp writes.
pub open spec fn seconds_written(s: Seq<u8>) -> int {
    civil_days(written(s, 0, 4), written(s, 5, 7), written(s, 8, 10)) * 86_400 + written(s, 11, 13)
        * 3_600 + written(s, 14, 16) * 60 + written(s, 17, 19)
}

/// Where decimal places of the seconds end that begin at 19: there, or behind a point and
/// digits.
pub open spec fn ends_seconds(s: Seq<u8>, q: int) -> bool {
    &&& 19 <= q <= s.len()
    &&& q == 19 ==> q == s.len() || s[19] != '.' as u8
    &&& q > 19 ==> s[19] == '.' as u8 && all_digits(s.subrange(20, q)) && (q == s.len() || !(48
        <= s[q] <= 57))
}

/// A timestamp without an offset is read as it is written, and one with an offset of hours
/// and minutes, with a colon between them or not, as so much later or earlier in UTC. Hour and
/// day of the week are those of the moment; decimal places do not count, nor does an offset of
/// a day or more, or of more minutes than an hour has, or written in another way. Anything whose
/// six fields are not digits is no timestamp.
#[verifier::rlimit(60)]
pub proof fn law_timestamps_are_read_as_written(s: Seq<u8>, q: int)
    ensures
        !has_fields(s) ==> timestamp(s) is None,
        has_fields(s) && ends_seconds(s, q) && (q == s.len() || (s[q] != '+' as u8 && s[q]
            != '-' as u8)) ==> ({
            let days = civil_days(written(s, 0, 4), written(s, 5, 7), written(s, 8, 10));
            timestamp(s) == Some(
                (written(s, 11, 13) as u8, ((days + 3) % 7) as u8, seconds_written(s) as i64),
            )
        }),
        has_fields(s) && ends_seconds(s, q) && q + 6 <= s.len() && (s[q] == '+' as u8 || s[q]
            == '-' as u8) && s[q + 3] == ':' as u8 && all_digits(s.subrange(q + 1, q + 3))
            && all_digits(s.subrange(q + 4, q + 6)) && written(s, q + 1, q + 3) < 24 && written(
            s,
            q + 4,
            q + 6,
        ) < 60 ==> timestamp(s) == moment_ahead(
            s,
            s[q] == '+' as u8,
            written(s, q + 1, q + 3) * 3_600 + written(s, q + 4, q + 6) * 60,
        ),
        has_fields(s) && ends_seconds(s, q) && q + 5 <= s.len() && (s[q] == '+' as u8 || s[q]
            == '-' as u8) && all_digits(s.subrange(q + 1, q + 3)) && all_digits(
            s.subrange(q + 3, q + 5),
        ) && written(s, q + 1, q + 3) < 24 && written(s, q + 3, q + 5) < 60 ==> timestamp(s)
            == moment_ahead(
            s,
            s[q] == '+' as u8,
            written(s, q + 1, q + 3) * 3_600 + written(s, q + 3, q + 5) * 60,
        ),
        has_fields(s) && ends_seconds(s, q) && !(q + 6 <= s.len() && s[q + 3] == ':' as u8
            && all_digits(s.subrange(q + 1, q + 3)) && all_digits(s.subrange(q + 4, q + 6))
            && written(s, q + 1, q + 3) < 24 && written(s, q + 4, q + 6) < 60) && !(q + 5
            <= s.len() && all_digits(s.subrange(q + 1, q + 3)) && all_digits(
            s.subrange(q + 3, q + 5),
        ) && written(s, q + 1, q + 3) < 24 && written(s, q + 3, q + 5) < 60) ==> ({
            let days = civil_days(written(s, 0, 4), written(s, 5, 7), written(s, 8, 10));
            timestamp(s) == Some(
                (written(s, 11, 13) as u8, ((days + 3) % 7) as u8, seconds_written(s) as i64),
            )
        }),
{
    if s.len() >= 19 {
        lemma_digits_at(s, 0, 4);
        lemma_digits_at(s, 5, 7);
        lemma_digits_at(s, 8, 10);
        lemma_digits_at(s, 11, 13);
        lemma_digits_at(s, 14, 16);
        lemma_digits_at(s, 17, 19);
    }
    if has_fields(s) && ends_seconds(s, q) {
        if q > 19 {
            assert forall|i: int| 20 <= i < q implies 48 <= #[trigger] s[i] <= 57 by {
                assert(s.subrange(20, q)[i - 20] == s[i]);
            }
            lemma_digits(s, 20, q as nat);
        }
        assert(seconds_end(s) == q);
        if q + 5 <= s.len() {
            lemma_digits_at(s, q + 1, q + 3);
            lemma_digits_at(s, q + 3, q + 5);
            if all_digits(s.subrange(q + 3, q + 5)) {
                assert(s.subrange(q + 3, q + 5)[0] == s[q + 3]);
            }
        }
        if q + 6 <= s.len() {
            lemma_digits_at(s, q + 4, q + 6);
        }
    }
}

/// The moment that a timestamp writes on a clock that is ahead of UTC by so many seconds, or
/// behind it.
pub open spec fn moment_ahead(s: Seq<u8>, ahead: bool, offset: int) -> Option<(u8, u8, i64)> {
    let e = if ahead {
        seconds_written(s) - offset
    } else {
        seconds_written(s) + offset
    };
    Some(((e % 86_400 / 3_600) as u8, ((e / 86_400 + 3) % 7) as u8, e as i64))
}

} // verus!
