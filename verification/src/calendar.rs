//! The Gregorian calendar and timestamps of the form `YYYY-MM-DDTHH:MM:SS`, with decimal
//! places of the seconds and an offset from UTC behind it or not.

use vstd::prelude::*;
use vstd::arithmetic::div_mod::{lemma_fundamental_div_mod, lemma_fundamental_div_mod_converse};

use crate::text::{check_digit, digits_end, is_digit, lemma_digits_end, number};

verus! {

/// `a / b` towards zero.
pub open spec fn truncating_div(a: int, b: int) -> int {
    if a >= 0 {
        a / b
    } else {
        -((-a) / b)
    }
}

/// The 32 bits of `n` as a number in two's complement.
pub open spec fn signed(n: u32) -> int {
    if n < 0x8000_0000 {
        n as int
    } else {
        n - 0x1_0000_0000
    }
}

/// The days from 1970-01-01 to the given day of the proleptic Gregorian calendar.
///
/// A year is counted from March on, so that a leap day ends it: before the year `y` there
/// are `365 * y` days and one more for every leap year, and the months of a year begin at
/// every 30.6 days. Months beyond December go on at that pace.
pub open spec fn civil_days(y: int, m: int, d: int) -> int {
    let year = if m <= 2 {
        y - 1
    } else {
        y
    };
    let month = if m <= 2 {
        m + 9
    } else {
        m - 3
    };
    365 * year + year / 4 - year / 100 + year / 400 + truncating_div(153 * month + 2, 5) + d - 1
        - 719_468
}

/// The day of the week, from Monday = 0 to Sunday = 6.
pub open spec fn weekday_of(days: int) -> int {
    (days + 3) % 7
}

/// Whether `y` has a 29th of February.
pub open spec fn is_leap_year(y: int) -> bool {
    y % 4 == 0 && (y % 100 != 0 || y % 400 == 0)
}

/// The number of days of a month.
pub open spec fn month_length(y: int, m: int) -> int {
    if m == 2 {
        if is_leap_year(y) {
            29
        } else {
            28
        }
    } else if m == 4 || m == 6 || m == 9 || m == 11 {
        30
    } else {
        31
    }
}

/// Whether the calendar has the day.
pub open spec fn is_date(y: int, m: int, d: int) -> bool {
    1 <= m <= 12 && 1 <= d <= month_length(y, m)
}

/// The day that follows in the calendar, as year, month and day.
pub open spec fn next_day(y: int, m: int, d: int) -> (int, int, int) {
    if d < month_length(y, m) {
        (y, m, d + 1)
    } else if m < 12 {
        (y, m + 1, 1)
    } else {
        (y + 1, 1, 1)
    }
}

/// Day 0 is 1970-01-01, a Thursday. From there the days of the calendar are counted one by
/// one, and the week goes on with them.
pub proof fn law_days_follow_the_calendar(y: int, m: int, d: int)
    requires
        is_date(y, m, d),
    ensures
        ({
            let (y1, m1, d1) = next_day(y, m, d);
            &&& is_date(y1, m1, d1)
            &&& civil_days(y1, m1, d1) == civil_days(y, m, d) + 1
            &&& weekday_of(civil_days(y1, m1, d1)) == (weekday_of(civil_days(y, m, d)) + 1) % 7
        }),
        civil_days(1970, 1, 1) == 0 && weekday_of(0) == 3,
{
    lemma_next_day(y, m, d);
    lemma_next_weekday(civil_days(y, m, d));
}

proof fn lemma_next_weekday(days: int)
    ensures
        weekday_of(days + 1) == (weekday_of(days) + 1) % 7,
{
}

/// A quotient goes up by one at every multiple of the divisor.
proof fn lemma_multiple_reached(y: int, k: int)
    requires
        k > 0,
    ensures
        y / k - (y - 1) / k == if y % k == 0 {
            1int
        } else {
            0
        },
{
    lemma_fundamental_div_mod(y, k);
    let q = y / k;
    let r = y % k;
    if r == 0 {
        assert(y - 1 == (q - 1) * k + (k - 1)) by (nonlinear_arith)
            requires
                y == k * q,
        ;
        lemma_fundamental_div_mod_converse(y - 1, k, q - 1, k - 1);
    } else {
        assert(y - 1 == q * k + (r - 1)) by (nonlinear_arith)
            requires
                y == k * q + r,
        ;
        lemma_fundamental_div_mod_converse(y - 1, k, q, r - 1);
    }
}

/// The leap day of the year `y`, if it has one, makes the years up to it a day longer.
pub proof fn lemma_leap_day(y: int)
    ensures
        365 * y + y / 4 - y / 100 + y / 400 - (365 * (y - 1) + (y - 1) / 4 - (y - 1) / 100 + (y
            - 1) / 400) == 365 + if is_leap_year(y) {
            1int
        } else {
            0
        },
{
    lemma_multiple_reached(y, 4);
    lemma_multiple_reached(y, 100);
    lemma_multiple_reached(y, 400);
    assert(y % 400 == 0 ==> y % 100 == 0);
    assert(y % 100 == 0 ==> y % 4 == 0);
}

proof fn lemma_next_day(y: int, m: int, d: int)
    requires
        is_date(y, m, d),
    ensures
        ({
            let (y1, m1, d1) = next_day(y, m, d);
            &&& is_date(y1, m1, d1)
            &&& civil_days(y1, m1, d1) == civil_days(y, m, d) + 1
        }),
{
    if d == month_length(y, m) {
        if m == 1 {
        } else if m == 2 {
            lemma_leap_day(y);
        } else if m == 3 {
        } else if m == 4 {
        } else if m == 5 {
        } else if m == 6 {
        } else if m == 7 {
        } else if m == 8 {
        } else if m == 9 {
        } else if m == 10 {
        } else if m == 11 {
        } else {
        }
    }
}

/// Whether the bytes from `i` to `j` are digits.
pub open spec fn digits_at(s: Seq<u8>, i: int, j: int) -> bool {
    forall|k: int| i <= k < j ==> is_digit(#[trigger] s[k])
}

/// The number written from `i` to `j`.
pub open spec fn number_at(s: Seq<u8>, i: int, j: int) -> nat {
    number(s.subrange(i, j))
}

/// Whether the six fields of a timestamp are there.
pub open spec fn is_timestamp(s: Seq<u8>) -> bool {
    &&& s.len() >= 19
    &&& digits_at(s, 0, 4)
    &&& digits_at(s, 5, 7)
    &&& digits_at(s, 8, 10)
    &&& digits_at(s, 11, 13)
    &&& digits_at(s, 14, 16)
    &&& digits_at(s, 17, 19)
}

/// The day that a timestamp names, counted from 1970-01-01.
pub open spec fn timestamp_days(s: Seq<u8>) -> int {
    civil_days(number_at(s, 0, 4) as int, number_at(s, 5, 7) as int, number_at(s, 8, 10) as int)
}

/// The seconds from 1970-01-01T00:00:00 to the date and time of day that a timestamp writes.
pub open spec fn local_seconds(s: Seq<u8>) -> int {
    timestamp_days(s) * 86_400 + number_at(s, 11, 13) * 3_600 + number_at(s, 14, 16) * 60
        + number_at(s, 17, 19)
}

/// The position behind the seconds and their decimal places, if there are any.
pub open spec fn seconds_end(s: Seq<u8>) -> nat {
    if s.len() > 19 && s[19] == '.' as u8 {
        digits_end(s, 20)
    } else {
        19
    }
}

/// Where the minutes of an offset at `i` begin, with a colon before them or not.
pub open spec fn offset_minutes(s: Seq<u8>, i: int) -> int {
    if i + 3 < s.len() && s[i + 3] == ':' as u8 {
        i + 4
    } else {
        i + 3
    }
}

/// How far the clock at `i` is set ahead of UTC, in seconds: `+HH:MM` or `-HH:MM`, with the
/// colon or without. Less than a day and whole minutes of an hour; anything else is none.
pub open spec fn offset_at(s: Seq<u8>, i: int) -> Option<int> {
    let m = offset_minutes(s, i);
    let hours = number_at(s, i + 1, i + 3) as int;
    let minutes = number_at(s, m, m + 2) as int;
    let ahead = hours * 3_600 + minutes * 60;
    if m + 2 <= s.len() && (s[i] == '+' as u8 || s[i] == '-' as u8) && digits_at(s, i + 1, i + 3)
        && digits_at(s, m, m + 2) && hours < 24 && minutes < 60 {
        Some(
            if s[i] == '+' as u8 {
                ahead
            } else {
                -ahead
            },
        )
    } else {
        None
    }
}

/// How far the clock of a timestamp is set ahead of UTC; `None` where it says nothing of it,
/// or `Z`.
pub open spec fn timestamp_offset(s: Seq<u8>) -> Option<int> {
    offset_at(s, seconds_end(s) as int)
}

/// The seconds from 1970-01-01T00:00:00 UTC to a timestamp, without their decimal places.
pub open spec fn timestamp_seconds(s: Seq<u8>) -> int {
    local_seconds(s) - match timestamp_offset(s) {
        Some(offset) => offset,
        None => 0,
    }
}

/// The hour of the day.
pub open spec fn hour_of(secs: int) -> int {
    (secs % 86_400) / 3_600
}

/// Hour, day of the week and seconds since 1970 of a timestamp, in UTC. Where it has no
/// offset, hour and day of the week are as they are written. What stands between the fields
/// is not looked at.
pub open spec fn timestamp(s: Seq<u8>) -> Option<(u8, u8, i64)> {
    let e = timestamp_seconds(s);
    if !is_timestamp(s) {
        None
    } else if timestamp_offset(s) is Some {
        Some((hour_of(e) as u8, weekday_of(e / 86_400) as u8, e as i64))
    } else {
        Some((number_at(s, 11, 13) as u8, weekday_of(timestamp_days(s)) as u8, e as i64))
    }
}

/// The number that a byte string writes; `None` if one of the bytes is no digit.
pub fn ascii_to_u32(b: &[u8]) -> (r: Option<u32>)
    requires
        number(b@.subrange(0, digits_end(b@, 0) as int)) <= u32::MAX,
    ensures
        r is Some == digits_at(b@, 0, b@.len() as int),
        r matches Some(n) ==> n == number(b@),
{
    let mut v: u32 = 0;
    let mut i: usize = 0;
    let ghost end = digits_end(b@, 0);
    proof {
        lemma_digits_end(b@, 0);
    }
    assert(b@.subrange(0, 0) =~= Seq::empty());
    while i < b.len()
        invariant
            i <= end <= b@.len(),
            end == digits_end(b@, 0),
            digits_at(b@, 0, end as int),
            end < b@.len() ==> !is_digit(b@[end as int]),
            v == number(b@.subrange(0, i as int)),
            number(b@.subrange(0, end as int)) <= u32::MAX,
        decreases b@.len() - i,
    {
        if !check_digit(b[i]) {
            return None;
        }
        proof {
            assert(i < end);
            let next = b@.subrange(0, i + 1);
            assert(next.drop_last() =~= b@.subrange(0, i as int));
            lemma_number_prefix(b@.subrange(0, end as int), i + 1);
            assert(b@.subrange(0, end as int).subrange(0, i + 1) =~= next);
        }
        v = v * 10 + (b[i] - '0' as u8) as u32;
        i = i + 1;
    }
    assert(b@.subrange(0, i as int) =~= b@);
    Some(v)
}

/// The digits that come first write no larger number than all of them.
pub proof fn lemma_number_prefix(digits: Seq<u8>, i: int)
    requires
        0 <= i <= digits.len(),
    ensures
        number(digits.subrange(0, i)) <= number(digits),
    decreases digits.len(),
{
    if i < digits.len() {
        lemma_number_prefix(digits.drop_last(), i);
        assert(digits.drop_last().subrange(0, i) =~= digits.subrange(0, i));
    } else {
        assert(digits.subrange(0, i) =~= digits);
    }
}

/// Reads the digits from `i` to `j`, of which there are at most four.
fn digits_from(s: &[u8], i: usize, j: usize) -> (r: Option<u32>)
    requires
        i <= j <= s@.len(),
        j - i <= 4,
    ensures
        r is Some == digits_at(s@, i as int, j as int),
        r matches Some(n) ==> n == number_at(s@, i as int, j as int) && n <= 9_999,
        j - i <= 2 ==> (r matches Some(n) ==> n <= 99),
{
    let part: &[u8] = &s[i..j];
    proof {
        let t = part@;
        let end = digits_end(t, 0);
        lemma_digits_end(t, 0);
        lemma_short_number(t.subrange(0, end as int));
        if digits_at(t, 0, t.len() as int) {
            assert(end == t.len());
            assert(t.subrange(0, end as int) =~= t);
            assert forall|k: int| i <= k < j implies is_digit(#[trigger] s@[k]) by {
                assert(t[k - i] == s@[k]);
            }
        } else {
            let k = choose|k: int| 0 <= k < t.len() && !is_digit(#[trigger] t[k]);
            assert(s@[i + k] == t[k]);
        }
    }
    ascii_to_u32(part)
}

proof fn lemma_short_number(digits: Seq<u8>)
    requires
        digits.len() <= 4,
        digits_at(digits, 0, digits.len() as int),
    ensures
        number(digits) <= 9_999,
        digits.len() <= 2 ==> number(digits) <= 99,
{
    reveal_with_fuel(number, 5);
    if digits.len() > 0 {
        assert(is_digit(digits.last()));
        let a = digits.drop_last();
        if a.len() > 0 {
            assert(is_digit(a.last()));
            let b = a.drop_last();
            if b.len() > 0 {
                assert(is_digit(b.last()));
                let c = b.drop_last();
                if c.len() > 0 {
                    assert(is_digit(c.last()));
                }
            }
        }
    }
}

/// The days from 1970-01-01 to the given day; month and day are read as signed numbers.
#[verifier::rlimit(40)]
pub fn days_from_civil(y: i32, m: u32, d: u32) -> (r: i64)
    ensures
        r == civil_days(y as int, signed(m), signed(d)),
{
    let mi: i64 = if m < 0x8000_0000 {
        m as i64
    } else {
        m as i64 - 0x1_0000_0000
    };
    let di: i64 = if d < 0x8000_0000 {
        d as i64
    } else {
        d as i64 - 0x1_0000_0000
    };
    let year: i64 = y as i64 - if mi <= 2 {
        1
    } else {
        0
    };
    let era: i64 = if year >= 0 {
        year / 400
    } else {
        -((399 - year) / 400)
    };
    let yoe: i64 = year - era * 400;
    proof {
        lemma_eras(year as int, era as int);
    }
    let doy_m: i64 = if mi > 2 {
        mi - 3
    } else {
        mi + 9
    };
    let n: i64 = 153 * doy_m + 2;
    let months: i64 = if n >= 0 {
        n / 5
    } else {
        -((-n) / 5)
    };
    let doe: i64 = yoe * 365 + yoe / 4 - yoe / 100 + (months + di - 1);
    era * 146_097 + doe - 719_468
}

/// Four hundred years are 146097 days.
proof fn lemma_eras(year: int, era: int)
    requires
        era == if year >= 0 {
            year / 400
        } else {
            -((399 - year) / 400)
        },
    ensures
        era == year / 400,
        0 <= year - era * 400 < 400,
        era * 146_097 + (year - era * 400) * 365 + (year - era * 400) / 4 - (year - era * 400) / 100
            == 365 * year + year / 4 - year / 100 + year / 400,
{
    let yoe = year - era * 400;
    assert(era == year / 400);
    assert(year / 4 == 100 * era + yoe / 4);
    assert(year / 100 == 4 * era + yoe / 100);
}

proof fn lemma_days_range(y: int, m: int, d: int)
    requires
        0 <= y <= 9_999,
        0 <= m <= 99,
        0 <= d <= 99,
    ensures
        -800_000 <= civil_days(y, m, d) <= 4_000_000,
{
}

proof fn lemma_weekday_shift(days: int)
    ensures
        (days + 800_005) % 7 == weekday_of(days),
{
}

proof fn lemma_number_at(s: Seq<u8>, i: int, j: int)
    requires
        0 <= i <= j <= s.len(),
        j - i <= 4,
        digits_at(s, i, j),
    ensures
        number_at(s, i, j) <= 9_999,
        j - i <= 2 ==> number_at(s, i, j) <= 99,
{
    let part = s.subrange(i, j);
    assert forall|k: int| 0 <= k < part.len() implies is_digit(#[trigger] part[k]) by {
        assert(part[k] == s[i + k]);
    }
    lemma_short_number(part);
}

/// A timestamp is within the reach of four-digit years.
pub proof fn lemma_timestamp_range(s: Seq<u8>)
    requires
        is_timestamp(s),
    ensures
        -1_000_000_000_000 < timestamp_seconds(s) < 1_000_000_000_000,
{
    lemma_number_at(s, 0, 4);
    lemma_number_at(s, 5, 7);
    lemma_number_at(s, 8, 10);
    lemma_number_at(s, 11, 13);
    lemma_number_at(s, 14, 16);
    lemma_number_at(s, 17, 19);
    lemma_days_range(
        number_at(s, 0, 4) as int,
        number_at(s, 5, 7) as int,
        number_at(s, 8, 10) as int,
    );
}

/// Twenty million days are a whole number of days; of weeks they leave six days.
proof fn lemma_moment_shift(e: int)
    requires
        -1_000_000_000_000 < e < 1_000_000_000_000,
    ensures
        (e + 1_728_000_000_000) % 86_400 == e % 86_400,
        ((e + 1_728_000_000_000) / 86_400 + 4) % 7 == weekday_of(e / 86_400),
{
    assert((e + 1_728_000_000_000) / 86_400 == e / 86_400 + 20_000_000);
}

/// The hour and the day of the week of a moment.
fn hour_and_weekday(e: i64) -> (r: (u8, u8))
    requires
        -1_000_000_000_000 < e < 1_000_000_000_000,
    ensures
        r.0 == hour_of(e as int),
        r.1 == weekday_of(e as int / 86_400),
{
    proof {
        lemma_moment_shift(e as int);
    }
    let shifted: i64 = e + 1_728_000_000_000;
    (((shifted % 86_400) / 3_600) as u8, ((shifted / 86_400 + 4) % 7) as u8)
}

/// How far the clock at `i` is set ahead of UTC.
fn read_offset(s: &[u8], i: usize) -> (r: Option<i64>)
    requires
        i <= s@.len(),
    ensures
        r is Some == offset_at(s@, i as int) is Some,
        r matches Some(offset) ==> offset_at(s@, i as int) == Some(offset as int) && -86_400
            < offset < 86_400,
{
    let len: usize = s.len();
    if len - i < 5 || !(s[i] == '+' as u8 || s[i] == '-' as u8) {
        return None;
    }
    let m: usize = if s[i + 3] == ':' as u8 {
        i + 4
    } else {
        i + 3
    };
    if len - m < 2 {
        return None;
    }
    let hours: u32 = match digits_from(s, i + 1, i + 3) {
        Some(n) => n,
        None => {
            return None;
        },
    };
    let minutes: u32 = match digits_from(s, m, m + 2) {
        Some(n) => n,
        None => {
            return None;
        },
    };
    if hours > 23 || minutes > 59 {
        return None;
    }
    let ahead: i64 = hours as i64 * 3_600 + minutes as i64 * 60;
    Some(
        if s[i] == '+' as u8 {
            ahead
        } else {
            -ahead
        },
    )
}

/// The position behind the seconds and their decimal places.
fn find_seconds_end(s: &[u8]) -> (r: usize)
    requires
        s@.len() >= 19,
    ensures
        r == seconds_end(s@),
        r <= s@.len(),
{
    if s.len() == 19 || s[19] != '.' as u8 {
        return 19;
    }
    let mut i: usize = 20;
    while i < s.len() && check_digit(s[i])
        invariant
            20 <= i <= s@.len(),
            digits_end(s@, i as nat) == digits_end(s@, 20),
        decreases s@.len() - i,
    {
        i = i + 1;
    }
    i
}

/// Hour, day of the week (Monday = 0) and seconds since 1970 of a timestamp.
pub fn parse_iso8601(s: &[u8]) -> (r: Option<(u8, u8, i64)>)
    ensures
        r == timestamp(s@),
        r matches Some((_, _, seconds)) ==> -1_000_000_000_000 < seconds < 1_000_000_000_000,
{
    if s.len() < 19 {
        return None;
    }
    let year: u32 = digits_from(s, 0, 4)?;
    let month: u32 = digits_from(s, 5, 7)?;
    let day: u32 = digits_from(s, 8, 10)?;
    let hour: u32 = digits_from(s, 11, 13)?;
    let minute: u32 = digits_from(s, 14, 16)?;
    let second: u32 = digits_from(s, 17, 19)?;
    let days: i64 = days_from_civil(year as i32, month, day);
    proof {
        lemma_days_range(year as int, month as int, day as int);
    }
    let local: i64 = days * 86_400 + hour as i64 * 3_600 + minute as i64 * 60 + second as i64;
    if let Some(offset) = read_offset(s, find_seconds_end(s)) {
        let seconds: i64 = local - offset;
        let (hour, weekday) = hour_and_weekday(seconds);
        return Some((hour, weekday, seconds));
    }
    let weekday: i64 = (days + 800_005) % 7;
    assert(weekday == weekday_of(days as int)) by {
        lemma_weekday_shift(days as int);
    }
    Some((hour as u8, weekday as u8, local))
}

} // verus!
