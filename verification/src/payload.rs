//! A scoring request and the moments in it.

use vstd::prelude::*;
use chrono::{DateTime, Datelike, Timelike};

use crate::calendar::{hour_of, truncating_div, weekday_of};
use crate::single::Single;

verus! {

/// 262143 years before our era, on January 1, and the last second of the year 262142: the
/// range of `chrono`'s dates, in seconds since 1970.
pub const FIRST_SECOND: i64 = -8_334_601_228_800;

pub const LAST_SECOND: i64 = 8_210_266_876_799;

/// A moment in UTC: seconds since 1970, leap seconds not counted, and nanoseconds. A leap
/// second is the last second of its minute with a billion nanoseconds or more.
#[derive(Clone, Copy)]
pub struct Timestamp {
    secs: i64,
    nanos: u32,
}

/// Whether `secs` and `nanos` make a moment.
pub open spec fn is_moment(secs: i64, nanos: u32) -> bool {
    &&& FIRST_SECOND <= secs <= LAST_SECOND
    &&& nanos < 2_000_000_000
    &&& nanos >= 1_000_000_000 ==> secs % 60 == 59
}

/// The whole seconds from one moment to another, towards zero. A leap second counts where
/// it lies between the times of day.
pub open spec fn seconds_since(secs: int, nanos: int, from_secs: int, from_nanos: int) -> int {
    let leap: int = if secs % 86_400 > from_secs % 86_400 && from_nanos >= 1_000_000_000 {
        1
    } else if secs % 86_400 < from_secs % 86_400 && nanos >= 1_000_000_000 {
        -1
    } else {
        0
    };
    truncating_div(
        (secs - from_secs + leap) * 1_000_000_000 + nanos - from_nanos,
        1_000_000_000,
    )
}

/// `chrono`'s `Timelike::hour` of `DateTime::from_timestamp`: the hour, from 0 to 23, of
/// the time of day in UTC.
#[verifier::external_body]
fn utc_hour(secs: i64, nanos: u32) -> (r: u32)
    requires
        is_moment(secs, nanos),
    ensures
        r == hour_of(secs as int),
{
    DateTime::from_timestamp(secs, nanos).unwrap_or_default().hour()
}

/// `chrono`'s `Datelike::weekday` of `DateTime::from_timestamp`, by
/// `Weekday::num_days_from_monday`: the day of the week in UTC, Monday = 0.
#[verifier::external_body]
fn utc_weekday(secs: i64, nanos: u32) -> (r: u32)
    requires
        is_moment(secs, nanos),
    ensures
        r == weekday_of(secs as int / 86_400),
{
    DateTime::from_timestamp(secs, nanos).unwrap_or_default().weekday().num_days_from_monday()
}

/// `chrono`'s subtraction of two `DateTime::from_timestamp`, by `TimeDelta::num_seconds`:
/// the seconds from the second moment to the first.
#[verifier::external_body]
fn utc_seconds_since(secs: i64, nanos: u32, from_secs: i64, from_nanos: u32) -> (r: i64)
    requires
        is_moment(secs, nanos),
        is_moment(from_secs, from_nanos),
    ensures
        r == seconds_since(secs as int, nanos as int, from_secs as int, from_nanos as int),
{
    let to = DateTime::from_timestamp(secs, nanos).unwrap_or_default();
    let from = DateTime::from_timestamp(from_secs, from_nanos).unwrap_or_default();
    (to - from).num_seconds()
}

impl Timestamp {
    #[verifier::type_invariant]
    spec fn is_valid(self) -> bool {
        is_moment(self.secs, self.nanos)
    }

    /// Seconds since 1970.
    pub closed spec fn seconds(self) -> int {
        self.secs as int
    }

    /// Nanoseconds within the second.
    pub closed spec fn nanoseconds(self) -> int {
        self.nanos as int
    }

    /// The moment `secs` seconds and `nanos` nanoseconds after 1970 began, if the calendar
    /// reaches it.
    pub fn new(secs: i64, nanos: u32) -> (r: Option<Timestamp>)
        ensures
            r is Some == is_moment(secs, nanos),
            r matches Some(t) ==> t.seconds() == secs && t.nanoseconds() == nanos,
    {
        if secs < FIRST_SECOND || secs > LAST_SECOND || nanos >= 2_000_000_000 {
            return None;
        }
        if nanos >= 1_000_000_000 && (secs - FIRST_SECOND) % 60 != 59 {
            return None;
        }
        Some(Timestamp { secs, nanos })
    }

    /// The hour of the day in UTC.
    pub fn hour(&self) -> (r: u32)
        ensures
            r == hour_of(self.seconds()),
            r < 24,
    {
        proof {
            use_type_invariant(self);
        }
        utc_hour(self.secs, self.nanos)
    }

    /// The day of the week in UTC, Monday = 0.
    pub fn weekday(&self) -> (r: u32)
        ensures
            r == weekday_of(self.seconds() / 86_400),
            r < 7,
    {
        proof {
            use_type_invariant(self);
        }
        utc_weekday(self.secs, self.nanos)
    }

    /// The whole seconds from `earlier` to this moment.
    pub fn seconds_from(&self, earlier: &Timestamp) -> (r: i64)
        ensures
            r == seconds_since(
                self.seconds(),
                self.nanoseconds(),
                earlier.seconds(),
                earlier.nanoseconds(),
            ),
    {
        proof {
            use_type_invariant(self);
            use_type_invariant(earlier);
        }
        utc_seconds_since(self.secs, self.nanos, earlier.secs, earlier.nanos)
    }
}

pub struct Transaction {
    pub amount: Single,
    pub installments: u32,
    pub requested_at: Timestamp,
}

pub struct Customer {
    pub avg_amount: Single,
    pub tx_count_24h: u32,
    pub known_merchants: Vec<String>,
}

pub struct Merchant {
    pub id: String,
    pub mcc: String,
    pub avg_amount: Single,
}

pub struct Terminal {
    pub is_online: bool,
    pub card_present: bool,
    pub km_from_home: Single,
}

pub struct LastTransaction {
    pub timestamp: Timestamp,
    pub km_from_current: Single,
}

/// A transaction to be scored.
pub struct FraudRequest {
    pub id: String,
    pub transaction: Transaction,
    pub customer: Customer,
    pub merchant: Merchant,
    pub terminal: Terminal,
    pub last_transaction: Option<LastTransaction>,
}

/// The calendar reaches from the year -262143 to the year 262142. A second has a thousand million
/// nanoseconds, and the last one of a minute as many again for a leap second.
pub proof fn law_calendar_reaches_its_ends(secs: i64, nanos: u32)
    ensures
        is_moment(secs, nanos) <==> -8_334_601_228_800 <= secs <= 8_210_266_876_799 && nanos < if secs
            % 60 == 59 {
            2_000_000_000int
        } else {
            1_000_000_000
        },
{
}

} // verus!
