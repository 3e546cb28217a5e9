//! Timestamps: the database stores nanoseconds since 2001-01-01, and log
//! records carry a readable local date-time derived with the system UTC
//! offset. The calendar arithmetic itself is delegated to the `chrono`
//! crate behind trusted wrappers.

use chrono::Offset;
use chrono::TimeZone;
use vstd::prelude::*;

verus! {

/// Nanoseconds per second, the factor between the database's timestamps
/// and seconds.
pub const TIMESTAMP_FACTOR: i64 = 1_000_000_000;

/// Seconds between 1970-01-01 and 2001-01-01, the database's epoch.
pub const APPLE_EPOCH_SECONDS: i64 = 978_307_200;

/// Relies on chrono::Local::now and Offset::fix: the local UTC offset, in
/// seconds, at the moment of the call. It depends on the machine's time
/// zone and the time of the call, so nothing more is promised than a sane
/// magnitude, which chrono bounds by one day.
#[verifier::external_body]
pub fn get_offset() -> (r: i64)
    ensures
        -86_400 <= r <= 86_400,
{
    let offset = chrono::Local::now().offset().fix().local_minus_utc();
    if offset >= -86_400 && offset <= 86_400 {
        offset as i64
    } else {
        0
    }
}

/// The readable rendering of an instant given as seconds since 1970: a
/// fixed function of the seconds alone.
pub uninterp spec fn formatted_instant(seconds: i64) -> Seq<char>;

/// Relies on chrono::DateTime::from_timestamp and its `format`: rendering
/// a timestamp reads the seconds alone, so equal inputs give equal text on
/// every machine.
#[verifier::external_body]
pub fn format_instant(seconds: i64) -> (r: String)
    ensures
        r@ == formatted_instant(seconds),
{
    match chrono::DateTime::from_timestamp(seconds, 0) {
        Some(moment) => moment.format("%b %d, %Y %r").to_string(),
        None => String::new(),
    }
}

/// The seconds since 1970 that a database timestamp names, shifted by the
/// recorded UTC offset so the rendered text reads as local time.
pub open spec fn spec_local_seconds(date: i64, offset: i64) -> int {
    date / (1_000_000_000 as i64) + 978_307_200 + offset
}

/// Renders a database timestamp as readable local date-time text.
pub fn format_message_date(date: i64, offset: i64) -> (r: String)
    requires
        0 <= date,
        -86_400 <= offset <= 86_400,
    ensures
        r@ == formatted_instant(spec_local_seconds(date, offset) as i64),
{
    proof {
        assert(0 <= (date as int) / (1_000_000_000 as int) <= date) by (nonlinear_arith)
            requires
                0 <= date,
        ;
        assert((date as int) / (1_000_000_000 as int) <= 0x7fff_ffff_ffff_ffffint
            / (1_000_000_000 as int)) by (nonlinear_arith)
            requires
                0 <= date <= 0x7fff_ffff_ffff_ffffint,
        ;
    }
    let seconds_utc: i64 = date / TIMESTAMP_FACTOR;
    let seconds: i64 = seconds_utc + APPLE_EPOCH_SECONDS + offset;
    format_instant(seconds)
}

/// Relies on chrono::TimeZone::with_ymd_and_hms on the local time zone and
/// DateTime::timestamp_nanos_opt: the nanosecond timestamp of the local
/// midnight of a calendar day, when the day exists in the local calendar
/// and the instant is representable. The result depends on the machine's
/// time zone, so nothing is promised about its value.
#[verifier::external_body]
pub fn local_midnight_nanos(year: i32, month: u32, day: u32) -> (r: Option<i64>)
{
    match chrono::Local.with_ymd_and_hms(year, month, day, 0, 0, 0) {
        chrono::LocalResult::Single(moment) => moment.timestamp_nanos_opt(),
        _ => None,
    }
}

} // verus!
