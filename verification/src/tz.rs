//! The time-zone boundary: what only the zone database and the clock can
//! answer comes through here.

use vstd::prelude::*;
use crate::literals::{valid_date, valid_time, Date};

verus! {

/// Whether the IANA zone database knows a name; parsing a zone name is a
/// fixed function of the name alone.
pub uninterp spec fn is_known_tz(name: Seq<char>) -> bool;

/// Relies on chrono_tz's `Tz::from_str` and chrono's `Utc::now` converted
/// into the zone: the current civil date there. The result depends on the
/// clock, so nothing is promised of its value beyond being a real
/// calendar date; callers bound the year themselves. Known limit:
/// `Utc::now` itself panics when the system clock is set before the Unix
/// epoch.
#[verifier::external_body]
pub fn today_in_tz(name: &str) -> (r: Option<Date>)
    ensures
        r is Some <==> is_known_tz(name@),
        r matches Some(d) ==> valid_date(d.year as int, d.month as int, d.day as int),
{
    let tz: chrono_tz::Tz = match name.parse() {
        Ok(t) => t,
        Err(_) => {
            return None;
        },
    };
    let now = chrono::Utc::now().with_timezone(&tz);
    Some(Date {
        year: chrono::Datelike::year(&now),
        month: chrono::Datelike::month(&now),
        day: chrono::Datelike::day(&now),
    })
}

/// The zone's UTC offset in seconds for a local civil time, by the
/// earliest mapping when the clocks make it ambiguous, and nothing when
/// the local time falls in a spring-forward gap. A fixed function of the
/// zone name and the civil time: the zone table is compiled into the
/// binary.
pub uninterp spec fn tz_offset_of_local(
    name: Seq<char>,
    y: int,
    mo: int,
    d: int,
    h: int,
    mi: int,
    s: int,
) -> Option<int>;

/// Relies on chrono_tz's `offset_from_local_datetime` — a lookup in the
/// compiled zone table — through chrono's `from_local_datetime`,
/// `LocalResult::earliest` and `Offset::fix`: the zone's UTC offset in
/// seconds at the given local civil time. A fixed offset is strictly
/// within a day in either direction.
#[verifier::external_body]
pub fn local_zone_offset(name: &str, y: i32, mo: u32, d: u32, h: u32, mi: u32, s: u32) -> (r:
    Option<i32>)
    requires
        0 <= y <= 9999,
        valid_date(y as int, mo as int, d as int),
        valid_time(h as int, mi as int, s as int),
    ensures
        !is_known_tz(name@) ==> r is None,
        is_known_tz(name@) ==> ((r is Some <==> tz_offset_of_local(
            name@,
            y as int,
            mo as int,
            d as int,
            h as int,
            mi as int,
            s as int,
        ) is Some) && (r matches Some(o) ==> tz_offset_of_local(
            name@,
            y as int,
            mo as int,
            d as int,
            h as int,
            mi as int,
            s as int,
        ) == Some(o as int))),
        r matches Some(o) ==> -86400 < o < 86400,
{
    let tz: chrono_tz::Tz = name.parse().ok()?;
    let date = chrono::NaiveDate::from_ymd_opt(y, mo, d)?;
    let time = chrono::NaiveTime::from_hms_opt(h, mi, s)?;
    match chrono::TimeZone::from_local_datetime(&tz, &date.and_time(time)).earliest() {
        Some(dt) => Some(chrono::Offset::fix(chrono::DateTime::offset(&dt)).local_minus_utc()),
        None => None,
    }
}

} // verus!
