//! Instants, read from text and written as local dates and times.

use vstd::prelude::*;

use crate::calendar::calendar_date;
use crate::calendar::two_digits;

verus! {

/// The last millisecond that `chrono` can hold: the end of the year 262142.
pub const LAST_INSTANT: u64 = 8_210_266_876_799_999;

/// The milliseconds since the Unix epoch of a text in the format of RFC 3339, as
/// `chrono::DateTime::parse_from_rfc3339` reads it; nothing where it refuses the text.
pub uninterp spec fn rfc3339_millis(text: Seq<char>) -> Option<i64>;

/// `chrono::DateTime::parse_from_rfc3339`, and `timestamp_millis` of what it returns: the
/// result is a function of the text, and is named. Which texts are read, and as which
/// instants, is left to `chrono`.
#[verifier::external_body]
pub(crate) fn parse_rfc3339(text: &str) -> (millis: Option<i64>)
    ensures
        millis == rfc3339_millis(text@),
{
    chrono::DateTime::parse_from_rfc3339(text).ok().map(|instant| instant.timestamp_millis())
}

/// Whether a distance from UTC in seconds is less than a day.
pub open spec fn is_offset(offset: int) -> bool {
    -86_400 < offset < 86_400
}

/// The seconds of an instant on a clock that is `offset` seconds ahead of UTC.
pub open spec fn local_seconds(millis: u64, offset: int) -> int {
    millis as int / 1000 + offset
}

/// The number of the day of an instant, counted from the first day of 1970.
pub open spec fn local_day(millis: u64, offset: int) -> int {
    local_seconds(millis, offset) / 86_400
}

/// The time of day of an instant, as hours, minutes and seconds.
pub open spec fn time_at(millis: u64, offset: int) -> Seq<char> {
    let second = local_seconds(millis, offset) % 86_400;
    two_digits(second / 3600) + seq![':'] + two_digits(second / 60 % 60) + seq![':'] + two_digits(
        second % 60,
    )
}

/// The date of an instant.
pub open spec fn date_at(millis: u64, offset: int) -> Seq<char> {
    calendar_date(local_day(millis, offset))
}

/// Whether a text is the date of an instant at some distance from UTC.
pub open spec fn is_date_of(text: Seq<char>, millis: u64) -> bool {
    exists|offset: int| is_offset(offset) && text == #[trigger] date_at(millis, offset)
}

/// Whether a text is the time of day of an instant at some distance from UTC.
pub open spec fn is_time_of(text: Seq<char>, millis: u64) -> bool {
    exists|offset: int| is_offset(offset) && text == #[trigger] time_at(millis, offset)
}

/// `chrono::DateTime::<Local>::from` a `SystemTime`, and `local_minus_utc` of its offset: how
/// many seconds the clock of this machine is ahead of UTC at an instant. It rests on the time
/// zone of the machine; all that is said is that it is less than a day. A machine whose zone is
/// a day or more away from UTC makes `chrono` panic, whatever the instant.
#[verifier::external_body]
pub(crate) fn machine_offset(millis: u64) -> (offset: i32)
    requires
        millis <= LAST_INSTANT,
    ensures
        is_offset(offset as int),
{
    let instant = std::time::UNIX_EPOCH + std::time::Duration::from_millis(millis);
    chrono::DateTime::<chrono::Local>::from(instant).offset().local_minus_utc()
}

/// `chrono::DateTime::format`, of an instant at a fixed distance from UTC, for the two formats
/// of this library: the date of the instant in the Gregorian calendar, as `%Y-%m-%d` writes it,
/// or its time of day, as `%H:%M:%S` writes it.
#[verifier::external_body]
fn format_instant(millis: u64, offset: i32, format: &str) -> (text: String)
    requires
        millis <= LAST_INSTANT,
        is_offset(offset as int),
        format@ == "%Y-%m-%d"@ || format@ == "%H:%M:%S"@,
    ensures
        format@ == "%Y-%m-%d"@ ==> text@ == date_at(millis, offset as int),
        format@ == "%H:%M:%S"@ ==> text@ == time_at(millis, offset as int),
{
    let instant = std::time::UNIX_EPOCH + std::time::Duration::from_millis(millis);
    let zone = chrono::FixedOffset::east_opt(offset).unwrap();
    chrono::DateTime::<chrono::Utc>::from(instant).with_timezone(&zone).format(format).to_string()
}

/// `chrono::Local::now`, written by its `Display`: the present time. Nothing is said of it.
#[verifier::external_body]
pub(crate) fn present_time() -> (text: String) {
    chrono::Local::now().to_string()
}

/// The date of an instant on a clock that is `offset` seconds ahead of UTC.
pub fn format_date_at(timestamp: u64, offset: i32) -> (date: String)
    requires
        timestamp <= LAST_INSTANT,
        is_offset(offset as int),
    ensures
        date@ == date_at(timestamp, offset as int),
{
    format_instant(timestamp, offset, "%Y-%m-%d")
}

/// The time of day of an instant on a clock that is `offset` seconds ahead of UTC.
pub fn format_time_at(timestamp: u64, offset: i32) -> (time: String)
    requires
        timestamp <= LAST_INSTANT,
        is_offset(offset as int),
    ensures
        time@ == time_at(timestamp, offset as int),
{
    format_instant(timestamp, offset, "%H:%M:%S")
}

/// The date of an instant on the clock of this machine.
pub fn format_date(timestamp: u64) -> (date: String)
    requires
        timestamp <= LAST_INSTANT,
    ensures
        is_date_of(date@, timestamp),
{
    let offset: i32 = machine_offset(timestamp);
    format_date_at(timestamp, offset)
}

/// The time of day of an instant on the clock of this machine.
pub fn format_time(timestamp: u64) -> (time: String)
    requires
        timestamp <= LAST_INSTANT,
    ensures
        is_time_of(time@, timestamp),
{
    let offset: i32 = machine_offset(timestamp);
    format_time_at(timestamp, offset)
}

} // verus!
