//! What the server takes from the machine: the local time, and fresh
//! connection ids.
use vstd::prelude::*;

verus! {

/// The pattern of a time stamp in a log line: date and time of day.
pub const DATE_TIME_PATTERN: &'static str = "%Y-%m-%d %H:%M:%S";

/// The pattern of the date that names a day's log directory.
pub const DATE_PATTERN: &'static str = "%Y-%m-%d";

/// A decimal digit.
pub open spec fn is_digit(c: char) -> bool {
    48 <= c as u32 <= 57
}

/// The value of a two-digit decimal text.
pub open spec fn two_digit_value(s: Seq<char>) -> int {
    (s[0] as u32 - 48) * 10 + (s[1] as u32 - 48)
}

/// Two decimal digits whose value lies in `lo..=hi`.
pub open spec fn is_two_digits_in(s: Seq<char>, lo: int, hi: int) -> bool {
    &&& s.len() == 2
    &&& is_digit(s[0])
    &&& is_digit(s[1])
    &&& lo <= two_digit_value(s) <= hi
}

/// A year as chrono's `%Y` writes it: four digits for years 0 to 9999,
/// otherwise a sign and at least four digits.
pub open spec fn is_year_text(y: Seq<char>) -> bool {
    ||| (y.len() == 4 && forall|i: int| 0 <= i < 4 ==> is_digit(#[trigger] y[i]))
    ||| (y.len() >= 5 && (y[0] == '+' || y[0] == '-') && forall|i: int|
        1 <= i < y.len() ==> is_digit(#[trigger] y[i]))
}

/// A date as `%Y-%m-%d` writes it, such as `2024-01-31`: a year, a month
/// from 01 to 12 and a day from 01 to 31.
pub open spec fn is_date_text(s: Seq<char>) -> bool {
    let n = s.len() as int;
    &&& n >= 10
    &&& is_year_text(s.subrange(0, n - 6))
    &&& s[n - 6] == '-'
    &&& is_two_digits_in(s.subrange(n - 5, n - 3), 1, 12)
    &&& s[n - 3] == '-'
    &&& is_two_digits_in(s.subrange(n - 2, n), 1, 31)
}

/// A date and time as `%Y-%m-%d %H:%M:%S` writes it, such as
/// `2024-01-31 13:05:09`: a date, an hour from 00 to 23, a minute from 00 to
/// 59 and a second from 00 to 60 (60 in a leap second).
pub open spec fn is_date_time_text(s: Seq<char>) -> bool {
    let n = s.len() as int;
    &&& n >= 19
    &&& is_date_text(s.subrange(0, n - 9))
    &&& s[n - 9] == ' '
    &&& is_two_digits_in(s.subrange(n - 8, n - 6), 0, 23)
    &&& s[n - 6] == ':'
    &&& is_two_digits_in(s.subrange(n - 5, n - 3), 0, 59)
    &&& s[n - 3] == ':'
    &&& is_two_digits_in(s.subrange(n - 2, n), 0, 60)
}

/// `chrono::Local::now()` written through `format(pattern)`: the local time
/// at the call, in the given pattern. Which time comes out rests on the clock
/// and the machine's time zone; the contract states the shape that every
/// outcome has, as chrono's formatting code writes `%Y` (four digits, or a
/// sign and at least four digits outside the years 0 to 9999), `%m`, `%d`,
/// `%H`, `%M` and `%S` (two digits each, the second reaching 60 only in a
/// leap second). `requires` admits only the two patterns the server uses,
/// which chrono formats without error.
#[verifier::external_body]
fn local_now_text(pattern: &str) -> (res: String)
    requires
        pattern@ == DATE_TIME_PATTERN@ || pattern@ == DATE_PATTERN@,
    ensures
        pattern@ == DATE_TIME_PATTERN@ ==> is_date_time_text(res@),
        pattern@ == DATE_PATTERN@ ==> is_date_text(res@),
{
    chrono::Local::now().format(pattern).to_string()
}

/// The local time now, as `2024-01-31 13:05:09`.
pub fn now_date_time() -> (res: String)
    ensures
        is_date_time_text(res@),
{
    local_now_text(DATE_TIME_PATTERN)
}

/// `chrono::Local::now()` moved back by `chrono::TimeDelta::try_days(days)`
/// through `checked_sub_signed`, written through `format("%Y-%m-%d")`: the
/// local date `days` days ago, or `None` where that date is out of chrono's
/// range. Which date comes out rests on the clock; the contract states the
/// shape of every date text, as for `local_now_text`, that a date at most
/// a century back is always reached, and that one more than 200,000,000 days
/// back never is. `try_days` fails for no `u32`; the clock never reads before
/// 1970 (`Utc::now` panics instead), and a date a century before that is well
/// inside chrono's range, where `checked_sub_signed` does not fail. That range
/// runs from the year -262143 to the year 262142, fewer than 192,000,000 days
/// in all, so a move back by more than 200,000,000 days leaves it from any
/// clock reading, and `NaiveDate::checked_sub_signed` gives `None`.
#[verifier::external_body]
fn local_date_days_ago(days: u32) -> (res: Option<String>)
    ensures
        res matches Some(s) ==> is_date_text(s@),
        days <= 36500 ==> res is Some,
        days > 200_000_000 ==> res is None,
{
    let delta = match chrono::TimeDelta::try_days(days as i64) {
        Some(d) => d,
        None => return None,
    };
    match chrono::Local::now().checked_sub_signed(delta) {
        Some(t) => Some(t.format(DATE_PATTERN).to_string()),
        None => None,
    }
}

/// The local date `days` days ago, as `2024-01-31`, where chrono can reach
/// it, which it always can up to a century back and never beyond 200,000,000
/// days back.
pub fn date_days_ago(days: u32) -> (res: Option<String>)
    ensures
        res matches Some(s) ==> is_date_text(s@),
        days <= 36500 ==> res is Some,
        days > 200_000_000 ==> res is None,
{
    local_date_days_ago(days)
}

/// The local date now, as `2024-01-31`.
pub fn now_date() -> (res: String)
    ensures
        is_date_text(res@),
{
    local_now_text(DATE_PATTERN)
}

/// A lower-case hexadecimal digit.
pub open spec fn is_lower_hex(c: char) -> bool {
    (48 <= c as u32 <= 57) || (97 <= c as u32 <= 102)
}

/// The hyphenated text of a random (version 4, RFC 4122 variant) UUID, such
/// as `67e55044-10b1-426f-9247-bb680e5fe0c8`.
pub open spec fn is_uuid_v4_text(s: Seq<char>) -> bool {
    &&& s.len() == 36
    &&& forall|i: int|
        0 <= i < 36 ==> if i == 8 || i == 13 || i == 18 || i == 23 {
            #[trigger] s[i] == '-'
        } else {
            is_lower_hex(s[i])
        }
    &&& s[14] == '4'
    &&& (s[19] == '8' || s[19] == '9' || s[19] == 'a' || s[19] == 'b')
}

/// `uuid::Uuid::new_v4().to_string()`: a random UUID in its hyphenated
/// lower-case text. Which UUID comes out rests on the random source; the
/// contract states the shape that every outcome has (uuid's `new_v4` sets the
/// version and variant bits, and its `Display` writes the hyphenated
/// lower-case form).
#[verifier::external_body]
fn random_uuid_text() -> (res: String)
    ensures
        is_uuid_v4_text(res@),
{
    uuid::Uuid::new_v4().to_string()
}

/// A fresh id for a new connection.
pub fn new_connection_id() -> (id: String)
    ensures
        is_uuid_v4_text(id@),
{
    random_uuid_text()
}

} // verus!
