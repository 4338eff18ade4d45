//! Reading timestamps and the clock.
use vstd::prelude::*;

verus! {

/// The seconds since the Unix epoch that chrono reads from `s` in the format `fmt`, as a
/// naive date and time taken to be in UTC, or `None` where chrono rejects the text.
pub uninterp spec fn naive_timestamp_of(s: Seq<char>, fmt: Seq<char>) -> Option<i64>;

/// Relies on chrono's `NaiveDateTime::parse_from_str`, whose result depends on the text and
/// the format alone, and on `NaiveDateTime::and_utc` and `DateTime::timestamp` to count the
/// seconds since the Unix epoch.
#[verifier::external_body]
pub fn parse_naive_timestamp(s: &str, fmt: &str) -> (r: Option<i64>)
    ensures
        r == naive_timestamp_of(s@, fmt@),
{
    match chrono::NaiveDateTime::parse_from_str(s, fmt) {
        Ok(d) => Some(d.and_utc().timestamp()),
        Err(_) => None,
    }
}

/// The seconds since the Unix epoch of the instant that chrono reads from `s` in the format
/// `fmt`, which must give a UTC offset, or `None` where chrono rejects the text.
pub uninterp spec fn offset_timestamp_of(s: Seq<char>, fmt: Seq<char>) -> Option<i64>;

/// Relies on chrono's `DateTime::parse_from_str`, which reads the offset as well, and on
/// `DateTime::timestamp` for the seconds since the Unix epoch of that instant in UTC; the
/// result depends on the text and the format alone.
#[verifier::external_body]
pub fn parse_offset_timestamp(s: &str, fmt: &str) -> (r: Option<i64>)
    ensures
        r == offset_timestamp_of(s@, fmt@),
{
    match chrono::DateTime::parse_from_str(s, fmt) {
        Ok(d) => Some(d.timestamp()),
        Err(_) => None,
    }
}

/// Relies on `SystemTime::now` and `SystemTime::duration_since` for the whole seconds since
/// the Unix epoch; a clock set before the epoch reads as 0. Nothing is claimed of its value.
#[verifier::external_body]
pub fn unix_now_secs() -> (r: u64) {
    match std::time::SystemTime::now().duration_since(std::time::UNIX_EPOCH) {
        Ok(d) => d.as_secs(),
        Err(_) => 0,
    }
}

/// The text that chrono writes for the UTC instant `t` seconds after the Unix epoch, in the
/// format `%Y-%m-%d %H:%M:%S`, or `None` where `t` lies outside chrono's range.
pub uninterp spec fn utc_text_of(t: i64) -> Option<Seq<char>>;

/// Relies on chrono's `DateTime::from_timestamp`, which gives `None` outside its range, and
/// `DateTime::format`: the text depends on `t` alone.
#[verifier::external_body]
pub fn utc_text(t: i64) -> (r: Option<String>)
    ensures
        match r {
            Some(s) => utc_text_of(t) == Some(s@),
            None => utc_text_of(t) is None,
        },
{
    match chrono::DateTime::from_timestamp(t, 0) {
        Some(d) => Some(d.format("%Y-%m-%d %H:%M:%S").to_string()),
        None => None,
    }
}

/// The decimal digits of `n`, without leading zeros.
pub open spec fn decimal_digits(n: nat) -> Seq<char>
    decreases n,
{
    let d = (n % 10) as u32;
    let c = ('0' as u32 + d) as char;
    if n < 10 {
        seq![c]
    } else {
        decimal_digits(n / 10).push(c)
    }
}

/// Relies on `u16`'s `Display`, which writes the number in decimal.
#[verifier::external_body]
pub fn decimal_text(n: u16) -> (r: String)
    ensures
        r@ == decimal_digits(n as nat),
{
    n.to_string()
}

} // verus!
