//! Timestamped log lines: `HH:MM:SS:.mmm | message`, the time of day in UTC.

use vstd::prelude::*;

verus! {

/// Nanoseconds in a second.
pub const NANOS_PER_SECOND: i64 = 1_000_000_000;

/// The character of the decimal digit `d`.
pub open spec fn digit_char(d: int) -> char {
    (48 + d) as char
}

/// `n` (below 100) as two decimal digits.
pub open spec fn two_digits(n: int) -> Seq<char> {
    seq![digit_char(n / 10), digit_char(n % 10)]
}

/// `n` (below 1000) as three decimal digits.
pub open spec fn three_digits(n: int) -> Seq<char> {
    seq![digit_char(n / 100), digit_char(n / 10 % 10), digit_char(n % 10)]
}

/// The UTC time of day of the instant `unix_nanos` nanoseconds after
/// 1970-01-01 00:00:00 UTC, written `HH:MM:SS:.mmm` (hours, minutes, seconds,
/// then the milliseconds after a dot). Before 1970 the instant counts back.
pub open spec fn clock_chars(unix_nanos: int) -> Seq<char> {
    let seconds = unix_nanos / (NANOS_PER_SECOND as int);
    let nanos = unix_nanos % (NANOS_PER_SECOND as int);
    let of_day = seconds % 86_400;
    two_digits(of_day / 3600) + seq![':'] + two_digits(of_day % 3600 / 60) + seq![':'] + two_digits(
        of_day % 60,
    ) + seq![':', '.'] + three_digits(nanos / 1_000_000)
}

/// The text chrono's `DateTime::<Utc>::from_timestamp_nanos(unix_nanos)` gives
/// for the format `%H:%M:%S:%.3f`. The claim, from chrono's documentation and
/// source: the instant splits into whole seconds and nanoseconds by Euclidean
/// division (so it always exists), the time of day is the seconds modulo one
/// day, `%H`, `%M` and `%S` write the hour, minute and second with two
/// zero-padded digits, and `%.3f` writes a dot and the milliseconds with three
/// digits.
#[verifier::external_body]
fn clock_text(unix_nanos: i64) -> (text: String)
    ensures
        text@ == clock_chars(unix_nanos as int),
{
    chrono::DateTime::<chrono::Utc>::from_timestamp_nanos(unix_nanos).format(
        "%H:%M:%S:%.3f",
    ).to_string()
}

/// The log line of `message` at the instant `unix_nanos` nanoseconds after
/// 1970-01-01 00:00:00 UTC: the time of day, ` | ` and the message.
pub fn log_line(unix_nanos: i64, message: &str) -> (line: String)
    ensures
        line@ == clock_chars(unix_nanos as int) + seq![' ', '|', ' '] + message@,
{
    let mut line = clock_text(unix_nanos);
    proof {
        reveal_strlit(" | ");
    }
    line.append(" | ");
    line.append(message);
    assert(line@ =~= clock_chars(unix_nanos as int) + seq![' ', '|', ' '] + message@);
    line
}

/// The number a decimal digit character stands for.
pub open spec fn digit_of(c: char) -> int {
    c as int - 48
}

/// Whether `c` is a decimal digit character.
pub open spec fn is_digit_char(c: char) -> bool {
    '0' <= c <= '9'
}

/// The time of day of an instant reads back from its text: hours, minutes,
/// seconds and milliseconds stand in fixed places as decimal digits, with `:`
/// between them and a `.` before the milliseconds. The hour is below 24, the
/// minute and second below 60, and instants a whole day apart have the same
/// text.
pub proof fn lemma_clock_fields(unix_nanos: int)
    ensures
        ({
            let t = clock_chars(unix_nanos);
            let seconds = unix_nanos / 1_000_000_000;
            let of_day = seconds % 86_400;
            &&& t.len() == 13
            &&& t[2] == ':' && t[5] == ':' && t[8] == ':' && t[9] == '.'
            &&& forall|i: int|
                0 <= i < 13 && i != 2 && i != 5 && i != 8 && i != 9 ==> is_digit_char(#[trigger] t[i])
            &&& digit_of(t[0]) * 10 + digit_of(t[1]) == of_day / 3600
            &&& digit_of(t[3]) * 10 + digit_of(t[4]) == of_day % 3600 / 60
            &&& digit_of(t[6]) * 10 + digit_of(t[7]) == of_day % 60
            &&& digit_of(t[10]) * 100 + digit_of(t[11]) * 10 + digit_of(t[12]) == unix_nanos
                % 1_000_000_000 / 1_000_000
            &&& of_day / 3600 < 24 && of_day % 3600 / 60 < 60
        }),
        clock_chars(unix_nanos + 86_400 * 1_000_000_000) == clock_chars(unix_nanos),
{
    let seconds = unix_nanos / 1_000_000_000;
    let of_day = seconds % 86_400;
    let ms = unix_nanos % 1_000_000_000 / 1_000_000;
    assert(0 <= of_day < 86_400);
    assert(0 <= ms < 1000);
    assert((unix_nanos + 86_400 * 1_000_000_000) / 1_000_000_000 == seconds + 86_400);
    assert((unix_nanos + 86_400 * 1_000_000_000) % 1_000_000_000 == unix_nanos % 1_000_000_000);
    assert((seconds + 86_400) % 86_400 == of_day);
    let t = clock_chars(unix_nanos);
    assert forall|i: int|
        0 <= i < 13 && i != 2 && i != 5 && i != 8 && i != 9 implies is_digit_char(#[trigger] t[i]) by {
    }
}

} // verus!
