//! Dates as text, from the numbers that a calendar gives.

use crate::numbers::{padded, push_padded};
use crate::text::string_of;
use vstd::prelude::*;
use vstd::string::StringExecFns;

verus! {

/// The day as `YYYY-MM-DD`, from the year, the month counted from zero and
/// the day of the month.
pub open spec fn day_text(year: nat, month: nat, day: nat) -> Seq<char> {
    padded(year, 4) + seq!['-'] + padded(month + 1, 2) + seq!['-'] + padded(day, 2)
}

/// Date and time as `YYYY-MM-DDTHH:MM:SS`.
pub open spec fn date_text(
    year: nat,
    month: nat,
    day: nat,
    hours: nat,
    minutes: nat,
    seconds: nat,
) -> Seq<char> {
    day_text(year, month, day) + seq!['T'] + padded(hours, 2) + seq![':'] + padded(minutes, 2)
        + seq![':'] + padded(seconds, 2)
}

/// Date and time as `YYYY-MM-DD HH:MM`.
pub open spec fn short_date_text(year: nat, month: nat, day: nat, hours: nat, minutes: nat) -> Seq<
    char,
> {
    day_text(year, month, day) + seq![' '] + padded(hours, 2) + seq![':'] + padded(minutes, 2)
}

fn push_day(out: &mut Vec<char>, year: u32, month: u32, day: u32)
    ensures
        final(out)@ == old(out)@ + day_text(year as nat, month as nat, day as nat),
{
    push_padded(out, year as u64, 4);
    out.push('-');
    push_padded(out, month as u64 + 1, 2);
    out.push('-');
    push_padded(out, day as u64, 2);
    assert(out@ =~= old(out)@ + day_text(year as nat, month as nat, day as nat));
}

/// Date and time as `YYYY-MM-DDTHH:MM:SS`. `month` counts from zero.
pub fn format_date(year: u32, month: u32, day: u32, hours: u32, minutes: u32, seconds: u32) -> (text:
    String)
    ensures
        text@ == date_text(
            year as nat,
            month as nat,
            day as nat,
            hours as nat,
            minutes as nat,
            seconds as nat,
        ),
{
    let mut out: Vec<char> = Vec::new();
    push_day(&mut out, year, month, day);
    out.push('T');
    push_padded(&mut out, hours as u64, 2);
    out.push(':');
    push_padded(&mut out, minutes as u64, 2);
    out.push(':');
    push_padded(&mut out, seconds as u64, 2);
    assert(out@ =~= date_text(
        year as nat,
        month as nat,
        day as nat,
        hours as nat,
        minutes as nat,
        seconds as nat,
    ));
    string_of(out.as_slice())
}

/// Date and time as `YYYY-MM-DD HH:MM`. `month` counts from zero.
pub fn format_date_short(year: u32, month: u32, day: u32, hours: u32, minutes: u32) -> (text:
    String)
    ensures
        text@ == short_date_text(
            year as nat,
            month as nat,
            day as nat,
            hours as nat,
            minutes as nat,
        ),
{
    let mut out: Vec<char> = Vec::new();
    push_day(&mut out, year, month, day);
    out.push(' ');
    push_padded(&mut out, hours as u64, 2);
    out.push(':');
    push_padded(&mut out, minutes as u64, 2);
    assert(out@ =~= short_date_text(
        year as nat,
        month as nat,
        day as nat,
        hours as nat,
        minutes as nat,
    ));
    string_of(out.as_slice())
}

/// The name that a session gets when it is made: `Session ` and the date
/// and time of its making.
pub fn session_name(year: u32, month: u32, day: u32, hours: u32, minutes: u32, seconds: u32) -> (name:
    String)
    ensures
        name@ == "Session "@ + date_text(
            year as nat,
            month as nat,
            day as nat,
            hours as nat,
            minutes as nat,
            seconds as nat,
        ),
{
    let date = format_date(year, month, day, hours, minutes, seconds);
    "Session ".to_owned().concat(date.as_str())
}

} // verus!
