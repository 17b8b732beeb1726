//! Numbers as decimal text.

use crate::text::{string_of, text_of};
use vstd::prelude::*;
use vstd::string::StringExecFns;

verus! {

/// The decimal digits.
pub open spec fn digits() -> Seq<char> {
    seq!['0', '1', '2', '3', '4', '5', '6', '7', '8', '9']
}

/// `n` in decimal, without leading zeros.
pub open spec fn decimal(n: nat) -> Seq<char>
    decreases n,
{
    if n < 10 {
        seq![digits()[n as int]]
    } else {
        decimal(n / 10).push(digits()[(n % 10) as int])
    }
}

/// `count` zeros.
pub open spec fn zeros(count: nat) -> Seq<char> {
    Seq::new(count, |i: int| '0')
}

/// `n` in decimal, with zeros in front up to `width` characters. A number
/// with more digits than that is written in full.
pub open spec fn padded(n: nat, width: nat) -> Seq<char> {
    if decimal(n).len() >= width {
        decimal(n)
    } else {
        zeros((width - decimal(n).len()) as nat) + decimal(n)
    }
}

/// `n` in decimal, with a minus sign in front where it is negative.
pub open spec fn signed_decimal(n: int) -> Seq<char> {
    if n < 0 {
        seq!['-'] + decimal((-n) as nat)
    } else {
        decimal(n as nat)
    }
}

fn digit(d: u64) -> (c: char)
    requires
        d < 10,
    ensures
        c == digits()[d as int],
{
    if d == 0 {
        '0'
    } else if d == 1 {
        '1'
    } else if d == 2 {
        '2'
    } else if d == 3 {
        '3'
    } else if d == 4 {
        '4'
    } else if d == 5 {
        '5'
    } else if d == 6 {
        '6'
    } else if d == 7 {
        '7'
    } else if d == 8 {
        '8'
    } else {
        '9'
    }
}

pub(crate) fn push_decimal(out: &mut Vec<char>, n: u64)
    ensures
        final(out)@ == old(out)@ + decimal(n as nat),
    decreases n,
{
    if n >= 10 {
        push_decimal(out, n / 10);
    }
    let ghost before = out@;
    out.push(digit(n % 10));
    proof {
        if n >= 10 {
            assert(out@ =~= old(out)@ + decimal((n / 10) as nat).push(digits()[(n % 10) as int]));
        } else {
            assert(out@ =~= old(out)@ + seq![digits()[n as int]]);
        }
    }
}

pub(crate) fn push_padded(out: &mut Vec<char>, n: u64, width: usize)
    ensures
        final(out)@ == old(out)@ + padded(n as nat, width as nat),
{
    let mut text: Vec<char> = Vec::new();
    push_decimal(&mut text, n);
    assert(text@ =~= decimal(n as nat));
    let mut k: usize = text.len();
    while k < width
        invariant
            text@ == decimal(n as nat),
            text.len() <= k || text.len() >= width,
            k >= text.len(),
            k < width ==> out@ == old(out)@ + zeros((k - text.len()) as nat),
            k >= width ==> out@ == old(out)@ + zeros(
                if text.len() >= width {
                    0nat
                } else {
                    (width - text.len()) as nat
                },
            ),
        decreases width - k,
    {
        let ghost before = out@;
        out.push('0');
        k += 1;
        proof {
            assert(before.push('0') =~= old(out)@ + zeros((k - text.len()) as nat));
        }
    }
    let ghost head = out@;
    let mut j: usize = 0;
    while j < text.len()
        invariant
            j <= text.len(),
            out@ == head + text@.take(j as int),
        decreases text.len() - j,
    {
        out.push(text[j]);
        assert(text@.take(j + 1) =~= text@.take(j as int).push(text@[j as int]));
        j += 1;
    }
    proof {
        assert(text@.take(text.len() as int) =~= text@);
        if text.len() >= width {
            assert(head =~= old(out)@);
        }
        assert(out@ =~= old(out)@ + padded(n as nat, width as nat));
    }
}

/// The warning to show for a store that is `percent_used` per cent full:
/// none below 90.
pub open spec fn quota_warning_text(percent_used: nat) -> Option<Seq<char>> {
    if percent_used >= 90 {
        Some("Storage "@ + decimal(percent_used) + "% full!"@)
    } else {
        None
    }
}

/// The warning to show for a store that is `percent_used` per cent full.
pub fn quota_warning(percent_used: u64) -> (warning: Option<String>)
    ensures
        text_of(warning) == quota_warning_text(percent_used as nat),
{
    if percent_used >= 90 {
        let mut number: Vec<char> = Vec::new();
        push_decimal(&mut number, percent_used);
        assert(number@ =~= decimal(percent_used as nat));
        let text = "Storage ".to_owned().concat(string_of(number.as_slice()).as_str()).concat(
            "% full!",
        );
        Some(text)
    } else {
        None
    }
}

/// The name of the file that a session is exported to.
pub fn session_file_name(session_id: &str) -> (name: String)
    ensures
        name@ == "session-"@ + session_id@ + ".json"@,
{
    "session-".to_owned().concat(session_id).concat(".json")
}

/// The name of the file that the whole store is exported to at the time
/// `timestamp`.
pub fn export_file_name(timestamp: i64) -> (name: String)
    ensures
        name@ == "tab-hoarder-export-"@ + signed_decimal(timestamp as int) + ".json"@,
{
    let mut number: Vec<char> = Vec::new();
    if timestamp < 0 {
        number.push('-');
        push_decimal(&mut number, (-(timestamp as i128)) as u64);
    } else {
        push_decimal(&mut number, timestamp as u64);
    }
    assert(number@ =~= signed_decimal(timestamp as int));
    "tab-hoarder-export-".to_owned().concat(string_of(number.as_slice()).as_str()).concat(".json")
}

} // verus!
