//! Verified presentation helpers: decimal rendering of numbers, the
//! human-readable size of a byte count, and the elapsed-time phrase shown
//! beside a history row.

use vstd::prelude::*;
use vstd::string::StringExecFns;

use crate::text::push_char;

verus! {

/// The decimal digit character for a value below ten.
pub open spec fn dec_digit(d: int) -> char {
    if d == 0 {
        '0'
    } else if d == 1 {
        '1'
    } else if d == 2 {
        '2'
    } else if d == 3 {
        '3'
    } else if d == 4 {
        '4'
    } else if d == 5 {
        '5'
    } else if d == 6 {
        '6'
    } else if d == 7 {
        '7'
    } else if d == 8 {
        '8'
    } else {
        '9'
    }
}

/// The decimal representation of a non-negative number, most significant
/// digit first and without leading zeros (a lone zero for zero itself).
pub open spec fn dec_str(n: int) -> Seq<char>
    decreases n,
{
    if n < 10 {
        seq![dec_digit(n)]
    } else {
        dec_str(n / 10).push(dec_digit(n % 10))
    }
}

/// The decimal representation of a possibly negative number.
pub open spec fn int_str(n: int) -> Seq<char> {
    if n < 0 {
        seq!['-'] + dec_str(-n)
    } else {
        dec_str(n)
    }
}

/// The digit character for a value below ten.
fn digit_char(d: u64) -> (c: char)
    requires
        d < 10,
    ensures
        c == dec_digit(d as int),
{
    match d {
        0 => '0',
        1 => '1',
        2 => '2',
        3 => '3',
        4 => '4',
        5 => '5',
        6 => '6',
        7 => '7',
        8 => '8',
        _ => '9',
    }
}

/// Append the decimal representation of `n` to `s`.
fn push_dec(s: &mut String, n: u64)
    ensures
        final(s)@ == old(s)@ + dec_str(n as int),
    decreases n,
{
    if n < 10 {
        push_char(s, digit_char(n));
        proof {
            assert(old(s)@.push(dec_digit(n as int)) =~= old(s)@ + dec_str(n as int));
        }
    } else {
        push_dec(s, n / 10);
        push_char(s, digit_char(n % 10));
        proof {
            assert((old(s)@ + dec_str(n as int / 10)).push(dec_digit(n as int % 10)) =~= old(
                s,
            )@ + dec_str(n as int));
        }
    }
}

/// The decimal representation of `n`, as a fresh string.
pub fn u64_to_dec(n: u64) -> (r: String)
    ensures
        r@ == dec_str(n as int),
{
    let mut s = String::new();
    push_dec(&mut s, n);
    proof {
        assert(Seq::<char>::empty() + dec_str(n as int) =~= dec_str(n as int));
    }
    s
}

/// The size phrase for a byte count: the count scaled into the largest unit
/// below a thousand (bytes, kilobytes, megabytes, then gigabytes), with
/// thousands-based units throughout.
pub open spec fn spec_display_size(bytes: int) -> Seq<char> {
    if bytes < 1000 {
        dec_str(bytes) + " Bytes"@
    } else if bytes / 1000 < 1000 {
        dec_str(bytes / 1000) + " Kilobytes"@
    } else if bytes / 1000 / 1000 < 1000 {
        dec_str(bytes / 1000 / 1000) + " Megabytes"@
    } else {
        dec_str(bytes / 1000 / 1000 / 1000) + " Gigabytes"@
    }
}

/// Render a byte count in the largest fitting thousands-based unit.
pub fn display_size(bytes: u64) -> (r: String)
    ensures
        r@ == spec_display_size(bytes as int),
{
    if bytes < 1000 {
        let mut s = u64_to_dec(bytes);
        s.append(" Bytes");
        return s;
    }
    let kb = bytes / 1000;
    if kb < 1000 {
        let mut s = u64_to_dec(kb);
        s.append(" Kilobytes");
        return s;
    }
    let mb = kb / 1000;
    if mb < 1000 {
        let mut s = u64_to_dec(mb);
        s.append(" Megabytes");
        return s;
    }
    let mut s = u64_to_dec(mb / 1000);
    s.append(" Gigabytes");
    s
}

/// Whole seconds between the two millisecond timestamps, truncated toward
/// zero, negative when `now` lies before `value`.
pub open spec fn elapsed_seconds(value: int, now: int) -> int {
    if now >= value {
        (now - value) / 1000
    } else {
        -((value - now) / 1000)
    }
}

/// The elapsed-time phrase for an observation at `value` seen from `now`,
/// in the coarsest sensible unit: seconds below a minute, then minutes,
/// hours, days, thirty-day months, and twelve-month years.
pub open spec fn spec_time_ago(value: int, now: int) -> Seq<char> {
    let secs = elapsed_seconds(value, now);
    if secs < 60 {
        int_str(secs) + " seconds ago"@
    } else if secs / 60 < 60 {
        dec_str(secs / 60) + " minutes ago"@
    } else if secs / 60 / 60 < 24 {
        dec_str(secs / 60 / 60) + " hours ago"@
    } else if secs / 60 / 60 / 24 < 30 {
        dec_str(secs / 60 / 60 / 24) + " days ago"@
    } else if secs / 60 / 60 / 24 / 30 < 12 {
        dec_str(secs / 60 / 60 / 24 / 30) + " months ago"@
    } else {
        dec_str(secs / 60 / 60 / 24 / 30 / 12) + " years ago"@
    }
}

/// Render how long ago the millisecond timestamp `value_ms` lies before
/// `now_ms` (an observation from the future is rendered with a negative
/// second count, as a clock jump would produce).
pub fn item_time_ago(value_ms: usize, now_ms: usize) -> (r: String)
    ensures
        r@ == spec_time_ago(value_ms as int, now_ms as int),
{
    if now_ms < value_ms {
        let neg: usize = (value_ms - now_ms) / 1000;
        if neg == 0 {
            let mut s = u64_to_dec(0);
            s.append(" seconds ago");
            return s;
        }
        let mut s = String::new();
        push_char(&mut s, '-');
        push_dec(&mut s, neg as u64);
        s.append(" seconds ago");
        proof {
            assert(seq!['-'] + dec_str(neg as int) =~= Seq::<char>::empty().push('-') + dec_str(
                neg as int,
            ));
        }
        return s;
    }
    let secs: usize = (now_ms - value_ms) / 1000;
    if secs < 60 {
        let mut s = u64_to_dec(secs as u64);
        s.append(" seconds ago");
        return s;
    }
    let mins: usize = secs / 60;
    if mins < 60 {
        let mut s = u64_to_dec(mins as u64);
        s.append(" minutes ago");
        return s;
    }
    let hours: usize = mins / 60;
    if hours < 24 {
        let mut s = u64_to_dec(hours as u64);
        s.append(" hours ago");
        return s;
    }
    let days: usize = hours / 24;
    if days < 30 {
        let mut s = u64_to_dec(days as u64);
        s.append(" days ago");
        return s;
    }
    let months: usize = days / 30;
    if months < 12 {
        let mut s = u64_to_dec(months as u64);
        s.append(" months ago");
        return s;
    }
    let mut s = u64_to_dec((months / 12) as u64);
    s.append(" years ago");
    s
}

} // verus!
