//! Small formatting helpers.

use vstd::prelude::*;

verus! {

/// The decimal digit `d` as a character; `d` must be below ten.
pub open spec fn dec_digit(d: nat) -> char {
    if d == 0 {
        '0'
    } else if d == 1 {
        '1'
    } else if d == 2 {
        '2'
    } else if d == 3 {
        '3'
    } else if d == 4 {
        '4'
    } else if d == 5 {
        '5'
    } else if d == 6 {
        '6'
    } else if d == 7 {
        '7'
    } else if d == 8 {
        '8'
    } else {
        '9'
    }
}

/// `n` written in decimal, most significant digit first, no leading zeros
/// (a lone zero for zero).
pub open spec fn dec_str(n: nat) -> Seq<char>
    decreases n,
{
    if n < 10 {
        seq![dec_digit(n)]
    } else {
        dec_str(n / 10).push(dec_digit(n % 10))
    }
}

/// A span of `seconds` written the way the status commands show it: days,
/// hours, minutes and seconds, leading units dropped while they are zero.
pub open spec fn duration_text(seconds: nat) -> Seq<char> {
    let minutes = seconds / 60;
    let hours = minutes / 60;
    let days = hours / 24;
    if days > 0 {
        dec_str(days) + "d "@ + dec_str(hours % 24) + "h "@ + dec_str(minutes % 60) + "m "@
            + dec_str(seconds % 60) + "s"@
    } else if hours > 0 {
        dec_str(hours) + "h "@ + dec_str(minutes % 60) + "m "@ + dec_str(seconds % 60) + "s"@
    } else if minutes > 0 {
        dec_str(minutes) + "m "@ + dec_str(seconds % 60) + "s"@
    } else {
        dec_str(seconds) + "s"@
    }
}

/// Relies on `String::push`: appends exactly the one character.
#[verifier::external_body]
pub(crate) fn push_char(s: &mut String, c: char)
    ensures
        final(s)@ == old(s)@.push(c),
{
    s.push(c);
}

/// The character for the decimal digit `d`.
fn digit_char(d: u64) -> (c: char)
    requires
        d < 10,
    ensures
        c == dec_digit(d as nat),
{
    match d {
        0 => '0',
        1 => '1',
        2 => '2',
        3 => '3',
        4 => '4',
        5 => '5',
        6 => '6',
        7 => '7',
        8 => '8',
        _ => '9',
    }
}

/// Appends `n` in decimal to `s`.
fn push_dec(s: &mut String, n: u64)
    ensures
        final(s)@ == old(s)@ + dec_str(n as nat),
    decreases n,
{
    if n < 10 {
        let ghost pre = s@;
        push_char(s, digit_char(n));
        proof {
            assert(pre.push(dec_digit(n as nat)) =~= pre + seq![dec_digit(n as nat)]);
        }
    } else {
        push_dec(s, n / 10);
        let ghost mid = s@;
        push_char(s, digit_char(n % 10));
        proof {
            assert(mid.push(dec_digit((n % 10) as nat)) =~= old(s)@ + dec_str(
                (n / 10) as nat,
            ).push(dec_digit((n % 10) as nat)));
        }
    }
}

/// Writes a span of `seconds` as days, hours, minutes and seconds, leading
/// units dropped while they are zero.
pub fn format_duration(seconds: u64) -> (r: String)
    ensures
        r@ == duration_text(seconds as nat),
{
    let minutes = seconds / 60;
    let hours = minutes / 60;
    let days = hours / 24;
    let mut r = String::new();
    proof {
        reveal_strlit("d ");
        reveal_strlit("h ");
        reveal_strlit("m ");
        reveal_strlit("s");
    }
    if days > 0 {
        push_dec(&mut r, days);
        r.append("d ");
        push_dec(&mut r, hours % 24);
        r.append("h ");
        push_dec(&mut r, minutes % 60);
        r.append("m ");
        push_dec(&mut r, seconds % 60);
        r.append("s");
        proof {
            assert(r@ =~= duration_text(seconds as nat));
        }
    } else if hours > 0 {
        push_dec(&mut r, hours);
        r.append("h ");
        push_dec(&mut r, minutes % 60);
        r.append("m ");
        push_dec(&mut r, seconds % 60);
        r.append("s");
        proof {
            assert(r@ =~= duration_text(seconds as nat));
        }
    } else if minutes > 0 {
        push_dec(&mut r, minutes);
        r.append("m ");
        push_dec(&mut r, seconds % 60);
        r.append("s");
        proof {
            assert(r@ =~= duration_text(seconds as nat));
        }
    } else {
        push_dec(&mut r, seconds);
        r.append("s");
        proof {
            assert(r@ =~= duration_text(seconds as nat));
        }
    }
    r
}

} // verus!
