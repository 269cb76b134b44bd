//! Elapsed-time text: whole seconds become `"{h} hour(s) {m} minute(s)"`,
//! or just the minutes part below one hour.

use vstd::prelude::*;

verus! {

/// The decimal digit character for `d`.
pub open spec fn digit_char(d: nat) -> char {
    if d == 0 {
        '0'
    } else if d == 1 {
        '1'
    } else if d == 2 {
        '2'
    } else if d == 3 {
        '3'
    } else if d == 4 {
        '4'
    } else if d == 5 {
        '5'
    } else if d == 6 {
        '6'
    } else if d == 7 {
        '7'
    } else if d == 8 {
        '8'
    } else {
        '9'
    }
}

/// The decimal rendering of a natural number, most significant digit
/// first, no leading zeros except for zero itself.
pub open spec fn dec_str(n: nat) -> Seq<char>
    decreases n,
{
    if n < 10 {
        seq![digit_char(n)]
    } else {
        dec_str(n / 10).push(digit_char(n % 10))
    }
}

/// Division truncating toward zero, as machine integer division rounds.
pub open spec fn trunc_div(a: int, b: int) -> int {
    if a >= 0 {
        a / b
    } else {
        -((-a) / b)
    }
}

/// The plural suffix: an `s` exactly above one.
pub open spec fn plural(n: int) -> Seq<char> {
    if n > 1 {
        "s"@
    } else {
        ""@
    }
}

/// The rendering of a possibly negative count.
pub open spec fn signed_dec(n: int) -> Seq<char> {
    if n < 0 {
        "-"@ + dec_str((-n) as nat)
    } else {
        dec_str(n as nat)
    }
}

/// The elapsed-time text for a second count: hours and minutes when at
/// least one full hour has passed, minutes alone otherwise, each unit
/// pluralized above one.
pub open spec fn elapsed_text(seconds: int) -> Seq<char> {
    let tm = trunc_div(seconds, 60);
    let h = trunc_div(tm, 60);
    let m = tm - 60 * h;
    if h > 0 {
        dec_str(h as nat) + " hour"@ + plural(h) + " "@ + signed_dec(m) + " minute"@ + plural(m)
    } else {
        signed_dec(m) + " minute"@ + plural(m)
    }
}

/// The digit character of a value below ten.
fn digit(d: u64) -> (r: char)
    requires
        d < 10,
    ensures
        r == digit_char(d as nat),
{
    match d {
        0 => '0',
        1 => '1',
        2 => '2',
        3 => '3',
        4 => '4',
        5 => '5',
        6 => '6',
        7 => '7',
        8 => '8',
        _ => '9',
    }
}

/// Appends the decimal rendering of `n`.
fn push_decimal(s: &mut String, n: u64)
    ensures
        final(s)@ == old(s)@ + dec_str(n as nat),
    decreases n,
{
    if n < 10 {
        crate::text::push_char(s, digit(n));
        proof {
            assert(final(s)@ =~= old(s)@ + dec_str(n as nat));
        }
    } else {
        push_decimal(s, n / 10);
        crate::text::push_char(s, digit(n % 10));
        proof {
            assert(final(s)@ =~= old(s)@ + dec_str(n as nat));
        }
    }
}

/// Formats elapsed whole seconds the way the listing shows them.
pub fn format_elapsed(seconds: i64) -> (r: String)
    ensures
        r@ == elapsed_text(seconds as int),
{
    let neg = seconds < 0;
    let mag: u64 = if seconds >= 0 {
        seconds as u64
    } else if seconds == i64::MIN {
        9223372036854775808u64
    } else {
        (-seconds) as u64
    };
    let tm = mag / 60;
    let h = tm / 60;
    let m = tm % 60;
    proof {
        assert(mag == if seconds >= 0 {
            seconds as int
        } else {
            -(seconds as int)
        });
        assert(trunc_div(seconds as int, 60) == if seconds >= 0 {
            tm as int
        } else {
            -(tm as int)
        });
    }
    let mut out = String::new();
    if !neg && h > 0 {
        proof {
            assert(trunc_div(tm as int, 60) == h as int);
            assert(tm as int - 60 * (h as int) == m as int);
        }
        push_decimal(&mut out, h);
        out.append(" hour");
        if h > 1 {
            out.append("s");
        }
        out.append(" ");
        push_decimal(&mut out, m);
        out.append(" minute");
        if m > 1 {
            out.append("s");
        }
        proof {
            reveal_strlit("");
            assert(out@ =~= elapsed_text(seconds as int));
        }
    } else {
        if neg && m > 0 {
            out.append("-");
        }
        push_decimal(&mut out, m);
        out.append(" minute");
        if !neg && m > 1 {
            out.append("s");
        }
        proof {
            if neg {
                assert(trunc_div(-(mag as int), 60) == -(tm as int));
                assert(trunc_div(-(tm as int), 60) == -(h as int));
                assert(-(tm as int) - 60 * -(h as int) == -(m as int));
            } else {
                assert(trunc_div(tm as int, 60) == h as int);
                assert(tm as int - 60 * (h as int) == m as int);
            }
            reveal_strlit("");
            assert(out@ =~= elapsed_text(seconds as int));
        }
    }
    out
}

} // verus!
