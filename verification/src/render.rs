//! Rendering of byte and degree counts as display text.
//!
//! Byte figures are shown in decimal gigabytes (powers of 1000, not 1024)
//! with exactly two digits after the point, rounded half up. All rendering is
//! integer arithmetic on hundredths of a gigabyte, so the text is an exact
//! function of the sampled value.

use vstd::prelude::*;

verus! {

/// The decimal digit `d` as a character.
pub open spec fn digit_char(d: int) -> char
    recommends
        0 <= d < 10,
{
    ((d + 48) as u8) as char
}

/// The decimal rendering of `n`, most significant digit first, no leading
/// zeros (a single `'0'` for zero).
pub open spec fn udec(n: nat) -> Seq<char>
    decreases n,
{
    if n < 10 {
        seq![digit_char(n as int)]
    } else {
        udec(n / 10).push(digit_char((n % 10) as int))
    }
}

/// `bytes` in hundredths of a decimal gigabyte, rounded half up.
pub open spec fn centi_gb(bytes: u64) -> nat {
    (bytes / 10_000_000 + if bytes % 10_000_000 >= 5_000_000 {
        1nat
    } else {
        0nat
    }) as nat
}

/// `bytes` as decimal gigabytes with two digits after the point.
pub open spec fn gb2(bytes: u64) -> Seq<char> {
    let c = centi_gb(bytes);
    udec(c / 100) + seq!['.', digit_char((c / 10 % 10) as int), digit_char((c % 10) as int)]
}

/// Appends the single decimal digit `d` to `s`.
pub fn append_digit(s: &mut String, d: u64)
    requires
        d < 10,
    ensures
        final(s)@ == old(s)@.push(digit_char(d as int)),
{
    match d {
        0 => {
            proof {
                reveal_strlit("0");
            }
            s.append("0");
        },
        1 => {
            proof {
                reveal_strlit("1");
            }
            s.append("1");
        },
        2 => {
            proof {
                reveal_strlit("2");
            }
            s.append("2");
        },
        3 => {
            proof {
                reveal_strlit("3");
            }
            s.append("3");
        },
        4 => {
            proof {
                reveal_strlit("4");
            }
            s.append("4");
        },
        5 => {
            proof {
                reveal_strlit("5");
            }
            s.append("5");
        },
        6 => {
            proof {
                reveal_strlit("6");
            }
            s.append("6");
        },
        7 => {
            proof {
                reveal_strlit("7");
            }
            s.append("7");
        },
        8 => {
            proof {
                reveal_strlit("8");
            }
            s.append("8");
        },
        _ => {
            proof {
                reveal_strlit("9");
            }
            s.append("9");
        },
    }
    proof {
        assert(s@ =~= old(s)@.push(digit_char(d as int)));
    }
}

/// Appends the decimal rendering of `n` to `s`.
pub fn append_u64(s: &mut String, n: u64)
    ensures
        final(s)@ == old(s)@ + udec(n as nat),
    decreases n,
{
    if n < 10 {
        append_digit(s, n);
    } else {
        append_u64(s, n / 10);
        append_digit(s, n % 10);
    }
    proof {
        assert(s@ =~= old(s)@ + udec(n as nat));
    }
}

/// The decimal rendering of `n` as an owned string.
pub fn u64_string(n: u64) -> (r: String)
    ensures
        r@ == udec(n as nat),
{
    let mut s = String::new();
    append_u64(&mut s, n);
    proof {
        assert(s@ =~= udec(n as nat));
    }
    s
}

/// Appends `bytes` rendered as two-decimal gigabytes to `s`.
pub fn append_gb2(s: &mut String, bytes: u64)
    ensures
        final(s)@ == old(s)@ + gb2(bytes),
{
    let centi: u64 = bytes / 10_000_000 + if bytes % 10_000_000 >= 5_000_000 {
        1
    } else {
        0
    };
    proof {
        assert(centi as nat == centi_gb(bytes));
    }
    append_u64(s, centi / 100);
    proof {
        reveal_strlit(".");
    }
    s.append(".");
    append_digit(s, centi / 10 % 10);
    append_digit(s, centi % 10);
    proof {
        assert(s@ =~= old(s)@ + gb2(bytes));
    }
}

/// `bytes` rendered as two-decimal gigabytes, as an owned string.
pub fn gb2_string(bytes: u64) -> (r: String)
    ensures
        r@ == gb2(bytes),
{
    let mut s = String::new();
    append_gb2(&mut s, bytes);
    proof {
        assert(s@ =~= gb2(bytes));
    }
    s
}

} // verus!
