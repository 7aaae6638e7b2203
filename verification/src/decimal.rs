//! Verified decimal rendering: integers, and fixed-point values with six
//! fractional digits, appended to a string exactly as their specification
//! sequences say.

use vstd::prelude::*;

verus! {

/// The decimal digit character for `d` (0 through 9).
pub open spec fn digit_char(d: int) -> char {
    if d == 0 {
        '0'
    } else if d == 1 {
        '1'
    } else if d == 2 {
        '2'
    } else if d == 3 {
        '3'
    } else if d == 4 {
        '4'
    } else if d == 5 {
        '5'
    } else if d == 6 {
        '6'
    } else if d == 7 {
        '7'
    } else if d == 8 {
        '8'
    } else {
        '9'
    }
}

/// Decimal digits of a natural number, most significant first, no leading
/// zeros (zero itself is the single digit `0`).
pub open spec fn dec_digits(n: nat) -> Seq<char>
    decreases n,
{
    if n < 10 {
        seq![digit_char(n as int)]
    } else {
        dec_digits(n / 10).push(digit_char((n % 10) as int))
    }
}

/// An integer in decimal: a minus sign when negative, then the digits of its
/// magnitude.
pub open spec fn int_str(v: int) -> Seq<char> {
    if v < 0 {
        seq!['-'] + dec_digits((-v) as nat)
    } else {
        dec_digits(v as nat)
    }
}

/// Exactly `k` decimal digits of `f`, most significant first, zero-padded.
pub open spec fn padded_digits(f: int, k: int) -> Seq<char>
    decreases k,
{
    if k <= 0 {
        Seq::empty()
    } else {
        padded_digits(f / 10, k - 1).push(digit_char(f % 10))
    }
}

/// The fractional digits of `f` over `k` decimal places in shortest form:
/// trailing zero digits are dropped.
pub open spec fn frac_str(f: int, k: int) -> Seq<char>
    decreases k,
{
    if k <= 0 {
        Seq::empty()
    } else if f % 10 == 0 {
        frac_str(f / 10, k - 1)
    } else {
        padded_digits(f, k)
    }
}

/// A fixed-point value in micro-units rendered in shortest decimal form, as
/// a float's display prints it: optional minus sign, integer part, and, only
/// when the fraction is nonzero, a decimal point and the fractional digits
/// with trailing zeros dropped (so two-and-a-quarter units render as "2.25"
/// and two whole units as "2").
pub open spec fn fixed6_str(v: int) -> Seq<char> {
    let mag = if v < 0 {
        -v
    } else {
        v
    };
    (if v < 0 {
        seq!['-']
    } else {
        Seq::<char>::empty()
    }) + dec_digits((mag / 1000000) as nat) + (if mag % 1000000 == 0 {
        Seq::<char>::empty()
    } else {
        seq!['.'] + frac_str(mag % 1000000, 6)
    })
}

/// Ten to the `k`.
spec fn pow10(k: int) -> int
    decreases k,
{
    if k <= 0 {
        1
    } else {
        10 * pow10(k - 1)
    }
}

/// Append the decimal digit character for `d`.
fn push_digit(s: &mut String, d: u64)
    requires
        d < 10,
    ensures
        final(s)@ == old(s)@ + seq![digit_char(d as int)],
{
    let c: &str = match d {
        0 => "0",
        1 => "1",
        2 => "2",
        3 => "3",
        4 => "4",
        5 => "5",
        6 => "6",
        7 => "7",
        8 => "8",
        _ => "9",
    };
    proof {
        reveal_strlit("0");
        reveal_strlit("1");
        reveal_strlit("2");
        reveal_strlit("3");
        reveal_strlit("4");
        reveal_strlit("5");
        reveal_strlit("6");
        reveal_strlit("7");
        reveal_strlit("8");
        reveal_strlit("9");
        assert(c@ =~= seq![digit_char(d as int)]);
    }
    s.append(c);
}

/// Append the decimal digits of `n`, most significant first.
fn push_digits(s: &mut String, n: u64)
    ensures
        final(s)@ == old(s)@ + dec_digits(n as nat),
    decreases n,
{
    if n >= 10 {
        push_digits(s, n / 10);
        push_digit(s, n % 10);
        proof {
            assert(final(s)@ =~= old(s)@ + dec_digits(n as nat));
        }
    } else {
        push_digit(s, n);
    }
}

/// Append `v` in decimal with a minus sign when negative.
pub fn push_i64(s: &mut String, v: i64)
    ensures
        final(s)@ == old(s)@ + int_str(v as int),
{
    if v < 0 {
        proof {
            reveal_strlit("-");
        }
        let ghost mid = s@;
        s.append("-");
        proof {
            assert(s@ =~= mid + seq!['-']);
        }
        let mag: u64 = (-(v as i128)) as u64;
        push_digits(s, mag);
        proof {
            assert(final(s)@ =~= old(s)@ + int_str(v as int));
        }
    } else {
        push_digits(s, v as u64);
    }
}

/// Append exactly `k` decimal digits of `f`, zero-padded.
fn push_padded(s: &mut String, f: u64, k: u64)
    ensures
        final(s)@ == old(s)@ + padded_digits(f as int, k as int),
    decreases k,
{
    if k > 0 {
        push_padded(s, f / 10, k - 1);
        push_digit(s, f % 10);
        proof {
            assert(final(s)@ =~= old(s)@ + padded_digits(f as int, k as int));
        }
    } else {
        proof {
            assert(s@ =~= s@ + padded_digits(f as int, 0));
        }
    }
}

/// Append a fixed-point micro-unit value in shortest decimal form: sign,
/// integer part, and the nonzero fraction's digits with trailing zeros
/// dropped.
#[verifier::rlimit(50)]
pub fn push_fixed6(s: &mut String, v: i64)
    ensures
        final(s)@ == old(s)@ + fixed6_str(v as int),
{
    if v < 0 {
        proof {
            reveal_strlit("-");
        }
        let ghost mid = s@;
        s.append("-");
        proof {
            assert(s@ =~= mid + seq!['-']);
        }
    }
    let mag: u64 = if v < 0 {
        (-(v as i128)) as u64
    } else {
        v as u64
    };
    push_digits(s, mag / 1000000);
    let f: u64 = mag % 1000000;
    if f != 0 {
        proof {
            reveal_strlit(".");
        }
        let ghost mid2 = s@;
        s.append(".");
        proof {
            assert(s@ =~= mid2 + seq!['.']);
        }
        let mut g: u64 = f;
        let mut k: u64 = 6;
        proof {
            assert(pow10(0) == 1);
            assert(pow10(1) == 10);
            assert(pow10(2) == 100);
            assert(pow10(3) == 1000);
            assert(pow10(4) == 10000);
            assert(pow10(5) == 100000);
            assert(pow10(6) == 1000000);
        }
        while g % 10 == 0
            invariant
                1 <= k <= 6,
                1 <= g,
                g < pow10(k as int),
                frac_str(f as int, 6) == frac_str(g as int, k as int),
            decreases k,
        {
            proof {
                assert(g >= 10) by (nonlinear_arith)
                    requires
                        g % 10 == 0,
                        g >= 1,
                ;
                if k == 1 {
                    assert(pow10(1) == 10);
                    assert(false);
                }
                lemma_pow10_positive(k - 1);
                assert(g < 10 * pow10(k - 1));
                assert(g / 10 < pow10(k - 1) && g / 10 >= 1) by (nonlinear_arith)
                    requires
                        10 <= g < 10 * pow10(k - 1),
                        pow10(k - 1) >= 1,
                ;
            }
            g = g / 10;
            k = k - 1;
        }
        push_padded(s, g, k);
        proof {
            assert(frac_str(g as int, k as int) == padded_digits(g as int, k as int));
        }
    }
    proof {
        assert(final(s)@ =~= old(s)@ + fixed6_str(v as int));
    }
}

/// Ten to the `k` is positive.
proof fn lemma_pow10_positive(k: int)
    ensures
        pow10(k) >= 1,
    decreases (if k <= 0 {
        0int
    } else {
        k
    }),
{
    if k > 0 {
        lemma_pow10_positive(k - 1);
    }
}

} // verus!
