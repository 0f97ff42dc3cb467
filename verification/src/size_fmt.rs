use vstd::prelude::*;

use crate::strutil::{append_dec, append_digit, dec_digits, digit_char};

verus! {

/// The scaled value `b / d` in hundredths, rounded to the nearest hundredth
/// (the divisors are powers of 1024, for which an exact half never occurs).
pub open spec fn hundredths(b: int, d: int) -> int
    recommends
        d >= 2,
{
    100 * (b / d) + (100 * (b % d) + d / 2) / d
}

/// Two decimal places: a fraction of a hundred rendered as exactly two digits.
pub open spec fn two_dec(f: int) -> Seq<char>
    recommends
        0 <= f < 100,
{
    seq![digit_char(f / 10), digit_char(f % 10)]
}

/// The scaled magnitude of `b` bytes in units of `d`, with two decimal places.
pub open spec fn spec_scaled(b: int, d: int) -> Seq<char>
    recommends
        d >= 2,
{
    dec_digits((hundredths(b, d) / 100) as nat) + "."@ + two_dec(hundredths(b, d) % 100)
}

/// The human-readable rendering of a byte count: an exact count with two
/// (zero) decimal places when `raw` is set or the count is below 1024, else
/// the largest unit among KiB, MiB, GiB and TiB that keeps the scaled value
/// below 1024 (TiB catching everything larger), rounded to two decimals.
/// A count of exactly 1024^n lands in the next unit as `1.00`.
pub open spec fn spec_size_str(bytes: u64, raw: bool) -> Seq<char> {
    if raw || bytes < 1024 {
        dec_digits(bytes as nat) + ".00 B"@
    } else if bytes < 1048576 {
        spec_scaled(bytes as int, 1024) + " KiB"@
    } else if bytes < 1073741824 {
        spec_scaled(bytes as int, 1048576) + " MiB"@
    } else if bytes < 1099511627776 {
        spec_scaled(bytes as int, 1073741824) + " GiB"@
    } else {
        spec_scaled(bytes as int, 1099511627776) + " TiB"@
    }
}

fn append_scaled(out: &mut String, b: u64, d: u64)
    requires
        1024 <= d,
        d == 1024 ==> b < 1048576,
        d == 1048576 ==> b < 1073741824,
        d == 1073741824 ==> b < 1099511627776,
        d == 1024 || d == 1048576 || d == 1073741824 || d == 1099511627776,
    ensures
        final(out)@ == old(out)@ + spec_scaled(b as int, d as int),
{
    let q = b / d;
    let r = b % d;
    assert(q <= 16777216) by (nonlinear_arith)
        requires
            q == b / d,
            1024 <= d,
            d == 1024 ==> b < 1048576,
            d == 1048576 ==> b < 1073741824,
            d == 1073741824 ==> b < 1099511627776,
            d == 1024 || d == 1048576 || d == 1073741824 || d == 1099511627776,
    ;
    assert(r < d) by (nonlinear_arith)
        requires
            r == b % d,
            d >= 1024,
    ;
    proof {
        assert((100 * (r as int) + (d as int) / 2) / (d as int) <= 100) by (nonlinear_arith)
            requires
                r < d,
                d >= 1024,
        ;
    }
    let h = 100 * q + (100 * r + d / 2) / d;
    proof {
        assert(h == hundredths(b as int, d as int));
    }
    append_dec(out, h / 100);
    proof {
        reveal_strlit(".");
        assert("."@ =~= seq!['.']);
    }
    out.append(".");
    let f = h % 100;
    append_digit(out, f / 10);
    append_digit(out, f % 10);
    proof {
        assert(out@ =~= old(out)@ + spec_scaled(b as int, d as int));
    }
}

/// Renders a byte count for display: the exact count in bytes when `flag` is
/// set or the count is small, otherwise scaled into the largest binary unit
/// that keeps the value below 1024, always with two decimal places.
pub fn fmt_size_str(bytes: u64, flag: bool) -> (r: String)
    ensures
        r@ == spec_size_str(bytes, flag),
{
    let mut out = String::new();
    if flag || bytes < 1024 {
        append_dec(&mut out, bytes);
        proof {
            reveal_strlit(".00 B");
        }
        out.append(".00 B");
    } else if bytes < 1048576 {
        append_scaled(&mut out, bytes, 1024);
        proof {
            reveal_strlit(" KiB");
        }
        out.append(" KiB");
    } else if bytes < 1073741824 {
        append_scaled(&mut out, bytes, 1048576);
        proof {
            reveal_strlit(" MiB");
        }
        out.append(" MiB");
    } else if bytes < 1099511627776 {
        append_scaled(&mut out, bytes, 1073741824);
        proof {
            reveal_strlit(" GiB");
        }
        out.append(" GiB");
    } else {
        append_scaled(&mut out, bytes, 1099511627776);
        proof {
            reveal_strlit(" TiB");
        }
        out.append(" TiB");
    }
    proof {
        assert(out@ =~= spec_size_str(bytes, flag));
    }
    out
}

} // verus!
