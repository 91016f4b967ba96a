//! The human-readable size estimate shown before generation: the line
//! count times an assumed average line length of eight bytes, scaled to
//! B, KB, MB or GB with two (truncated) decimal places.

use vstd::prelude::*;
use crate::chars::chars_to_string;

verus! {

pub const KB: u64 = 1024;

pub const MB: u64 = 1024 * 1024;

pub const GB: u64 = 1024 * 1024 * 1024;

/// The character for one decimal digit.
pub open spec fn digit_char_of(d: nat) -> char {
    ((48 + d) as u8) as char
}

/// The decimal numeral of `n`, most significant digit first.
pub open spec fn dec_rep(n: nat) -> Seq<char>
    decreases n,
{
    if n < 10 {
        seq![digit_char_of(n)]
    } else {
        dec_rep(n / 10).push(digit_char_of(n % 10))
    }
}

/// The two truncated decimal places of `rem / unit`.
pub open spec fn frac_two(rem: nat, unit: nat) -> Seq<char>
    recommends
        unit >= 1,
{
    let f = rem * 100 / unit;
    seq![digit_char_of(f / 10), digit_char_of(f % 10)]
}

/// One scaled branch: whole part, point, two places, and the unit name.
pub open spec fn scaled_rep(b: nat, unit: nat, c1: char, c2: char) -> Seq<char>
    recommends
        unit >= 1,
{
    dec_rep(b / unit) + seq!['.'] + frac_two(b % unit, unit) + seq![' ', c1, c2]
}

/// What `format_size` renders for a line count of `size`.
pub open spec fn format_size_spec(size: nat) -> Seq<char> {
    let b = size * 8;
    if b >= GB {
        scaled_rep(b, GB as nat, 'G', 'B')
    } else if b >= MB {
        scaled_rep(b, MB as nat, 'M', 'B')
    } else if b >= KB {
        scaled_rep(b, KB as nat, 'K', 'B')
    } else {
        dec_rep(b) + seq![' ', 'B']
    }
}

/// Appends the decimal numeral of `n`.
fn push_decimal(n: u64, out: &mut Vec<char>)
    ensures
        final(out)@ == old(out)@ + dec_rep(n as nat),
    decreases n,
{
    if n < 10 {
        let d: u8 = (n as u8) + 48;
        out.push(d as char);
        proof {
            assert(out@ =~= old(out)@ + dec_rep(n as nat));
        }
    } else {
        push_decimal(n / 10, out);
        let d: u8 = ((n % 10) as u8) + 48;
        out.push(d as char);
        proof {
            assert(out@ =~= old(out)@ + dec_rep(n as nat));
        }
    }
}

/// Renders one scaled branch.
fn push_scaled(b: u128, unit: u64, c1: char, c2: char, out: &mut Vec<char>)
    requires
        unit >= 1,
        b / (unit as u128) <= u64::MAX,
    ensures
        final(out)@ == old(out)@ + scaled_rep(b as nat, unit as nat, c1, c2),
{
    let whole: u64 = (b / (unit as u128)) as u64;
    push_decimal(whole, out);
    out.push('.');
    let rem: u128 = b % (unit as u128);
    proof {
        let rm = rem as int;
        let u = unit as int;
        assert(rm < u);
        assert(rm * 100 <= (u - 1) * 100) by (nonlinear_arith)
            requires
                rm <= u - 1,
        ;
        assert((u - 1) * 100 / u < 100) by (nonlinear_arith)
            requires
                u >= 1,
        ;
        assert(rm * 100 / u <= (u - 1) * 100 / u) by (nonlinear_arith)
            requires
                rm * 100 <= (u - 1) * 100,
                u >= 1,
                rm >= 0,
        ;
    }
    let f: u64 = ((rem * 100) / (unit as u128)) as u64;
    assert(f < 100);
    let d1: u8 = ((f / 10) as u8) + 48;
    let d2: u8 = ((f % 10) as u8) + 48;
    out.push(d1 as char);
    out.push(d2 as char);
    out.push(' ');
    out.push(c1);
    out.push(c2);
    proof {
        assert(out@ =~= old(out)@ + scaled_rep(b as nat, unit as nat, c1, c2));
    }
}

/// The size estimate for `size` emitted lines, at an assumed eight bytes
/// per line, scaled to the largest unit reached and truncated to two
/// decimal places.
pub fn format_size(size: u64) -> (r: String)
    ensures
        r@ == format_size_spec(size as nat),
{
    let b: u128 = (size as u128) * 8;
    let mut out: Vec<char> = Vec::new();
    if b >= GB as u128 {
        assert(b / (GB as u128) <= u64::MAX) by (nonlinear_arith)
            requires
                b <= u64::MAX as u128 * 8,
        ;
        push_scaled(b, GB, 'G', 'B', &mut out);
    } else if b >= MB as u128 {
        push_scaled(b, MB, 'M', 'B', &mut out);
    } else if b >= KB as u128 {
        push_scaled(b, KB, 'K', 'B', &mut out);
    } else {
        push_decimal(b as u64, &mut out);
        out.push(' ');
        out.push('B');
        proof {
            assert(out@ =~= dec_rep((size * 8) as nat) + seq![' ', 'B']);
        }
    }
    let r = chars_to_string(&out);
    proof {
        assert(out@ =~= format_size_spec(size as nat));
    }
    r
}

} // verus!
