//! Decimal rendering of integers, used for event payloads.

use vstd::prelude::*;
use vstd::string::StringExecFns;
use vstd::string::StrSliceExecFns;

verus! {

/// The decimal digit character for `d` (0 through 9).
pub open spec fn dec_digit(d: int) -> char {
    if d == 0 {
        '0'
    } else if d == 1 {
        '1'
    } else if d == 2 {
        '2'
    } else if d == 3 {
        '3'
    } else if d == 4 {
        '4'
    } else if d == 5 {
        '5'
    } else if d == 6 {
        '6'
    } else if d == 7 {
        '7'
    } else if d == 8 {
        '8'
    } else {
        '9'
    }
}

/// The decimal rendering of a non-negative integer, without leading zeros.
pub open spec fn dec_str(n: int) -> Seq<char>
    decreases n,
{
    if n < 10 {
        seq![dec_digit(n)]
    } else {
        dec_str(n / 10) + seq![dec_digit(n % 10)]
    }
}

fn digit_str(d: u64) -> (r: &'static str)
    requires
        d < 10,
    ensures
        r@ == seq![dec_digit(d as int)],
{
    let table = "0123456789";
    proof {
        reveal_strlit("0123456789");
    }
    let r = table.substring_char(d as usize, (d + 1) as usize);
    assert(r@ =~= seq![dec_digit(d as int)]);
    r
}

/// Renders `n` in decimal.
pub fn u64_to_dec(n: u64) -> (r: String)
    ensures
        r@ == dec_str(n as int),
    decreases n,
{
    if n < 10 {
        digit_str(n).to_owned()
    } else {
        let prefix = u64_to_dec(n / 10);
        let r = prefix.concat(digit_str(n % 10));
        r
    }
}

/// The rendering `"D.DD"` of a ratio given in hundredths.
pub open spec fn hundredths_str(h: int) -> Seq<char> {
    dec_str(h / 100) + seq!['.', dec_digit((h / 10) % 10), dec_digit(h % 10)]
}

/// Renders a ratio given in hundredths as a decimal with two fractional digits.
pub fn u64_hundredths(h: u64) -> (r: String)
    ensures
        r@ == hundredths_str(h as int),
{
    let whole = u64_to_dec(h / 100);
    let r = whole.concat(".");
    let r = r.concat(digit_str((h / 10) % 10));
    let r = r.concat(digit_str(h % 10));
    proof {
        reveal_strlit(".");
        assert(r@ =~= hundredths_str(h as int));
    }
    r
}

/// The engagement ratio `taps / reviews` rounded to the nearest hundredth,
/// with ties rounded up.
pub open spec fn ratio_hundredths(taps: int, reviews: int) -> int {
    (200 * taps + reviews) / (2 * reviews)
}

/// Computes the engagement ratio in hundredths.
pub fn compute_ratio_hundredths(taps: u32, reviews: u32) -> (r: u64)
    requires
        reviews >= 1,
    ensures
        r == ratio_hundredths(taps as int, reviews as int),
{
    let t: u64 = taps as u64;
    let v: u64 = reviews as u64;
    (200 * t + v) / (2 * v)
}

} // verus!
