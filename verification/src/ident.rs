//! Identity and time: fresh ids from the clock and process randomness,
//! rendered in hexadecimal, and the current Unix timestamp.

use vstd::prelude::*;
use vstd::string::StringExecFns;
use vstd::string::StrSliceExecFns;
use std::collections::hash_map::RandomState;
use std::hash::BuildHasher;
use std::hash::Hasher;

verus! {

/// The hexadecimal digit character for `d` (0 through 15), lower case.
pub open spec fn hex_digit(d: int) -> char {
    if d == 0 {
        '0'
    } else if d == 1 {
        '1'
    } else if d == 2 {
        '2'
    } else if d == 3 {
        '3'
    } else if d == 4 {
        '4'
    } else if d == 5 {
        '5'
    } else if d == 6 {
        '6'
    } else if d == 7 {
        '7'
    } else if d == 8 {
        '8'
    } else if d == 9 {
        '9'
    } else if d == 10 {
        'a'
    } else if d == 11 {
        'b'
    } else if d == 12 {
        'c'
    } else if d == 13 {
        'd'
    } else if d == 14 {
        'e'
    } else {
        'f'
    }
}

/// The lower-case hexadecimal rendering of a non-negative integer, without
/// leading zeros.
pub open spec fn hex_str(n: int) -> Seq<char>
    decreases n,
{
    if n < 16 {
        seq![hex_digit(n)]
    } else {
        hex_str(n / 16) + seq![hex_digit(n % 16)]
    }
}

/// Whether every character of `s` is a lower-case hexadecimal digit.
pub open spec fn all_hex(s: Seq<char>) -> bool {
    forall|i: int| 0 <= i < s.len() ==> exists|d: int| 0 <= d < 16 && #[trigger] s[i] == #[trigger] hex_digit(d)
}

pub proof fn lemma_hex_str_wf(n: int)
    requires
        n >= 0,
    ensures
        1 <= hex_str(n).len(),
        all_hex(hex_str(n)),
    decreases n,
{
    if n < 16 {
        assert(hex_str(n) =~= seq![hex_digit(n)]);
        assert(hex_str(n)[0] == hex_digit(n));
    } else {
        lemma_hex_str_wf(n / 16);
        assert forall|i: int| 0 <= i < hex_str(n).len() implies exists|d: int|
            0 <= d < 16 && #[trigger] hex_str(n)[i] == #[trigger] hex_digit(d) by {
            if i < hex_str(n).len() - 1 {
                assert(hex_str(n)[i] == hex_str(n / 16)[i]);
            } else {
                assert(hex_str(n)[i] == hex_digit(n % 16));
            }
        }
    }
}

/// Sixteen to the power `k`.
pub open spec fn pow16(k: int) -> int
    decreases k,
{
    if k <= 0 {
        1
    } else {
        16 * pow16(k - 1)
    }
}

pub proof fn lemma_hex_str_len(n: int, k: int)
    requires
        0 <= n < pow16(k),
        1 <= k,
    ensures
        hex_str(n).len() <= k,
    decreases k,
{
    if n >= 16 {
        assert(pow16(k) == 16 * pow16(k - 1));
        lemma_hex_str_len(n / 16, k - 1);
    }
}

/// The length bound: a 64-bit value has at most 16 hexadecimal digits.
pub proof fn lemma_hex_str_len_u64(n: int)
    requires
        0 <= n < 0x1_0000_0000_0000_0000,
    ensures
        hex_str(n).len() <= 16,
{
    reveal_with_fuel(pow16, 17);
    assert(pow16(16) == 0x1_0000_0000_0000_0000);
    lemma_hex_str_len(n, 16);
}

fn hex_digit_str(d: u64) -> (r: &'static str)
    requires
        d < 16,
    ensures
        r@ == seq![hex_digit(d as int)],
{
    let table = "0123456789abcdef";
    proof {
        reveal_strlit("0123456789abcdef");
    }
    let r = table.substring_char(d as usize, (d + 1) as usize);
    assert(r@ =~= seq![hex_digit(d as int)]);
    r
}

/// Renders `n` in lower-case hexadecimal, as `{:x}` does.
pub fn u64_to_hex(n: u64) -> (r: String)
    ensures
        r@ == hex_str(n as int),
    decreases n,
{
    if n < 16 {
        hex_digit_str(n).to_owned()
    } else {
        let prefix = u64_to_hex(n / 16);
        prefix.concat(hex_digit_str(n % 16))
    }
}

/// Relies on `std::time::SystemTime::now` and `duration_since`: the seconds
/// of the current Unix time, and zero on a clock set before the epoch.
#[verifier::external_body]
pub fn now_timestamp() -> (r: i64)
    ensures
        r >= 0,
{
    match std::time::SystemTime::now().duration_since(std::time::UNIX_EPOCH) {
        Ok(d) => d.as_secs() as i64,
        Err(_) => 0,
    }
}

/// Relies on `std::time::SystemTime::now` and `duration_since`: the low 64
/// bits of the nanoseconds of the current Unix time, and zero on a clock set
/// before the epoch. Nothing is promised of the value.
#[verifier::external_body]
fn now_nanos() -> u64 {
    match std::time::SystemTime::now().duration_since(std::time::UNIX_EPOCH) {
        Ok(d) => d.as_nanos() as u64,
        Err(_) => 0,
    }
}

/// Relies on `std::collections::hash_map::RandomState`: a process-random 64
/// bit value, drawn from the hasher the state seeds. Nothing is promised of
/// the value; it is not cryptographically unpredictable.
#[verifier::external_body]
fn random_u64() -> u64 {
    RandomState::new().build_hasher().finish()
}

/// A fresh id: the current time in nanoseconds and a process-random value,
/// rendered as concatenated hexadecimal. Collision-resistant in practice,
/// not cryptographically unpredictable, and not sortable across clock
/// changes.
pub fn generate_id() -> (r: String)
    ensures
        2 <= r@.len() <= 32,
        all_hex(r@),
{
    let t = now_nanos();
    let rv = random_u64();
    let a = u64_to_hex(t);
    let b = u64_to_hex(rv);
    proof {
        lemma_hex_str_wf(t as int);
        lemma_hex_str_wf(rv as int);
        lemma_hex_str_len_u64(t as int);
        lemma_hex_str_len_u64(rv as int);
    }
    let r = a.concat(b.as_str());
    proof {
        assert forall|i: int| 0 <= i < r@.len() implies exists|d: int|
            0 <= d < 16 && #[trigger] r@[i] == #[trigger] hex_digit(d) by {
            if i < a@.len() {
                assert(r@[i] == a@[i]);
            } else {
                assert(r@[i] == b@[i - a@.len()]);
            }
        }
    }
    r
}

} // verus!
