//! Binary-coded decimal: each nibble of the encoded form holds one decimal
//! digit, so decimal 42 becomes the byte 0x42.

use vstd::prelude::*;

verus! {

/// `10^n`.
pub open spec fn pow10(n: nat) -> int
    decreases n,
{
    if n == 0 {
        1
    } else {
        10 * pow10((n - 1) as nat)
    }
}

/// `16^n`.
pub open spec fn pow16(n: nat) -> int
    decreases n,
{
    if n == 0 {
        1
    } else {
        16 * pow16((n - 1) as nat)
    }
}

/// The BCD form of `v`: each decimal digit becomes one nibble. A value that
/// is not positive has the empty BCD form, 0.
pub open spec fn spec_int_to_bcd(v: int) -> int
    decreases (if v >= 0 { v } else { 0 }),
{
    if v <= 0 {
        0
    } else {
        spec_int_to_bcd(v / 10) * 16 + v % 10
    }
}

/// The number a BCD form denotes, reading each nibble as one decimal digit.
pub open spec fn spec_bcd_to_int(b: int) -> int
    decreases (if b >= 0 { b } else { 0 }),
{
    if b <= 0 {
        0
    } else {
        spec_bcd_to_int(b / 16) * 10 + b % 16
    }
}

/// A BCD form is never negative, and is positive exactly for positive input.
pub proof fn lemma_int_to_bcd_sign(v: int)
    ensures
        spec_int_to_bcd(v) >= 0,
        v > 0 ==> spec_int_to_bcd(v) > 0,
    decreases (if v >= 0 { v } else { 0 }),
{
    if v > 0 {
        lemma_int_to_bcd_sign(v / 10);
    }
}

/// A decoded BCD value is never negative.
pub proof fn lemma_bcd_to_int_sign(b: int)
    ensures
        spec_bcd_to_int(b) >= 0,
    decreases (if b >= 0 { b } else { 0 }),
{
    if b > 0 {
        lemma_bcd_to_int_sign(b / 16);
    }
}

/// A number below `10^k` has a BCD form below `16^k`: `k` digits fit in `k`
/// nibbles.
pub proof fn lemma_int_to_bcd_bound(v: int, k: nat)
    requires
        0 <= v < pow10(k),
    ensures
        0 <= spec_int_to_bcd(v) < pow16(k),
    decreases k,
{
    lemma_int_to_bcd_sign(v);
    if v > 0 {
        assert(k > 0);
        assert(v / 10 < pow10((k - 1) as nat));
        lemma_int_to_bcd_bound(v / 10, (k - 1) as nat);
    } else {
        lemma_pow16_pos(k);
    }
}

/// A BCD form below `16^k` decodes below `(5/3)(10^k - 1) + 1`; in
/// particular `k` nibbles decode to fewer than `2 * 10^k`.
pub proof fn lemma_bcd_to_int_bound(b: int, k: nat)
    requires
        0 <= b < pow16(k),
    ensures
        3 * spec_bcd_to_int(b) <= 5 * (pow10(k) - 1),
    decreases k,
{
    lemma_bcd_to_int_sign(b);
    if b > 0 {
        assert(k > 0);
        assert(b / 16 < pow16((k - 1) as nat));
        lemma_bcd_to_int_bound(b / 16, (k - 1) as nat);
    } else {
        lemma_pow10_pos(k);
    }
}

/// Powers of 10 are positive.
pub proof fn lemma_pow10_pos(n: nat)
    ensures
        pow10(n) >= 1,
    decreases n,
{
    if n > 0 {
        lemma_pow10_pos((n - 1) as nat);
    }
}

/// Powers of 16 are positive.
pub proof fn lemma_pow16_pos(n: nat)
    ensures
        pow16(n) >= 1,
    decreases n,
{
    if n > 0 {
        lemma_pow16_pos((n - 1) as nat);
    }
}

/// Decoding is the exact inverse of encoding, for every non-negative number.
pub proof fn lemma_bcd_round_trip(v: int)
    requires
        0 <= v,
    ensures
        spec_bcd_to_int(spec_int_to_bcd(v)) == v,
    decreases v,
{
    if v > 0 {
        let x = spec_int_to_bcd(v / 10);
        let d = v % 10;
        lemma_int_to_bcd_sign(v / 10);
        lemma_int_to_bcd_sign(v);
        vstd::arithmetic::div_mod::lemma_fundamental_div_mod_converse(x * 16 + d, 16, x, d);
        lemma_bcd_round_trip(v / 10);
    }
}

/// Encodes a positive number to its BCD form.
fn int_to_bcd_pos(v: u64) -> (r: u64)
    requires
        v < 0x1_0000_0000,
    ensures
        r == spec_int_to_bcd(v as int),
    decreases v,
{
    if v == 0 {
        0
    } else {
        proof {
            vstd::arithmetic::div_mod::lemma_fundamental_div_mod(v as int, 10);
            assert(pow10(10) == 10_000_000_000 && pow16(9) == 0x10_0000_0000) by {
                reveal_with_fuel(pow10, 11);
                reveal_with_fuel(pow16, 10);
            }
            lemma_int_to_bcd_bound(v as int / 10, 9);
        }
        int_to_bcd_pos(v / 10) * 16 + (v % 10)
    }
}

/// Encodes a number to its BCD form. A value that is not positive encodes
/// to 0, as an empty string of digits.
pub fn int_to_bcd(value: i64) -> (r: u64)
    requires
        value < 0x1_0000_0000,
    ensures
        r == spec_int_to_bcd(value as int),
{
    if value <= 0 {
        0
    } else {
        int_to_bcd_pos(value as u64)
    }
}

/// Decodes a BCD form back to the number it denotes.
pub fn bcd_to_int(bcd: u64) -> (r: u64)
    requires
        bcd < 0x1_0000_0000,
    ensures
        r == spec_bcd_to_int(bcd as int),
    decreases bcd,
{
    if bcd == 0 {
        0
    } else {
        proof {
            vstd::arithmetic::div_mod::lemma_fundamental_div_mod(bcd as int, 16);
            assert(pow10(8) == 100_000_000 && pow16(8) == 0x1_0000_0000) by {
                reveal_with_fuel(pow10, 9);
                reveal_with_fuel(pow16, 9);
            }
            lemma_bcd_to_int_bound(bcd as int / 16, 8);
            lemma_bcd_to_int_sign(bcd as int / 16);
        }
        bcd_to_int(bcd / 16) * 10 + (bcd % 16)
    }
}

} // verus!
