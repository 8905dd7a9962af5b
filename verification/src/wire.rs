//! Big-endian byte strings of bounded integers: the shared wire arithmetic
//! behind the integer directives and the length prefixes.

use vstd::arithmetic::div_mod::lemma_mod_breakdown;
use vstd::prelude::*;

verus! {

/// `256^n`: the number of values an `n`-byte field can hold.
pub open spec fn pow256(n: nat) -> int
    decreases n,
{
    if n == 0 {
        1
    } else {
        256 * pow256((n - 1) as nat)
    }
}

/// Powers of 256 are positive.
pub proof fn lemma_pow256_pos(n: nat)
    ensures
        pow256(n) >= 1,
    decreases n,
{
    if n > 0 {
        lemma_pow256_pos((n - 1) as nat);
    }
}

/// The `n` big-endian bytes of `v` taken modulo `256^n`.
pub open spec fn be_bytes(v: int, n: nat) -> Seq<u8>
    decreases n,
{
    if n == 0 {
        Seq::empty()
    } else {
        be_bytes(v / 256, (n - 1) as nat).push((v % 256) as u8)
    }
}

/// The number a big-endian byte string denotes.
pub open spec fn be_val(s: Seq<u8>) -> int
    decreases s.len(),
{
    if s.len() == 0 {
        0
    } else {
        be_val(s.drop_last()) * 256 + s.last()
    }
}

/// The unsigned reading of `v: i64` as a 64-bit two's-complement word.
pub open spec fn wrap64(v: i64) -> int {
    (v as int) % 0x1_0000_0000_0000_0000
}

/// The signed reading of the low 32 bits of `v`, as two's complement.
pub open spec fn wrap32_signed(v: i64) -> int {
    let m = (v as int) % 0x1_0000_0000;
    if m >= 0x8000_0000 {
        m - 0x1_0000_0000
    } else {
        m
    }
}

/// The signed reading of `u`, given as an `n`-byte unsigned value.
pub open spec fn signed_of(u: int, n: nat) -> int {
    if 2 * u >= pow256(n) {
        u - pow256(n)
    } else {
        u
    }
}

/// A byte string denotes a value below `256^len`.
pub proof fn lemma_be_val_bound(s: Seq<u8>)
    ensures
        0 <= be_val(s) < pow256(s.len()),
    decreases s.len(),
{
    if s.len() > 0 {
        lemma_be_val_bound(s.drop_last());
    }
}

/// Reading back the bytes of `v` gives `v` modulo `256^n`.
pub proof fn lemma_be_val_of_bytes(v: int, n: nat)
    requires
        0 <= v,
    ensures
        be_val(be_bytes(v, n)) == v % pow256(n),
    decreases n,
{
    if n == 0 {
        assert(v % 1 == 0) by {
            vstd::arithmetic::div_mod::lemma_mod_bound(v, 1);
        }
    } else {
        let p = pow256((n - 1) as nat);
        lemma_pow256_pos((n - 1) as nat);
        lemma_be_val_of_bytes(v / 256, (n - 1) as nat);
        let s = be_bytes(v, n);
        assert(s.drop_last() =~= be_bytes(v / 256, (n - 1) as nat));
        lemma_mod_breakdown(v, 256, p);
    }
}

/// Two numbers that agree modulo `256^n` have the same `n` bytes.
pub proof fn lemma_be_bytes_congruence(a: int, b: int, n: nat)
    requires
        0 <= a,
        0 <= b,
        a % pow256(n) == b % pow256(n),
    ensures
        be_bytes(a, n) == be_bytes(b, n),
    decreases n,
{
    if n == 0 {
        assert(be_bytes(a, n) =~= be_bytes(b, n));
    } else {
        let p = pow256((n - 1) as nat);
        lemma_pow256_pos((n - 1) as nat);
        lemma_mod_breakdown(a, 256, p);
        lemma_mod_breakdown(b, 256, p);
        assert(256 * ((a / 256) % p) + a % 256 == 256 * ((b / 256) % p) + b % 256);
        assert(0 <= a % 256 < 256 && 0 <= b % 256 < 256);
        lemma_be_bytes_congruence(a / 256, b / 256, (n - 1) as nat);
        assert(be_bytes(a, n) =~= be_bytes(b, n));
    }
}

/// Appends the `n` big-endian bytes of `v` to `out`.
pub fn write_be(out: &mut Vec<u8>, v: u64, n: usize)
    ensures
        final(out)@ == old(out)@ + be_bytes(v as int, n as nat),
    decreases n,
{
    if n == 0 {
        proof {
            assert(out@ =~= old(out)@ + be_bytes(v as int, 0));
        }
    } else {
        write_be(out, v / 256, n - 1);
        out.push((v % 256) as u8);
        proof {
            assert(out@ =~= old(out)@ + be_bytes(v as int, n as nat));
        }
    }
}

/// Reads the value of the `n` bytes of `s` that start at `pos`.
pub fn read_be(s: &Vec<u8>, pos: usize, n: usize) -> (r: u64)
    requires
        pos + n <= s@.len(),
        n <= 8,
    ensures
        r == be_val(s@.subrange(pos as int, pos + n)),
        r < pow256(n as nat),
    decreases n,
{
    let s_len = s.len();
    proof {
        lemma_be_val_bound(s@.subrange(pos as int, pos + n));
    }
    if n == 0 {
        0
    } else {
        let hi = read_be(s, pos, n - 1);
        let idx = pos + (n - 1);
        proof {
            assert(s@.subrange(pos as int, pos + n).drop_last() =~= s@.subrange(
                pos as int,
                pos + (n - 1),
            ));
            lemma_be_val_bound(s@.subrange(pos as int, pos + (n - 1)));
            lemma_pow256_monotone((n - 1) as nat, 7);
            assert(pow256(7) == 0x1_0000_0000_0000_00) by {
                reveal_with_fuel(pow256, 8);
            }
        }
        hi * 256 + (s[idx] as u64)
    }
}

/// `256^m <= 256^n` when `m <= n`.
pub proof fn lemma_pow256_monotone(m: nat, n: nat)
    requires
        m <= n,
    ensures
        pow256(m) <= pow256(n),
    decreases n,
{
    if m < n {
        lemma_pow256_monotone(m, (n - 1) as nat);
        lemma_pow256_pos((n - 1) as nat);
    }
}

/// `wrap64` of a non-negative value is the value itself; of a negative one,
/// the value plus `2^64`.
pub proof fn lemma_wrap64_cases(v: i64)
    ensures
        v >= 0 ==> wrap64(v) == v,
        v < 0 ==> wrap64(v) == v + 0x1_0000_0000_0000_0000,
{
    if v >= 0 {
        vstd::arithmetic::div_mod::lemma_small_mod(v as nat, 0x1_0000_0000_0000_0000);
    } else {
        vstd::arithmetic::div_mod::lemma_mod_add_multiples_vanish(
            v as int,
            0x1_0000_0000_0000_0000,
        );
        vstd::arithmetic::div_mod::lemma_small_mod(
            (v + 0x1_0000_0000_0000_0000) as nat,
            0x1_0000_0000_0000_0000,
        );
    }
}

/// Computes the unsigned 64-bit reading of `v`.
pub fn wrap64_exec(v: i64) -> (u: u64)
    ensures
        u as int == wrap64(v),
{
    proof {
        lemma_wrap64_cases(v);
    }
    if v >= 0 {
        v as u64
    } else {
        let m = (-(v + 1)) as u64;
        0xFFFF_FFFF_FFFF_FFFF - m
    }
}

/// Computes the signed reading of `u` as an `n`-byte two's-complement value.
pub fn signed_exec(u: u64, n: usize) -> (r: i64)
    requires
        n == 2 || n == 4 || n == 8,
        u < pow256(n as nat),
    ensures
        r as int == signed_of(u as int, n as nat),
{
    proof {
        reveal_with_fuel(pow256, 9);
    }
    if n == 2 {
        if u >= 0x8000 {
            (u as i64) - 0x1_0000
        } else {
            u as i64
        }
    } else if n == 4 {
        if u >= 0x8000_0000 {
            (u as i64) - 0x1_0000_0000
        } else {
            u as i64
        }
    } else {
        if u >= 0x8000_0000_0000_0000 {
            -((0xFFFF_FFFF_FFFF_FFFF - u) as i64) - 1
        } else {
            u as i64
        }
    }
}

} // verus!
