//! The laws that relate the encoder and the decoder: the round trip, the
//! literal-byte validation, and the full-consumption invariant.

use crate::bcd::lemma_bcd_round_trip;
use crate::bcd::lemma_int_to_bcd_bound;
use crate::bcd::lemma_int_to_bcd_sign;
use crate::bcd::pow10;
use crate::bcd::pow16;
use crate::bcd::spec_bcd_to_int;
use crate::decode::spec_body;
use crate::decode::spec_decode_dir;
use crate::decode::spec_decode_rec;
use crate::decode::spec_scan_query;
use crate::directive::hex_pair_val;
use crate::directive::is_encode_dir;
use crate::directive::is_hex_digit;
use crate::directive::spec_width;
use crate::encode::spec_bcd_of;
use crate::encode::spec_encode_dir;
use crate::encode::spec_encode_rec;
use crate::encode::spec_format_query;
use crate::errors::SpecError;
use crate::value::SpecValue;
use crate::wire::be_bytes;
use crate::wire::be_val;
use crate::wire::lemma_be_val_of_bytes;
use crate::wire::lemma_wrap64_cases;
use crate::wire::pow256;
use crate::wire::signed_of;
use crate::wire::wrap32_signed;
use crate::wire::wrap64;
use vstd::prelude::*;

verus! {

/// The directives whose encoding the decoder inverts byte for byte: every
/// directive kind but `*`, `#`, `?` and `s`, whose two directions are
/// deliberately asymmetric.
pub open spec fn rt_dir(c: char) -> bool {
    ||| c == 'b'
    ||| c == 'w'
    ||| c == 'd'
    ||| c == 'q'
    ||| c == 'x'
    ||| c == 'z'
    ||| c == 'B'
    ||| c == 'W'
}

/// Whether `v` is representable by the directive `c`, so that decoding
/// gives the value back exactly: the right kind, within the width the
/// directive encodes.
pub open spec fn fits(c: char, v: SpecValue) -> bool {
    if c == 'b' {
        v matches SpecValue::Number(x) && 0 <= x <= 0xFF
    } else if c == 'w' {
        v matches SpecValue::Number(x) && -0x8000 <= x < 0x8000
    } else if c == 'd' {
        v matches SpecValue::Number(x) && -0x8000_0000 <= x < 0x8000_0000
    } else if c == 'q' {
        v is Number
    } else if c == 'x' {
        v matches SpecValue::Array(a) && a.len() <= 0xFFFF
    } else if c == 'z' {
        v matches SpecValue::Array(a) && a.len() <= 0xFF
    } else if c == 'B' {
        v matches SpecValue::Number(x) && 0 <= x <= 99
    } else if c == 'W' {
        v matches SpecValue::Number(x) && 0 <= x <= 9999
    } else {
        false
    }
}

/// A format string on which encoding inverts exactly: literal-free, every
/// directive a round-trip directive, and `args` matching the directives
/// one for one.
pub open spec fn rt_rec(fmt: Seq<char>, escaped: bool, ovr: bool, args: Seq<SpecValue>) -> bool
    decreases fmt.len(),
{
    if fmt.len() == 0 {
        args.len() == 0 && !escaped
    } else {
        let c = fmt[0];
        let rest = fmt.drop_first();
        if escaped {
            if !ovr && (c == '<' || c == '>') {
                rt_rec(rest, true, true, args)
            } else {
                rt_dir(c) && args.len() > 0 && fits(c, args[0]) && rt_rec(
                    rest,
                    false,
                    false,
                    args.drop_first(),
                )
            }
        } else if c == '%' {
            rt_rec(rest, true, false, args)
        } else if c == ' ' {
            rt_rec(rest, false, false, args)
        } else {
            false
        }
    }
}

/// A round-trip format for `args`: see [`rt_rec`].
pub open spec fn rt_format(fmt: Seq<char>, args: Seq<SpecValue>) -> bool {
    rt_rec(fmt, false, false, args)
}

/// Every round-trip directive is an encode directive, and `fits` implies
/// the directive accepts the argument.
proof fn lemma_rt_dir_encodes(c: char, v: SpecValue)
    requires
        rt_dir(c),
        fits(c, v),
    ensures
        is_encode_dir(c),
        spec_encode_dir(c, v) is Ok,
{
}

/// On a round-trip format with matching arguments, encoding succeeds.
pub proof fn lemma_rt_encode_ok(fmt: Seq<char>, escaped: bool, ovr: bool, args: Seq<SpecValue>)
    requires
        rt_rec(fmt, escaped, ovr, args),
    ensures
        spec_encode_rec(fmt, escaped, ovr, None, args) is Ok,
    decreases fmt.len(),
{
    if fmt.len() == 0 {
    } else {
        let c = fmt[0];
        let rest = fmt.drop_first();
        if escaped {
            if !ovr && (c == '<' || c == '>') {
                lemma_rt_encode_ok(rest, true, true, args);
            } else {
                lemma_rt_dir_encodes(c, args[0]);
                lemma_rt_encode_ok(rest, false, false, args.drop_first());
            }
        } else if c == '%' {
            lemma_rt_encode_ok(rest, true, false, args);
        } else {
            lemma_rt_encode_ok(rest, false, false, args);
        }
    }
}

/// `be_bytes` gives exactly `n` bytes.
proof fn lemma_be_bytes_len(v: int, n: nat)
    ensures
        be_bytes(v, n).len() == n,
    decreases n,
{
    if n > 0 {
        lemma_be_bytes_len(v / 256, (n - 1) as nat);
    }
}

/// Splitting a known concatenation out of a slice of `input`.
proof fn lemma_split_at(input: Seq<u8>, pos: int, a: Seq<u8>, b: Seq<u8>, end: int)
    requires
        0 <= pos <= end <= input.len(),
        input.subrange(pos, end) == a + b,
    ensures
        pos + a.len() + b.len() == end,
        input.subrange(pos, pos + a.len()) == a,
        input.subrange(pos + a.len(), end) == b,
{
    assert(input.subrange(pos, end).len() == end - pos);
    assert((a + b).len() == a.len() + b.len());
    assert(end - pos == a.len() + b.len());
    assert(input.subrange(pos, pos + a.len()) =~= a) by {
        assert forall|k: int| 0 <= k < a.len() implies input.subrange(pos, pos + a.len())[k]
            == a[k] by {
            assert(pos + a.len() <= end);
            assert((a + b)[k] == a[k]);
            assert(input.subrange(pos, end)[k] == (a + b)[k]);
            assert(input.subrange(pos, end)[k] == input[pos + k]);
            assert(input.subrange(pos, pos + a.len())[k] == input[pos + k]);
        }
    }
    assert(input.subrange(pos + a.len(), end) =~= b) by {
        assert forall|k: int| 0 <= k < b.len() implies input.subrange(pos + a.len(), end)[k]
            == b[k] by {
            assert((a + b)[a.len() + k] == b[k]);
            assert(input.subrange(pos, end)[a.len() + k] == (a + b)[a.len() + k]);
        }
    }
}

/// An integer directive decodes, from its own encoding, the value that was
/// encoded, whenever that value fits the directive's width.
proof fn lemma_rt_int(c: char, x: i64, input: Seq<u8>, pos: int)
    requires
        spec_width(c) is Some,
        fits(c, SpecValue::Number(x)),
        0 <= pos,
        pos + spec_width(c)->Some_0 <= input.len(),
        input.subrange(pos, pos + spec_width(c)->Some_0) == be_bytes(
            wrap64(x),
            spec_width(c)->Some_0 as nat,
        ),
    ensures
        spec_decode_dir(c, input, pos) == Ok::<(SpecValue, int), SpecError>(
            (SpecValue::Number(x), pos + spec_width(c)->Some_0),
        ),
{
    reveal(spec_decode_dir);
    let n = spec_width(c)->Some_0;
    let m = pow256(n as nat);
    assert(pow256(1) == 0x100 && pow256(2) == 0x10000 && pow256(4) == 0x1_0000_0000 && pow256(8)
        == 0x1_0000_0000_0000_0000) by {
        reveal_with_fuel(pow256, 9);
    }
    lemma_wrap64_cases(x);
    lemma_be_val_of_bytes(wrap64(x), n as nat);
    let u = be_val(input.subrange(pos, pos + n));
    assert(u == wrap64(x) % m);
    if x >= 0 {
        vstd::arithmetic::div_mod::lemma_small_mod(x as nat, m as nat);
        assert(u == x);
    } else {
        // x < 0 happens only for the signed widths, where -m/2 <= x < 0
        assert(c == 'w' || c == 'd' || c == 'q');
        assert(wrap64(x) == x + 0x1_0000_0000_0000_0000);
        assert((x as int + 0x1_0000_0000_0000_0000) % m == (x as int) % m) by {
            vstd::arithmetic::div_mod::lemma_mod_multiples_vanish(
                0x1_0000_0000_0000_0000int / m,
                x as int,
                m,
            );
        }
        assert((x as int) % m == x + m) by {
            vstd::arithmetic::div_mod::lemma_mod_add_multiples_vanish(x as int, m);
            vstd::arithmetic::div_mod::lemma_small_mod((x + m) as nat, m as nat);
        }
        assert(u == x + m);
        assert(signed_of(u, n as nat) == x);
    }
}

/// A length-prefixed array directive (`x` or `z`) decodes, from its own
/// encoding, the array that was encoded, whenever its length fits the
/// prefix.
proof fn lemma_rt_len_arr(c: char, a: Seq<u8>, input: Seq<u8>, pos: int, end: int)
    requires
        c == 'x' || c == 'z',
        fits(c, SpecValue::Array(a)),
        0 <= pos <= end <= input.len(),
        input.subrange(pos, end) == spec_encode_dir(c, SpecValue::Array(a))->Ok_0,
    ensures
        spec_decode_dir(c, input, pos) == Ok::<(SpecValue, int), SpecError>(
            (SpecValue::Array(a), end),
        ),
{
    reveal(spec_decode_dir);
    let w: int = if c == 'z' {
        1
    } else {
        2
    };
    let m = pow256(w as nat);
    assert(pow256(1) == 0x100 && pow256(2) == 0x10000) by {
        reveal_with_fuel(pow256, 3);
    }
    let l = a.len() as int;
    lemma_be_bytes_len(l, w as nat);
    lemma_split_at(input, pos, be_bytes(l, w as nat), a, end);
    lemma_be_val_of_bytes(l, w as nat);
    vstd::arithmetic::div_mod::lemma_small_mod(a.len(), m as nat);
    assert(be_val(input.subrange(pos, pos + w)) == l);
    assert(input.subrange(pos + w, pos + w + l) == a);
}

/// A BCD directive decodes, from its own encoding, the number that was
/// encoded, whenever that number fits the directive's digits.
proof fn lemma_rt_bcd(c: char, x: i64, input: Seq<u8>, pos: int)
    requires
        c == 'B' || c == 'W',
        fits(c, SpecValue::Number(x)),
        0 <= pos,
        pos + (if c == 'B' {
            1int
        } else {
            2int
        }) <= input.len(),
        input.subrange(
            pos,
            pos + (if c == 'B' {
                1int
            } else {
                2int
            }),
        ) == be_bytes(
            spec_bcd_of(x),
            if c == 'B' {
                1nat
            } else {
                2nat
            },
        ),
    ensures
        spec_decode_dir(c, input, pos) == Ok::<(SpecValue, int), SpecError>(
            (
                SpecValue::Number(x),
                pos + (if c == 'B' {
                    1int
                } else {
                    2int
                }),
            ),
        ),
{
    reveal(spec_decode_dir);
    let w: int = if c == 'B' {
        1
    } else {
        2
    };
    let k: nat = if c == 'B' {
        2
    } else {
        4
    };
    assert(pow256(1) == 0x100 && pow256(2) == 0x10000) by {
        reveal_with_fuel(pow256, 3);
    }
    assert(pow10(2) == 100 && pow10(4) == 10000 && pow16(2) == 0x100 && pow16(4) == 0x10000) by {
        reveal_with_fuel(pow10, 5);
        reveal_with_fuel(pow16, 5);
    }
    // x is non-negative and small, so the wrapped readings are x itself
    vstd::arithmetic::div_mod::lemma_small_mod(x as nat, 0x1_0000_0000_0000_0000);
    vstd::arithmetic::div_mod::lemma_mod_mod(x as int, 0x1_0000_0000, 0x1_0000_0000);
    vstd::arithmetic::div_mod::lemma_small_mod(x as nat, 0x1_0000_0000);
    assert(wrap32_signed(x) == x);
    let bcd = spec_bcd_of(x);
    lemma_int_to_bcd_bound(x as int, k);
    lemma_int_to_bcd_sign(x as int);
    lemma_be_val_of_bytes(bcd, w as nat);
    vstd::arithmetic::div_mod::lemma_small_mod(bcd as nat, pow256(w as nat) as nat);
    lemma_bcd_round_trip(x as int);
    if c == 'B' {
        assert(input.subrange(pos, pos + 1)[0] == input[pos]);
        assert(be_val(input.subrange(pos, pos + 1)) == input[pos]) by {
            assert(input.subrange(pos, pos + 1).drop_last() =~= Seq::<u8>::empty());
        }
        assert(spec_bcd_to_int(input[pos] as int) == x);
    } else {
        assert(be_val(input.subrange(pos, pos + 2)) == bcd);
        assert(spec_bcd_to_int(bcd) == x);
    }
}

/// On a round-trip format, decoding the encoder's output from `pos` gives
/// back exactly the encoded arguments and stops at the end of the input.
proof fn lemma_rt_decode(
    fmt: Seq<char>,
    escaped: bool,
    ovr: bool,
    args: Seq<SpecValue>,
    input: Seq<u8>,
    pos: int,
)
    requires
        rt_rec(fmt, escaped, ovr, args),
        0 <= pos <= input.len(),
        spec_encode_rec(fmt, escaped, ovr, None, args) matches Ok(b) && input.subrange(
            pos,
            input.len() as int,
        ) == b,
    ensures
        spec_decode_rec(fmt, escaped, ovr, None, input, pos) == Ok::<
            (Seq<SpecValue>, int),
            SpecError,
        >((args, input.len() as int)),
    decreases fmt.len(),
{
    if fmt.len() == 0 {
        assert(input.subrange(pos, input.len() as int).len() == 0);
        assert(args =~= Seq::<SpecValue>::empty());
    } else {
        let c = fmt[0];
        let rest = fmt.drop_first();
        if escaped {
            if !ovr && (c == '<' || c == '>') {
                lemma_rt_decode(rest, true, true, args, input, pos);
            } else {
                lemma_rt_dir_encodes(c, args[0]);
                lemma_rt_encode_ok(rest, false, false, args.drop_first());
                let bytes = spec_encode_dir(c, args[0])->Ok_0;
                let t = spec_encode_rec(rest, false, false, None, args.drop_first())->Ok_0;
                lemma_split_at(input, pos, bytes, t, input.len() as int);
                let mid = pos + bytes.len();
                match args[0] {
                    SpecValue::Number(x) => {
                        if c == 'B' || c == 'W' {
                            lemma_be_bytes_len(spec_bcd_of(x), if c == 'B' { 1nat } else { 2nat });
                            lemma_rt_bcd(c, x, input, pos);
                        } else {
                            lemma_be_bytes_len(wrap64(x), spec_width(c)->Some_0 as nat);
                            lemma_rt_int(c, x, input, pos);
                        }
                    },
                    SpecValue::Array(a) => {
                        lemma_rt_len_arr(c, a, input, pos, mid);
                    },
                }
                assert(spec_decode_dir(c, input, pos) == Ok::<(SpecValue, int), SpecError>(
                    (args[0], mid),
                ));
                lemma_rt_decode(rest, false, false, args.drop_first(), input, mid);
                assert(seq![args[0]] + args.drop_first() =~= args);
            }
        } else if c == '%' {
            lemma_rt_decode(rest, true, false, args, input, pos);
        } else {
            lemma_rt_decode(rest, false, false, args, input, pos);
        }
    }
}

/// The round trip: on a literal-free format string whose directives all
/// have exact inverses, decoding the encoder's output (behind any one
/// framing byte) gives back exactly the arguments that were encoded.
pub proof fn lemma_round_trip(fmt: Seq<char>, args: Seq<SpecValue>, framing: u8)
    requires
        rt_format(fmt, args),
    ensures
        spec_format_query(fmt, args) is Ok,
        spec_scan_query(seq![framing] + spec_format_query(fmt, args)->Ok_0, fmt) == Ok::<
            Seq<SpecValue>,
            SpecError,
        >(args),
{
    lemma_rt_encode_ok(fmt, false, false, args);
    let b = spec_format_query(fmt, args)->Ok_0;
    let input = seq![framing] + b;
    assert(spec_body(input) =~= b);
    assert(b.subrange(0, b.len() as int) =~= b);
    lemma_rt_decode(fmt, false, false, args, b, 0);
}

/// The literal bytes a format string denotes, when it consists of literal
/// hex pairs and spaces alone: `None` as soon as an escape or a malformed
/// pair appears. `half` carries a pending first nibble.
pub open spec fn spec_literals(fmt: Seq<char>, half: Option<char>) -> Option<Seq<u8>>
    decreases fmt.len(),
{
    if fmt.len() == 0 {
        Some(Seq::empty())
    } else {
        let c = fmt[0];
        let rest = fmt.drop_first();
        if c == ' ' {
            spec_literals(rest, half)
        } else if c == '%' {
            None
        } else {
            match half {
                None => spec_literals(rest, Some(c)),
                Some(h) => if is_hex_digit(h) && is_hex_digit(c) {
                    match spec_literals(rest, None) {
                        Some(t) => Some(seq![hex_pair_val(h, c)] + t),
                        None => None,
                    }
                } else {
                    None
                },
            }
        }
    }
}

/// On an all-literal format whose bytes all agree with the input, decoding
/// succeeds, consumes them all, and produces no value.
proof fn lemma_lit_rec_ok(fmt: Seq<char>, half: Option<char>, input: Seq<u8>, pos: int)
    requires
        0 <= pos <= input.len(),
        spec_literals(fmt, half) matches Some(bs) && input.subrange(pos, input.len() as int)
            == bs,
    ensures
        spec_decode_rec(fmt, false, false, half, input, pos) == Ok::<
            (Seq<SpecValue>, int),
            SpecError,
        >((Seq::empty(), input.len() as int)),
    decreases fmt.len(),
{
    let bs = spec_literals(fmt, half)->Some_0;
    assert(input.subrange(pos, input.len() as int).len() == input.len() - pos);
    if fmt.len() == 0 {
    } else {
        let c = fmt[0];
        let rest = fmt.drop_first();
        if c == ' ' {
            lemma_lit_rec_ok(rest, half, input, pos);
        } else {
            match half {
                None => {
                    lemma_lit_rec_ok(rest, Some(c), input, pos);
                },
                Some(h) => {
                    let t = spec_literals(rest, None)->Some_0;
                    lemma_split_at(input, pos, seq![hex_pair_val(h, c)], t, input.len() as int);
                    assert(input[pos] == hex_pair_val(h, c)) by {
                        assert(input.subrange(pos, pos + 1)[0] == input[pos]);
                        assert(input.subrange(pos, pos + 1)[0] == seq![hex_pair_val(h, c)][0]);
                    }
                    lemma_lit_rec_ok(rest, None, input, pos + 1);
                },
            }
        }
    }
}

/// On an all-literal format, the first input byte that disagrees with its
/// literal stops decoding with a mismatch at exactly that offset.
proof fn lemma_lit_rec_err(fmt: Seq<char>, half: Option<char>, input: Seq<u8>, pos: int, d: int)
    requires
        0 <= pos,
        spec_literals(fmt, half) matches Some(bs) && {
            &&& pos + bs.len() <= input.len()
            &&& 0 <= d < bs.len()
            &&& input[pos + d] != bs[d]
            &&& forall|k: int| 0 <= k < d ==> input[pos + k] == bs[k]
        },
    ensures
        ({
            let bs = spec_literals(fmt, half)->Some_0;
            spec_decode_rec(fmt, false, false, half, input, pos) == Err::<
                (Seq<SpecValue>, int),
                SpecError,
            >(
                SpecError::InputMismatch {
                    index: pos + d,
                    expected: bs[d],
                    actual: input[pos + d],
                },
            )
        }),
    decreases fmt.len(),
{
    let bs = spec_literals(fmt, half)->Some_0;
    if fmt.len() == 0 {
    } else {
        let c = fmt[0];
        let rest = fmt.drop_first();
        if c == ' ' {
            lemma_lit_rec_err(rest, half, input, pos, d);
        } else {
            match half {
                None => {
                    lemma_lit_rec_err(rest, Some(c), input, pos, d);
                },
                Some(h) => {
                    let t = spec_literals(rest, None)->Some_0;
                    assert(bs == seq![hex_pair_val(h, c)] + t);
                    assert(bs[0] == hex_pair_val(h, c));
                    if d == 0 {
                        assert(input[pos] != hex_pair_val(h, c));
                    } else {
                        assert(input[pos] == bs[0]);
                        assert forall|k: int| 0 <= k < d - 1 implies input[pos + 1 + k] == t[k] by {
                            assert(bs[1 + k] == t[k]);
                            assert(input[pos + (1 + k)] == bs[1 + k]);
                        }
                        assert(t[d - 1] == bs[d]);
                        lemma_lit_rec_err(rest, None, input, pos + 1, d - 1);
                    }
                },
            }
        }
    }
}

/// Literal-byte validation, the matching half: on a format string made of
/// literal tokens alone, when every literal byte agrees with the
/// post-framing input and nothing is left over, decoding succeeds and
/// produces no value.
pub proof fn lemma_literal_validation_ok(fmt: Seq<char>, input: Seq<u8>)
    requires
        spec_literals(fmt, None) matches Some(bs) && spec_body(input) == bs,
    ensures
        spec_scan_query(input, fmt) == Ok::<Seq<SpecValue>, SpecError>(Seq::empty()),
{
    let b = spec_body(input);
    assert(b.subrange(0, b.len() as int) =~= b);
    lemma_lit_rec_ok(fmt, None, b, 0);
}

/// Literal-byte validation, the mismatch half: on a format string made of
/// literal tokens alone, decoding fails with `InputMismatch` at exactly
/// the first offset whose input byte disagrees with its literal, carrying
/// both bytes.
pub proof fn lemma_literal_validation_mismatch(fmt: Seq<char>, input: Seq<u8>, d: int)
    requires
        spec_literals(fmt, None) matches Some(bs) && {
            &&& bs.len() <= spec_body(input).len()
            &&& 0 <= d < bs.len()
            &&& spec_body(input)[d] != bs[d]
            &&& forall|k: int| 0 <= k < d ==> spec_body(input)[k] == bs[k]
        },
    ensures
        ({
            let bs = spec_literals(fmt, None)->Some_0;
            spec_scan_query(input, fmt) == Err::<Seq<SpecValue>, SpecError>(
                SpecError::InputMismatch {
                    index: d,
                    expected: bs[d],
                    actual: spec_body(input)[d],
                },
            )
        }),
{
    lemma_lit_rec_err(fmt, None, spec_body(input), 0, d);
}

/// The full-consumption invariant: whenever `scan_query` succeeds, the
/// interpreter has consumed every byte of the post-framing input.
pub proof fn lemma_scan_consumes_all(input: Seq<u8>, fmt: Seq<char>)
    ensures
        spec_scan_query(input, fmt) matches Ok(vs) ==> spec_decode_rec(
            fmt,
            false,
            false,
            None,
            spec_body(input),
            0,
        ) == Ok::<(Seq<SpecValue>, int), SpecError>((vs, spec_body(input).len() as int)),
{
}

} // verus!
