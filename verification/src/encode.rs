//! The encoder: `format_query` turns a format string and an ordered sequence
//! of values into the byte sequence to send.

use crate::bcd::spec_int_to_bcd;
use crate::bcd::int_to_bcd;
use crate::directive::hex_digit_val;
use crate::directive::hex_pair_val;
use crate::directive::hex_val;
use crate::directive::is_encode_dir;
use crate::directive::is_hex_digit;
use crate::directive::spec_width;
use crate::directive::width_of;
use crate::errors::err_matches;
use crate::errors::QueryError;
use crate::errors::SpecError;
use crate::value::clone_value;
use crate::value::push_bytes;
use crate::value::QueryValue;
use crate::value::SpecValue;
use crate::value::ValueError;
use crate::value::ValueKind;
use crate::wire::be_bytes;
use crate::wire::wrap32_signed;
use crate::wire::wrap64;
use crate::wire::wrap64_exec;
use crate::wire::write_be;
use vstd::prelude::*;

verus! {

/// The BCD form of the low 32 bits of `v`, read as a signed number: what
/// the `B` and `W` directives emit bytes of.
pub open spec fn spec_bcd_of(v: i64) -> int {
    spec_int_to_bcd(wrap32_signed(v))
}

/// The bytes one directive emits for the one value it consumes, or the
/// exact error it raises.
pub open spec fn spec_encode_dir(c: char, v: SpecValue) -> Result<Seq<u8>, SpecError> {
    if spec_width(c) is Some {
        match v {
            SpecValue::Number(x) => Ok(be_bytes(wrap64(x), spec_width(c)->Some_0 as nat)),
            SpecValue::Array(_) => Err(
                SpecError::ArgumentMismatch { expected: ValueKind::Number, actual: v },
            ),
        }
    } else if c == 'x' || c == 's' || c == 'z' {
        match v {
            SpecValue::Array(a) => {
                if c == 'x' {
                    Ok(be_bytes(a.len() as int, 2) + a)
                } else if c == 's' {
                    Ok(be_bytes(a.len() as int + 1, 2) + a + seq![0u8])
                } else {
                    Ok(be_bytes(a.len() as int, 1) + a)
                }
            },
            SpecValue::Number(_) => Err(
                SpecError::ArgumentMismatch { expected: ValueKind::Array, actual: v },
            ),
        }
    } else if c == '*' {
        match v {
            SpecValue::Array(a) => Ok(a),
            SpecValue::Number(_) => Err(
                SpecError::ArgumentMismatch { expected: ValueKind::Array, actual: v },
            ),
        }
    } else {
        // c is 'B' or 'W'
        match v {
            SpecValue::Number(x) => Ok(be_bytes(spec_bcd_of(x), if c == 'B' {
                1
            } else {
                2
            })),
            SpecValue::Array(_) => Err(
                SpecError::ArgumentMismatch { expected: ValueKind::Number, actual: v },
            ),
        }
    }
}

/// The state-machine interpreter for the encode direction: the bytes the
/// rest of the format string emits, started in the given scanner state.
///
/// `escaped` holds between a `%` and its directive; `ovr` once an
/// endianness override (`<` or `>`) has been recorded for the current
/// escape (the override is recorded and then ignored: every multi-byte
/// directive is big-endian); `half` holds a pending first literal nibble.
pub open spec fn spec_encode_rec(
    fmt: Seq<char>,
    escaped: bool,
    ovr: bool,
    half: Option<char>,
    args: Seq<SpecValue>,
) -> Result<Seq<u8>, SpecError>
    decreases fmt.len(),
{
    if fmt.len() == 0 {
        Ok(Seq::empty())
    } else {
        let c = fmt[0];
        let rest = fmt.drop_first();
        if escaped {
            if !ovr && (c == '<' || c == '>') {
                spec_encode_rec(rest, true, true, half, args)
            } else if is_encode_dir(c) {
                if args.len() == 0 {
                    Err(SpecError::ArgumentUnderflow)
                } else {
                    match spec_encode_dir(c, args[0]) {
                        Ok(bytes) => match spec_encode_rec(
                            rest,
                            false,
                            false,
                            half,
                            args.drop_first(),
                        ) {
                            Ok(t) => Ok(bytes + t),
                            Err(e) => Err(e),
                        },
                        Err(e) => Err(e),
                    }
                }
            } else {
                Err(SpecError::UnrecognizedChar(c))
            }
        } else if c == '%' {
            spec_encode_rec(rest, true, false, half, args)
        } else if c == ' ' {
            spec_encode_rec(rest, false, false, half, args)
        } else {
            match half {
                None => spec_encode_rec(rest, false, false, Some(c), args),
                Some(h) => {
                    if !is_hex_digit(h) {
                        Err(SpecError::MalformedLiteral(h))
                    } else if !is_hex_digit(c) {
                        Err(SpecError::MalformedLiteral(c))
                    } else {
                        match spec_encode_rec(rest, false, false, None, args) {
                            Ok(t) => Ok(seq![hex_pair_val(h, c)] + t),
                            Err(e) => Err(e),
                        }
                    }
                },
            }
        }
    }
}

/// What `format_query` returns, stated over the format string's characters
/// and the arguments' views.
pub open spec fn spec_format_query(fmt: Seq<char>, args: Seq<SpecValue>) -> Result<
    Seq<u8>,
    SpecError,
> {
    spec_encode_rec(fmt, false, false, None, args)
}

/// Composes bytes already emitted with the interpreter's continuation.
spec fn emit(prefix: Seq<u8>, r: Result<Seq<u8>, SpecError>) -> Result<
    Seq<u8>,
    SpecError,
> {
    match r {
        Ok(t) => Ok(prefix + t),
        Err(e) => Err(e),
    }
}

/// Emitting `bytes` and continuing is the same as prepending `bytes` to the
/// continuation's output.
proof fn lemma_emit_step(prefix: Seq<u8>, bytes: Seq<u8>, cont: Result<Seq<u8>, SpecError>)
    ensures
        emit(
            prefix,
            match cont {
                Ok(t) => Ok(bytes + t),
                Err(e) => Err(e),
            },
        ) == emit(prefix + bytes, cont),
{
    match cont {
        Ok(t) => {
            assert(prefix + (bytes + t) =~= (prefix + bytes) + t);
        },
        Err(_) => {},
    }
}

/// Encodes `args` into the byte sequence that `format` describes: literal
/// hex pairs are emitted verbatim, and each directive consumes the next
/// argument in order. Returns exactly what the specification-level
/// interpreter [`spec_format_query`] returns.
pub fn format_query(format: String, args: Vec<QueryValue>) -> (r: Result<Vec<u8>, QueryError>)
    ensures
        match r {
            Ok(out) => spec_format_query(format@, args.deep_view()) matches Ok(b) && b == out@,
            Err(e) => spec_format_query(format@, args.deep_view()) matches Err(se)
                && err_matches(e, se, format@),
        },
{
    let ghost argsv = args.deep_view();
    let fstr = format.as_str();
    let flen = fstr.unicode_len();
    let mut out: Vec<u8> = Vec::new();
    let mut j: usize = 0;
    let mut escaped = false;
    let mut ovr = false;
    let mut half: Option<char> = None;
    let mut i: usize = 0;
    proof {
        assert(format@.skip(0) =~= format@);
        assert(argsv.skip(0) =~= argsv);
        match spec_format_query(format@, argsv) {
            Ok(b) => {
                assert(Seq::<u8>::empty() + b =~= b);
            },
            Err(_) => {},
        }
    }
    while i < flen
        invariant
            i <= flen,
            j <= args.len(),
            flen == format@.len(),
            argsv == args.deep_view(),
            fstr@ == format@,
            !escaped ==> !ovr,
            spec_format_query(format@, argsv) == emit(
                out@,
                spec_encode_rec(
                    format@.skip(i as int),
                    escaped,
                    ovr,
                    half,
                    argsv.skip(j as int),
                ),
            ),
        decreases flen - i,
    {
        let c = fstr.get_char(i);
        proof {
            assert(format@.skip(i as int)[0] == format@[i as int]);
            assert(format@.skip(i as int).drop_first() =~= format@.skip(i as int + 1));
            assert(argsv.skip(j as int).len() == args.len() - j);
        }
        if escaped {
            if !ovr && (c == '<' || c == '>') {
                ovr = true;
            } else if is_directive_char(c) {
                if j >= args.len() {
                    return Err(QueryError::ArgumentUnderflow);
                }
                proof {
                    assert(argsv.skip(j as int)[0] == argsv[j as int]);
                    assert(argsv.skip(j as int).drop_first() =~= argsv.skip(j as int + 1));
                }
                let ghost prefix = out@;
                let ghost bytes = (match spec_encode_dir(c, argsv[j as int]) {
                    Ok(b) => b,
                    Err(_) => Seq::empty(),
                });
                match encode_one(&mut out, c, &args[j]) {
                    Ok(()) => {},
                    Err(e) => {
                        return Err(e);
                    },
                }
                j = j + 1;
                escaped = false;
                ovr = false;
                proof {
                    lemma_emit_step(
                        prefix,
                        bytes,
                        spec_encode_rec(
                            format@.skip(i as int + 1),
                            false,
                            false,
                            half,
                            argsv.skip(j as int),
                        ),
                    );
                }
            } else {
                return Err(QueryError::UnrecognizedChar(c));
            }
        } else if c == '%' {
            escaped = true;
            ovr = false;
        } else if c == ' ' {
            // spaces separate literal tokens and are skipped
        } else {
            match half {
                None => {
                    half = Some(c);
                },
                Some(h) => {
                    let ghost prefix = out@;
                    match hex_val(h) {
                        None => {
                            return Err(QueryError::MalformedLiteral(h));
                        },
                        Some(hv) => match hex_val(c) {
                            None => {
                                return Err(QueryError::MalformedLiteral(c));
                            },
                            Some(cv) => {
                                out.push(hv * 16 + cv);
                                half = None;
                                proof {
                                    assert(seq![hex_pair_val(h, c)] =~= out@.skip(
                                        prefix.len() as int,
                                    ));
                                    lemma_emit_step(
                                        prefix,
                                        seq![hex_pair_val(h, c)],
                                        spec_encode_rec(
                                            format@.skip(i as int + 1),
                                            false,
                                            false,
                                            None,
                                            argsv.skip(j as int),
                                        ),
                                    );
                                    assert(prefix + seq![hex_pair_val(h, c)] =~= out@);
                                }
                            },
                        },
                    }
                },
            }
        }
        i = i + 1;
    }
    proof {
        assert(format@.skip(flen as int) =~= Seq::<char>::empty());
        assert(out@ + Seq::<u8>::empty() =~= out@);
    }
    Ok(out)
}

/// Whether the encoder recognizes `c` as a directive; mirrors
/// [`is_encode_dir`].
fn is_directive_char(c: char) -> (r: bool)
    ensures
        r == is_encode_dir(c),
{
    c == 'b' || c == 'w' || c == 'd' || c == 'q' || c == 'x' || c == 's' || c == 'z' || c == '*'
        || c == 'B' || c == 'W'
}

/// Emits the bytes of one directive for the next argument, or reports the
/// exact error; the caller has already checked that `c` is a directive.
fn encode_one(out: &mut Vec<u8>, c: char, arg: &QueryValue) -> (r: Result<(), QueryError>)
    requires
        is_encode_dir(c),
    ensures
        match r {
            Ok(()) => spec_encode_dir(c, arg@) matches Ok(b) && final(out)@ == old(out)@ + b,
            Err(e) => spec_encode_dir(c, arg@) matches Err(se) && final(out)@ == old(out)@
                && match se {
                SpecError::ArgumentMismatch { expected, actual } => e matches
                    QueryError::ArgumentMismatch(ve) && (ve matches ValueError::TypeMismatch {
                    expected: k2,
                    actual: a2,
                } && k2 == expected && a2@ == actual),
                _ => false,
            },
        },
{
    match width_of(c) {
        Some(n) => match arg {
            QueryValue::Number(x) => {
                let u = wrap64_exec(*x);
                write_be(out, u, n);
                Ok(())
            },
            QueryValue::Array(_) => Err(
                QueryError::ArgumentMismatch(
                    ValueError::TypeMismatch {
                        expected: ValueKind::Number,
                        actual: clone_value(arg),
                    },
                ),
            ),
        },
        None => {
            if c == 'x' || c == 's' || c == 'z' {
                match arg {
                    QueryValue::Array(a) => {
                        if c == 's' {
                            let lp = a.len() % 0x10000;
                            proof {
                                lemma_len_prefix_congruent(a@.len() as int);
                            }
                            write_be(out, (lp + 1) as u64, 2);
                            push_bytes(out, a);
                            out.push(0);
                            proof {
                                assert(old(out)@ + (be_bytes(a@.len() as int + 1, 2) + a@ + seq![0u8])
                                    =~= out@);
                            }
                            Ok(())
                        } else if c == 'x' {
                            write_be(out, a.len() as u64, 2);
                            push_bytes(out, a);
                            proof {
                                assert(old(out)@ + (be_bytes(a@.len() as int, 2) + a@) =~= out@);
                            }
                            Ok(())
                        } else {
                            write_be(out, a.len() as u64, 1);
                            push_bytes(out, a);
                            proof {
                                assert(old(out)@ + (be_bytes(a@.len() as int, 1) + a@) =~= out@);
                            }
                            Ok(())
                        }
                    },
                    QueryValue::Number(_) => Err(
                        QueryError::ArgumentMismatch(
                            ValueError::TypeMismatch {
                                expected: ValueKind::Array,
                                actual: clone_value(arg),
                            },
                        ),
                    ),
                }
            } else if c == '*' {
                match arg {
                    QueryValue::Array(a) => {
                        push_bytes(out, a);
                        Ok(())
                    },
                    QueryValue::Number(_) => Err(
                        QueryError::ArgumentMismatch(
                            ValueError::TypeMismatch {
                                expected: ValueKind::Array,
                                actual: clone_value(arg),
                            },
                        ),
                    ),
                }
            } else {
                // c is 'B' or 'W'
                match arg {
                    QueryValue::Number(x) => {
                        let u = wrap64_exec(*x);
                        let m = u % 0x1_0000_0000;
                        proof {
                            lemma_low32(*x);
                        }
                        let bcd = if m >= 0x8000_0000 {
                            0
                        } else {
                            int_to_bcd(m as i64)
                        };
                        write_be(out, bcd, if c == 'B' {
                            1
                        } else {
                            2
                        });
                        Ok(())
                    },
                    QueryValue::Array(_) => Err(
                        QueryError::ArgumentMismatch(
                            ValueError::TypeMismatch {
                                expected: ValueKind::Number,
                                actual: clone_value(arg),
                            },
                        ),
                    ),
                }
            }
        },
    }
}

/// The length prefix of an `s` field: adding one to the masked length
/// agrees, modulo `2^16`, with adding one to the length itself.
proof fn lemma_len_prefix_congruent(len: int)
    requires
        0 <= len,
    ensures
        be_bytes((len % 0x10000) + 1, 2) == be_bytes(len + 1, 2),
{
    assert(crate::wire::pow256(2) == 0x10000) by {
        reveal_with_fuel(crate::wire::pow256, 3);
    }
    vstd::arithmetic::div_mod::lemma_mod_bound(len, 0x10000);
    vstd::arithmetic::div_mod::lemma_add_mod_noop(len, 1, 0x10000);
    vstd::arithmetic::div_mod::lemma_add_mod_noop(len % 0x10000, 1, 0x10000);
    vstd::arithmetic::div_mod::lemma_mod_twice(len, 0x10000);
    vstd::arithmetic::div_mod::lemma_small_mod(1, 0x10000);
    crate::wire::lemma_be_bytes_congruence((len % 0x10000) + 1, len + 1, 2);
}

/// The low 32 bits of `v`, as used by the BCD directives: the sign test on
/// the wrapped word decides whether the signed reading is positive.
proof fn lemma_low32(v: i64)
    ensures
        wrap64(v) % 0x1_0000_0000 == (v as int) % 0x1_0000_0000,
        (wrap64(v) % 0x1_0000_0000 >= 0x8000_0000) ==> wrap32_signed(v) < 0,
        (wrap64(v) % 0x1_0000_0000 < 0x8000_0000) ==> wrap32_signed(v) == wrap64(v)
            % 0x1_0000_0000,
        (wrap64(v) % 0x1_0000_0000 >= 0x8000_0000) ==> spec_bcd_of(v) == 0,
        (wrap64(v) % 0x1_0000_0000 < 0x8000_0000) ==> spec_bcd_of(v) == spec_int_to_bcd(
            wrap64(v) % 0x1_0000_0000,
        ),
{
    vstd::arithmetic::div_mod::lemma_mod_mod(v as int, 0x1_0000_0000, 0x1_0000_0000);
}

} // verus!
