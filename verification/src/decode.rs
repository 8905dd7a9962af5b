//! The decoder: `scan_query` parses a received byte sequence against a
//! format string, validating the literal bytes the format embeds.

use crate::bcd::bcd_to_int;
use crate::bcd::lemma_bcd_to_int_bound;
use crate::bcd::lemma_bcd_to_int_sign;
use crate::bcd::pow10;
use crate::bcd::pow16;
use crate::bcd::spec_bcd_to_int;
use crate::directive::hex_pair_val;
use crate::directive::hex_val;
use crate::directive::is_decode_dir;
use crate::directive::is_hex_digit;
use crate::directive::spec_width;
use crate::directive::width_of;
use crate::errors::err_matches;
use crate::errors::QueryError;
use crate::errors::SpecError;
use crate::value::QueryValue;
use crate::value::SpecValue;
use crate::wire::be_val;
use crate::wire::pow256;
use crate::wire::read_be;
use crate::wire::signed_exec;
use crate::wire::signed_of;
use vstd::prelude::*;

verus! {

/// The input as the scanner sees it: the first byte, a framing byte outside
/// the codec's concern, is discarded unconditionally.
pub open spec fn spec_body(input: Seq<u8>) -> Seq<u8> {
    if input.len() == 0 {
        input
    } else {
        input.drop_first()
    }
}

/// What one directive reads at `pos`: the value it produces and the
/// position after it, or the exact error it raises.
#[verifier::opaque]
pub open spec fn spec_decode_dir(c: char, input: Seq<u8>, pos: int) -> Result<
    (SpecValue, int),
    SpecError,
> {
    if spec_width(c) is Some {
        let n = spec_width(c)->Some_0;
        if pos + n > input.len() {
            Err(SpecError::InputUnderflow)
        } else {
            let u = be_val(input.subrange(pos, pos + n));
            let v = if c == 'b' {
                u
            } else {
                signed_of(u, n as nat)
            };
            Ok((SpecValue::Number(v as i64), pos + n))
        }
    } else if c == 'x' || c == 's' || c == 'z' {
        let w: int = if c == 'z' {
            1
        } else {
            2
        };
        if pos + w > input.len() {
            Err(SpecError::InputUnderflow)
        } else {
            let l = be_val(input.subrange(pos, pos + w));
            if pos + w + l > input.len() {
                Err(SpecError::InputUnderflow)
            } else {
                Ok((SpecValue::Array(input.subrange(pos + w, pos + w + l)), pos + w + l))
            }
        }
    } else if c == '*' || c == '#' {
        Ok((SpecValue::Array(input.subrange(pos, input.len() as int)), input.len() as int))
    } else if c == 'B' {
        if pos + 1 > input.len() {
            Err(SpecError::InputUnderflow)
        } else {
            Ok((SpecValue::Number(spec_bcd_to_int(input[pos] as int) as i64), pos + 1))
        }
    } else {
        // c is 'W'
        if pos + 2 > input.len() {
            Err(SpecError::InputUnderflow)
        } else {
            Ok(
                (
                    SpecValue::Number(spec_bcd_to_int(be_val(input.subrange(pos, pos + 2))) as i64),
                    pos + 2,
                ),
            )
        }
    }
}

/// The state-machine interpreter for the decode direction: the values the
/// rest of the format string produces from `input` at `pos`, and the
/// position it stops at, started in the given scanner state.
pub open spec fn spec_decode_rec(
    fmt: Seq<char>,
    escaped: bool,
    ovr: bool,
    half: Option<char>,
    input: Seq<u8>,
    pos: int,
) -> Result<(Seq<SpecValue>, int), SpecError>
    decreases fmt.len(),
{
    if fmt.len() == 0 {
        Ok((Seq::empty(), pos))
    } else {
        let c = fmt[0];
        let rest = fmt.drop_first();
        if escaped {
            if !ovr && (c == '<' || c == '>') {
                spec_decode_rec(rest, true, true, half, input, pos)
            } else if c == '?' {
                spec_decode_rec(
                    rest,
                    false,
                    false,
                    half,
                    input,
                    if pos < input.len() {
                        pos + 1
                    } else {
                        pos
                    },
                )
            } else if is_decode_dir(c) {
                match spec_decode_dir(c, input, pos) {
                    Ok((v, p2)) => match spec_decode_rec(rest, false, false, half, input, p2) {
                        Ok((vs, pf)) => Ok((seq![v] + vs, pf)),
                        Err(e) => Err(e),
                    },
                    Err(e) => Err(e),
                }
            } else {
                Err(SpecError::UnrecognizedChar(c))
            }
        } else if c == '%' {
            match half {
                Some(h) => Err(SpecError::MalformedLiteral(h)),
                None => spec_decode_rec(rest, true, false, None, input, pos),
            }
        } else if c == ' ' {
            spec_decode_rec(rest, false, false, half, input, pos)
        } else {
            match half {
                None => spec_decode_rec(rest, false, false, Some(c), input, pos),
                Some(h) => {
                    if !is_hex_digit(h) {
                        Err(SpecError::MalformedLiteral(h))
                    } else if !is_hex_digit(c) {
                        Err(SpecError::MalformedLiteral(c))
                    } else if pos >= input.len() {
                        Err(SpecError::InputUnderflow)
                    } else if input[pos] != hex_pair_val(h, c) {
                        Err(
                            SpecError::InputMismatch {
                                index: pos,
                                expected: hex_pair_val(h, c),
                                actual: input[pos],
                            },
                        )
                    } else {
                        spec_decode_rec(rest, false, false, None, input, pos + 1)
                    }
                },
            }
        }
    }
}

/// What `scan_query` returns: the values the format string reads out of the
/// input, owed only when the format consumes the input exactly.
pub open spec fn spec_scan_query(input: Seq<u8>, fmt: Seq<char>) -> Result<
    Seq<SpecValue>,
    SpecError,
> {
    let b = spec_body(input);
    match spec_decode_rec(fmt, false, false, None, b, 0) {
        Ok((vs, p)) => if p == b.len() {
            Ok(vs)
        } else {
            Err(SpecError::TrailingInput { remaining: b.len() - p })
        },
        Err(e) => Err(e),
    }
}

/// Composes values already produced with the interpreter's continuation.
spec fn produce(
    prefix: Seq<SpecValue>,
    r: Result<(Seq<SpecValue>, int), SpecError>,
) -> Result<(Seq<SpecValue>, int), SpecError> {
    match r {
        Ok((vs, p)) => Ok((prefix + vs, p)),
        Err(e) => Err(e),
    }
}

/// Producing one value and continuing is the same as appending it to the
/// prefix first.
proof fn lemma_produce_step(
    prefix: Seq<SpecValue>,
    v: SpecValue,
    cont: Result<(Seq<SpecValue>, int), SpecError>,
)
    ensures
        produce(
            prefix,
            match cont {
                Ok((vs, p)) => Ok((seq![v] + vs, p)),
                Err(e) => Err(e),
            },
        ) == produce(prefix.push(v), cont),
{
    match cont {
        Ok((vs, p)) => {
            assert(prefix + (seq![v] + vs) =~= prefix.push(v) + vs);
        },
        Err(_) => {},
    }
}

/// Copies `n` bytes of `v` starting at `start`.
fn copy_range(v: &Vec<u8>, start: usize, n: usize) -> (r: Vec<u8>)
    requires
        start + n <= v@.len(),
    ensures
        r@ == v@.subrange(start as int, start + n),
{
    let vl = v.len();
    let mut r: Vec<u8> = Vec::new();
    let mut i: usize = 0;
    while i < n
        invariant
            i <= n,
            start + n <= vl,
            vl == v@.len(),
            r@ == v@.subrange(start as int, start + i),
        decreases n - i,
    {
        r.push(v[start + i]);
        i = i + 1;
        proof {
            assert(r@ =~= v@.subrange(start as int, start + i));
        }
    }
    r
}

/// Reads one directive's worth of input at `pos`; the caller has already
/// checked that `c` is a directive the decoder recognizes.
fn decode_one(c: char, body: &Vec<u8>, pos: usize) -> (r: Result<(QueryValue, usize), QueryError>)
    requires
        is_decode_dir(c),
        pos <= body@.len(),
    ensures
        match r {
            Ok((v, p2)) => {
                &&& spec_decode_dir(c, body@, pos as int) matches Ok((sv, sp))
                &&& v@ == sv
                &&& p2 as int == sp
                &&& pos <= p2 <= body@.len()
            },
            Err(e) => {
                &&& spec_decode_dir(c, body@, pos as int) matches Err(se)
                &&& se == SpecError::InputUnderflow
                &&& e == QueryError::InputUnderflow
            },
        },
{
    proof {
        reveal(spec_decode_dir);
    }
    let blen = body.len();
    match width_of(c) {
        Some(n) => {
            if n > blen - pos {
                return Err(QueryError::InputUnderflow);
            }
            let u = read_be(body, pos, n);
            let v: i64 = if c == 'b' {
                proof {
                    reveal_with_fuel(pow256, 2);
                }
                u as i64
            } else {
                signed_exec(u, n)
            };
            proof {
                reveal_with_fuel(pow256, 9);
            }
            Ok((QueryValue::Number(v), pos + n))
        },
        None => {
            if c == 'x' || c == 's' || c == 'z' {
                let w: usize = if c == 'z' {
                    1
                } else {
                    2
                };
                if w > blen - pos {
                    return Err(QueryError::InputUnderflow);
                }
                let l = read_be(body, pos, w);
                proof {
                    reveal_with_fuel(pow256, 3);
                }
                let ln = l as usize;
                if ln > blen - (pos + w) {
                    return Err(QueryError::InputUnderflow);
                }
                let bytes = copy_range(body, pos + w, ln);
                Ok((QueryValue::Array(bytes), pos + w + ln))
            } else if c == '*' || c == '#' {
                let bytes = copy_range(body, pos, blen - pos);
                Ok((QueryValue::Array(bytes), blen))
            } else if c == 'B' {
                if pos >= blen {
                    return Err(QueryError::InputUnderflow);
                }
                let b0 = body[pos];
                let val = bcd_to_int(b0 as u64);
                proof {
                    assert(pow10(2) == 100 && pow16(2) == 256) by {
                        reveal_with_fuel(pow10, 3);
                        reveal_with_fuel(pow16, 3);
                    }
                    lemma_bcd_to_int_bound(b0 as int, 2);
                    lemma_bcd_to_int_sign(b0 as int);
                }
                Ok((QueryValue::Number(val as i64), pos + 1))
            } else {
                // c is 'W'
                if 2 > blen - pos {
                    return Err(QueryError::InputUnderflow);
                }
                let u = read_be(body, pos, 2);
                proof {
                    reveal_with_fuel(pow256, 3);
                }
                let val = bcd_to_int(u);
                proof {
                    assert(pow10(4) == 10000 && pow16(4) == 0x10000) by {
                        reveal_with_fuel(pow10, 5);
                        reveal_with_fuel(pow16, 5);
                    }
                    lemma_bcd_to_int_bound(u as int, 4);
                    lemma_bcd_to_int_sign(u as int);
                }
                Ok((QueryValue::Number(val as i64), pos + 2))
            }
        },
    }
}

/// Whether the decoder recognizes `c` as a value-producing directive;
/// mirrors [`is_decode_dir`].
fn is_decode_dir_char(c: char) -> (r: bool)
    ensures
        r == is_decode_dir(c),
{
    c == 'b' || c == 'w' || c == 'd' || c == 'q' || c == 'x' || c == 's' || c == 'z' || c == '*'
        || c == '#' || c == 'B' || c == 'W'
}

/// Decodes `query_result` against `format`: the first input byte is
/// discarded as a framing byte, literal hex pairs must match the input
/// exactly, and each directive reads its bytes and produces one value (`?`
/// skips one byte and produces none). The format must consume the input
/// exactly. Returns exactly what the specification-level interpreter
/// [`spec_scan_query`] returns.
#[verifier::rlimit(100)]
pub fn scan_query(query_result: Vec<u8>, format: String) -> (r: Result<
    Vec<QueryValue>,
    QueryError,
>)
    ensures
        match r {
            Ok(vals) => spec_scan_query(query_result@, format@) matches Ok(vs) && vs
                == vals.deep_view(),
            Err(e) => spec_scan_query(query_result@, format@) matches Err(se) && err_matches(
                e,
                se,
                format@,
            ),
        },
{
    let ghost inputv = query_result@;
    let flen = format.as_str().unicode_len();
    let body: Vec<u8> = if query_result.len() == 0 {
        Vec::new()
    } else {
        copy_range(&query_result, 1, query_result.len() - 1)
    };
    proof {
        assert(body@ =~= spec_body(inputv));
    }
    let mut res: Vec<QueryValue> = Vec::new();
    let mut pos: usize = 0;
    let mut escaped = false;
    let mut ovr = false;
    let mut half: Option<char> = None;
    let mut i: usize = 0;
    proof {
        assert(format@.skip(0) =~= format@);
        match spec_decode_rec(format@, false, false, None, body@, 0) {
            Ok((vs, p)) => {
                assert(Seq::<SpecValue>::empty() + vs =~= vs);
            },
            Err(_) => {},
        }
    }
    while i < flen
        invariant
            i <= flen,
            pos <= body@.len(),
            flen == format@.len(),
            query_result@ == inputv,
            body@ == spec_body(inputv),
            !escaped ==> !ovr,
            spec_decode_rec(format@, false, false, None, body@, 0) == produce(
                res.deep_view(),
                spec_decode_rec(
                    format@.skip(i as int),
                    escaped,
                    ovr,
                    half,
                    body@,
                    pos as int,
                ),
            ),
        decreases flen - i,
    {
        let c = format.as_str().get_char(i);
        proof {
            assert(format@.skip(i as int)[0] == format@[i as int]);
            assert(format@.skip(i as int).drop_first() =~= format@.skip(i as int + 1));
        }
        if escaped {
            if !ovr && (c == '<' || c == '>') {
                ovr = true;
            } else if c == '?' {
                if pos < body.len() {
                    pos = pos + 1;
                }
                escaped = false;
                ovr = false;
            } else if is_decode_dir_char(c) {
                let ghost prev = res.deep_view();
                match decode_one(c, &body, pos) {
                    Ok((v, p2)) => {
                        let ghost vv = v@;
                        res.push(v);
                        pos = p2;
                        escaped = false;
                        ovr = false;
                        proof {
                            assert(res.deep_view() =~= prev.push(vv));
                            lemma_produce_step(
                                prev,
                                vv,
                                spec_decode_rec(
                                    format@.skip(i as int + 1),
                                    false,
                                    false,
                                    half,
                                    body@,
                                    pos as int,
                                ),
                            );
                        }
                    },
                    Err(e) => {
                        return Err(e);
                    },
                }
            } else {
                return Err(QueryError::UnrecognizedChar(c));
            }
        } else if c == '%' {
            match half {
                Some(h) => {
                    return Err(QueryError::MalformedLiteral(h));
                },
                None => {
                    escaped = true;
                    ovr = false;
                },
            }
        } else if c == ' ' {
            // spaces separate literal tokens and are skipped
        } else {
            match half {
                None => {
                    half = Some(c);
                },
                Some(h) => {
                    match hex_val(h) {
                        None => {
                            return Err(QueryError::MalformedLiteral(h));
                        },
                        Some(hv) => match hex_val(c) {
                            None => {
                                return Err(QueryError::MalformedLiteral(c));
                            },
                            Some(cv) => {
                                if pos >= body.len() {
                                    return Err(QueryError::InputUnderflow);
                                }
                                let expected = hv * 16 + cv;
                                let actual = body[pos];
                                if expected != actual {
                                    return Err(
                                        QueryError::InputMismatch {
                                            index: pos,
                                            expected,
                                            actual,
                                            format_string: format,
                                        },
                                    );
                                }
                                pos = pos + 1;
                                half = None;
                            },
                        },
                    }
                },
            }
        }
        i = i + 1;
    }
    proof {
        assert(format@.skip(flen as int) =~= Seq::<char>::empty());
        match spec_decode_rec(format@, false, false, None, body@, 0) {
            Ok((vs, p)) => {
                assert(res.deep_view() + Seq::<SpecValue>::empty() =~= res.deep_view());
            },
            Err(_) => {},
        }
    }
    if pos != body.len() {
        return Err(QueryError::TrailingInput { remaining: body.len() - pos });
    }
    Ok(res)
}

} // verus!
