use query_codec::format_query;
use query_codec::scan_query;
use query_codec::QueryError;
use query_codec::QueryValue;
use query_codec::ValueError;
use query_codec::ValueKind;

fn fq(format: &str, args: Vec<QueryValue>) -> Vec<u8> {
    format_query(format.to_string(), args).expect("encode should succeed")
}

fn sq(input: Vec<u8>, format: &str) -> Vec<QueryValue> {
    scan_query(input, format.to_string()).expect("decode should succeed")
}

#[test]
fn encode_word_minus_one_is_big_endian() {
    assert_eq!(fq("%w", vec![QueryValue::Number(-1)]), vec![0xFF, 0xFF]);
}

#[test]
fn encode_quad_one_is_big_endian() {
    assert_eq!(
        fq("%q", vec![QueryValue::Number(1)]),
        vec![0, 0, 0, 0, 0, 0, 0, 1]
    );
}

#[test]
fn encode_byte_truncates() {
    assert_eq!(fq("%b", vec![QueryValue::Number(0x1FF)]), vec![0xFF]);
}

#[test]
fn encode_dword() {
    assert_eq!(
        fq("%d", vec![QueryValue::Number(0x01020304)]),
        vec![1, 2, 3, 4]
    );
}

#[test]
fn encode_literals_and_spaces() {
    assert_eq!(fq("00 ff 1A", vec![]), vec![0x00, 0xFF, 0x1A]);
}

#[test]
fn encode_s_appends_nul_and_counts_it() {
    assert_eq!(
        fq("%s", vec![QueryValue::Array(vec![0x41, 0x42])]),
        vec![0x00, 0x03, 0x41, 0x42, 0x00]
    );
}

#[test]
fn encode_x_uses_plain_length() {
    assert_eq!(
        fq("%x", vec![QueryValue::Array(vec![0x41, 0x42])]),
        vec![0x00, 0x02, 0x41, 0x42]
    );
}

#[test]
fn encode_z_uses_one_byte_length() {
    assert_eq!(
        fq("%z", vec![QueryValue::Array(vec![0x41, 0x42])]),
        vec![0x02, 0x41, 0x42]
    );
}

#[test]
fn encode_star_is_raw() {
    assert_eq!(
        fq("%*", vec![QueryValue::Array(vec![9, 8, 7])]),
        vec![9, 8, 7]
    );
}

#[test]
fn encode_bcd_byte() {
    assert_eq!(fq("%B", vec![QueryValue::Number(42)]), vec![0x42]);
    assert_eq!(fq("%B", vec![QueryValue::Number(99)]), vec![0x99]);
}

#[test]
fn encode_bcd_word() {
    assert_eq!(fq("%W", vec![QueryValue::Number(1234)]), vec![0x12, 0x34]);
}

#[test]
fn decode_bcd_is_inverse() {
    assert_eq!(sq(vec![0xFF, 0x42], "%B"), vec![QueryValue::Number(42)]);
    assert_eq!(sq(vec![0xFF, 0x99], "%B"), vec![QueryValue::Number(99)]);
    assert_eq!(
        sq(vec![0xFF, 0x12, 0x34], "%W"),
        vec![QueryValue::Number(1234)]
    );
}

#[test]
fn decode_skips_framing_byte() {
    assert_eq!(sq(vec![0xFF, 0x01], "%b"), vec![QueryValue::Number(1)]);
}

#[test]
fn decode_byte_is_unsigned() {
    assert_eq!(sq(vec![0, 0xFF], "%b"), vec![QueryValue::Number(255)]);
}

#[test]
fn decode_word_is_signed() {
    assert_eq!(sq(vec![0, 0xFF, 0xFF], "%w"), vec![QueryValue::Number(-1)]);
    assert_eq!(sq(vec![0, 0x7F, 0xFF], "%w"), vec![QueryValue::Number(32767)]);
}

#[test]
fn decode_dword_and_quad_are_signed() {
    assert_eq!(
        sq(vec![0, 0xFF, 0xFF, 0xFF, 0xFE], "%d"),
        vec![QueryValue::Number(-2)]
    );
    assert_eq!(
        sq(vec![0, 0xFF, 0xFF, 0xFF, 0xFF, 0xFF, 0xFF, 0xFF, 0xFF], "%q"),
        vec![QueryValue::Number(-1)]
    );
}

#[test]
fn decode_x_reads_two_byte_length() {
    assert_eq!(
        sq(vec![0, 0x00, 0x02, 0x41, 0x42], "%x"),
        vec![QueryValue::Array(vec![0x41, 0x42])]
    );
}

#[test]
fn decode_s_keeps_the_counted_nul() {
    // the encoder counted the NUL into the length, so the decoder reads it
    // back as part of the array
    assert_eq!(
        sq(vec![0, 0x00, 0x03, 0x41, 0x42, 0x00], "%s"),
        vec![QueryValue::Array(vec![0x41, 0x42, 0x00])]
    );
}

#[test]
fn decode_z_reads_one_byte_length() {
    assert_eq!(
        sq(vec![0, 0x02, 0x41, 0x42], "%z"),
        vec![QueryValue::Array(vec![0x41, 0x42])]
    );
}

#[test]
fn decode_star_and_hash_take_the_rest() {
    assert_eq!(
        sq(vec![0, 1, 2, 3], "%*"),
        vec![QueryValue::Array(vec![1, 2, 3])]
    );
    assert_eq!(
        sq(vec![0, 1, 2, 3], "%#"),
        vec![QueryValue::Array(vec![1, 2, 3])]
    );
}

#[test]
fn decode_question_mark_skips_one_byte() {
    assert_eq!(
        sq(vec![0, 0xAA, 0x05], "%? %b"),
        vec![QueryValue::Number(5)]
    );
}

#[test]
fn decode_literal_match_consumes_and_yields_nothing() {
    assert_eq!(sq(vec![0, 0x00, 0xFF], "00 ff"), vec![]);
}

#[test]
fn decode_literal_mismatch_reports_exact_index() {
    let err = scan_query(vec![0, 0x00, 0xAA], "00 ff".to_string()).unwrap_err();
    assert_eq!(
        err,
        QueryError::InputMismatch {
            index: 1,
            expected: 0xFF,
            actual: 0xAA,
            format_string: "00 ff".to_string(),
        }
    );
}

#[test]
fn decode_literals_between_directives() {
    assert_eq!(
        sq(vec![0, 0x18, 0x06, 0x2A], "1806 %b"),
        vec![QueryValue::Number(42)]
    );
}

#[test]
fn round_trip_all_invertible_directives() {
    let format = "%b %w %d %q %x %z %B %W";
    let args = vec![
        QueryValue::Number(200),
        QueryValue::Number(-2),
        QueryValue::Number(-70000),
        QueryValue::Number(-1),
        QueryValue::Array(vec![1, 2, 3]),
        QueryValue::Array(vec![4, 5]),
        QueryValue::Number(37),
        QueryValue::Number(4711),
    ];
    let encoded = fq(format, args.clone());
    let mut framed = vec![0xFF];
    framed.extend(encoded);
    assert_eq!(sq(framed, format), args);
}

#[test]
fn round_trip_with_endianness_override_is_still_big_endian() {
    let format = "%<w %>d";
    let args = vec![QueryValue::Number(-259), QueryValue::Number(7)];
    let encoded = fq(format, args.clone());
    assert_eq!(encoded, vec![0xFE, 0xFD, 0, 0, 0, 7]);
    let mut framed = vec![0x00];
    framed.extend(encoded);
    assert_eq!(sq(framed, format), args);
}

#[test]
fn full_consumption_is_enforced() {
    let err = scan_query(vec![0, 1, 2], "%b".to_string()).unwrap_err();
    assert_eq!(err, QueryError::TrailingInput { remaining: 1 });
}

#[test]
fn unrecognized_escape_is_reported_on_encode() {
    let err = format_query("%k".to_string(), vec![]).unwrap_err();
    assert_eq!(err, QueryError::UnrecognizedChar('k'));
}

#[test]
fn unrecognized_escape_is_reported_on_decode() {
    let err = scan_query(vec![0], "%k".to_string()).unwrap_err();
    assert_eq!(err, QueryError::UnrecognizedChar('k'));
}

#[test]
fn hash_is_decode_only() {
    let err = format_query("%#".to_string(), vec![QueryValue::Array(vec![])]).unwrap_err();
    assert_eq!(err, QueryError::UnrecognizedChar('#'));
}

#[test]
fn double_override_is_unrecognized() {
    let err = format_query("%<<b".to_string(), vec![QueryValue::Number(0)]).unwrap_err();
    assert_eq!(err, QueryError::UnrecognizedChar('<'));
}

#[test]
fn malformed_literal_is_reported() {
    let err = format_query("g5".to_string(), vec![]).unwrap_err();
    assert_eq!(err, QueryError::MalformedLiteral('g'));
    let err = format_query("5g".to_string(), vec![]).unwrap_err();
    assert_eq!(err, QueryError::MalformedLiteral('g'));
}

#[test]
fn dangling_nibble_before_escape_fails_decode_only() {
    // the encoder lets a literal pair straddle an escape; the decoder
    // rejects the dangling nibble
    assert_eq!(
        fq("a%bc", vec![QueryValue::Number(1)]),
        vec![0x01, 0xAC]
    );
    let err = scan_query(vec![0, 0x01, 0xAC], "a%bc".to_string()).unwrap_err();
    assert_eq!(err, QueryError::MalformedLiteral('a'));
}

#[test]
fn trailing_nibble_is_ignored() {
    assert_eq!(fq("0", vec![]), vec![]);
}

#[test]
fn argument_underflow_is_reported() {
    let err = format_query("%b".to_string(), vec![]).unwrap_err();
    assert_eq!(err, QueryError::ArgumentUnderflow);
}

#[test]
fn argument_kind_mismatch_is_reported() {
    let err = format_query("%b".to_string(), vec![QueryValue::Array(vec![1])]).unwrap_err();
    assert_eq!(
        err,
        QueryError::ArgumentMismatch(ValueError::TypeMismatch {
            expected: ValueKind::Number,
            actual: QueryValue::Array(vec![1]),
        })
    );
    let err = format_query("%x".to_string(), vec![QueryValue::Number(3)]).unwrap_err();
    assert_eq!(
        err,
        QueryError::ArgumentMismatch(ValueError::TypeMismatch {
            expected: ValueKind::Array,
            actual: QueryValue::Number(3),
        })
    );
}

#[test]
fn input_underflow_is_reported() {
    let err = scan_query(vec![0, 1], "%w".to_string()).unwrap_err();
    assert_eq!(err, QueryError::InputUnderflow);
}

#[test]
fn format_table_widths() {
    assert_eq!(fq("%b", vec![QueryValue::Number(1)]).len(), 1);
    assert_eq!(fq("%w", vec![QueryValue::Number(1)]).len(), 2);
    assert_eq!(fq("%d", vec![QueryValue::Number(1)]).len(), 4);
    assert_eq!(fq("%q", vec![QueryValue::Number(1)]).len(), 8);
}

#[test]
fn encode_x_masks_oversized_length() {
    // a length beyond two bytes is emitted modulo 2^16
    let bytes = vec![7u8; 70000];
    let out = fq("%x", vec![QueryValue::Array(bytes.clone())]);
    assert_eq!(out[0], (70000u32 % 65536 / 256) as u8);
    assert_eq!(out[1], (70000u32 % 256) as u8);
    assert_eq!(out.len(), 2 + 70000);
}

#[test]
fn encode_z_masks_oversized_length() {
    let bytes = vec![7u8; 300];
    let out = fq("%z", vec![QueryValue::Array(bytes)]);
    assert_eq!(out[0], (300u32 % 256) as u8);
    assert_eq!(out.len(), 1 + 300);
}

#[test]
fn encode_bcd_of_negative_is_zero() {
    // a negative number has no digits to encode: the loop never runs
    assert_eq!(fq("%B", vec![QueryValue::Number(-5)]), vec![0x00]);
}

#[test]
fn malformed_literal_is_reported_on_decode() {
    let err = scan_query(vec![0], "g5".to_string()).unwrap_err();
    assert_eq!(err, QueryError::MalformedLiteral('g'));
}

#[test]
fn space_inside_escape_is_unrecognized() {
    // spaces are skipped only outside escapes
    let err = format_query("% b".to_string(), vec![QueryValue::Number(1)]).unwrap_err();
    assert_eq!(err, QueryError::UnrecognizedChar(' '));
}

#[test]
fn escape_inside_escape_is_unrecognized() {
    let err = format_query("%%".to_string(), vec![]).unwrap_err();
    assert_eq!(err, QueryError::UnrecognizedChar('%'));
}
