use query_codec::QueryValue;
use query_codec::ValueError;
use query_codec::ValueKind;

#[test]
fn to_vec_on_array_copies_the_bytes() {
    let v = QueryValue::Array(vec![1, 2, 3]);
    assert_eq!(v.to_vec().unwrap(), vec![1, 2, 3]);
}

#[test]
fn to_vec_on_number_is_a_type_mismatch() {
    let v = QueryValue::Number(5);
    assert_eq!(
        v.to_vec().unwrap_err(),
        ValueError::TypeMismatch {
            expected: ValueKind::Array,
            actual: QueryValue::Number(5),
        }
    );
}

#[test]
fn to_i64_on_number_reads_the_value() {
    assert_eq!(QueryValue::Number(-7).to_i64().unwrap(), -7);
}

#[test]
fn to_i64_on_array_is_a_type_mismatch() {
    let v = QueryValue::Array(vec![9]);
    assert_eq!(
        v.to_i64().unwrap_err(),
        ValueError::TypeMismatch {
            expected: ValueKind::Number,
            actual: QueryValue::Array(vec![9]),
        }
    );
}

#[test]
fn from_array_wraps_the_bytes() {
    let v = QueryValue::_from_array([1u8, 2, 3]);
    assert_eq!(v, QueryValue::Array(vec![1, 2, 3]));
}

#[test]
fn to_array_truncates_and_pads() {
    let v = QueryValue::Array(vec![1, 2, 3]);
    let shorter: [u8; 2] = v._to_array().unwrap();
    assert_eq!(shorter, [1, 2]);
    let longer: [u8; 5] = v._to_array().unwrap();
    assert_eq!(longer, [1, 2, 3, 0, 0]);
}

#[test]
fn to_array_on_number_is_a_type_mismatch() {
    let v = QueryValue::Number(1);
    let r: Result<[u8; 4], ValueError> = v._to_array();
    assert_eq!(
        r.unwrap_err(),
        ValueError::TypeMismatch {
            expected: ValueKind::Array,
            actual: QueryValue::Number(1),
        }
    );
}
