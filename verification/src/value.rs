//! The value model: the tagged union carried into the encoder and out of the
//! decoder, with strict accessors that fail on a kind mismatch.

use vstd::prelude::*;

verus! {

/// Specification-level model of a [`QueryValue`]: a 64-bit number or a byte
/// sequence.
pub enum SpecValue {
    Number(i64),
    Array(Seq<u8>),
}

/// The two kinds of [`QueryValue`], used to say which kind was expected.
#[derive(Clone, Copy, Debug, PartialEq, Eq, Structural)]
pub enum ValueKind {
    Number,
    Array,
}

/// A typed argument consumed by the encoder, or a typed result produced by
/// the decoder: an integral scalar sign-extended to 64 bits, or a raw byte
/// blob whose meaning is left to the caller.
#[derive(Clone, Debug, PartialEq, Eq)]
pub enum QueryValue {
    Number(i64),
    Array(Vec<u8>),
}

/// Raised by the strict accessors when a value of the other kind was given:
/// no accessor converts between kinds, and none panics.
#[derive(Clone, Debug, PartialEq, Eq)]
pub enum ValueError {
    TypeMismatch { expected: ValueKind, actual: QueryValue },
}

impl View for QueryValue {
    type V = SpecValue;

    open spec fn view(&self) -> SpecValue {
        match *self {
            QueryValue::Number(n) => SpecValue::Number(n),
            QueryValue::Array(a) => SpecValue::Array(a@),
        }
    }
}

impl DeepView for QueryValue {
    type V = SpecValue;

    open spec fn deep_view(&self) -> SpecValue {
        self.view()
    }
}

/// Holds when `e` reports that `actual` was given where a value of kind
/// `expected` was required.
pub open spec fn is_type_mismatch(e: ValueError, expected: ValueKind, actual: SpecValue) -> bool {
    match e {
        ValueError::TypeMismatch { expected: k, actual: v } => k == expected && v@ == actual,
    }
}

/// Copies a byte vector element by element.
pub(crate) fn clone_bytes(a: &Vec<u8>) -> (r: Vec<u8>)
    ensures
        r@ == a@,
{
    let mut r: Vec<u8> = Vec::new();
    let mut i: usize = 0;
    while i < a.len()
        invariant
            i <= a.len(),
            r@ == a@.subrange(0, i as int),
        decreases a.len() - i,
    {
        r.push(a[i]);
        i = i + 1;
        proof {
            assert(r@ =~= a@.subrange(0, i as int));
        }
    }
    proof {
        assert(r@ =~= a@);
    }
    r
}

/// Appends a copy of `src` to `out`.
pub(crate) fn push_bytes(out: &mut Vec<u8>, src: &Vec<u8>)
    ensures
        final(out)@ == old(out)@ + src@,
{
    let mut i: usize = 0;
    while i < src.len()
        invariant
            i <= src.len(),
            out@ == old(out)@ + src@.subrange(0, i as int),
        decreases src.len() - i,
    {
        out.push(src[i]);
        i = i + 1;
        proof {
            assert(out@ =~= old(out)@ + src@.subrange(0, i as int));
        }
    }
    proof {
        assert(out@ =~= old(out)@ + src@);
    }
}

/// Copies a value; the copy has the same view as the original.
pub(crate) fn clone_value(v: &QueryValue) -> (r: QueryValue)
    ensures
        r@ == v@,
{
    match v {
        QueryValue::Number(n) => QueryValue::Number(*n),
        QueryValue::Array(a) => QueryValue::Array(clone_bytes(a)),
    }
}

impl QueryValue {
    /// Wraps a fixed-size byte array as an `Array` value.
    pub fn _from_array<const S: usize>(value: [u8; S]) -> (r: Self)
        ensures
            r@ == SpecValue::Array(value@),
    {
        let mut bytes: Vec<u8> = Vec::new();
        let mut i: usize = 0;
        while i < S
            invariant
                i <= S,
                bytes@ == value@.subrange(0, i as int),
            decreases S - i,
        {
            bytes.push(value[i]);
            i = i + 1;
            proof {
                assert(bytes@ =~= value@.subrange(0, i as int));
            }
        }
        proof {
            assert(bytes@ =~= value@);
        }
        QueryValue::Array(bytes)
    }

    /// Copies an `Array`'s bytes into a fixed-size array, truncating past `S`
    /// and padding with zeroes; an exact `TypeMismatch` on a `Number`.
    pub fn _to_array<const S: usize>(&self) -> (r: Result<[u8; S], ValueError>)
        ensures
            match r {
                Ok(out) => {
                    &&& self@ is Array
                    &&& out@.len() == S
                    &&& forall|i: int|
                        0 <= i < S ==> out@[i] == (if i < self@->Array_0.len() {
                            self@->Array_0[i]
                        } else {
                            0u8
                        })
                },
                Err(e) => self@ is Number && is_type_mismatch(e, ValueKind::Array, self@),
            },
    {
        match self {
            QueryValue::Array(a) => {
                let mut out: [u8; S] = [0u8; S];
                let mut i: usize = 0;
                while i < S && i < a.len()
                    invariant
                        i <= S,
                        out@.len() == S,
                        forall|j: int|
                            0 <= j < S ==> out@[j] == (if j < i && j < a@.len() {
                                a@[j]
                            } else {
                                0u8
                            }),
                    decreases S - i,
                {
                    out[i] = a[i];
                    i = i + 1;
                }
                Ok(out)
            },
            QueryValue::Number(_) => Err(ValueError::TypeMismatch {
                expected: ValueKind::Array,
                actual: clone_value(self),
            }),
        }
    }

    /// Copies the bytes out of an `Array`; an exact `TypeMismatch` on a
    /// `Number`.
    pub fn to_vec(&self) -> (r: Result<Vec<u8>, ValueError>)
        ensures
            match r {
                Ok(v) => self@ is Array && v@ == self@->Array_0,
                Err(e) => self@ is Number && is_type_mismatch(e, ValueKind::Array, self@),
            },
    {
        match self {
            QueryValue::Array(a) => Ok(clone_bytes(a)),
            QueryValue::Number(_) => Err(ValueError::TypeMismatch {
                expected: ValueKind::Array,
                actual: clone_value(self),
            }),
        }
    }

    /// Reads the number out of a `Number`; an exact `TypeMismatch` on an
    /// `Array`.
    pub fn to_i64(&self) -> (r: Result<i64, ValueError>)
        ensures
            match r {
                Ok(n) => self@ == SpecValue::Number(n),
                Err(e) => self@ is Array && is_type_mismatch(e, ValueKind::Number, self@),
            },
    {
        match self {
            QueryValue::Number(n) => Ok(*n),
            QueryValue::Array(_) => Err(ValueError::TypeMismatch {
                expected: ValueKind::Number,
                actual: clone_value(self),
            }),
        }
    }
}

} // verus!
