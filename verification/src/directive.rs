//! The format mini-language's character classes: the format-length table
//! for the integer directives, and hex-digit literals.

use vstd::prelude::*;

verus! {

/// The format-length table: byte width of the integer directives.
pub open spec fn spec_width(c: char) -> Option<int> {
    if c == 'b' {
        Some(1)
    } else if c == 'w' {
        Some(2)
    } else if c == 'd' {
        Some(4)
    } else if c == 'q' {
        Some(8)
    } else {
        None
    }
}

/// Every directive the encoder recognizes.
pub open spec fn is_encode_dir(c: char) -> bool {
    ||| spec_width(c) is Some
    ||| c == 'x'
    ||| c == 's'
    ||| c == 'z'
    ||| c == '*'
    ||| c == 'B'
    ||| c == 'W'
}

/// Every directive the decoder recognizes, beyond the skip directive `?`.
pub open spec fn is_decode_dir(c: char) -> bool {
    is_encode_dir(c) || c == '#'
}

/// Looks a directive up in the format-length table.
pub fn width_of(c: char) -> (r: Option<usize>)
    ensures
        match r {
            Some(n) => spec_width(c) == Some(n as int),
            None => spec_width(c) is None,
        },
{
    if c == 'b' {
        Some(1)
    } else if c == 'w' {
        Some(2)
    } else if c == 'd' {
        Some(4)
    } else if c == 'q' {
        Some(8)
    } else {
        None
    }
}

/// An ASCII hex digit, of either case.
pub open spec fn is_hex_digit(c: char) -> bool {
    ||| 48 <= c as u32 <= 57
    ||| 97 <= c as u32 <= 102
    ||| 65 <= c as u32 <= 70
}

/// The value of a hex digit; 0 on any other character.
pub open spec fn hex_digit_val(c: char) -> int {
    let u = c as u32;
    if 48 <= u <= 57 {
        u - 48
    } else if 97 <= u <= 102 {
        u - 87
    } else if 65 <= u <= 70 {
        u - 55
    } else {
        0
    }
}

/// The byte a literal hex pair denotes.
pub open spec fn hex_pair_val(hi: char, lo: char) -> u8 {
    (hex_digit_val(hi) * 16 + hex_digit_val(lo)) as u8
}

/// Reads a hex digit; `None` on any other character.
pub fn hex_val(c: char) -> (r: Option<u8>)
    ensures
        match r {
            Some(v) => is_hex_digit(c) && v as int == hex_digit_val(c),
            None => !is_hex_digit(c),
        },
{
    let u = c as u32;
    if 48 <= u && u <= 57 {
        Some((u - 48) as u8)
    } else if 97 <= u && u <= 102 {
        Some((u - 87) as u8)
    } else if 65 <= u && u <= 70 {
        Some((u - 55) as u8)
    } else {
        None
    }
}

} // verus!
