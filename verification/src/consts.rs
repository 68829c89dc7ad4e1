//! The symbols of a code, the lengths that bound it, and the fixed-point scale in which
//! this crate measures degrees.
//!
//! Degrees are held as whole numbers of *units*: one degree is [`UNITS_PER_DEGREE`] units.
//! The scale is chosen so that the edges and the centre of the cell of every code, down to
//! the finest one of fifteen digits, fall on whole units.

use vstd::prelude::*;

verus! {

/// Separates the first eight digits of a code from the rest.
pub const SEPARATOR: char = '+';

/// The number of characters that stand before the separator in a full code.
pub const SEPARATOR_POSITION: usize = 8;

/// Fills a code of fewer than eight digits up to the separator.
pub const PADDING_CHAR: char = '0';

/// The twenty symbols that stand for the digit values 0 to 19, in that order.
pub const CODE_ALPHABET: [char; 20] = [
    '2', '3', '4', '5', '6', '7', '8', '9', 'C', 'F', 'G', 'H', 'J', 'M', 'P', 'Q', 'R', 'V', 'W',
    'X',
];

/// The radix of the digits of the pair section.
pub const ENCODING_BASE: usize = 20;

/// The fewest digits a code can be asked to have.
pub const MIN_CODE_LENGTH: usize = 2;

/// The most digits of a code that carry meaning.
pub const MAX_CODE_LENGTH: usize = 15;

/// The number of digits of the pair section: five latitude digits interleaved with five
/// longitude digits.
pub const PAIR_CODE_LENGTH: usize = 10;

/// The number of digits of the grid section, which follows the pair section.
pub const GRID_CODE_LENGTH: usize = 5;

/// A grid digit splits a cell into this many columns of longitude.
pub const GRID_COLUMNS: usize = 4;

/// A grid digit splits a cell into this many rows of latitude.
pub const GRID_ROWS: usize = 5;

/// The fewest digits of a code that can be shortened.
pub const MIN_TRIMMABLE_CODE_LEN: usize = 6;

/// The number of steps of the finest latitude digit in one degree: 20^3 * 5^5.
pub const LAT_INTEGER_MULTIPLIER: i64 = 25_000_000;

/// The number of steps of the finest longitude digit in one degree: 20^3 * 4^5.
pub const LNG_INTEGER_MULTIPLIER: i64 = 8_192_000;

/// The number of units in one degree: 2^17 * 5^8.
pub const UNITS_PER_DEGREE: i64 = 51_200_000_000;

/// The number of units in one step of the finest latitude digit.
pub const LAT_STEP_UNITS: i64 = 2048;

/// The number of units in one step of the finest longitude digit.
pub const LNG_STEP_UNITS: i64 = 6250;

/// 90 degrees, in units: latitudes lie between `-LATITUDE_MAX` and `LATITUDE_MAX`.
pub const LATITUDE_MAX: i64 = 4_608_000_000_000;

/// 180 degrees, in units: longitudes lie from `-LONGITUDE_MAX` up to, not including,
/// `LONGITUDE_MAX`.
pub const LONGITUDE_MAX: i64 = 9_216_000_000_000;

/// The side of the cell of a code of 2, 4, 6, 8 and 10 digits, in units: 20, 1, 1/20, 1/400
/// and 1/8000 of a degree.
pub const PAIR_RESOLUTIONS: [i64; 5] = [
    1_024_000_000_000,
    51_200_000_000,
    2_560_000_000,
    128_000_000,
    6_400_000,
];

/// The position of `c` in the alphabet, or 20 where `c` is not one of its symbols.
pub open spec fn digit_value(c: char) -> int {
    if c == '2' {
        0
    } else if c == '3' {
        1
    } else if c == '4' {
        2
    } else if c == '5' {
        3
    } else if c == '6' {
        4
    } else if c == '7' {
        5
    } else if c == '8' {
        6
    } else if c == '9' {
        7
    } else if c == 'C' {
        8
    } else if c == 'F' {
        9
    } else if c == 'G' {
        10
    } else if c == 'H' {
        11
    } else if c == 'J' {
        12
    } else if c == 'M' {
        13
    } else if c == 'P' {
        14
    } else if c == 'Q' {
        15
    } else if c == 'R' {
        16
    } else if c == 'V' {
        17
    } else if c == 'W' {
        18
    } else if c == 'X' {
        19
    } else {
        20
    }
}

/// `c` is one of the twenty symbols of the alphabet, which holds no lower-case letter.
pub open spec fn is_alphabet_char(c: char) -> bool {
    digit_value(c) < 20
}

/// `c` with an ASCII lower-case letter replaced by its capital.
pub open spec fn upper(c: char) -> char {
    if 'a' <= c && c <= 'z' {
        ((c as u8) - 32) as char
    } else {
        c
    }
}

/// `c` stands for a digit, in either case.
pub open spec fn is_code_symbol(c: char) -> bool {
    is_alphabet_char(upper(c))
}

/// `digit_value` and `CODE_ALPHABET` are inverse to each other.
pub proof fn lemma_alphabet()
    ensures
        forall|i: int| 0 <= i < 20 ==> digit_value(#[trigger] CODE_ALPHABET[i]) == i,
        forall|c: char| is_alphabet_char(c) ==> CODE_ALPHABET[digit_value(c)] == c,
        forall|c: char| #[trigger] is_alphabet_char(c) ==> upper(c) == c && c != SEPARATOR && c != PADDING_CHAR,
{
}

/// The capital of an ASCII lower-case letter, any other character unchanged.
pub fn to_upper(c: char) -> (r: char)
    ensures
        r == upper(c),
{
    if 'a' <= c && c <= 'z' {
        ((c as u8) - 32) as char
    } else {
        c
    }
}

/// The symbol that stands for the digit value `v`.
pub fn digit_char(v: usize) -> (c: char)
    requires
        v < 20,
    ensures
        c == CODE_ALPHABET[v as int],
        digit_value(c) == v,
        is_alphabet_char(c),
{
    proof {
        lemma_alphabet();
    }
    CODE_ALPHABET[v]
}

/// The digit value of a symbol of the alphabet.
pub fn code_value(chr: char) -> (v: usize)
    requires
        is_alphabet_char(chr),
    ensures
        v == digit_value(chr),
        v < 20,
        CODE_ALPHABET[v as int] == chr,
{
    proof {
        lemma_alphabet();
    }
    let mut i: usize = 0;
    while i < 19
        invariant
            i <= 19,
            is_alphabet_char(chr),
            forall|j: int| 0 <= j < i ==> CODE_ALPHABET[j] != chr,
            forall|c: char| is_alphabet_char(c) ==> CODE_ALPHABET[digit_value(c)] == c,
        decreases 19 - i,
    {
        if CODE_ALPHABET[i] == chr {
            return i;
        }
        i += 1;
    }
    i
}

} // verus!
