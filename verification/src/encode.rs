//! From a position to its code.

use crate::arith::{floor_div, floor_mod};
use crate::codearea::Point;
use crate::consts::{
    digit_char, CODE_ALPHABET, LATITUDE_MAX, LAT_INTEGER_MULTIPLIER, LAT_STEP_UNITS,
    LNG_INTEGER_MULTIPLIER, LNG_STEP_UNITS, LONGITUDE_MAX, MAX_CODE_LENGTH, MIN_CODE_LENGTH,
    PADDING_CHAR, PAIR_CODE_LENGTH, SEPARATOR, SEPARATOR_POSITION, UNITS_PER_DEGREE,
};
use crate::coords::{
    clip_latitude, clipped_latitude, compute_latitude_precision, lat_cell_steps, latitude_precision,
    lng_cell_steps, near_north_pole, normalize_longitude, normalized_longitude,
};
use crate::grid::code_digit;
use crate::laws::lemma_encoded_is_full;
use crate::validity::full_code;
use vstd::prelude::*;

verus! {

/// `String::push` of the standard library: the string afterwards is the string before with
/// `c` added at its end.
pub assume_specification[ String::push ](s: &mut String, c: char)
    ensures
        final(s)@ == old(s)@.push(c),
;

/// The number of digits that is asked for, brought into the range from 2 to 15.
pub open spec fn clamped_length(code_length: int) -> int {
    if code_length < MIN_CODE_LENGTH {
        MIN_CODE_LENGTH as int
    } else if code_length > MAX_CODE_LENGTH {
        MAX_CODE_LENGTH as int
    } else {
        code_length
    }
}

/// The symbols of the first `n` digits of the code of the position that lies `lat` latitude
/// steps and `lng` longitude steps from the origin.
pub open spec fn digit_symbols(lat: int, lng: int, n: int) -> Seq<char> {
    Seq::new(n as nat, |i: int| CODE_ALPHABET[code_digit(lat, lng, i)])
}

/// The digits of a code set out as a code: fewer than eight digits are filled up to eight
/// with padding and closed by the separator; otherwise the separator stands after the
/// eighth digit.
pub open spec fn with_separator(digits: Seq<char>) -> Seq<char> {
    if digits.len() < SEPARATOR_POSITION {
        digits + Seq::new((SEPARATOR_POSITION - digits.len()) as nat, |i: int| PADDING_CHAR)
            + seq![SEPARATOR]
    } else {
        digits.take(SEPARATOR_POSITION as int) + seq![SEPARATOR] + digits.skip(
            SEPARATOR_POSITION as int,
        )
    }
}

/// The code of `code_length` digits, brought into range, of the position that lies `lat`
/// latitude steps and `lng` longitude steps from the origin.
pub open spec fn encoded_steps(lat: int, lng: int, code_length: int) -> Seq<char> {
    with_separator(digit_symbols(lat, lng, clamped_length(code_length)))
}

/// The latitude from which the digits of a code of `n` digits are taken: `lat` brought into
/// range and, where it then lies on the north pole or less than 1e-10 of a degree below it,
/// lowered by the height of a cell of the code, so that the position falls into a cell.
pub open spec fn encodable_latitude(lat: int, n: int) -> int {
    let c = clipped_latitude(lat);
    if near_north_pole(c) {
        c - latitude_precision(n)
    } else {
        c
    }
}

/// The latitude steps from the south pole to the latitude `lat`, for a code of `n` digits.
pub open spec fn lat_steps_of(lat: int, n: int) -> int {
    (encodable_latitude(lat, n) + LATITUDE_MAX) / (LAT_STEP_UNITS as int)
}

/// The longitude steps from the antimeridian to the longitude `lng`.
pub open spec fn lng_steps_of(lng: int) -> int {
    (normalized_longitude(lng) + LONGITUDE_MAX) / (LNG_STEP_UNITS as int)
}

/// The code of `code_length` digits, brought into range, of the position at latitude `lat`
/// and longitude `lng`, both in units.
pub open spec fn encoded_at(lat: int, lng: int, code_length: int) -> Seq<char> {
    encoded_steps(lat_steps_of(lat, clamped_length(code_length)), lng_steps_of(lng), code_length)
}

/// The number of digits that is asked for, brought into the range from 2 to 15.
pub fn clamp_length(code_length: usize) -> (n: usize)
    ensures
        n == clamped_length(code_length as int),
        MIN_CODE_LENGTH <= n <= MAX_CODE_LENGTH,
{
    if code_length < MIN_CODE_LENGTH {
        MIN_CODE_LENGTH
    } else if code_length > MAX_CODE_LENGTH {
        MAX_CODE_LENGTH
    } else {
        code_length
    }
}

/// The value of the digit at position `i` of the code of the position that lies `lat`
/// latitude steps and `lng` longitude steps from the origin.
pub fn digit_at(lat: i64, lng: i64, i: usize) -> (d: usize)
    requires
        i < MAX_CODE_LENGTH,
    ensures
        d == code_digit(lat as int, lng as int, i as int),
        d < 20,
{
    let lat_side = lat_cell_steps(i + 1);
    let lng_side = lng_cell_steps(i + 1);
    if i >= PAIR_CODE_LENGTH {
        let row = floor_mod(floor_div(lat, lat_side), 5);
        let col = floor_mod(floor_div(lng, lng_side), 4);
        (row * 4 + col) as usize
    } else if i % 2 == 0 {
        floor_mod(floor_div(lat, lat_side), 20) as usize
    } else {
        floor_mod(floor_div(lng, lng_side), 20) as usize
    }
}

/// The digits set out as a code, with padding and separator.
pub fn add_separator(digits: &Vec<char>) -> (code: Vec<char>)
    requires
        digits.len() < usize::MAX - SEPARATOR_POSITION,
    ensures
        code@ == with_separator(digits@),
{
    let n = digits.len();
    let mut code: Vec<char> = Vec::new();
    let mut i: usize = 0;
    while i < n && i < SEPARATOR_POSITION
        invariant
            i <= n,
            i <= SEPARATOR_POSITION,
            n == digits.len(),
            code@ == digits@.take(i as int),
        decreases n - i,
    {
        code.push(digits[i]);
        i += 1;
        assert(code@ =~= digits@.take(i as int));
    }
    if n < SEPARATOR_POSITION {
        assert(digits@.take(n as int) =~= digits@);
        while i < SEPARATOR_POSITION
            invariant
                n <= i <= SEPARATOR_POSITION,
                n == digits.len(),
                code@ == digits@ + Seq::new((i - n) as nat, |k: int| PADDING_CHAR),
            decreases SEPARATOR_POSITION - i,
        {
            code.push(PADDING_CHAR);
            i += 1;
            assert(code@ =~= digits@ + Seq::new((i - n) as nat, |k: int| PADDING_CHAR));
        }
        code.push(SEPARATOR);
        assert(code@ =~= with_separator(digits@));
    } else {
        code.push(SEPARATOR);
        while i < n
            invariant
                SEPARATOR_POSITION <= i <= n,
                n == digits.len(),
                code@ == digits@.take(SEPARATOR_POSITION as int) + seq![SEPARATOR]
                    + digits@.subrange(SEPARATOR_POSITION as int, i as int),
            decreases n - i,
        {
            code.push(digits[i]);
            i += 1;
            assert(code@ =~= digits@.take(SEPARATOR_POSITION as int) + seq![SEPARATOR]
                + digits@.subrange(SEPARATOR_POSITION as int, i as int));
        }
        assert(digits@.subrange(SEPARATOR_POSITION as int, n as int) =~= digits@.skip(
            SEPARATOR_POSITION as int,
        ));
    }
    code
}

/// The characters `v` as a string.
pub fn chars_to_string(v: &Vec<char>) -> (s: String)
    ensures
        s@ == v@,
{
    let mut s = String::new();
    let mut i: usize = 0;
    while i < v.len()
        invariant
            i <= v.len(),
            s@ == v@.take(i as int),
        decreases v.len() - i,
    {
        s.push(v[i]);
        i += 1;
        assert(s@ =~= v@.take(i as int));
    }
    assert(v@.take(v.len() as int) =~= v@);
    s
}

/// The characters of the code of `code_length` digits, brought into range, of the position
/// that lies `lat_val` latitude steps and `lng_val` longitude steps from the origin.
pub fn encode_steps(lat_val: i64, lng_val: i64, code_length: usize) -> (code: Vec<char>)
    ensures
        code@ == encoded_steps(lat_val as int, lng_val as int, code_length as int),
{
    let n = clamp_length(code_length);
    let mut digits: Vec<char> = Vec::new();
    let mut i: usize = 0;
    while i < n
        invariant
            i <= n <= MAX_CODE_LENGTH,
            digits@ == digit_symbols(lat_val as int, lng_val as int, i as int),
        decreases n - i,
    {
        let d = digit_at(lat_val, lng_val, i);
        digits.push(digit_char(d));
        i += 1;
        assert(digits@ =~= digit_symbols(lat_val as int, lng_val as int, i as int));
    }
    add_separator(&digits)
}

/// Encodes a position given in steps: `lat_val` steps of latitude north of the south pole
/// and `lng_val` steps of longitude east of the antimeridian, where one degree holds
/// `LAT_INTEGER_MULTIPLIER` steps of latitude and `LNG_INTEGER_MULTIPLIER` steps of
/// longitude. The code has `code_length` digits, at least 2 and at most 15. It is a full
/// code unless that number is odd and below ten.
pub fn encode_integers(lat_val: i64, lng_val: i64, code_length: usize) -> (code: String)
    ensures
        code@ == encoded_steps(lat_val as int, lng_val as int, code_length as int),
        clamped_length(code_length as int) >= PAIR_CODE_LENGTH || clamped_length(
            code_length as int,
        ) % 2 == 0 ==> full_code(code@),
{
    let chars = encode_steps(lat_val, lng_val, code_length);
    proof {
        if clamped_length(code_length as int) >= PAIR_CODE_LENGTH || clamped_length(
            code_length as int,
        ) % 2 == 0 {
            lemma_encoded_is_full(lat_val as int, lng_val as int, code_length as int);
        }
    }
    chars_to_string(&chars)
}

/// The steps of latitude and of longitude from which the digits of the code of `pt` with
/// `code_length` digits are taken: the latitude is brought into range and kept below the
/// north pole, the longitude is brought into range by whole turns.
pub fn point_to_integers(pt: Point, code_length: usize) -> (steps: (i64, i64))
    ensures
        steps.0 == lat_steps_of(pt.lat as int, clamped_length(code_length as int)),
        steps.1 == lng_steps_of(pt.lng as int),
        0 <= steps.0 < 180 * LAT_INTEGER_MULTIPLIER,
        0 <= steps.1 < 360 * LNG_INTEGER_MULTIPLIER,
{
    let n = clamp_length(code_length);
    let mut lat = clip_latitude(pt.lat);
    let lng = normalize_longitude(pt.lng);
    assert(UNITS_PER_DEGREE == 51_200_000_000 && LATITUDE_MAX == 4_608_000_000_000);
    if ((LATITUDE_MAX - lat) as i128) * 10_000_000_000 < UNITS_PER_DEGREE as i128 {
        lat -= compute_latitude_precision(n);
    }
    assert(LAT_STEP_UNITS == 2048 && LNG_STEP_UNITS == 6250 && LONGITUDE_MAX
        == 9_216_000_000_000);
    ((lat + LATITUDE_MAX) / LAT_STEP_UNITS, (lng + LONGITUDE_MAX) / LNG_STEP_UNITS)
}

/// Encodes the position `pt` into a code of `code_length` digits, at least 2 and at most
/// 15: a smaller number counts as 2, a greater one as 15. The code is a full code unless
/// that number is odd and below ten.
pub fn encode(pt: Point, code_length: usize) -> (code: String)
    ensures
        code@ == encoded_at(pt.lat as int, pt.lng as int, code_length as int),
        clamped_length(code_length as int) >= PAIR_CODE_LENGTH || clamped_length(
            code_length as int,
        ) % 2 == 0 ==> full_code(code@),
{
    let chars = encode_chars(pt, code_length);
    proof {
        if clamped_length(code_length as int) >= PAIR_CODE_LENGTH || clamped_length(
            code_length as int,
        ) % 2 == 0 {
            lemma_encoded_is_full(pt.lat as int, pt.lng as int, code_length as int);
        }
    }
    chars_to_string(&chars)
}

/// The characters of the code of `code_length` digits, brought into range, of the position
/// `pt`.
pub fn encode_chars(pt: Point, code_length: usize) -> (code: Vec<char>)
    ensures
        code@ == encoded_at(pt.lat as int, pt.lng as int, code_length as int),
{
    let (lat_val, lng_val) = point_to_integers(pt, code_length);
    encode_steps(lat_val, lng_val, code_length)
}

} // verus!
