//! Bringing a latitude or longitude into range, and the size of a cell in units.

use crate::consts::{
    LATITUDE_MAX, LAT_STEP_UNITS, LNG_STEP_UNITS, LONGITUDE_MAX, MAX_CODE_LENGTH, UNITS_PER_DEGREE,
};
use crate::grid::{lat_cell, lng_cell};
use vstd::arithmetic::div_mod::{
    lemma_mod_add_multiples_vanish, lemma_mod_bound, lemma_mod_sub_multiples_vanish,
    lemma_small_mod,
};
use vstd::prelude::*;

verus! {

/// `lat`, or the pole that it lies beyond.
pub open spec fn clipped_latitude(lat: int) -> int {
    if lat < -LATITUDE_MAX {
        -LATITUDE_MAX
    } else if lat > LATITUDE_MAX {
        LATITUDE_MAX as int
    } else {
        lat
    }
}

/// The longitude from -180 degrees up to, not including, 180 degrees that differs from
/// `lng` by whole turns.
pub open spec fn normalized_longitude(lng: int) -> int {
    (lng + LONGITUDE_MAX) % (2 * LONGITUDE_MAX) - LONGITUDE_MAX
}

/// The height in units of the cell of a code of `n` digits.
pub open spec fn latitude_precision(n: int) -> int {
    LAT_STEP_UNITS * lat_cell(n)
}

/// The width in units of the cell of a code of `n` digits.
pub open spec fn longitude_precision(n: int) -> int {
    LNG_STEP_UNITS * lng_cell(n)
}

/// `lat` lies less than 1e-10 of a degree below the north pole, or on it, or beyond it.
pub open spec fn near_north_pole(lat: int) -> bool {
    (LATITUDE_MAX - lat) * 10_000_000_000 < UNITS_PER_DEGREE
}

/// The latitude, brought into range.
pub fn clip_latitude(latitude: i64) -> (r: i64)
    ensures
        r == clipped_latitude(latitude as int),
        -LATITUDE_MAX <= r <= LATITUDE_MAX,
{
    if latitude < -LATITUDE_MAX {
        -LATITUDE_MAX
    } else if latitude > LATITUDE_MAX {
        LATITUDE_MAX
    } else {
        latitude
    }
}

/// A whole turn more or less leaves the normalized longitude as it is, and a longitude in
/// range is its own normalized longitude.
pub proof fn lemma_whole_turns(lng: int)
    ensures
        normalized_longitude(lng + 2 * LONGITUDE_MAX) == normalized_longitude(lng),
        normalized_longitude(lng - 2 * LONGITUDE_MAX) == normalized_longitude(lng),
        -LONGITUDE_MAX <= normalized_longitude(lng) < LONGITUDE_MAX,
        -LONGITUDE_MAX <= lng < LONGITUDE_MAX ==> normalized_longitude(lng) == lng,
{
    let m = 2 * LONGITUDE_MAX;
    assert(m == 18_432_000_000_000);
    lemma_mod_add_multiples_vanish(lng + LONGITUDE_MAX, m);
    lemma_mod_sub_multiples_vanish(lng + LONGITUDE_MAX, m);
    assert(lng + m + LONGITUDE_MAX == m + (lng + LONGITUDE_MAX));
    assert(lng - m + LONGITUDE_MAX == -m + (lng + LONGITUDE_MAX));
    lemma_mod_bound(lng + LONGITUDE_MAX, m);
    if -LONGITUDE_MAX <= lng < LONGITUDE_MAX {
        lemma_small_mod((lng + LONGITUDE_MAX) as nat, m as nat);
    }
}

/// The longitude, brought into range by whole turns.
pub fn normalize_longitude(value: i64) -> (r: i64)
    ensures
        r == normalized_longitude(value as int),
        -LONGITUDE_MAX <= r < LONGITUDE_MAX,
{
    let mut result: i64 = value;
    while result >= LONGITUDE_MAX
        invariant
            -LONGITUDE_MAX <= result || result == value,
            normalized_longitude(result as int) == normalized_longitude(value as int),
        decreases result - i64::MIN,
    {
        proof {
            lemma_whole_turns(result as int);
        }
        result -= LONGITUDE_MAX * 2;
    }
    while result < -LONGITUDE_MAX
        invariant
            result < LONGITUDE_MAX,
            normalized_longitude(result as int) == normalized_longitude(value as int),
        decreases i64::MAX - result,
    {
        proof {
            lemma_whole_turns(result as int);
        }
        result += LONGITUDE_MAX * 2;
    }
    proof {
        lemma_whole_turns(result as int);
    }
    result
}

/// The height in units of the cell of a code of `code_length` digits. A code with an odd
/// number of digits below ten has the height of the code one digit longer.
pub fn compute_latitude_precision(code_length: usize) -> (r: i64)
    requires
        code_length <= MAX_CODE_LENGTH,
    ensures
        r == latitude_precision(code_length as int),
        LAT_STEP_UNITS <= r <= 400 * UNITS_PER_DEGREE,
{
    LAT_STEP_UNITS * lat_cell_steps(code_length)
}

/// The width in units of the cell of a code of `code_length` digits. A code with an odd
/// number of digits below ten has the width of the code one digit shorter.
pub fn compute_longitude_precision(code_length: usize) -> (r: i64)
    requires
        code_length <= MAX_CODE_LENGTH,
    ensures
        r == longitude_precision(code_length as int),
        LNG_STEP_UNITS <= r <= 400 * UNITS_PER_DEGREE,
{
    LNG_STEP_UNITS * lng_cell_steps(code_length)
}

/// The height in latitude steps of the cell of a code of `n` digits.
pub fn lat_cell_steps(n: usize) -> (r: i64)
    ensures
        r == lat_cell(n as int),
        1 <= r <= 10_000_000_000,
{
    if n == 0 {
        10_000_000_000
    } else if n <= 2 {
        500_000_000
    } else if n <= 4 {
        25_000_000
    } else if n <= 6 {
        1_250_000
    } else if n <= 8 {
        62_500
    } else if n <= 10 {
        3125
    } else if n == 11 {
        625
    } else if n == 12 {
        125
    } else if n == 13 {
        25
    } else if n == 14 {
        5
    } else {
        1
    }
}

/// The width in longitude steps of the cell of a code of `n` digits.
pub fn lng_cell_steps(n: usize) -> (r: i64)
    ensures
        r == lng_cell(n as int),
        1 <= r <= 3_276_800_000,
{
    if n <= 1 {
        3_276_800_000
    } else if n <= 3 {
        163_840_000
    } else if n <= 5 {
        8_192_000
    } else if n <= 7 {
        409_600
    } else if n <= 9 {
        20_480
    } else if n == 10 {
        1024
    } else if n == 11 {
        256
    } else if n == 12 {
        64
    } else if n == 13 {
        16
    } else if n == 14 {
        4
    } else {
        1
    }
}

} // verus!
