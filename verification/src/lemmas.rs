//! What the laws of this crate rest on.

use crate::arith::{
    floor_to, lemma_floor_in_steps, lemma_floor_shift, lemma_multiple_difference,
    lemma_multiples_apart,
};
use crate::codearea::Point;
use crate::consts::{
    digit_value, is_alphabet_char, is_code_symbol, lemma_alphabet, upper, LATITUDE_MAX,
    LAT_STEP_UNITS, LNG_STEP_UNITS, LONGITUDE_MAX, MAX_CODE_LENGTH, MIN_CODE_LENGTH, PADDING_CHAR,
    PAIR_CODE_LENGTH, SEPARATOR, SEPARATOR_POSITION, UNITS_PER_DEGREE,
};
use crate::coords::{
    clipped_latitude, latitude_precision, lemma_whole_turns, longitude_precision, near_north_pole,
    normalized_longitude,
};
use crate::decode::{
    center_lat, center_lng, code_digits, corner_lat, corner_lng, is_significant,
    lemma_significant_is_symbol, lemma_significant_step, significant,
};
use crate::encode::{
    clamped_length, digit_symbols, encodable_latitude, encoded_at, encoded_steps, lat_steps_of,
    lng_steps_of, with_separator,
};
use crate::grid::{
    all_digits, code_digit, lat_cell, lat_steps, lemma_cells, lemma_digits_of_cell,
    lemma_nested_cells, lemma_steps_bounds, lemma_steps_digits, lemma_steps_of_code_digits,
    lemma_steps_of_suffix, lng_cell, lng_steps,
};
use crate::shorten::{
    distance, has_padding, lemma_code_digit_range, lemma_completed_is_full, upper_case,
};
use crate::validity::{
    full_code, index_of_first, lemma_index_of_first, lemma_index_of_first_is, short_code,
};
use vstd::arithmetic::div_mod::lemma_small_mod;
use vstd::prelude::*;

verus! {

/// Digits set out as a code make a full code, where there are at least two of them, an
/// even number if fewer than eight, and not nine. The code holds padding where the digits
/// are fewer than eight, and only there.
pub proof fn lemma_with_separator_is_full(digits: Seq<char>)
    requires
        forall|i: int| 0 <= i < digits.len() ==> is_alphabet_char(#[trigger] digits[i]),
        digits.len() >= 2,
        digits.len() < SEPARATOR_POSITION ==> digits.len() % 2 == 0,
        digits.len() != SEPARATOR_POSITION + 1,
    ensures
        full_code(with_separator(digits)),
        has_padding(with_separator(digits)) <==> digits.len() < SEPARATOR_POSITION,
        digits_end(with_separator(digits)) == if digits.len() < SEPARATOR_POSITION {
            digits.len() as int
        } else {
            SEPARATOR_POSITION as int
        },
{
    let n = digits.len() as int;
    let code = with_separator(digits);
    lemma_alphabet();
    if n < SEPARATOR_POSITION {
        assert(code.len() == 9);
        assert forall|i: int| 0 <= i < 8 implies code[i] != SEPARATOR by {
            if i < n {
                assert(code[i] == digits[i]);
            }
        }
        lemma_index_of_first_is(code, SEPARATOR, 8);
        assert forall|i: int| 0 <= i < n implies code[i] != PADDING_CHAR by {
            assert(code[i] == digits[i]);
        }
        lemma_index_of_first_is(code, PADDING_CHAR, n);
        assert forall|i: int| 0 <= i < code.len() && i != 8 && !(n <= i < 8) implies is_code_symbol(
            code[i],
        ) by {
            assert(code[i] == digits[i]);
        }
    } else {
        assert(code.len() == n + 1);
        assert forall|i: int| 0 <= i < code.len() && i != 8 implies code[i] != SEPARATOR
            && code[i] != PADDING_CHAR && is_code_symbol(code[i]) by {
            if i < 8 {
                assert(code[i] == digits[i]);
            } else {
                assert(code[i] == digits[i - 1]);
            }
        }
        lemma_index_of_first_is(code, SEPARATOR, 8);
        lemma_index_of_first_is(code, PADDING_CHAR, code.len() as int);
    }
}

/// The position before which the digits of a full code end: where its padding starts, or
/// the separator where it has none.
pub open spec fn digits_end(code: Seq<char>) -> int {
    if has_padding(code) {
        index_of_first(code, PADDING_CHAR)
    } else {
        SEPARATOR_POSITION as int
    }
}

/// Of the first `i` characters of a full code, those besides separator and padding are the
/// ones before the padding and the ones behind the separator.
pub proof fn lemma_significant_prefix(code: Seq<char>, i: int)
    requires
        full_code(code),
        0 <= i <= code.len(),
    ensures
        significant(code.take(i)) == if i <= digits_end(code) {
            code.take(i)
        } else if i <= SEPARATOR_POSITION + 1 {
            code.take(digits_end(code))
        } else {
            code.take(digits_end(code)) + code.subrange(SEPARATOR_POSITION + 1, i)
        },
    decreases i,
{
    lemma_index_of_first(code, SEPARATOR);
    lemma_index_of_first(code, PADDING_CHAR);
    let q = digits_end(code);
    if i == 0 {
        assert(significant(code.take(0)) =~= code.take(0)) by {
            reveal(Seq::filter);
        }
    } else {
        lemma_significant_prefix(code, i - 1);
        lemma_significant_step(code, i - 1);
        if i <= q {
            assert(code.take(i - 1).push(code[i - 1]) =~= code.take(i));
        } else if i <= SEPARATOR_POSITION + 1 {
            assert(!is_significant(code[i - 1]));
        } else {
            assert(is_significant(code[i - 1]));
            assert(code.take(q) + code.subrange(SEPARATOR_POSITION + 1, i) =~= (code.take(q)
                + code.subrange(SEPARATOR_POSITION + 1, i - 1)).push(code[i - 1]));
            if i - 1 == SEPARATOR_POSITION + 1 {
                assert(code.take(q) + code.subrange(SEPARATOR_POSITION + 1, i - 1) =~= code.take(
                    q,
                ));
            }
        }
    }
}

/// The digits of a full code are those before its padding and those behind its separator.
pub proof fn lemma_significant_of_full(code: Seq<char>)
    requires
        full_code(code),
    ensures
        significant(code) == code.take(digits_end(code)) + code.skip(SEPARATOR_POSITION + 1),
        2 <= digits_end(code) <= SEPARATOR_POSITION,
        has_padding(code) ==> code.len() == SEPARATOR_POSITION + 1,
        forall|i: int|
            0 <= i < significant(code).len() ==> is_code_symbol(#[trigger] significant(code)[i]),
{
    lemma_index_of_first(code, SEPARATOR);
    lemma_index_of_first(code, PADDING_CHAR);
    lemma_significant_prefix(code, code.len() as int);
    assert(code.take(code.len() as int) =~= code);
    let q = digits_end(code);
    assert(code.take(q) + code.skip(SEPARATOR_POSITION + 1) =~= if code.len()
        <= SEPARATOR_POSITION + 1 {
        code.take(q)
    } else {
        code.take(q) + code.subrange(SEPARATOR_POSITION + 1, code.len() as int)
    });
    let sig = significant(code);
    assert forall|i: int| 0 <= i < sig.len() implies is_code_symbol(#[trigger] sig[i]) by {
        if i < q {
            assert(sig[i] == code[i]);
            lemma_significant_is_symbol(code, i);
        } else {
            assert(sig[i] == code[i - q + SEPARATOR_POSITION + 1]);
            lemma_significant_is_symbol(code, i - q + SEPARATOR_POSITION + 1);
        }
    }
}

/// The code of the centre of the cell that a full code names, with as many digits as the
/// code has, is the code in capitals, for the codes of at most fifteen digits that name a
/// cell on the globe.
pub proof fn lemma_encode_center(code: Seq<char>)
    requires
        full_code(code),
        significant(code).len() <= MAX_CODE_LENGTH,
        digit_value(upper(code[0])) <= 8,
        digit_value(upper(code[1])) <= 17,
    ensures
        encoded_at(
            center_lat(code_digits(code)),
            center_lng(code_digits(code)),
            code_digits(code).len() as int,
        ) == upper_case(code),
        all_digits(code_digits(code)),
        -LATITUDE_MAX < center_lat(code_digits(code)) < LATITUDE_MAX,
        -LONGITUDE_MAX < center_lng(code_digits(code)) < LONGITUDE_MAX,
{
    let ds = code_digits(code);
    let n = ds.len() as int;
    let sig = significant(code);
    let q = digits_end(code);
    lemma_significant_of_full(code);
    lemma_index_of_first(code, SEPARATOR);
    lemma_index_of_first(code, PADDING_CHAR);
    lemma_alphabet();
    assert(n == sig.len());
    assert(all_digits(ds)) by {
        assert forall|i: int| 0 <= i < ds.len() implies 0 <= #[trigger] ds[i] < 20 by {
            assert(is_code_symbol(sig[i]));
        }
    }
    lemma_center_of_cell(ds);
    assert(sig[0] == code[0] && sig[1] == code[1]);
    lemma_first_digits(ds);
    let lat = center_lat(ds);
    let lng = center_lng(ds);
    assert(LAT_STEP_UNITS == 2048 && LNG_STEP_UNITS == 6250);
    lemma_cells(n);
    let x = lat_steps_of(lat, n);
    let y = lng_steps_of(lng);
    assert(clamped_length(n) == n);
    assert(LATITUDE_MAX == 4_608_000_000_000 && LONGITUDE_MAX == 9_216_000_000_000
        && UNITS_PER_DEGREE == 51_200_000_000);
    lemma_steps_bounds(ds, n);
    assert(-LATITUDE_MAX < lat < LATITUDE_MAX - 1000);
    assert(-LONGITUDE_MAX < lng < LONGITUDE_MAX);
    assert(clipped_latitude(lat) == lat);
    assert(!near_north_pole(lat));
    assert(encodable_latitude(lat, n) == lat);
    lemma_whole_turns(lng);
    assert(x == lat_steps(ds, n) + lat_cell(n) / 2);
    assert(y == lng_steps(ds, n) + lng_cell(n) / 2);
    let symbols = digit_symbols(x, y, n);
    assert forall|i: int| 0 <= i < n implies #[trigger] symbols[i] == upper(sig[i]) by {
        lemma_digits_of_cell(ds, x, y, i);
        assert(is_code_symbol(sig[i]));
    }
    let got = encoded_at(lat, lng, n);
    assert(got == with_separator(symbols));
    let want = upper_case(code);
    assert(got.len() == want.len());
    assert forall|i: int| 0 <= i < got.len() implies got[i] == want[i] by {
        if i < q {
            assert(sig[i] == code[i]);
            assert(got[i] == symbols[i]);
        } else if i <= SEPARATOR_POSITION {
        } else {
            assert(sig[i - 1] == code[i]);
            assert(got[i] == symbols[i - 1]);
        }
    }
    assert(got =~= want);
}

/// The centre of the cell that the digits `ds` name lies within that cell, half a cell from
/// its edges: its steps are those of the cell's corner and half of the cell's side.
pub proof fn lemma_center_of_cell(ds: Seq<int>)
    requires
        all_digits(ds),
        ds.len() <= MAX_CODE_LENGTH,
    ensures
        center_lat(ds) + LATITUDE_MAX == LAT_STEP_UNITS * lat_steps(ds, ds.len() as int)
            + (LAT_STEP_UNITS / 2) * lat_cell(ds.len() as int),
        center_lng(ds) + LONGITUDE_MAX == LNG_STEP_UNITS * lng_steps(ds, ds.len() as int)
            + (LNG_STEP_UNITS / 2) * lng_cell(ds.len() as int),
        (center_lat(ds) + LATITUDE_MAX) / (LAT_STEP_UNITS as int) == lat_steps(
            ds,
            ds.len() as int,
        ) + lat_cell(ds.len() as int) / 2,
        (center_lng(ds) + LONGITUDE_MAX) / (LNG_STEP_UNITS as int) == lng_steps(
            ds,
            ds.len() as int,
        ) + lng_cell(ds.len() as int) / 2,
{
    let n = ds.len() as int;
    assert(LAT_STEP_UNITS == 2048 && LNG_STEP_UNITS == 6250);
    lemma_cells(n);
    lemma_steps_bounds(ds, n);
    assert(latitude_precision(n) / 2 == 1024 * lat_cell(n));
    assert(longitude_precision(n) / 2 == 3125 * lng_cell(n));
}

/// Where the first digit is at most 8 and the second at most 17, the cell that the digits
/// name lies on the globe: it ends at or below the north pole and at or before 180 degrees
/// east.
pub proof fn lemma_first_digits(ds: Seq<int>)
    requires
        all_digits(ds),
        2 <= ds.len() <= MAX_CODE_LENGTH,
        ds[0] <= 8,
        ds[1] <= 17,
    ensures
        lat_steps(ds, ds.len() as int) + lat_cell(ds.len() as int) <= 4_500_000_000,
        lng_steps(ds, ds.len() as int) + lng_cell(ds.len() as int) <= 2_949_120_000,
{
    lemma_nested_cells(ds, 2, ds.len() as int);
    assert(lat_steps(ds, 2) == ds[0] * 500_000_000) by {
        reveal_with_fuel(lat_steps, 3);
    }
    assert(lng_steps(ds, 2) == ds[1] * 163_840_000) by {
        reveal_with_fuel(lng_steps, 3);
    }
}

/// A full code without padding, with its first four, six or eight characters taken away,
/// is a short code, unless nothing but the separator is left of it.
pub proof fn lemma_shortened_is_short(code: Seq<char>, k: int)
    requires
        full_code(code),
        !has_padding(code),
        k == 4 || k == 6 || k == 8,
        code.len() - k >= 3,
    ensures
        short_code(code.skip(k)),
        index_of_first(code.skip(k), SEPARATOR) == SEPARATOR_POSITION - k,
        !has_padding(code.skip(k)),
{
    let short = code.skip(k);
    lemma_index_of_first(code, SEPARATOR);
    lemma_index_of_first(code, PADDING_CHAR);
    assert forall|i: int| 0 <= i < short.len() implies short[i] == code[i + k] by {}
    lemma_index_of_first_is(short, SEPARATOR, SEPARATOR_POSITION - k);
    lemma_index_of_first_is(short, PADDING_CHAR, short.len() as int);
    assert forall|i: int|
        0 <= i < short.len() && i != SEPARATOR_POSITION - k implies is_code_symbol(short[i]) by {
        assert(short[i] == code[i + k]);
    }
}

/// The corner of the cell of `k` digits whose code starts the prefix that a reference
/// latitude gives: it lies at or below the latitude and at most one cell below it, and its
/// cell ends at or below the north pole.
pub proof fn lemma_reference_cell_lat(lat: int, k: int)
    requires
        k == 4 || k == 6 || k == 8,
        -LATITUDE_MAX <= lat <= LATITUDE_MAX,
    ensures
        ({
            let p = latitude_precision(k);
            let x = lat_steps_of(floor_to(lat, p), PAIR_CODE_LENGTH as int);
            let corner = LAT_STEP_UNITS * ((x / lat_cell(k)) * lat_cell(k)) - LATITUDE_MAX;
            &&& 0 <= x < lat_cell(0)
            &&& corner <= lat <= corner + p
            &&& corner + p <= LATITUDE_MAX
        }),
{
    assert(LATITUDE_MAX == 4_608_000_000_000 && UNITS_PER_DEGREE == 51_200_000_000
        && LAT_STEP_UNITS == 2048);
    let p = latitude_precision(k);
    let c = lat_cell(k);
    let f = floor_to(lat, p);
    let x = lat_steps_of(f, PAIR_CODE_LENGTH as int);
    assert(p == 2048 * c);
    assert(4_608_000_000_000int % p == 0 && 9_216_000_000_000int % p == 0 && p >= 128_000_000)
        by {
        assert(p == 51_200_000_000 || p == 2_560_000_000 || p == 128_000_000);
    }
    lemma_floor_shift(lat, 4_608_000_000_000, p);
    lemma_floor_in_steps(lat + 4_608_000_000_000, 2048, c);
    if lat == LATITUDE_MAX {
        assert(f == LATITUDE_MAX) by {
            lemma_small_mod(0, p as nat);
            lemma_floor_shift(0, 4_608_000_000_000, p);
        }
        assert(latitude_precision(10) == 6_400_000);
        assert(x == 4_499_996_875);
        assert((x / c) * c == 4_500_000_000 - c) by {
            if k == 4 {
                assert(c == 25_000_000);
            } else if k == 6 {
                assert(c == 1_250_000);
            } else {
                assert(c == 62_500);
            }
        }
    } else {
        lemma_multiples_apart(f + 4_608_000_000_000, 9_216_000_000_000, p);
        assert(encodable_latitude(f, 10) == f);
    }
}

/// The corner of the cell of `k` digits whose code starts the prefix that a reference
/// longitude gives: it lies at or west of the longitude and less than one cell from it.
pub proof fn lemma_reference_cell_lng(lng: int, k: int)
    requires
        k == 4 || k == 6 || k == 8,
        -LONGITUDE_MAX <= lng < LONGITUDE_MAX,
    ensures
        ({
            let p = latitude_precision(k);
            let y = lng_steps_of(floor_to(lng, p));
            let corner = LNG_STEP_UNITS * ((y / lng_cell(k)) * lng_cell(k)) - LONGITUDE_MAX;
            &&& 0 <= y < lng_cell(0)
            &&& corner <= lng < corner + p
        }),
{
    assert(LONGITUDE_MAX == 9_216_000_000_000 && LNG_STEP_UNITS == 6250);
    let p = latitude_precision(k);
    let c = lng_cell(k);
    let f = floor_to(lng, p);
    lemma_square_cells(k);
    assert(p == 6250 * c);
    assert(9_216_000_000_000int % p == 0) by {
        assert(p == 51_200_000_000 || p == 2_560_000_000 || p == 128_000_000);
    }
    lemma_floor_shift(lng, 9_216_000_000_000, p);
    lemma_floor_in_steps(lng + 9_216_000_000_000, 6250, c);
    assert(-LONGITUDE_MAX <= f < LONGITUDE_MAX);
    lemma_whole_turns(f);
}

/// The digits of a shortened code behind a prefix of symbols: as many as the code had, the
/// first `k` of them those of the prefix, the others those of the code.
pub proof fn lemma_completed_digits(code: Seq<char>, prefix: Seq<char>, k: int)
    requires
        full_code(code),
        !has_padding(code),
        significant(code).len() <= MAX_CODE_LENGTH,
        k == 4 || k == 6 || k == 8,
        code.len() - k >= 3,
        prefix.len() == k,
        forall|i: int| 0 <= i < prefix.len() ==> is_alphabet_char(#[trigger] prefix[i]),
    ensures
        full_code(prefix + code.skip(k)),
        code_digits(prefix + code.skip(k)).len() == code_digits(code).len(),
        all_digits(code_digits(prefix + code.skip(k))),
        forall|i: int|
            0 <= i < k ==> #[trigger] code_digits(prefix + code.skip(k))[i] == digit_value(
                prefix[i],
            ),
        forall|i: int|
            k <= i < code_digits(code).len() ==> #[trigger] code_digits(prefix + code.skip(k))[i]
                == code_digits(code)[i],
{
    let short = code.skip(k);
    let whole = prefix + short;
    lemma_shortened_is_short(code, k);
    lemma_completed_is_full(prefix, short);
    lemma_significant_of_full(code);
    lemma_significant_of_full(whole);
    lemma_alphabet();
    let sig = significant(code);
    let sig2 = significant(whole);
    assert(sig2.len() == sig.len());
    assert forall|i: int| 0 <= i < sig.len() implies #[trigger] sig2[i] == (if i < k {
        prefix[i]
    } else {
        sig[i]
    }) by {
        if i < k {
            assert(whole[i] == prefix[i]);
        } else if i < SEPARATOR_POSITION {
            assert(whole[i] == code[i]);
        } else {
            assert(whole[i + 1] == code[i + 1]);
        }
    }
    let cds = code_digits(whole);
    assert forall|i: int| 0 <= i < cds.len() implies 0 <= #[trigger] cds[i] < 20 by {
        assert(is_code_symbol(sig2[i]));
    }
}

/// The whole number of cells of side `p` by which `center` differs from `near` is found
/// from a reference position `r` that lies less than three tenths of `p` from `center`
/// and within the cell of `near`: it is one down where `r` lies more than half of `p` below
/// `near`, one up where it lies more than half of `p` above it, and none otherwise.
pub proof fn lemma_nearest(center: int, near: int, r: int, corner: int, p: int)
    requires
        p == 51_200_000_000 || p == 2_560_000_000 || p == 128_000_000,
        corner <= r <= corner + p,
        corner < near < corner + p,
        (center - near) % p == 0,
        10 * distance(center, r) < 3 * p,
    ensures
        center == if r + p / 2 < near {
            near - p
        } else if r - p / 2 > near {
            near + p
        } else {
            near
        },
{
    let d = center - near;
    if p == 51_200_000_000 {
        assert(d == 51_200_000_000 * (d / 51_200_000_000));
    } else if p == 2_560_000_000 {
        assert(d == 2_560_000_000 * (d / 2_560_000_000));
    } else {
        assert(d == 128_000_000 * (d / 128_000_000));
    }
}

/// The steps from which the digits of a code are taken lie on the globe.
pub proof fn lemma_steps_on_globe(lat: int, lng: int, n: int)
    requires
        MIN_CODE_LENGTH <= n <= MAX_CODE_LENGTH,
    ensures
        -LATITUDE_MAX <= encodable_latitude(lat, n) < LATITUDE_MAX,
        0 <= lat_steps_of(lat, n) < 4_500_000_000,
        0 <= lng_steps_of(lng) < 2_949_120_000,
{
    assert(LATITUDE_MAX == 4_608_000_000_000 && LONGITUDE_MAX == 9_216_000_000_000
        && UNITS_PER_DEGREE == 51_200_000_000 && LAT_STEP_UNITS == 2048 && LNG_STEP_UNITS
        == 6250);
    assert(1 <= lat_cell(n) <= 500_000_000);
    lemma_whole_turns(lng);
}

/// The digits of the code that encoding gives are the digits of the steps of the position.
pub proof fn lemma_digits_of_encoded(lat: int, lng: int, code_length: int)
    requires
        MIN_CODE_LENGTH <= code_length <= MAX_CODE_LENGTH,
        code_length >= PAIR_CODE_LENGTH || code_length % 2 == 0,
    ensures
        code_digits(encoded_steps(lat, lng, code_length)).len() == code_length,
        forall|i: int|
            0 <= i < code_length ==> #[trigger] code_digits(
                encoded_steps(lat, lng, code_length),
            )[i] == code_digit(lat, lng, i),
{
    let code = encoded_steps(lat, lng, code_length);
    let symbols = digit_symbols(lat, lng, code_length);
    lemma_alphabet();
    assert forall|i: int| 0 <= i < code_length implies is_alphabet_char(#[trigger] symbols[i]) by {
        lemma_code_digit_range(lat, lng, i);
    }
    lemma_with_separator_is_full(symbols);
    lemma_significant_of_full(code);
    lemma_index_of_first(code, PADDING_CHAR);
    let sig = significant(code);
    let q = digits_end(code);
    assert(sig.len() == code_length);
    assert forall|i: int| 0 <= i < code_length implies #[trigger] sig[i] == symbols[i] by {
        if i < q {
            assert(sig[i] == code[i]);
        } else {
            assert(sig[i] == code[i + 1]);
        }
    }
    assert forall|i: int| 0 <= i < code_length implies #[trigger] code_digits(code)[i]
        == code_digit(lat, lng, i) by {
        lemma_code_digit_range(lat, lng, i);
        assert(sig[i] == symbols[i]);
    }
}

/// Where the first `k` digits of `cds` are those of the prefix that a reference position
/// gives, the reference position, brought into range, lies in the cell that they name, or
/// on its northern edge.
pub proof fn lemma_prefix_cell(reference: Point, cds: Seq<int>, k: int)
    requires
        k == 4 || k == 6 || k == 8,
        k <= cds.len(),
        forall|i: int|
            0 <= i < k ==> cds[i] == code_digit(
                lat_steps_of(
                    floor_to(clipped_latitude(reference.lat as int), latitude_precision(k)),
                    PAIR_CODE_LENGTH as int,
                ),
                lng_steps_of(
                    floor_to(normalized_longitude(reference.lng as int), latitude_precision(k)),
                ),
                i,
            ),
    ensures
        corner_lat(cds, k) <= clipped_latitude(reference.lat as int) <= corner_lat(cds, k)
            + latitude_precision(k),
        corner_lng(cds, k) <= normalized_longitude(reference.lng as int) < corner_lng(cds, k)
            + latitude_precision(k),
{
    let p = latitude_precision(k);
    let r_lat = clipped_latitude(reference.lat as int);
    let r_lng = normalized_longitude(reference.lng as int);
    lemma_whole_turns(reference.lng as int);
    let x = lat_steps_of(floor_to(r_lat, p), PAIR_CODE_LENGTH as int);
    let y = lng_steps_of(floor_to(r_lng, p));
    lemma_reference_cell_lat(r_lat, k);
    lemma_reference_cell_lng(r_lng, k);
    lemma_steps_of_code_digits(x, y, cds, k);
}

/// The cell of a code of an even number of digits up to ten is as wide as it is high.
pub proof fn lemma_square_cells(k: int)
    requires
        0 <= k <= PAIR_CODE_LENGTH,
        k % 2 == 0,
    ensures
        longitude_precision(k) == latitude_precision(k),
{
    assert(LAT_STEP_UNITS == 2048 && LNG_STEP_UNITS == 6250);
}

/// Where two sequences of as many digits agree from position `k` on, the centres of the
/// cells that they name lie at the same place within the cells that their first `k` digits
/// name, and differ by a whole number of those cells.
pub proof fn lemma_centers_apart(ds: Seq<int>, cds: Seq<int>, k: int)
    requires
        k == 4 || k == 6 || k == 8,
        all_digits(ds),
        all_digits(cds),
        k <= ds.len() <= MAX_CODE_LENGTH,
        cds.len() == ds.len(),
        forall|i: int| k <= i < ds.len() ==> cds[i] == ds[i],
    ensures
        corner_lat(cds, k) < center_lat(cds) < corner_lat(cds, k) + latitude_precision(k),
        corner_lng(cds, k) < center_lng(cds) < corner_lng(cds, k) + latitude_precision(k),
        (center_lat(ds) - center_lat(cds)) % latitude_precision(k) == 0,
        (center_lng(ds) - center_lng(cds)) % latitude_precision(k) == 0,
{
    let n = ds.len() as int;
    assert(LAT_STEP_UNITS == 2048 && LNG_STEP_UNITS == 6250);
    lemma_steps_of_suffix(cds, ds, k, n);
    lemma_nested_cells(ds, k, n);
    lemma_steps_digits(ds, k);
    lemma_steps_digits(cds, k);
    lemma_cells(n);
    lemma_cells(k);
    lemma_square_cells(k);
    let a = lat_steps(ds, k);
    let b = lat_steps(cds, k);
    let c = lng_steps(ds, k);
    let d = lng_steps(cds, k);
    assert(center_lat(ds) - center_lat(cds) == 2048 * (a - b));
    assert(center_lng(ds) - center_lng(cds) == 6250 * (c - d));
    lemma_multiple_difference(a, b, lat_cell(k), 2048);
    lemma_multiple_difference(c, d, lng_cell(k), 6250);
}

} // verus!
