//! What holds between the operations of this crate.

use crate::arith::{floor_to, lemma_cell_on_globe, lemma_multiples_apart, lemma_scaled_multiple};
use crate::codearea::{CodeArea, Point};
use crate::consts::{
    digit_value, is_alphabet_char, lemma_alphabet, upper, LATITUDE_MAX, LAT_STEP_UNITS,
    LNG_STEP_UNITS, LONGITUDE_MAX, MAX_CODE_LENGTH, MIN_CODE_LENGTH, MIN_TRIMMABLE_CODE_LEN,
    PAIR_CODE_LENGTH, SEPARATOR, SEPARATOR_POSITION, UNITS_PER_DEGREE,
};
use crate::coords::{clipped_latitude, latitude_precision, lemma_whole_turns, normalized_longitude};
use crate::decode::{
    center_lat, center_lng, code_digits, corner_lat, corner_lng, is_cell_of, significant,
};
use crate::encode::{
    clamped_length, digit_symbols, encodable_latitude, encoded_at, encoded_steps, lat_steps_of,
    lng_steps_of,
};
use crate::grid::{
    code_digit, lat_cell, lat_steps, lemma_cells, lemma_cells_fill_globe,
    lemma_steps_of_code_digits, lng_cell, lng_steps,
};
use crate::lemmas::{
    lemma_centers_apart, lemma_completed_digits, lemma_digits_of_encoded, lemma_encode_center,
    lemma_nearest, lemma_prefix_cell, lemma_shortened_is_short, lemma_significant_of_full,
    lemma_steps_on_globe, lemma_with_separator_is_full,
};
use crate::shorten::{
    has_padding, lemma_code_digit_range, lemma_prefix_is_digits, range_to, recovered, recovered_lat,
    recovered_lng, reference_prefix, removable, shortened, upper_case,
};
use crate::validity::{full_code, index_of_first, short_code, valid_code};
use vstd::arithmetic::div_mod::lemma_fundamental_div_mod;
use vstd::prelude::*;

verus! {

/// A string is one of three things: no code, a short code, or a full code.
pub proof fn lemma_code_kinds(s: Seq<char>)
    ensures
        valid_code(s) <==> short_code(s) || full_code(s),
        !(short_code(s) && full_code(s)),
        full_code(s) <==> valid_code(s) && index_of_first(s, SEPARATOR) == SEPARATOR_POSITION,
{
}

/// Every code that encoding gives is a full code, for every position and for every length
/// that, brought into the range from 2 to 15, is even or at least ten; the code holds
/// padding where that length is below eight, and only there.
pub proof fn lemma_encoded_is_full(lat: int, lng: int, code_length: int)
    requires
        clamped_length(code_length) >= PAIR_CODE_LENGTH || clamped_length(code_length) % 2 == 0,
    ensures
        valid_code(encoded_at(lat, lng, code_length)),
        full_code(encoded_at(lat, lng, code_length)),
        !short_code(encoded_at(lat, lng, code_length)),
        has_padding(encoded_at(lat, lng, code_length)) <==> clamped_length(code_length)
            < SEPARATOR_POSITION,
        full_code(encoded_steps(lat, lng, code_length)),
        has_padding(encoded_steps(lat, lng, code_length)) <==> clamped_length(code_length)
            < SEPARATOR_POSITION,
{
    lemma_alphabet();
    let n = clamped_length(code_length);
    let a = lat_steps_of(lat, n);
    let b = lng_steps_of(lng);
    assert forall|i: int| 0 <= i < n implies is_alphabet_char(
        #[trigger] digit_symbols(a, b, n)[i],
    ) by {
        lemma_code_digit_range(a, b, i);
    }
    lemma_with_separator_is_full(digit_symbols(a, b, n));
    assert forall|i: int| 0 <= i < n implies is_alphabet_char(
        #[trigger] digit_symbols(lat, lng, n)[i],
    ) by {
        lemma_code_digit_range(lat, lng, i);
    }
    lemma_with_separator_is_full(digit_symbols(lat, lng, n));
}

/// Decoding and then encoding gives the code back: where `a` is the cell that decoding
/// gives for the full code `code`, the code of the centre of `a` with as many digits as
/// `code` has is `code`, in capitals. This holds of the codes of at most fifteen digits
/// that name a cell on the globe: whose first digit, for the latitude, is at most `C`, and
/// whose second digit, for the longitude, is at most `V`.
pub proof fn lemma_decode_encode_round_trip(code: Seq<char>, a: CodeArea)
    requires
        full_code(code),
        is_cell_of(a, code_digits(code)),
        significant(code).len() <= MAX_CODE_LENGTH,
        digit_value(upper(code[0])) <= 8,
        digit_value(upper(code[1])) <= 17,
    ensures
        encoded_at(a.center.lat as int, a.center.lng as int, a.code_length as int) == upper_case(
            code,
        ),
{
    lemma_encode_center(code);
    let ds = code_digits(code);
    assert(LAT_STEP_UNITS == 2048 && LNG_STEP_UNITS == 6250);
    lemma_cells(ds.len() as int);
    assert(a.center.lat == center_lat(ds));
    assert(a.center.lng == center_lng(ds));
}

/// Encoding and then decoding gives a cell that holds the position: where `a` is the cell
/// that decoding gives for the code of a position with `code_length` digits, from 2 to 15
/// and even where below ten, the latitude from which the code was taken lies from the
/// southern edge of `a` up to, not including, its northern edge, and the longitude,
/// brought into range, from its western edge up to, not including, its eastern edge.
pub proof fn lemma_encode_decode_holds_position(lat: int, lng: int, code_length: int, a: CodeArea)
    requires
        MIN_CODE_LENGTH <= code_length <= MAX_CODE_LENGTH,
        code_length >= PAIR_CODE_LENGTH || code_length % 2 == 0,
        is_cell_of(a, code_digits(encoded_at(lat, lng, code_length))),
    ensures
        a.code_length == code_length,
        a.south <= encodable_latitude(lat, code_length) < a.north,
        a.west <= normalized_longitude(lng) < a.east,
        a.north <= LATITUDE_MAX,
        a.east <= LONGITUDE_MAX,
{
    let x = lat_steps_of(lat, code_length);
    let y = lng_steps_of(lng);
    let ds = code_digits(encoded_at(lat, lng, code_length));
    assert(clamped_length(code_length) == code_length);
    lemma_steps_on_globe(lat, lng, code_length);
    lemma_digits_of_encoded(x, y, code_length);
    lemma_steps_of_code_digits(x, y, ds, code_length);
    lemma_cells(code_length);
    assert(LATITUDE_MAX == 4_608_000_000_000 && LONGITUDE_MAX == 9_216_000_000_000
        && LAT_STEP_UNITS == 2048 && LNG_STEP_UNITS == 6250);
    lemma_whole_turns(lng);
    let c = lat_cell(code_length);
    let w = lng_cell(code_length);
    lemma_fundamental_div_mod(x, c);
    lemma_fundamental_div_mod(y, w);
    assert(lat_steps(ds, code_length) == c * (x / c)) by (nonlinear_arith)
        requires
            lat_steps(ds, code_length) == (x / c) * c,
    ;
    assert(lng_steps(ds, code_length) == w * (y / w)) by (nonlinear_arith)
        requires
            lng_steps(ds, code_length) == (y / w) * w,
    ;
    assert(lat_steps(ds, code_length) <= x < lat_steps(ds, code_length) + c);
    assert(lng_steps(ds, code_length) <= y < lng_steps(ds, code_length) + w);
    lemma_cells_fill_globe(code_length);
    lemma_cell_on_globe(x, c, 4_500_000_000);
    lemma_cell_on_globe(y, w, 2_949_120_000);
}

/// The north pole has a code that can be decoded: the code of a position on the north pole
/// or beyond it, with a length from 2 to 15 that is even where below ten, is a full code,
/// and the cell that decoding gives for it ends at the pole.
pub proof fn lemma_north_pole(lat: int, lng: int, code_length: int, a: CodeArea)
    requires
        lat >= LATITUDE_MAX,
        MIN_CODE_LENGTH <= code_length <= MAX_CODE_LENGTH,
        code_length >= PAIR_CODE_LENGTH || code_length % 2 == 0,
        is_cell_of(a, code_digits(encoded_at(lat, lng, code_length))),
    ensures
        full_code(encoded_at(lat, lng, code_length)),
        a.north == LATITUDE_MAX,
{
    lemma_encoded_is_full(lat, lng, code_length);
    lemma_encode_decode_holds_position(lat, lng, code_length, a);
    assert(LATITUDE_MAX == 4_608_000_000_000 && LAT_STEP_UNITS == 2048);
    let x = lat_steps_of(lat, code_length);
    let ds = code_digits(encoded_at(lat, lng, code_length));
    let c = lat_cell(code_length);
    let p = latitude_precision(code_length);
    lemma_cells(code_length);
    lemma_steps_on_globe(lat, lng, code_length);
    lemma_digits_of_encoded(x, lng_steps_of(lng), code_length);
    lemma_steps_of_code_digits(x, lng_steps_of(lng), ds, code_length);
    lemma_cells_fill_globe(code_length);
    assert(encodable_latitude(lat, code_length) == LATITUDE_MAX - p);
    lemma_scaled_multiple(x / c, c, 2048);
    let t = 4_500_000_000int / c;
    lemma_fundamental_div_mod(4_500_000_000, c);
    lemma_scaled_multiple(t - 1, c, 2048);
    assert(2048 * ((t - 1) * c) == 9_216_000_000_000 - p) by (nonlinear_arith)
        requires
            4_500_000_000 == c * t,
            p == 2048 * c,
    ;
    if a.south + LATITUDE_MAX < 9_216_000_000_000 - p {
        lemma_multiples_apart(a.south + LATITUDE_MAX, 9_216_000_000_000 - p, p);
    }
}

/// A full code without padding has at least eight digits, so that shortening never finds
/// one too short: the only error that it gives is that of a code with padding.
pub proof fn lemma_unpadded_is_long_enough(code: Seq<char>)
    requires
        full_code(code),
        !has_padding(code),
    ensures
        code_digits(code).len() >= SEPARATOR_POSITION,
        code_digits(code).len() >= MIN_TRIMMABLE_CODE_LEN,
{
    lemma_significant_of_full(code);
}

/// Shortening and then recovering gives the code back: a full code that was shortened
/// relative to a reference position is recovered from what is left of it and the same
/// reference position, in capitals. This holds of the codes without padding, of at most
/// fifteen digits, that name a cell on the globe, where shortening took characters away
/// and left more than the separator.
pub proof fn lemma_shorten_recover(code: Seq<char>, reference: Point)
    requires
        full_code(code),
        !has_padding(code),
        significant(code).len() <= MAX_CODE_LENGTH,
        digit_value(upper(code[0])) <= 8,
        digit_value(upper(code[1])) <= 17,
        shortened(code, reference) != code,
        shortened(code, reference).len() >= 3,
    ensures
        short_code(shortened(code, reference)),
        recovered(shortened(code, reference), reference) == upper_case(code),
{
    let ds = code_digits(code);
    let n = ds.len() as int;
    let range = range_to(ds, reference);
    let k = removable(range);
    let short = shortened(code, reference);
    if k == 0 {
        assert(code.skip(0) =~= code);
    }
    assert(k == 4 || k == 6 || k == 8);
    assert(UNITS_PER_DEGREE == 51_200_000_000 && LAT_STEP_UNITS == 2048);
    let p = latitude_precision(k);
    assert(p == 51_200_000_000 || p == 2_560_000_000 || p == 128_000_000);
    assert(10 * range < 3 * p);
    lemma_shortened_is_short(code, k);
    lemma_significant_of_full(code);
    assert(n >= SEPARATOR_POSITION);
    let r_lat = clipped_latitude(reference.lat as int);
    let r_lng = normalized_longitude(reference.lng as int);
    let f_lat = floor_to(r_lat, p);
    let f_lng = floor_to(r_lng, p);
    let prefix = reference_prefix(reference, k);
    lemma_prefix_is_digits(f_lat, f_lng, k);
    let x = lat_steps_of(f_lat, PAIR_CODE_LENGTH as int);
    let y = lng_steps_of(f_lng);
    lemma_alphabet();
    assert forall|i: int| 0 <= i < k implies digit_value(#[trigger] prefix[i]) == code_digit(
        x,
        y,
        i,
    ) by {
        lemma_code_digit_range(x, y, i);
        assert(prefix[i] == digit_symbols(x, y, PAIR_CODE_LENGTH as int)[i]);
    }
    lemma_completed_digits(code, prefix, k);
    let cds = code_digits(prefix + short);
    lemma_encode_center(code);
    lemma_prefix_cell(reference, cds, k);
    lemma_centers_apart(ds, cds, k);
    lemma_nearest(center_lat(ds), center_lat(cds), r_lat, corner_lat(cds, k), p);
    lemma_nearest(center_lng(ds), center_lng(cds), r_lng, corner_lng(cds, k), p);
    assert(recovered_lat(cds, reference, k) == center_lat(ds));
    assert(recovered_lng(cds, reference, k) == center_lng(ds));
}

} // verus!
