//! Shortening a full code relative to a reference position, and recovering it.

use crate::arith::{floor_mod, floor_to};
use crate::codearea::Point;
use crate::consts::{
    is_alphabet_char, is_code_symbol, lemma_alphabet, to_upper, upper, CODE_ALPHABET, LATITUDE_MAX,
    LAT_STEP_UNITS, LNG_STEP_UNITS, LONGITUDE_MAX, MAX_CODE_LENGTH, MIN_TRIMMABLE_CODE_LEN,
    PADDING_CHAR, PAIR_CODE_LENGTH, PAIR_RESOLUTIONS, SEPARATOR, SEPARATOR_POSITION,
    UNITS_PER_DEGREE,
};
use crate::coords::{
    clip_latitude, clipped_latitude, compute_latitude_precision, latitude_precision,
    normalize_longitude, normalized_longitude,
};
use crate::decode::{center_lat, center_lng, code_digits, decode_chars};
use crate::encode::{
    chars_to_string, digit_symbols, encode_chars, encoded_at, lat_steps_of, lng_steps_of,
    with_separator,
};
use crate::error::Error;
use crate::grid::{all_digits, code_digit, lemma_cells, lemma_steps_bounds};
use crate::validity::{
    find_char, full_code, index_of_first, lemma_index_of_first, lemma_index_of_first_is, short_code,
    to_chars, valid_chars, valid_code,
};
use vstd::prelude::*;

verus! {

/// The distance of `a` from `b`.
pub open spec fn distance(a: int, b: int) -> int {
    if a < b {
        b - a
    } else {
        a - b
    }
}

/// The greater of `a` and `b`.
pub open spec fn greater(a: int, b: int) -> int {
    if a < b {
        b
    } else {
        a
    }
}

/// How far the reference position `reference`, brought into range, lies from the centre of
/// the cell that the digits `ds` name: the greater of the distances in latitude and in
/// longitude, in units.
pub open spec fn range_to(ds: Seq<int>, reference: Point) -> int {
    greater(
        distance(center_lat(ds), clipped_latitude(reference.lat as int)),
        distance(center_lng(ds), normalized_longitude(reference.lng as int)),
    )
}

/// The number of characters that can be taken from the front of a code whose centre lies
/// `range` units from the reference position: eight, six or four where `range` is less than
/// three tenths of the side of the cell of a code of eight, six or four digits, else none.
pub open spec fn removable(range: int) -> int {
    if 10 * range < 3 * PAIR_RESOLUTIONS[3] {
        8
    } else if 10 * range < 3 * PAIR_RESOLUTIONS[2] {
        6
    } else if 10 * range < 3 * PAIR_RESOLUTIONS[1] {
        4
    } else {
        0
    }
}

/// `s` holds padding.
pub open spec fn has_padding(s: Seq<char>) -> bool {
    index_of_first(s, PADDING_CHAR) < s.len()
}

/// What is left of the full code `code` without padding when it is shortened relative to
/// `reference`.
pub open spec fn shortened(code: Seq<char>, reference: Point) -> Seq<char> {
    code.skip(removable(range_to(code_digits(code), reference)))
}

/// `s` with every ASCII lower-case letter replaced by its capital.
pub open spec fn upper_case(s: Seq<char>) -> Seq<char> {
    Seq::new(s.len(), |i: int| upper(s[i]))
}

/// The first `k` characters of the code of the cell of `k` digits in which the reference
/// position lies: the position, brought into range, is moved to the south-western corner of
/// that cell and encoded with ten digits, and the first `k` characters are kept.
pub open spec fn reference_prefix(reference: Point, k: int) -> Seq<char> {
    let p = latitude_precision(k);
    encoded_at(
        floor_to(clipped_latitude(reference.lat as int), p),
        floor_to(normalized_longitude(reference.lng as int), p),
        PAIR_CODE_LENGTH as int,
    ).take(k)
}

/// The latitude of the code that is recovered, where the digits `ds` are those of the short
/// code behind the prefix of `k` characters of the reference position: the centre of their
/// cell, moved by the height of a cell of `k` digits towards the reference position where
/// that lies more than half such a height away and the move stays between the poles.
pub open spec fn recovered_lat(ds: Seq<int>, reference: Point, k: int) -> int {
    let resolution = latitude_precision(k);
    let half = resolution / 2;
    let lat = center_lat(ds);
    let ref_lat = clipped_latitude(reference.lat as int);
    if ref_lat + half < lat && lat - resolution >= -LATITUDE_MAX {
        lat - resolution
    } else if ref_lat - half > lat && lat + resolution <= LATITUDE_MAX {
        lat + resolution
    } else {
        lat
    }
}

/// The longitude of the code that is recovered: the centre of the cell of `ds`, moved by
/// the width of a cell of `k` digits towards the reference position where that lies more
/// than half such a width away.
pub open spec fn recovered_lng(ds: Seq<int>, reference: Point, k: int) -> int {
    let resolution = latitude_precision(k);
    let half = resolution / 2;
    let lng = center_lng(ds);
    let ref_lng = normalized_longitude(reference.lng as int);
    if ref_lng + half < lng {
        lng - resolution
    } else if ref_lng - half > lng {
        lng + resolution
    } else {
        lng
    }
}

/// The full code nearest to `reference` that ends in the short code `code`.
pub open spec fn recovered(code: Seq<char>, reference: Point) -> Seq<char> {
    let k = SEPARATOR_POSITION - index_of_first(code, SEPARATOR);
    let ds = code_digits(reference_prefix(reference, k) + code);
    encoded_at(recovered_lat(ds, reference, k), recovered_lng(ds, reference, k), ds.len() as int)
}

/// The characters of `v` from position `from` on, as a string.
pub fn string_from(v: &Vec<char>, from: usize) -> (s: String)
    requires
        from <= v.len(),
    ensures
        s@ == v@.skip(from as int),
{
    let mut s = String::new();
    let mut i: usize = from;
    while i < v.len()
        invariant
            from <= i <= v.len(),
            s@ == v@.subrange(from as int, i as int),
        decreases v.len() - i,
    {
        s.push(v[i]);
        i += 1;
        assert(s@ =~= v@.subrange(from as int, i as int));
    }
    assert(v@.subrange(from as int, v.len() as int) =~= v@.skip(from as int));
    s
}

/// The distance of `a` from `b`.
pub fn distance_between(a: i64, b: i64) -> (d: i64)
    requires
        -i64::MAX / 2 <= a <= i64::MAX / 2,
        -i64::MAX / 2 <= b <= i64::MAX / 2,
    ensures
        d == distance(a as int, b as int),
{
    if a < b {
        b - a
    } else {
        a - b
    }
}

/// Takes characters from the front of a full code, as many as the distance of the reference
/// position `ref_pt` from the centre of the code's cell allows: eight, six or four, or none
/// where the reference position lies too far away. A string that is no full code comes back
/// as it is.
pub fn shorten(code: &str, ref_pt: Point) -> (r: Result<String, Error>)
    ensures
        !full_code(code@) ==> (r matches Ok(s) && s@ == code@),
        full_code(code@) && has_padding(code@) ==> r == Err::<String, Error>(
            Error::CannotShortenPadded,
        ),
        full_code(code@) && !has_padding(code@) && code_digits(code@).len()
            < MIN_TRIMMABLE_CODE_LEN ==> r == Err::<String, Error>(Error::CodeTooShortToShorten),
        full_code(code@) && !has_padding(code@) && code_digits(code@).len()
            >= MIN_TRIMMABLE_CODE_LEN ==> (r matches Ok(s) && s@ == shortened(code@, ref_pt)),
{
    let v = to_chars(code);
    if !valid_chars(&v) || find_char(&v, SEPARATOR) < SEPARATOR_POSITION {
        return Ok(chars_to_string(&v));
    }
    if find_char(&v, PADDING_CHAR) < v.len() {
        return Err(Error::CannotShortenPadded);
    }
    let area = decode_chars(&v);
    if area.code_length < MIN_TRIMMABLE_CODE_LEN {
        return Err(Error::CodeTooShortToShorten);
    }
    proof {
        lemma_center_in_range(code_digits(v@));
    }
    let lat_range = distance_between(area.center.lat, clip_latitude(ref_pt.lat));
    let lng_range = distance_between(area.center.lng, normalize_longitude(ref_pt.lng));
    let range = if lat_range < lng_range {
        lng_range
    } else {
        lat_range
    };
    assert(range == range_to(code_digits(v@), ref_pt));
    proof {
        lemma_index_of_first(v@, SEPARATOR);
    }
    let mut idx: usize = PAIR_RESOLUTIONS.len() - 2;
    while idx >= 1
        invariant
            idx <= 3,
            v.len() > SEPARATOR_POSITION,
            0 <= range <= i64::MAX / 2,
            v@ == code@,
            full_code(v@),
            !has_padding(v@),
            code_digits(v@).len() >= MIN_TRIMMABLE_CODE_LEN,
            range == range_to(code_digits(v@), ref_pt),
            forall|j: int| idx < j <= 3 ==> !(10 * range < 3 * #[trigger] PAIR_RESOLUTIONS[j]),
        decreases idx,
    {
        if (range as i128) * 10 < (PAIR_RESOLUTIONS[idx] as i128) * 3 {
            return Ok(string_from(&v, (idx + 1) * 2));
        }
        idx -= 1;
    }
    assert(v@.skip(0) =~= v@);
    Ok(chars_to_string(&v))
}

/// The centre of the cell of at most fifteen digits lies within twenty times the globe.
pub proof fn lemma_center_in_range(ds: Seq<int>)
    requires
        all_digits(ds),
        ds.len() <= MAX_CODE_LENGTH,
    ensures
        -LATITUDE_MAX <= center_lat(ds) < 400 * UNITS_PER_DEGREE,
        -LONGITUDE_MAX <= center_lng(ds) < 400 * UNITS_PER_DEGREE,
{
    lemma_steps_bounds(ds, ds.len() as int);
    lemma_cells(ds.len() as int);
}

/// Every digit value is one of the twenty.
pub proof fn lemma_code_digit_range(lat: int, lng: int, i: int)
    ensures
        0 <= code_digit(lat, lng, i) < 20,
{
}

/// The first `k` characters of a code of ten digits are symbols of the alphabet, for `k` up
/// to eight.
pub proof fn lemma_prefix_is_digits(lat: int, lng: int, k: int)
    requires
        0 <= k <= SEPARATOR_POSITION,
    ensures
        encoded_at(lat, lng, PAIR_CODE_LENGTH as int).take(k).len() == k,
        forall|i: int|
            0 <= i < k ==> is_alphabet_char(
                #[trigger] encoded_at(lat, lng, PAIR_CODE_LENGTH as int).take(k)[i],
            ),
{
    let a = lat_steps_of(lat, PAIR_CODE_LENGTH as int);
    let b = lng_steps_of(lng);
    let digits = digit_symbols(a, b, PAIR_CODE_LENGTH as int);
    let code = encoded_at(lat, lng, PAIR_CODE_LENGTH as int);
    assert(code == with_separator(digits));
    lemma_alphabet();
    assert forall|i: int| 0 <= i < k implies is_alphabet_char(#[trigger] code.take(k)[i]) by {
        lemma_code_digit_range(a, b, i);
        assert(code.take(k)[i] == digits[i]);
        assert(digits[i] == CODE_ALPHABET[code_digit(a, b, i)]);
    }
}

/// A short code behind as many symbols of the alphabet as it lacks before its separator is
/// a full code without padding.
pub proof fn lemma_completed_is_full(prefix: Seq<char>, code: Seq<char>)
    requires
        short_code(code),
        prefix.len() == SEPARATOR_POSITION - index_of_first(code, SEPARATOR),
        forall|i: int| 0 <= i < prefix.len() ==> is_alphabet_char(#[trigger] prefix[i]),
    ensures
        full_code(prefix + code),
        !has_padding(prefix + code),
{
    let c = prefix + code;
    let k = prefix.len() as int;
    let p = index_of_first(code, SEPARATOR);
    let q = index_of_first(code, PADDING_CHAR);
    lemma_index_of_first(code, SEPARATOR);
    lemma_index_of_first(code, PADDING_CHAR);
    lemma_alphabet();
    assert(q == code.len());
    assert forall|i: int| 0 <= i < k + p implies c[i] != SEPARATOR by {
        if i < k {
            assert(c[i] == prefix[i]);
        } else {
            assert(c[i] == code[i - k]);
        }
    }
    assert(c[k + p] == code[p]);
    lemma_index_of_first_is(c, SEPARATOR, k + p);
    assert forall|i: int| 0 <= i < c.len() implies c[i] != PADDING_CHAR by {
        if i < k {
            assert(c[i] == prefix[i]);
        } else {
            assert(c[i] == code[i - k]);
        }
    }
    lemma_index_of_first_is(c, PADDING_CHAR, c.len() as int);
    assert forall|i: int| k + p < i < c.len() implies c[i] != SEPARATOR by {
        assert(c[i] == code[i - k]);
    }
    assert forall|i: int| 0 <= i < c.len() && i != k + p implies is_code_symbol(c[i]) by {
        if i < k {
            assert(c[i] == prefix[i]);
        } else {
            assert(c[i] == code[i - k]);
        }
    }
}

/// The characters of the prefix of `code_length` characters that the reference position
/// `pt` gives.
pub fn prefix_chars(pt: Point, code_length: usize) -> (prefix: Vec<char>)
    requires
        code_length <= PAIR_CODE_LENGTH + 1,
    ensures
        prefix@ == reference_prefix(pt, code_length as int),
{
    let precision = compute_latitude_precision(code_length);
    let lat = clip_latitude(pt.lat);
    let lng = normalize_longitude(pt.lng);
    let corner = Point::new(
        lng - floor_mod(lng, precision),
        lat - floor_mod(lat, precision),
    );
    let mut code = encode_chars(corner, PAIR_CODE_LENGTH);
    assert(code@.len() == PAIR_CODE_LENGTH + 1);
    code.truncate(code_length);
    assert(code@ =~= reference_prefix(pt, code_length as int));
    code
}

/// The first `code_length` characters of the code of the cell of `code_length` digits in
/// which the reference position `pt` lies.
pub fn prefix_by_reference(pt: Point, code_length: usize) -> (prefix: String)
    requires
        code_length <= PAIR_CODE_LENGTH + 1,
    ensures
        prefix@ == reference_prefix(pt, code_length as int),
{
    let chars = prefix_chars(pt, code_length);
    chars_to_string(&chars)
}

/// The characters `v` with every ASCII lower-case letter replaced by its capital.
pub fn to_upper_case(v: &Vec<char>) -> (r: Vec<char>)
    ensures
        r@ == upper_case(v@),
{
    let mut r: Vec<char> = Vec::new();
    let mut i: usize = 0;
    while i < v.len()
        invariant
            i <= v.len(),
            r@ == upper_case(v@.take(i as int)),
        decreases v.len() - i,
    {
        r.push(to_upper(v[i]));
        i += 1;
        assert(r@ =~= upper_case(v@.take(i as int)));
    }
    assert(v@.take(v.len() as int) =~= v@);
    r
}

/// Recovers the full code nearest to the reference position `ref_pt` that ends in the
/// short code `code`. A full code comes back in capitals.
pub fn recover_nearest(code: &str, ref_pt: Point) -> (r: Result<String, Error>)
    ensures
        full_code(code@) ==> (r matches Ok(s) && s@ == upper_case(code@)),
        short_code(code@) ==> (r matches Ok(s) && s@ == recovered(code@, ref_pt)),
        !valid_code(code@) ==> r == Err::<String, Error>(Error::InvalidShortCode),
{
    let v = to_chars(code);
    if !valid_chars(&v) {
        return Err(Error::InvalidShortCode);
    }
    let p = find_char(&v, SEPARATOR);
    proof {
        lemma_index_of_first(v@, SEPARATOR);
    }
    if p >= SEPARATOR_POSITION {
        let capitals = to_upper_case(&v);
        return Ok(chars_to_string(&capitals));
    }
    let prefix_len = SEPARATOR_POSITION - p;
    let mut candidate = prefix_chars(ref_pt, prefix_len);
    let ghost prefix = candidate@;
    proof {
        let cell = latitude_precision(prefix_len as int);
        lemma_prefix_is_digits(
            floor_to(clipped_latitude(ref_pt.lat as int), cell),
            floor_to(normalized_longitude(ref_pt.lng as int), cell),
            prefix_len as int,
        );
        lemma_completed_is_full(prefix, v@);
    }
    let mut i: usize = 0;
    while i < v.len()
        invariant
            i <= v.len(),
            candidate@ == prefix + v@.take(i as int),
        decreases v.len() - i,
    {
        candidate.push(v[i]);
        i += 1;
        assert(candidate@ =~= prefix + v@.take(i as int));
    }
    assert(v@.take(v.len() as int) =~= v@);
    let area = decode_chars(&candidate);
    let ghost ds = code_digits(candidate@);
    proof {
        lemma_center_in_range(ds);
        lemma_cells(ds.len() as int);
        lemma_cells(prefix_len as int);
        assert(LAT_STEP_UNITS == 2048 && LNG_STEP_UNITS == 6250);
        assert(area.center.lat == center_lat(ds));
        assert(area.center.lng == center_lng(ds));
    }
    let resolution = compute_latitude_precision(prefix_len);
    let half_res = resolution / 2;
    let mut latitude = area.center.lat;
    let mut longitude = area.center.lng;
    let ref_lat = clip_latitude(ref_pt.lat);
    let ref_lng = normalize_longitude(ref_pt.lng);
    if ref_lat + half_res < latitude && latitude - resolution >= -LATITUDE_MAX {
        latitude -= resolution;
    } else if ref_lat - half_res > latitude && latitude + resolution <= LATITUDE_MAX {
        latitude += resolution;
    }
    if ref_lng + half_res < longitude {
        longitude -= resolution;
    } else if ref_lng - half_res > longitude {
        longitude += resolution;
    }
    let full = encode_chars(Point::new(longitude, latitude), area.code_length);
    Ok(chars_to_string(&full))
}

} // verus!
