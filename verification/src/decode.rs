//! From a full code to the cell that it names.

use crate::codearea::CodeArea;
use crate::consts::{
    code_value, digit_value, is_code_symbol, to_upper, upper, LATITUDE_MAX, LAT_STEP_UNITS,
    LNG_STEP_UNITS, LONGITUDE_MAX, MAX_CODE_LENGTH, PADDING_CHAR, PAIR_CODE_LENGTH, SEPARATOR,
    SEPARATOR_POSITION,
};
use crate::coords::{lat_cell_steps, latitude_precision, lng_cell_steps, longitude_precision};
use crate::error::Error;
use crate::grid::{
    all_digits, lat_steps, lemma_cells, lemma_steps_bounds, lemma_steps_of_prefix, lng_steps,
};
use crate::validity::{
    find_char, full_code, lemma_index_of_first, to_chars, valid_chars, valid_code,
};
use vstd::prelude::*;

verus! {

/// `c` is neither the separator nor padding.
pub open spec fn is_significant(c: char) -> bool {
    c != SEPARATOR && c != PADDING_CHAR
}

/// The characters of `s` without separator and padding.
pub open spec fn significant(s: Seq<char>) -> Seq<char> {
    s.filter(|c: char| is_significant(c))
}

/// The values of the digits of the code `s`: of the first fifteen, where it has more.
pub open spec fn code_digits(s: Seq<char>) -> Seq<int> {
    let sig = significant(s);
    Seq::new(
        if sig.len() < MAX_CODE_LENGTH {
            sig.len()
        } else {
            MAX_CODE_LENGTH as nat
        },
        |i: int| digit_value(upper(sig[i])),
    )
}

/// The southern edge of the cell that the first `k` of the digits `ds` name, in units.
pub open spec fn corner_lat(ds: Seq<int>, k: int) -> int {
    LAT_STEP_UNITS * lat_steps(ds, k) - LATITUDE_MAX
}

/// The western edge of the cell that the first `k` of the digits `ds` name, in units.
pub open spec fn corner_lng(ds: Seq<int>, k: int) -> int {
    LNG_STEP_UNITS * lng_steps(ds, k) - LONGITUDE_MAX
}

/// The latitude of the centre of the cell that the digits `ds` name, in units.
pub open spec fn center_lat(ds: Seq<int>) -> int {
    corner_lat(ds, ds.len() as int) + latitude_precision(ds.len() as int) / 2
}

/// The longitude of the centre of the cell that the digits `ds` name, in units.
pub open spec fn center_lng(ds: Seq<int>) -> int {
    corner_lng(ds, ds.len() as int) + longitude_precision(ds.len() as int) / 2
}

/// `a` is the cell that the digits `ds` name: its southern and western edges are where the
/// digits lead, its height and width are those of a code of as many digits, and its centre
/// lies halfway between its edges.
pub open spec fn is_cell_of(a: CodeArea, ds: Seq<int>) -> bool {
    &&& a.code_length == ds.len()
    &&& a.south == corner_lat(ds, ds.len() as int)
    &&& a.north == a.south + latitude_precision(ds.len() as int)
    &&& a.west == corner_lng(ds, ds.len() as int)
    &&& a.east == a.west + longitude_precision(ds.len() as int)
    &&& 2 * a.center.lat == a.south + a.north
    &&& 2 * a.center.lng == a.west + a.east
}

/// What one more character adds to the characters without separator and padding.
pub proof fn lemma_significant_step(s: Seq<char>, i: int)
    requires
        0 <= i < s.len(),
    ensures
        significant(s.take(i + 1)) == if is_significant(s[i]) {
            significant(s.take(i)).push(s[i])
        } else {
            significant(s.take(i))
        },
{
    reveal(Seq::filter);
    assert(s.take(i + 1).drop_last() =~= s.take(i));
}

/// In a code, every character besides separator and padding stands for a digit.
pub proof fn lemma_significant_is_symbol(s: Seq<char>, i: int)
    requires
        valid_code(s),
        0 <= i < s.len(),
        is_significant(s[i]),
    ensures
        is_code_symbol(s[i]),
{
    lemma_index_of_first(s, SEPARATOR);
    lemma_index_of_first(s, PADDING_CHAR);
}

/// The cell that the full code `v` names.
pub fn decode_chars(v: &Vec<char>) -> (a: CodeArea)
    requires
        full_code(v@),
    ensures
        is_cell_of(a, code_digits(v@)),
        a.is_cell(),
        all_digits(code_digits(v@)),
{
    let mut lat: i64 = 0;
    let mut lng: i64 = 0;
    let mut n: usize = 0;
    let mut i: usize = 0;
    let ghost mut ds: Seq<int> = Seq::empty();
    assert(significant(v@.take(0)) =~= Seq::<char>::empty()) by {
        reveal(Seq::filter);
    }
    assert(code_digits(v@.take(0)) =~= ds);
    while i < v.len()
        invariant
            i <= v.len(),
            full_code(v@),
            ds == code_digits(v@.take(i as int)),
            n == ds.len(),
            n <= MAX_CODE_LENGTH,
            all_digits(ds),
            lat == lat_steps(ds, n as int),
            lng == lng_steps(ds, n as int),
        decreases v.len() - i,
    {
        let c = v[i];
        proof {
            lemma_significant_step(v@, i as int);
            lemma_steps_bounds(ds, n as int);
        }
        if c != SEPARATOR && c != PADDING_CHAR && n < MAX_CODE_LENGTH {
            proof {
                lemma_significant_is_symbol(v@, i as int);
            }
            let d = code_value(to_upper(c)) as i64;
            let lat_side = lat_cell_steps(n + 1);
            let lng_side = lng_cell_steps(n + 1);
            proof {
                let next = ds.push(d as int);
                assert(code_digits(v@.take(i + 1)) =~= next);
                lemma_steps_of_prefix(ds, next, n as int);
                assert(all_digits(next));
                lemma_steps_bounds(next, n + 1);
                ds = next;
            }
            if n >= PAIR_CODE_LENGTH {
                lat = lat + (d / 4) * lat_side;
                lng = lng + (d % 4) * lng_side;
            } else if n % 2 == 0 {
                lat = lat + d * lat_side;
            } else {
                lng = lng + d * lng_side;
            }
            n = n + 1;
        } else {
            assert(code_digits(v@.take(i + 1)) =~= ds);
        }
        i = i + 1;
    }
    assert(v@.take(v.len() as int) =~= v@);
    proof {
        lemma_steps_bounds(ds, n as int);
        lemma_cells(n as int);
    }
    let south = lat * LAT_STEP_UNITS - LATITUDE_MAX;
    let west = lng * LNG_STEP_UNITS - LONGITUDE_MAX;
    let north = south + LAT_STEP_UNITS * lat_cell_steps(n);
    let east = west + LNG_STEP_UNITS * lng_cell_steps(n);
    CodeArea::new(south, west, north, east, n)
}

/// Decodes a full code into the cell that it names. Of a code of more than fifteen digits
/// the first fifteen count.
pub fn decode(code: &str) -> (r: Result<CodeArea, Error>)
    ensures
        match r {
            Ok(a) => full_code(code@) && is_cell_of(a, code_digits(code@)) && a.is_cell()
                && all_digits(code_digits(code@)),
            Err(e) => !full_code(code@) && e == Error::InvalidCode,
        },
{
    let v = to_chars(code);
    if !valid_chars(&v) || find_char(&v, SEPARATOR) < SEPARATOR_POSITION {
        return Err(Error::InvalidCode);
    }
    Ok(decode_chars(&v))
}

} // verus!
