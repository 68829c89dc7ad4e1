//! The place values of the digits of a code.
//!
//! A position on the globe is counted in *steps* from the south pole and from the
//! antimeridian: a latitude step is the height, and a longitude step the width, of the cell
//! of a code of fifteen digits. The first ten digits of a code come in pairs, a latitude
//! digit and then a longitude digit, each of radix 20. Each of the five digits after them
//! names one cell of a grid of five rows and four columns: its value is the row times four
//! plus the column.

use vstd::arithmetic::div_mod::{
    lemma_div_denominator, lemma_fundamental_div_mod, lemma_fundamental_div_mod_converse,
};
use vstd::prelude::*;

verus! {

/// The height in latitude steps of the cell of a code of `n` digits: `5^5 * 20^(5 - k)`
/// where `k` is the number of latitude digits among the first `n` of the pair section, and
/// `5^(15 - n)` in the grid section.
pub open spec fn lat_cell(n: int) -> int {
    if n <= 0 {
        10_000_000_000
    } else if n <= 2 {
        500_000_000
    } else if n <= 4 {
        25_000_000
    } else if n <= 6 {
        1_250_000
    } else if n <= 8 {
        62_500
    } else if n <= 10 {
        3125
    } else if n == 11 {
        625
    } else if n == 12 {
        125
    } else if n == 13 {
        25
    } else if n == 14 {
        5
    } else {
        1
    }
}

/// The width in longitude steps of the cell of a code of `n` digits: `4^5 * 20^(5 - k)`
/// where `k` is the number of longitude digits among the first `n` of the pair section,
/// and `4^(15 - n)` in the grid section.
pub open spec fn lng_cell(n: int) -> int {
    if n <= 1 {
        3_276_800_000
    } else if n <= 3 {
        163_840_000
    } else if n <= 5 {
        8_192_000
    } else if n <= 7 {
        409_600
    } else if n <= 9 {
        20_480
    } else if n == 10 {
        1024
    } else if n == 11 {
        256
    } else if n == 12 {
        64
    } else if n == 13 {
        16
    } else if n == 14 {
        4
    } else {
        1
    }
}

/// The value of the digit at position `i` of the code of the position that lies `lat`
/// latitude steps and `lng` longitude steps from the origin.
pub open spec fn code_digit(lat: int, lng: int, i: int) -> int {
    if i >= 10 {
        (lat / lat_cell(i + 1)) % 5 * 4 + (lng / lng_cell(i + 1)) % 4
    } else if i % 2 == 0 {
        (lat / lat_cell(i + 1)) % 20
    } else {
        (lng / lng_cell(i + 1)) % 20
    }
}

/// What a digit of value `d` at position `i` adds to the latitude, in cells of a code of
/// `i + 1` digits.
pub open spec fn lat_part(d: int, i: int) -> int {
    if i >= 10 {
        d / 4
    } else if i % 2 == 0 {
        d
    } else {
        0
    }
}

/// What a digit of value `d` at position `i` adds to the longitude, in cells of a code of
/// `i + 1` digits.
pub open spec fn lng_part(d: int, i: int) -> int {
    if i >= 10 {
        d % 4
    } else if i % 2 == 0 {
        0
    } else {
        d
    }
}

/// The latitude steps from the south pole to the southern edge of the cell that the first
/// `n` of the digits `ds` name.
pub open spec fn lat_steps(ds: Seq<int>, n: int) -> int
    decreases n,
{
    if n <= 0 {
        0
    } else {
        lat_steps(ds, n - 1) + lat_part(ds[n - 1], n - 1) * lat_cell(n)
    }
}

/// The longitude steps from the antimeridian to the western edge of the cell that the first
/// `n` of the digits `ds` name.
pub open spec fn lng_steps(ds: Seq<int>, n: int) -> int
    decreases n,
{
    if n <= 0 {
        0
    } else {
        lng_steps(ds, n - 1) + lng_part(ds[n - 1], n - 1) * lng_cell(n)
    }
}

/// Every member of `ds` is a digit value.
pub open spec fn all_digits(ds: Seq<int>) -> bool {
    forall|i: int| 0 <= i < ds.len() ==> 0 <= #[trigger] ds[i] < 20
}

/// Each cell is a whole number of the cells one digit finer, and even the coarsest cells
/// fit the machine integers many times over.
pub proof fn lemma_cells(n: int)
    ensures
        1 <= lat_cell(n) <= 10_000_000_000,
        1 <= lng_cell(n) <= 3_276_800_000,
        n >= 15 ==> lat_cell(n) == 1 && lng_cell(n) == 1,
        0 <= n < 10 && n % 2 == 0 ==> lat_cell(n) == 20 * lat_cell(n + 1) && lng_cell(n)
            == lng_cell(n + 1),
        0 <= n < 10 && n % 2 == 1 ==> lat_cell(n) == lat_cell(n + 1) && lng_cell(n) == 20
            * lng_cell(n + 1),
        10 <= n < 15 ==> lat_cell(n) == 5 * lat_cell(n + 1) && lng_cell(n) == 4 * lng_cell(
            n + 1,
        ),
{
}

/// The globe, 180 degrees of latitude by 360 degrees of longitude, is a whole number of
/// cells high and wide, for the cells of every code of two digits or more.
pub proof fn lemma_cells_fill_globe(n: int)
    requires
        n >= 2,
    ensures
        4_500_000_000int % lat_cell(n) == 0,
        2_949_120_000int % lng_cell(n) == 0,
{
}

/// The steps of the first `n` digits depend on those digits alone.
pub proof fn lemma_steps_of_prefix(a: Seq<int>, b: Seq<int>, n: int)
    requires
        0 <= n <= a.len(),
        n <= b.len(),
        forall|i: int| 0 <= i < n ==> a[i] == b[i],
    ensures
        lat_steps(a, n) == lat_steps(b, n),
        lng_steps(a, n) == lng_steps(b, n),
    decreases n,
{
    if n > 0 {
        lemma_steps_of_prefix(a, b, n - 1);
    }
}

/// The cell that `n` digits name lies within the cell that the first `n - 1` of them name,
/// and so within twenty times the globe; and its edges are whole multiples of its sides.
pub proof fn lemma_steps_bounds(ds: Seq<int>, n: int)
    requires
        all_digits(ds),
        0 <= n <= ds.len(),
        n <= 15,
    ensures
        0 <= lat_steps(ds, n),
        lat_steps(ds, n) + lat_cell(n) <= lat_cell(0),
        0 <= lng_steps(ds, n),
        lng_steps(ds, n) + lng_cell(n) <= lng_cell(0),
        n > 0 ==> lat_steps(ds, n - 1) <= lat_steps(ds, n) && lat_steps(ds, n) + lat_cell(n)
            <= lat_steps(ds, n - 1) + lat_cell(n - 1),
        n > 0 ==> lng_steps(ds, n - 1) <= lng_steps(ds, n) && lng_steps(ds, n) + lng_cell(n)
            <= lng_steps(ds, n - 1) + lng_cell(n - 1),
    decreases n,
{
    if n > 0 {
        lemma_steps_bounds(ds, n - 1);
        lemma_cells(n - 1);
        let d = ds[n - 1];
        assert(0 <= d < 20);
        let a = lat_part(d, n - 1);
        let b = lng_part(d, n - 1);
        let ra: int = if n - 1 >= 10 { 5 } else if (n - 1) % 2 == 0 { 20 } else { 1 };
        let rb: int = if n - 1 >= 10 { 4 } else if (n - 1) % 2 == 0 { 1 } else { 20 };
        assert(0 <= a < ra);
        assert(0 <= b < rb);
        assert(lat_cell(n - 1) == ra * lat_cell(n));
        assert(lng_cell(n - 1) == rb * lng_cell(n));
        lemma_scaled_digit(a, ra, lat_cell(n));
        lemma_scaled_digit(b, rb, lng_cell(n));
    }
}

/// A digit below the radix `r`, scaled by `c`, leaves room for one more `c` below `r * c`.
pub proof fn lemma_scaled_digit(a: int, r: int, c: int)
    requires
        0 <= a < r,
        0 < c,
    ensures
        0 <= a * c,
        a * c + c <= r * c,
{
    assert(0 <= a * c && a * c + c <= r * c) by (nonlinear_arith)
        requires
            0 <= a < r,
            0 < c,
    ;
}

/// The radix of the latitude part of the digit at position `i`: 20 where the digit is a
/// latitude digit of the pair section, 5 in the grid section, and 1 where the digit holds
/// no latitude.
pub open spec fn lat_radix(i: int) -> int {
    if i >= 10 {
        5
    } else if i % 2 == 0 {
        20
    } else {
        1
    }
}

/// The radix of the longitude part of the digit at position `i`: 20 where the digit is a
/// longitude digit of the pair section, 4 in the grid section, and 1 where the digit holds
/// no longitude.
pub open spec fn lng_radix(i: int) -> int {
    if i >= 10 {
        4
    } else if i % 2 == 0 {
        1
    } else {
        20
    }
}

/// A whole multiple `l` of `r * c`, with `a * c` added for a digit `a` below `r`, is a
/// whole multiple of `c`, and the last digit to the radix `r` of that multiple is `a`.
pub proof fn lemma_digit_of_sum(l: int, a: int, r: int, c: int)
    requires
        0 < c,
        0 < r,
        0 <= a < r,
        l % (r * c) == 0,
    ensures
        (l + a * c) % c == 0,
        ((l + a * c) / c) % r == a,
{
    assert(0 < r * c) by (nonlinear_arith)
        requires
            0 < c,
            0 < r,
    ;
    let m = l / (r * c);
    lemma_fundamental_div_mod(l, r * c);
    assert(l + a * c == (m * r + a) * c + 0) by (nonlinear_arith)
        requires
            l == (r * c) * m,
    ;
    lemma_fundamental_div_mod_converse(l + a * c, c, m * r + a, 0);
    lemma_fundamental_div_mod_converse(m * r + a, r, m, a);
}

/// Every position from a whole multiple `l` of `c` up to, not including, the next one has
/// the quotient of `l` by `c`.
pub proof fn lemma_same_cell(x: int, l: int, c: int)
    requires
        0 < c,
        l % c == 0,
        l <= x < l + c,
    ensures
        x / c == l / c,
{
    let k = l / c;
    lemma_fundamental_div_mod(l, c);
    assert(x == k * c + (x - l)) by (nonlinear_arith)
        requires
            l == c * k,
    ;
    lemma_fundamental_div_mod_converse(x, c, k, x - l);
}

/// The edge of the cell that `j` digits name is a whole number of such cells away from the
/// origin, and the last digit of that number is the part of the digit at position `j - 1`.
pub proof fn lemma_steps_digits(ds: Seq<int>, j: int)
    requires
        all_digits(ds),
        0 <= j <= ds.len(),
        j <= 15,
    ensures
        lat_steps(ds, j) % lat_cell(j) == 0,
        lng_steps(ds, j) % lng_cell(j) == 0,
        j > 0 ==> (lat_steps(ds, j) / lat_cell(j)) % lat_radix(j - 1) == lat_part(
            ds[j - 1],
            j - 1,
        ),
        j > 0 ==> (lng_steps(ds, j) / lng_cell(j)) % lng_radix(j - 1) == lng_part(
            ds[j - 1],
            j - 1,
        ),
    decreases j,
{
    if j > 0 {
        lemma_steps_digits(ds, j - 1);
        lemma_cells(j - 1);
        lemma_cells(j);
        let d = ds[j - 1];
        assert(0 <= d < 20);
        lemma_digit_of_sum(
            lat_steps(ds, j - 1),
            lat_part(d, j - 1),
            lat_radix(j - 1),
            lat_cell(j),
        );
        lemma_digit_of_sum(
            lng_steps(ds, j - 1),
            lng_part(d, j - 1),
            lng_radix(j - 1),
            lng_cell(j),
        );
    }
}

/// The cell that `n` digits name lies within the cell that the first `j` of them name.
pub proof fn lemma_nested_cells(ds: Seq<int>, j: int, n: int)
    requires
        all_digits(ds),
        0 <= j <= n <= ds.len(),
        n <= 15,
    ensures
        lat_steps(ds, j) <= lat_steps(ds, n),
        lat_steps(ds, n) + lat_cell(n) <= lat_steps(ds, j) + lat_cell(j),
        lng_steps(ds, j) <= lng_steps(ds, n),
        lng_steps(ds, n) + lng_cell(n) <= lng_steps(ds, j) + lng_cell(j),
    decreases n - j,
{
    if j < n {
        lemma_steps_bounds(ds, n);
        lemma_nested_cells(ds, j, n - 1);
    }
}

/// The digits of the code of a position within the cell that the digits `ds` name are, as
/// far as they reach, the digits `ds`.
pub proof fn lemma_digits_of_cell(ds: Seq<int>, lat: int, lng: int, i: int)
    requires
        all_digits(ds),
        ds.len() <= 15,
        0 <= i < ds.len(),
        lat_steps(ds, ds.len() as int) <= lat < lat_steps(ds, ds.len() as int) + lat_cell(
            ds.len() as int,
        ),
        lng_steps(ds, ds.len() as int) <= lng < lng_steps(ds, ds.len() as int) + lng_cell(
            ds.len() as int,
        ),
    ensures
        code_digit(lat, lng, i) == ds[i],
{
    let n = ds.len() as int;
    lemma_nested_cells(ds, i + 1, n);
    lemma_steps_digits(ds, i + 1);
    lemma_cells(i + 1);
    lemma_same_cell(lat, lat_steps(ds, i + 1), lat_cell(i + 1));
    lemma_same_cell(lng, lng_steps(ds, i + 1), lng_cell(i + 1));
    let d = ds[i];
    assert(0 <= d < 20);
}

/// Where two sequences of digits agree from position `k` up to `n`, the cells that `n` of
/// their digits name lie at the same place within the cells that `k` of them name.
pub proof fn lemma_steps_of_suffix(a: Seq<int>, b: Seq<int>, k: int, n: int)
    requires
        0 <= k <= n <= a.len(),
        n <= b.len(),
        forall|i: int| k <= i < n ==> a[i] == b[i],
    ensures
        lat_steps(a, n) - lat_steps(a, k) == lat_steps(b, n) - lat_steps(b, k),
        lng_steps(a, n) - lng_steps(a, k) == lng_steps(b, n) - lng_steps(b, k),
    decreases n - k,
{
    if k < n {
        lemma_steps_of_suffix(a, b, k, n - 1);
    }
}

/// Rounding `x` down to a multiple of `c` is rounding it down to a multiple of `r * c` and
/// adding `c` as often as the last digit to the radix `r` of the quotient of `x` by `c`
/// says.
pub proof fn lemma_floor_refine(x: int, r: int, c: int)
    requires
        0 <= x,
        0 < r,
        0 < c,
    ensures
        (x / (r * c)) * (r * c) + ((x / c) % r) * c == (x / c) * c,
{
    lemma_div_denominator(x, c, r);
    let t = x / c;
    lemma_fundamental_div_mod(t, r);
    assert((t / r) * (r * c) + (t % r) * c == t * c) by (nonlinear_arith)
        requires
            t == r * (t / r) + t % r,
    ;
    assert(r * c == c * r) by (nonlinear_arith);
}

/// The digits of the code of a position name the cell in which the position lies: the
/// corner that the first `k` digits lead to is the position, rounded down to whole cells
/// of a code of `k` digits.
pub proof fn lemma_steps_of_code_digits(lat: int, lng: int, ds: Seq<int>, k: int)
    requires
        0 <= lat < lat_cell(0),
        0 <= lng < lng_cell(0),
        0 <= k <= ds.len(),
        k <= 15,
        forall|i: int| 0 <= i < k ==> ds[i] == code_digit(lat, lng, i),
    ensures
        lat_steps(ds, k) == (lat / lat_cell(k)) * lat_cell(k),
        lng_steps(ds, k) == (lng / lng_cell(k)) * lng_cell(k),
    decreases k,
{
    if k > 0 {
        lemma_steps_of_code_digits(lat, lng, ds, k - 1);
        lemma_cells(k - 1);
        lemma_cells(k);
        let d = ds[k - 1];
        assert(d == code_digit(lat, lng, k - 1));
        lemma_floor_refine(lat, lat_radix(k - 1), lat_cell(k));
        lemma_floor_refine(lng, lng_radix(k - 1), lng_cell(k));
        assert(lat_radix(k - 1) * lat_cell(k) == lat_cell(k - 1));
        assert(lng_radix(k - 1) * lng_cell(k) == lng_cell(k - 1));
        assert(lat_part(d, k - 1) == (lat / lat_cell(k)) % lat_radix(k - 1));
        assert(lng_part(d, k - 1) == (lng / lng_cell(k)) % lng_radix(k - 1));
    }
}

} // verus!
