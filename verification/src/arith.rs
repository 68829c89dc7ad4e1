//! Division that rounds down, for machine integers of either sign, and what holds of whole
//! multiples.

use vstd::arithmetic::div_mod::{
    lemma_div_multiples_vanish, lemma_fundamental_div_mod, lemma_fundamental_div_mod_converse,
    lemma_mod_bound, lemma_mod_multiples_basic, lemma_mod_multiples_vanish,
};
use vstd::prelude::*;

verus! {

/// The quotient of `a` by `b`, rounded down.
pub fn floor_div(a: i64, b: i64) -> (q: i64)
    requires
        b > 0,
    ensures
        q == a / b,
{
    if a >= 0 {
        a / b
    } else {
        let m: i64 = -(a + 1);
        let k: i64 = m / b;
        let r: i64 = m % b;
        proof {
            lemma_fundamental_div_mod(m as int, b as int);
            assert(a == (-k - 1) * b + (b - 1 - r)) by (nonlinear_arith)
                requires
                    m == b * k + r,
                    a == -m - 1,
            ;
            lemma_fundamental_div_mod_converse(a as int, b as int, -k - 1, b - 1 - r);
        }
        -k - 1
    }
}

/// The remainder of `a` by `b`, which lies from 0 up to, not including, `b`.
pub fn floor_mod(a: i64, b: i64) -> (r: i64)
    requires
        b > 0,
    ensures
        r == a % b,
        0 <= r < b,
{
    if a >= 0 {
        a % b
    } else {
        let m: i64 = -(a + 1);
        let k: i64 = m / b;
        let r: i64 = m % b;
        proof {
            lemma_fundamental_div_mod(m as int, b as int);
            assert(a == (-k - 1) * b + (b - 1 - r)) by (nonlinear_arith)
                requires
                    m == b * k + r,
                    a == -m - 1,
            ;
            lemma_fundamental_div_mod_converse(a as int, b as int, -k - 1, b - 1 - r);
        }
        b - 1 - r
    }
}

/// `x` rounded down to a whole multiple of `p`.
pub open spec fn floor_to(x: int, p: int) -> int {
    x - x % p
}

/// A position `v`, rounded down to whole cells of `c` steps of `s` units each and counted
/// in steps, is a whole number of such cells; and `v` lies in the cell that starts there.
pub proof fn lemma_floor_in_steps(v: int, s: int, c: int)
    requires
        0 < s,
        0 < c,
    ensures
        s * (((floor_to(v, s * c) / s) / c) * c) == floor_to(v, s * c),
        floor_to(v, s * c) <= v < floor_to(v, s * c) + s * c,
        floor_to(v, s * c) % (s * c) == 0,
{
    let p = s * c;
    assert(0 < p) by (nonlinear_arith)
        requires
            0 < s,
            0 < c,
            p == s * c,
    ;
    let q = v / p;
    lemma_fundamental_div_mod(v, p);
    lemma_mod_bound(v, p);
    let f = floor_to(v, p);
    assert(f == p * q);
    assert(f == s * (c * q)) by (nonlinear_arith)
        requires
            f == p * q,
            p == s * c,
    ;
    lemma_div_multiples_vanish(c * q, s);
    lemma_div_multiples_vanish(q, c);
    assert(s * (q * c) == f) by (nonlinear_arith)
        requires
            f == s * (c * q),
    ;
    lemma_mod_multiples_basic(q, p);
    assert(q * p == p * q) by (nonlinear_arith);
}

/// Rounding down to whole multiples of `p` goes along with a shift by a whole multiple of
/// `p`.
pub proof fn lemma_floor_shift(v: int, m: int, p: int)
    requires
        0 < p,
        m % p == 0,
    ensures
        floor_to(v + m, p) == floor_to(v, p) + m,
{
    lemma_fundamental_div_mod(m, p);
    lemma_mod_multiples_vanish(m / p, v, p);
}

/// Of two whole multiples of `p`, the greater one is at least `p` greater.
pub proof fn lemma_multiples_apart(a: int, b: int, p: int)
    requires
        0 < p,
        a % p == 0,
        b % p == 0,
        a < b,
    ensures
        a + p <= b,
{
    lemma_fundamental_div_mod(a, p);
    lemma_fundamental_div_mod(b, p);
    assert(a + p <= b) by (nonlinear_arith)
        requires
            a == p * (a / p),
            b == p * (b / p),
            a < b,
            0 < p,
    ;
}

/// Where `a` and `b` are whole multiples of `c`, `s` times their difference is a whole
/// multiple of `s * c`.
pub proof fn lemma_multiple_difference(a: int, b: int, c: int, s: int)
    requires
        0 < c,
        0 < s,
        a % c == 0,
        b % c == 0,
    ensures
        (s * (a - b)) % (s * c) == 0,
{
    lemma_fundamental_div_mod(a, c);
    lemma_fundamental_div_mod(b, c);
    let q = a / c - b / c;
    assert(s * (a - b) == q * (s * c)) by (nonlinear_arith)
        requires
            a == c * (a / c),
            b == c * (b / c),
            q == a / c - b / c,
    ;
    assert(0 < s * c) by (nonlinear_arith)
        requires
            0 < c,
            0 < s,
    ;
    lemma_mod_multiples_basic(q, s * c);
}

/// `s` times a whole multiple of `c` is a whole multiple of `s * c`.
pub proof fn lemma_scaled_multiple(q: int, c: int, s: int)
    requires
        0 < c,
        0 < s,
    ensures
        (s * (q * c)) % (s * c) == 0,
{
    assert(0 < s * c) by (nonlinear_arith)
        requires
            0 < c,
            0 < s,
    ;
    assert(s * (q * c) == q * (s * c)) by (nonlinear_arith);
    lemma_mod_multiples_basic(q, s * c);
}

/// Where cells of side `c` fill a span `whole` from the origin, the cell that holds a
/// position `x` within the span ends within the span.
pub proof fn lemma_cell_on_globe(x: int, c: int, whole: int)
    requires
        0 < c,
        0 <= x < whole,
        whole % c == 0,
    ensures
        (x / c) * c + c <= whole,
{
    lemma_fundamental_div_mod(x, c);
    lemma_fundamental_div_mod(whole, c);
    let q = x / c;
    let t = whole / c;
    assert(q < t) by (nonlinear_arith)
        requires
            x == c * q + x % c,
            whole == c * t,
            0 <= x % c,
            x < whole,
            0 < c,
    ;
    assert(q * c + c <= whole) by (nonlinear_arith)
        requires
            q + 1 <= t,
            whole == c * t,
            0 < c,
    ;
}

} // verus!
