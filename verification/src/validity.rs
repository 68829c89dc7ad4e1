//! Which strings are codes, and which codes are short or full.

use crate::consts::{
    digit_value, is_alphabet_char, is_code_symbol, lemma_alphabet, to_upper, upper, CODE_ALPHABET,
    PADDING_CHAR, SEPARATOR, SEPARATOR_POSITION,
};
use vstd::prelude::*;

verus! {

/// The position of the first `c` in `s`, or the length of `s` where `c` does not occur.
pub open spec fn index_of_first(s: Seq<char>, c: char) -> int
    decreases s.len(),
{
    if s.len() == 0 || s[0] == c {
        0
    } else {
        1 + index_of_first(s.drop_first(), c)
    }
}

/// `index_of_first(s, c)` is a position of `s` or its length, no `c` stands before it, and
/// where it is a position, `c` stands there.
pub proof fn lemma_index_of_first(s: Seq<char>, c: char)
    ensures
        0 <= index_of_first(s, c) <= s.len(),
        forall|i: int| 0 <= i < index_of_first(s, c) ==> s[i] != c,
        index_of_first(s, c) < s.len() ==> s[index_of_first(s, c)] == c,
    decreases s.len(),
{
    if s.len() != 0 && s[0] != c {
        let t = s.drop_first();
        lemma_index_of_first(t, c);
        assert forall|i: int| 0 <= i < index_of_first(s, c) implies s[i] != c by {
            if i > 0 {
                assert(s[i] == t[i - 1]);
            }
        }
        if index_of_first(s, c) < s.len() {
            assert(s[index_of_first(s, c)] == t[index_of_first(t, c)]);
        }
    }
}

/// The one position `k` before which `s` holds no `c`, and which holds `c` or ends `s`, is
/// `index_of_first(s, c)`.
pub proof fn lemma_index_of_first_is(s: Seq<char>, c: char, k: int)
    requires
        0 <= k <= s.len(),
        forall|i: int| 0 <= i < k ==> s[i] != c,
        k < s.len() ==> s[k] == c,
    ensures
        index_of_first(s, c) == k,
{
    lemma_index_of_first(s, c);
    let f = index_of_first(s, c);
    if f < k {
        assert(s[f] != c);
    }
}

/// `s` is a code: it has three characters or more; one separator, at an even position not
/// beyond the eighth; after the separator no character or at least two; padding, if any,
/// only where the separator stands at the eighth position and ends the string, as one block
/// that starts at an even position other than the first and runs up to the separator; and
/// besides separator and padding only symbols of the alphabet, in either case.
pub open spec fn valid_code(s: Seq<char>) -> bool {
    let p = index_of_first(s, SEPARATOR);
    let q = index_of_first(s, PADDING_CHAR);
    &&& s.len() >= 3
    &&& p < s.len()
    &&& forall|i: int| p < i < s.len() ==> s[i] != SEPARATOR
    &&& p % 2 == 0
    &&& p <= SEPARATOR_POSITION
    &&& s.len() - p - 1 != 1
    &&& q < s.len() ==> {
        &&& p == SEPARATOR_POSITION
        &&& q != 0
        &&& q % 2 == 0
        &&& s.len() == p + 1
        &&& forall|i: int| q <= i < p ==> s[i] == PADDING_CHAR
    }
    &&& forall|i: int| 0 <= i < s.len() && i != p && !(q <= i < p) ==> is_code_symbol(s[i])
}

/// `s` is a short code: a code whose separator stands before the eighth position.
pub open spec fn short_code(s: Seq<char>) -> bool {
    valid_code(s) && index_of_first(s, SEPARATOR) < SEPARATOR_POSITION
}

/// `s` is a full code: a code that is not short.
pub open spec fn full_code(s: Seq<char>) -> bool {
    valid_code(s) && !short_code(s)
}

/// The characters of `s`, one by one.
pub fn to_chars(s: &str) -> (v: Vec<char>)
    ensures
        v@ == s@,
{
    let mut v: Vec<char> = Vec::new();
    for c in it: s.chars()
        invariant
            it.seq() == s@,
            v@ =~= s@.take(it.index()),
    {
        v.push(c);
    }
    assert(v@ =~= s@);
    v
}

/// The position of the first `c` in `v`, or the length of `v` where `c` does not occur.
pub fn find_char(v: &Vec<char>, c: char) -> (k: usize)
    ensures
        k == index_of_first(v@, c),
{
    let mut k: usize = 0;
    while k < v.len() && v[k] != c
        invariant
            k <= v.len(),
            forall|i: int| 0 <= i < k ==> v[i] != c,
        decreases v.len() - k,
    {
        k += 1;
    }
    proof {
        lemma_index_of_first_is(v@, c, k as int);
    }
    k
}

/// Whether `c` stands for a digit, in either case.
pub fn is_symbol(c: char) -> (b: bool)
    ensures
        b == is_code_symbol(c),
{
    let u = to_upper(c);
    proof {
        lemma_alphabet();
    }
    let mut i: usize = 0;
    while i < 20
        invariant
            i <= 20,
            u == upper(c),
            forall|j: int| 0 <= j < i ==> CODE_ALPHABET[j] != u,
            forall|c: char| is_alphabet_char(c) ==> CODE_ALPHABET[digit_value(c)] == c,
            forall|i: int| 0 <= i < 20 ==> digit_value(#[trigger] CODE_ALPHABET[i]) == i,
        decreases 20 - i,
    {
        if CODE_ALPHABET[i] == u {
            return true;
        }
        i += 1;
    }
    false
}

/// Whether the characters `v` make up a code.
pub fn valid_chars(v: &Vec<char>) -> (b: bool)
    ensures
        b == valid_code(v@),
{
    let n = v.len();
    if n < 3 {
        return false;
    }
    let p = find_char(v, SEPARATOR);
    if p >= n {
        return false;
    }
    let mut i: usize = p + 1;
    while i < n
        invariant
            p < i <= n,
            n == v.len(),
            p == index_of_first(v@, SEPARATOR),
            forall|j: int| p < j < i ==> v[j] != SEPARATOR,
        decreases n - i,
    {
        if v[i] == SEPARATOR {
            return false;
        }
        i += 1;
    }
    if p % 2 == 1 || p > SEPARATOR_POSITION {
        return false;
    }
    if n - p - 1 == 1 {
        return false;
    }
    let q = find_char(v, PADDING_CHAR);
    if q < n {
        if p < SEPARATOR_POSITION || q == 0 || q % 2 == 1 || n > p + 1 {
            return false;
        }
        let mut j: usize = q;
        while j < p
            invariant
                q <= j,
                p < n,
                n == v.len(),
                p == index_of_first(v@, SEPARATOR),
                q == index_of_first(v@, PADDING_CHAR),
                forall|k: int| q <= k < j ==> v[k] == PADDING_CHAR,
            decreases p - j,
        {
            if v[j] != PADDING_CHAR {
                return false;
            }
            j += 1;
        }
    }
    let mut k: usize = 0;
    while k < n
        invariant
            k <= n,
            n == v.len(),
            p == index_of_first(v@, SEPARATOR),
            q == index_of_first(v@, PADDING_CHAR),
            forall|j: int| 0 <= j < k && j != p && !(q <= j < p) ==> is_code_symbol(v[j]),
        decreases n - k,
    {
        if k != p && !(q <= k && k < p) && !is_symbol(v[k]) {
            return false;
        }
        k += 1;
    }
    true
}

/// Whether `code` is a code.
pub fn is_valid(code: &str) -> (b: bool)
    ensures
        b == valid_code(code@),
{
    let v = to_chars(code);
    valid_chars(&v)
}

/// Whether `code` is a short code: one from whose front digits were taken away, so that it
/// names a cell only together with a position nearby.
pub fn is_short(code: &str) -> (b: bool)
    ensures
        b == short_code(code@),
{
    let v = to_chars(code);
    valid_chars(&v) && find_char(&v, SEPARATOR) < SEPARATOR_POSITION
}

/// Whether `code` is a full code: one that names a cell by itself.
pub fn is_full(code: &str) -> (b: bool)
    ensures
        b == full_code(code@),
{
    let v = to_chars(code);
    valid_chars(&v) && find_char(&v, SEPARATOR) >= SEPARATOR_POSITION
}

} // verus!
