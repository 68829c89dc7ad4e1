//! Positions, and the cell that a code names.

use vstd::prelude::*;

verus! {

/// A position: latitude and longitude in units, see [`crate::consts::UNITS_PER_DEGREE`].
/// North and east are positive.
#[derive(Clone, Copy, Debug, PartialEq, Eq, Structural)]
pub struct Point {
    pub lat: i64,
    pub lng: i64,
}

impl Point {
    /// The position at longitude `lng` and latitude `lat`.
    pub fn new(lng: i64, lat: i64) -> (p: Point)
        ensures
            p.lng == lng,
            p.lat == lat,
    {
        Point { lat, lng }
    }

    /// The latitude.
    pub fn lat(&self) -> (v: i64)
        ensures
            v == self.lat,
    {
        self.lat
    }

    /// The longitude.
    pub fn lng(&self) -> (v: i64)
        ensures
            v == self.lng,
    {
        self.lng
    }
}

/// The whole number halfway between `a` and `b`, or the one just below that where their sum
/// is odd.
pub fn midpoint(a: i64, b: i64) -> (m: i64)
    ensures
        m == (a + b) / 2,
{
    let s: i128 = a as i128 + b as i128;
    if s >= 0 {
        (s / 2) as i64
    } else {
        (-((1 - s) / 2)) as i64
    }
}

/// A rectangle of latitude and longitude, in units, with its centre and the number of
/// digits of the code that names it.
#[derive(Clone, Copy, Debug, PartialEq, Eq, Structural)]
pub struct CodeArea {
    pub south: i64,
    pub west: i64,
    pub north: i64,
    pub east: i64,
    pub center: Point,
    pub code_length: usize,
}

impl CodeArea {
    /// The rectangle has height and width, and its centre is halfway between its edges.
    pub open spec fn is_cell(&self) -> bool {
        &&& self.south < self.north
        &&& self.west < self.east
        &&& 2 * self.center.lat == self.south + self.north
        &&& 2 * self.center.lng == self.west + self.east
    }

    /// The rectangle with the given edges. Its centre is the midpoint of the edges, rounded
    /// down to a whole unit.
    pub fn new(south: i64, west: i64, north: i64, east: i64, code_length: usize) -> (a: CodeArea)
        ensures
            a.south == south,
            a.west == west,
            a.north == north,
            a.east == east,
            a.code_length == code_length,
            a.center.lat == (south + north) / 2,
            a.center.lng == (west + east) / 2,
    {
        CodeArea {
            south,
            west,
            north,
            east,
            center: Point::new(midpoint(west, east), midpoint(south, north)),
            code_length,
        }
    }

    /// The rectangle whose edges and digit count are the sums of those of `self` and
    /// `other`: `other` is taken as an offset from `self`.
    pub fn merge(self, other: CodeArea) -> (a: CodeArea)
        requires
            i64::MIN <= self.south + other.south <= i64::MAX,
            i64::MIN <= self.west + other.west <= i64::MAX,
            i64::MIN <= self.north + other.north <= i64::MAX,
            i64::MIN <= self.east + other.east <= i64::MAX,
            self.code_length + other.code_length <= usize::MAX,
        ensures
            a.south == self.south + other.south,
            a.west == self.west + other.west,
            a.north == self.north + other.north,
            a.east == self.east + other.east,
            a.code_length == self.code_length + other.code_length,
            a.center.lat == (a.south + a.north) / 2,
            a.center.lng == (a.west + a.east) / 2,
    {
        CodeArea::new(
            self.south + other.south,
            self.west + other.west,
            self.north + other.north,
            self.east + other.east,
            self.code_length + other.code_length,
        )
    }
}

} // verus!
