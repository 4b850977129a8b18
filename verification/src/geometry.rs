//! Planar distance on fixed-point coordinates.
//!
//! Positions are pairs of `i32` that count a fixed decimal fraction of a
//! degree. Distances are Euclidean, in the same unit, rounded down to a whole
//! number, so that every comparison and every sum in the search is exact.

use vstd::prelude::*;

verus! {

/// `r` is the integer part of the square root of `n`.
pub open spec fn is_floor_sqrt(n: int, r: int) -> bool {
    &&& 0 <= r
    &&& r * r <= n
    &&& n < (r + 1) * (r + 1)
}

/// The integer part of the square root of `n`.
pub open spec fn floor_sqrt(n: nat) -> nat {
    choose|r: nat| is_floor_sqrt(n as int, r as int)
}

/// The sum of the squared coordinate differences of two positions.
pub open spec fn squared_distance(lat_a: int, lon_a: int, lat_b: int, lon_b: int) -> nat {
    ((lat_b - lat_a) * (lat_b - lat_a) + (lon_b - lon_a) * (lon_b - lon_a)) as nat
}

/// The Euclidean distance of two positions, rounded down.
pub open spec fn spec_distance(lat_a: int, lon_a: int, lat_b: int, lon_b: int) -> nat {
    floor_sqrt(squared_distance(lat_a, lon_a, lat_b, lon_b))
}

/// The largest distance that two `i32` positions can have, as a strict bound.
pub open spec fn distance_limit() -> nat {
    0x2_0000_0000
}

/// Squaring is monotone on the non-negative integers.
pub proof fn lemma_square_monotone(a: int, b: int)
    requires
        0 <= a <= b,
    ensures
        a * a <= b * b,
{
    assert(a * a <= b * b) by (nonlinear_arith)
        requires
            0 <= a <= b,
    ;
}

/// A number has at most one integer square root.
pub proof fn lemma_floor_sqrt_unique(n: int, a: int, b: int)
    requires
        is_floor_sqrt(n, a),
        is_floor_sqrt(n, b),
    ensures
        a == b,
{
    if a < b {
        lemma_square_monotone(a + 1, b);
    } else if b < a {
        lemma_square_monotone(b + 1, a);
    }
}

/// Whatever satisfies `is_floor_sqrt` is the value of `floor_sqrt`.
pub proof fn lemma_floor_sqrt_is(n: nat, r: nat)
    requires
        is_floor_sqrt(n as int, r as int),
    ensures
        floor_sqrt(n) == r,
{
    let c = choose|c: nat| is_floor_sqrt(n as int, c as int);
    lemma_floor_sqrt_unique(n as int, r as int, c as int);
}

/// Every number has an integer square root.
pub proof fn lemma_floor_sqrt_exists(n: nat)
    ensures
        is_floor_sqrt(n as int, floor_sqrt(n) as int),
    decreases n,
{
    if n == 0 {
        assert(is_floor_sqrt(0, 0));
    } else {
        lemma_floor_sqrt_exists((n - 1) as nat);
        let r = floor_sqrt((n - 1) as nat) as int;
        if n < (r + 1) * (r + 1) {
            assert(is_floor_sqrt(n as int, r));
        } else {
            assert((r + 2) * (r + 2) > (r + 1) * (r + 1)) by (nonlinear_arith)
                requires
                    r >= 0,
            ;
            assert(is_floor_sqrt(n as int, r + 1));
        }
        let w = choose|w: nat| is_floor_sqrt(n as int, w as int);
    }
}

/// No two `i32` positions are as far apart as `distance_limit`.
pub proof fn lemma_distance_bound(lat_a: i32, lon_a: i32, lat_b: i32, lon_b: i32)
    ensures
        spec_distance(lat_a as int, lon_a as int, lat_b as int, lon_b as int) < distance_limit(),
{
    let n = squared_distance(lat_a as int, lon_a as int, lat_b as int, lon_b as int);
    let dlat = lat_b - lat_a;
    let dlon = lon_b - lon_a;
    assert(0 <= dlat * dlat <= 0xffff_ffffint * 0xffff_ffffint) by (nonlinear_arith)
        requires
            -0xffff_ffffint <= dlat <= 0xffff_ffffint,
    ;
    assert(0 <= dlon * dlon <= 0xffff_ffffint * 0xffff_ffffint) by (nonlinear_arith)
        requires
            -0xffff_ffffint <= dlon <= 0xffff_ffffint,
    ;
    assert(n == dlat * dlat + dlon * dlon);
    assert(0xffff_ffffint * 0xffff_ffffint == 0xffff_fffe_0000_0001int) by (nonlinear_arith);
    lemma_floor_sqrt_exists(n);
    let d = floor_sqrt(n) as int;
    if d >= 0x2_0000_0000 {
        lemma_square_monotone(0x2_0000_0000int, d);
        assert(0x2_0000_0000int * 0x2_0000_0000int == 0x4_0000_0000_0000_0000int)
            by (nonlinear_arith);
    }
}

/// The integer part of the square root of `n`.
pub fn isqrt(n: u128) -> (r: u64)
    ensures
        is_floor_sqrt(n as int, r as int),
        r == floor_sqrt(n as nat),
{
    let mut lo: u128 = 0;
    let mut hi: u128 = 0x1_0000_0000_0000_0000;
    assert(0x1_0000_0000_0000_0000int * 0x1_0000_0000_0000_0000int
        == 0x1_0000_0000_0000_0000_0000_0000_0000_0000int) by (nonlinear_arith);
    while hi - lo > 1
        invariant
            lo < hi <= 0x1_0000_0000_0000_0000,
            lo * lo <= n,
            n < hi * hi,
        decreases hi - lo,
    {
        let mid: u128 = lo + (hi - lo) / 2;
        assert(mid * mid <= 0xffff_ffff_ffff_ffffint * 0xffff_ffff_ffff_ffffint) by {
            lemma_square_monotone(mid as int, 0xffff_ffff_ffff_ffffint);
        }
        assert(0xffff_ffff_ffff_ffffint * 0xffff_ffff_ffff_ffffint
            < 0x1_0000_0000_0000_0000_0000_0000_0000_0000int) by (nonlinear_arith);
        if mid * mid <= n {
            lo = mid;
        } else {
            hi = mid;
        }
    }
    proof {
        lemma_floor_sqrt_is(n as nat, lo as nat);
    }
    lo as u64
}

/// The absolute difference of two coordinates.
pub fn coordinate_gap(a: i32, b: i32) -> (d: u64)
    ensures
        d == if a <= b { b - a } else { a - b },
        d < 0x1_0000_0000,
{
    let wide_a: i64 = a as i64;
    let wide_b: i64 = b as i64;
    if wide_a <= wide_b {
        (wide_b - wide_a) as u64
    } else {
        (wide_a - wide_b) as u64
    }
}

/// The Euclidean distance of two positions, rounded down to a whole unit.
pub fn distance_between(lat_a: i32, lon_a: i32, lat_b: i32, lon_b: i32) -> (d: u64)
    ensures
        d == spec_distance(lat_a as int, lon_a as int, lat_b as int, lon_b as int),
        d < distance_limit(),
{
    let dlat: u64 = coordinate_gap(lat_a, lat_b);
    let dlon: u64 = coordinate_gap(lon_a, lon_b);
    proof {
        lemma_square_monotone(dlat as int, 0xffff_ffffint);
        lemma_square_monotone(dlon as int, 0xffff_ffffint);
        assert(0xffff_ffffint * 0xffff_ffffint == 0xffff_fffe_0000_0001int) by (nonlinear_arith);
        assert(dlat * dlat == (lat_b - lat_a) * (lat_b - lat_a)) by (nonlinear_arith)
            requires
                dlat == lat_b - lat_a || dlat == lat_a - lat_b,
        ;
        assert(dlon * dlon == (lon_b - lon_a) * (lon_b - lon_a)) by (nonlinear_arith)
            requires
                dlon == lon_b - lon_a || dlon == lon_a - lon_b,
        ;
    }
    let lat_sq: u64 = dlat * dlat;
    let lon_sq: u64 = dlon * dlon;
    let sum: u128 = lat_sq as u128 + lon_sq as u128;
    let d: u64 = isqrt(sum);
    proof {
        if d >= 0x2_0000_0000 {
            lemma_square_monotone(0x2_0000_0000int, d as int);
            assert(0x2_0000_0000int * 0x2_0000_0000int == 0x4_0000_0000_0000_0000int)
                by (nonlinear_arith);
        }
    }
    d
}

/// A position: latitude and longitude, each as a whole number of the unit.
#[derive(Clone, Copy, Debug, PartialEq, Eq, Structural)]
pub struct Position {
    pub lat: i32,
    pub lon: i32,
}

/// The distance of two positions.
pub open spec fn position_distance(a: Position, b: Position) -> nat {
    spec_distance(a.lat as int, a.lon as int, b.lat as int, b.lon as int)
}

impl Position {
    /// The distance to another position, rounded down to a whole unit.
    pub fn distance_to(&self, other: &Position) -> (d: u64)
        ensures
            d == position_distance(*self, *other),
    {
        distance_between(self.lat, self.lon, other.lat, other.lon)
    }
}

} // verus!
