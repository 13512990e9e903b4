//! Four-lane vector arithmetic on pairs of fixed-point complex numbers.
//!
//! A value of `Lanes` holds two complex numbers as `[re0, im0, re1, im1]`.
//! Every operation is the lane-wise image of the scalar operation of the same
//! name in `complex`, so batching points never changes a result.
use vstd::prelude::*;
use crate::complex::{div_floor_exec, inv_im, inv_re, inversion_exec, square_norm, square_norm_exec};

verus! {

/// Four integer lanes.
pub type Lanes = (i64, i64, i64, i64);

/// Four wide integer lanes.
pub type WideLanes = (i128, i128, i128, i128);

/// Each lane lies in `[-bound, bound]`.
pub open spec fn lanes_within(v: Lanes, bound: int) -> bool {
    -bound <= v.0 <= bound && -bound <= v.1 <= bound && -bound <= v.2 <= bound && -bound
        <= v.3 <= bound
}

/// Each lane lies in the range of `i32`.
pub open spec fn lanes_i32(v: Lanes) -> bool {
    i32::MIN <= v.0 <= i32::MAX && i32::MIN <= v.1 <= i32::MAX && i32::MIN <= v.2 <= i32::MAX
        && i32::MIN <= v.3 <= i32::MAX
}

/// `floor(a / b)` for a nonzero divisor of either sign.
pub open spec fn floor_div(a: int, b: int) -> int {
    if b > 0 {
        a / b
    } else {
        (-a) / (-b)
    }
}

pub struct SimdMath;

impl SimdMath {
    /// Lane-wise floored remainder `a - b * floor(a / b)`, for any nonzero
    /// divisor; the result has the sign of the divisor.
    pub fn f32x4_mod(a: Lanes, b: Lanes) -> (r: Lanes)
        requires
            b.0 != 0 && b.1 != 0 && b.2 != 0 && b.3 != 0,
        ensures
            r.0 == a.0 - b.0 * floor_div(a.0 as int, b.0 as int),
            r.1 == a.1 - b.1 * floor_div(a.1 as int, b.1 as int),
            r.2 == a.2 - b.2 * floor_div(a.2 as int, b.2 as int),
            r.3 == a.3 - b.3 * floor_div(a.3 as int, b.3 as int),
    {
        (
            Self::lane_mod(a.0, b.0),
            Self::lane_mod(a.1, b.1),
            Self::lane_mod(a.2, b.2),
            Self::lane_mod(a.3, b.3),
        )
    }

    fn lane_mod(a: i64, b: i64) -> (r: i64)
        requires
            b != 0,
        ensures
            r == a - b * floor_div(a as int, b as int),
    {
        let (num, den) = if b > 0 {
            (a as i128, b as i128)
        } else {
            (-(a as i128), -(b as i128))
        };
        let q = div_floor_exec(num, den);
        proof {
            vstd::arithmetic::div_mod::lemma_fundamental_div_mod(num as int, den as int);
            vstd::arithmetic::div_mod::lemma_mod_bound(num as int, den as int);
            assert(num - den * q == num % den);
            if b > 0 {
                assert(0 <= a - b * q < b);
            } else {
                assert(b * q == -(den * q)) by (nonlinear_arith)
                    requires
                        b == -den,
                ;
                assert(b < a - b * q <= 0);
            }
        }
        ((a as i128) - (b as i128) * q) as i64
    }

    /// Squared norms of the two complex numbers, each repeated over its pair
    /// of lanes: `[n0, n0, n1, n1]`.
    pub fn calculate_square_norms(v: Lanes) -> (r: WideLanes)
        requires
            lanes_within(v, 0x200_0000_0000),
        ensures
            r.0 == square_norm(v.0 as int, v.1 as int),
            r.1 == r.0,
            r.2 == square_norm(v.2 as int, v.3 as int),
            r.3 == r.2,
            r.0 >= 0 && r.2 >= 0,
    {
        let n0 = square_norm_exec(v.0, v.1);
        let n1 = square_norm_exec(v.2, v.3);
        (n0, n0, n1, n1)
    }

    /// Fixed-point reciprocals of the two complex numbers; a zero number
    /// gives zero.
    pub fn complex_numbers_inversion(v: Lanes) -> (r: Lanes)
        requires
            lanes_within(v, 0x200_0000_0000),
        ensures
            r.0 == inv_re(v.0 as int, v.1 as int),
            r.1 == inv_im(v.0 as int, v.1 as int),
            r.2 == inv_re(v.2 as int, v.3 as int),
            r.3 == inv_im(v.2 as int, v.3 as int),
    {
        let (a, b) = inversion_exec(v.0, v.1);
        let (c, d) = inversion_exec(v.2, v.3);
        (a, b, c, d)
    }

    /// Squared distances between corresponding points of two pairs:
    /// `[d0, d0, d1, d1]`.
    pub fn calculate_squared_distances(points1: Lanes, points2: Lanes) -> (r: WideLanes)
        requires
            lanes_i32(points1),
            lanes_i32(points2),
        ensures
            r.0 == square_norm(points1.0 - points2.0, points1.1 - points2.1),
            r.1 == r.0,
            r.2 == square_norm(points1.2 - points2.2, points1.3 - points2.3),
            r.3 == r.2,
    {
        let diffs = (
            points1.0 - points2.0,
            points1.1 - points2.1,
            points1.2 - points2.2,
            points1.3 - points2.3,
        );
        Self::calculate_square_norms(diffs)
    }
}

} // verus!
