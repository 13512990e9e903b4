//! Fixed-point complex numbers.
//!
//! A coordinate of the complex plane is held as a signed 32-bit raw value in
//! units of `1 / ONE`: the raw value `65536` stands for `1.0`. All arithmetic
//! on such values is exact integer arithmetic, with results widened while they
//! are computed and saturated where they are stored back into 32 bits.
use vstd::prelude::*;

verus! {

/// Raw units per unit of the complex plane.
pub const ONE: i64 = 65536;

/// `ONE * ONE`: the numerator scale of a fixed-point reciprocal.
pub const INV_SCALE: i128 = 4294967296;

/// A squared raw distance below this counts as landing on a root
/// (about `0.001` in squared plot units).
pub const MIN_DIFF: i128 = 4194304;

/// Largest raw magnitude that a Newton sum may reach before it counts as
/// having overflowed.
pub const SUM_LIMIT: i64 = 1099511627776;

/// A point of the complex plane in fixed-point form.
#[derive(Clone, Copy, Debug, PartialEq, Eq, Structural)]
pub struct Point {
    pub re: i32,
    pub im: i32,
}

/// A fixed-point complex value with wide parts, for results that may leave
/// the plane of `Point`.
#[derive(Clone, Copy, Debug, PartialEq, Eq, Structural)]
pub struct WidePoint {
    pub re: i64,
    pub im: i64,
}

/// Saturates a value to the range of `i64`.
pub open spec fn clamp_i64(v: int) -> int {
    if v < i64::MIN {
        i64::MIN as int
    } else if v > i64::MAX {
        i64::MAX as int
    } else {
        v
    }
}

/// Truncating division (towards zero) for a positive divisor.
pub open spec fn div_trunc(a: int, n: int) -> int {
    if a >= 0 {
        a / n
    } else {
        -((-a) / n)
    }
}

/// Saturates a value to the range of `i32`.
pub open spec fn clamp_i32(v: int) -> int {
    if v < i32::MIN {
        i32::MIN as int
    } else if v > i32::MAX {
        i32::MAX as int
    } else {
        v
    }
}

/// `re^2 + im^2`.
pub open spec fn square_norm(re: int, im: int) -> int {
    re * re + im * im
}

/// Real part of the fixed-point reciprocal of `re + im i`; zero for zero.
pub open spec fn inv_re(re: int, im: int) -> int {
    if square_norm(re, im) == 0 {
        0
    } else {
        div_trunc(re * INV_SCALE, square_norm(re, im))
    }
}

/// Imaginary part of the fixed-point reciprocal of `re + im i`; zero for zero.
pub open spec fn inv_im(re: int, im: int) -> int {
    if square_norm(re, im) == 0 {
        0
    } else {
        div_trunc(-im * INV_SCALE, square_norm(re, im))
    }
}

/// Squared raw distance between two points.
pub open spec fn dist_sq(a: Point, b: Point) -> int {
    square_norm(a.re - b.re, a.im - b.im)
}

/// The point `re + im i`, each part saturated to the range of `i32`.
pub open spec fn point_of(re: int, im: int) -> Point {
    Point { re: clamp_i32(re) as i32, im: clamp_i32(im) as i32 }
}

/// A squared norm is non-negative and at least the magnitude of each
/// nonzero integer part.
pub proof fn lemma_square_norm_bounds(re: int, im: int)
    ensures
        square_norm(re, im) >= 0,
        re != 0 ==> re <= square_norm(re, im) && -re <= square_norm(re, im),
        im != 0 ==> im <= square_norm(re, im) && -im <= square_norm(re, im),
{
    assert(re * re >= 0) by (nonlinear_arith);
    assert(im * im >= 0) by (nonlinear_arith);
    assert(re != 0 ==> re <= re * re && -re <= re * re) by (nonlinear_arith);
    assert(im != 0 ==> im <= im * im && -im <= im * im) by (nonlinear_arith);
}

/// Magnitude bound of a truncated quotient.
pub proof fn lemma_div_trunc_bound(a: int, n: int, b: int)
    requires
        n > 0,
        b >= 0,
        -b * n <= a <= b * n,
    ensures
        -b <= div_trunc(a, n) <= b,
{
    assert((-b) * n == -(b * n)) by (nonlinear_arith);
    if a >= 0 {
        assert(a / n <= b) by {
            vstd::arithmetic::div_mod::lemma_div_is_ordered(a, b * n, n);
            vstd::arithmetic::div_mod::lemma_div_by_multiple(b, n);
        }
        assert(a / n >= 0) by {
            vstd::arithmetic::div_mod::lemma_div_pos_is_pos(a, n);
        }
    } else {
        assert((-a) / n <= b) by {
            vstd::arithmetic::div_mod::lemma_div_is_ordered(-a, b * n, n);
            vstd::arithmetic::div_mod::lemma_div_by_multiple(b, n);
        }
        assert((-a) / n >= 0) by {
            vstd::arithmetic::div_mod::lemma_div_pos_is_pos(-a, n);
        }
    }
}

/// The reciprocal of any nonzero value has raw parts of at most `INV_SCALE`.
pub proof fn lemma_inv_bounds(re: int, im: int)
    ensures
        -INV_SCALE <= inv_re(re, im) <= INV_SCALE,
        -INV_SCALE <= inv_im(re, im) <= INV_SCALE,
{
    let n = square_norm(re, im);
    lemma_square_norm_bounds(re, im);
    if n != 0 {
        let k = INV_SCALE as int;
        assert(-k * n <= re * k <= k * n) by (nonlinear_arith)
            requires
                k > 0,
                re != 0 ==> re <= n && -re <= n,
                n >= 0,
        ;
        assert(-k * n <= -im * k <= k * n) by (nonlinear_arith)
            requires
                k > 0,
                im != 0 ==> im <= n && -im <= n,
                n >= 0,
        ;
        lemma_div_trunc_bound(re * k, n, k);
        lemma_div_trunc_bound(-im * k, n, k);
    }
}

/// Truncating division of a value by a positive divisor.
pub fn div_trunc_exec(a: i128, n: i128) -> (r: i128)
    requires
        n > 0,
    ensures
        r == div_trunc(a as int, n as int),
{
    a / n
}

/// Squared norm of `re + im i`, for parts of at most `2^41` in magnitude.
pub fn square_norm_exec(re: i64, im: i64) -> (r: i128)
    requires
        -0x200_0000_0000 <= re <= 0x200_0000_0000,
        -0x200_0000_0000 <= im <= 0x200_0000_0000,
    ensures
        r == square_norm(re as int, im as int),
        r >= 0,
{
    let re2 = re as i128;
    let im2 = im as i128;
    proof {
        assert(re2 * re2 <= 0x400_0000_0000_0000_0000_0000) by (nonlinear_arith)
            requires
                -0x200_0000_0000 <= re2 <= 0x200_0000_0000,
        ;
        assert(im2 * im2 <= 0x400_0000_0000_0000_0000_0000) by (nonlinear_arith)
            requires
                -0x200_0000_0000 <= im2 <= 0x200_0000_0000,
        ;
        lemma_square_norm_bounds(re as int, im as int);
        assert(re2 * re2 >= 0) by (nonlinear_arith);
        assert(im2 * im2 >= 0) by (nonlinear_arith);
    }
    re2 * re2 + im2 * im2
}

/// Fixed-point reciprocal of `re + im i`; zero maps to zero.
pub fn inversion_exec(re: i64, im: i64) -> (r: (i64, i64))
    requires
        -0x200_0000_0000 <= re <= 0x200_0000_0000,
        -0x200_0000_0000 <= im <= 0x200_0000_0000,
    ensures
        r.0 == inv_re(re as int, im as int),
        r.1 == inv_im(re as int, im as int),
{
    let n = square_norm_exec(re, im);
    proof {
        lemma_inv_bounds(re as int, im as int);
    }
    if n == 0 {
        (0, 0)
    } else {
        let a = (re as i128) * INV_SCALE;
        let b = -(im as i128) * INV_SCALE;
        let qa = div_trunc_exec(a, n);
        let qb = div_trunc_exec(b, n);
        (qa as i64, qb as i64)
    }
}

/// Floor division for a positive divisor.
pub fn div_floor_exec(a: i128, n: i128) -> (r: i128)
    requires
        n > 0,
        a > i128::MIN,
    ensures
        r == a as int / n as int,
        a >= 0 ==> 0 <= r <= a,
        a < 0 ==> a <= r < 0,
{
    let q = a / n;
    proof {
        if a < 0 {
            let t = (-a) as int / n as int;
            let m = (-a) as int % n as int;
            vstd::arithmetic::div_mod::lemma_fundamental_div_mod(-a as int, n as int);
            vstd::arithmetic::div_mod::lemma_mod_bound(-a as int, n as int);
            assert(q == -t);
            if m == 0 {
                assert(a == (-t) * n + 0) by (nonlinear_arith)
                    requires
                        -a == n * t + m,
                        m == 0,
                ;
                vstd::arithmetic::div_mod::lemma_fundamental_div_mod_converse(
                    a as int,
                    n as int,
                    -t,
                    0,
                );
                assert(q * n == a && a <= q < 0) by (nonlinear_arith)
                    requires
                        a == (-t) * n,
                        q == -t,
                        a < 0,
                        n > 0,
                ;
            } else {
                assert(a == (-t - 1) * n + (n - m)) by (nonlinear_arith)
                    requires
                        -a == n * t + m,
                ;
                vstd::arithmetic::div_mod::lemma_fundamental_div_mod_converse(
                    a as int,
                    n as int,
                    -t - 1,
                    n - m,
                );
                assert(q * n > a && q * n <= 0 && a <= q - 1 && q - 1 < 0) by (nonlinear_arith)
                    requires
                        -a == n * t + m,
                        q == -t,
                        m > 0,
                        m < n,
                        t >= 0,
                        n > 0,
                ;
            }
        } else {
            vstd::arithmetic::div_mod::lemma_fundamental_div_mod(a as int, n as int);
            vstd::arithmetic::div_mod::lemma_mod_bound(a as int, n as int);
            assert(q * n <= a && q * n >= 0 && 0 <= q <= a) by (nonlinear_arith)
                requires
                    a == n * q + a % n,
                    0 <= a % n < n,
                    a >= 0,
                    n > 0,
            ;
        }
    }
    if q * n > a {
        q - 1
    } else {
        q
    }
}

/// Truncating division (towards zero) for a nonzero divisor of either sign.
pub open spec fn div_trunc_signed(a: int, n: int) -> int {
    if n > 0 {
        div_trunc(a, n)
    } else {
        -div_trunc(a, -n)
    }
}

/// A truncated quotient times the divisor lies within one divisor of the
/// dividend.
pub proof fn lemma_div_trunc_close(a: int, n: int)
    requires
        n > 0,
    ensures
        -n < div_trunc(a, n) * n - a < n,
{
    if a >= 0 {
        vstd::arithmetic::div_mod::lemma_fundamental_div_mod(a, n);
        vstd::arithmetic::div_mod::lemma_mod_bound(a, n);
        assert(-n < (a / n) * n - a <= 0) by (nonlinear_arith)
            requires
                a == n * (a / n) + a % n,
                0 <= a % n < n,
        ;
    } else {
        vstd::arithmetic::div_mod::lemma_fundamental_div_mod(-a, n);
        vstd::arithmetic::div_mod::lemma_mod_bound(-a, n);
        assert(0 <= (-((-a) / n)) * n - a < n) by (nonlinear_arith)
            requires
                -a == n * ((-a) / n) + (-a) % n,
                0 <= (-a) % n < n,
        ;
    }
}

/// Truncating division for a nonzero divisor of either sign.
pub fn div_trunc_signed_exec(a: i128, n: i128) -> (r: i128)
    requires
        n != 0,
        n > i128::MIN,
        -0x1_0000_0000_0000_0000_0000_0000 <= a <= 0x1_0000_0000_0000_0000_0000_0000,
    ensures
        r == div_trunc_signed(a as int, n as int),
{
    if n > 0 {
        div_trunc_exec(a, n)
    } else {
        proof {
            lemma_div_trunc_bound(a as int, -n as int, 0x1_0000_0000_0000_0000_0000_0000);
            assert(0x1_0000_0000_0000_0000_0000_0000 * (-n) >= 0x1_0000_0000_0000_0000_0000_0000) by (nonlinear_arith)
                requires
                    -n >= 1,
            ;
        }
        let q = div_trunc_exec(a, -n);
        -q
    }
}

/// Saturates a value to the range of `i64`.
pub fn clamp_i64_exec(v: i128) -> (r: i64)
    ensures
        r == clamp_i64(v as int),
{
    if v < i64::MIN as i128 {
        i64::MIN
    } else if v > i64::MAX as i128 {
        i64::MAX
    } else {
        v as i64
    }
}

/// Saturates a value to the range of `i32`.
pub fn clamp_i32_exec(v: i64) -> (r: i32)
    ensures
        r == clamp_i32(v as int),
{
    if v < i32::MIN as i64 {
        i32::MIN
    } else if v > i32::MAX as i64 {
        i32::MAX
    } else {
        v as i32
    }
}

} // verus!
