//! The ordered root set of a polynomial, one Newton step on it, and the
//! nearest-root search.
use vstd::prelude::*;
use crate::complex::{
    clamp_i32_exec, clamp_i64, clamp_i64_exec, dist_sq, div_trunc, div_trunc_exec, inv_im, inv_re, inversion_exec,
    lemma_inv_bounds, point_of, square_norm, square_norm_exec, Point, WidePoint, MIN_DIFF, ONE, SUM_LIMIT,
};

verus! {

/// A Newton sum whose raw parts leave `[-SUM_LIMIT, SUM_LIMIT]` has overflowed.
pub open spec fn sum_overflows(re: int, im: int) -> bool {
    re < -SUM_LIMIT || re > SUM_LIMIT || im < -SUM_LIMIT || im > SUM_LIMIT
}

/// `z - 1 / sum`, saturated to the representable plane. A zero sum has no
/// reciprocal, and `z` then stays where it is.
pub open spec fn next_point(z: Point, sre: int, sim: int) -> Point {
    point_of(z.re - inv_re(sre, sim), z.im - inv_im(sre, sim))
}

/// The Newton step on `z` from root `i` on, with the partial sum
/// `sre + sim i` of `1 / (z - root)` over the roots before `i`.
///
/// A root closer to `z` than `MIN_DIFF` (squared) ends the step with that
/// root's index, as does a root whose term makes the sum overflow. Otherwise
/// the step ends with no index and the next iterate `z - 1 / sum`.
pub open spec fn newton_scan(z: Point, roots: Seq<Point>, i: int, sre: int, sim: int) -> (
    Option<int>,
    Point,
)
    decreases roots.len() - i,
{
    if i >= roots.len() {
        (None, next_point(z, sre, sim))
    } else {
        let dre = z.re - roots[i].re;
        let dim = z.im - roots[i].im;
        if square_norm(dre, dim) < MIN_DIFF {
            (Some(i), z)
        } else {
            let nre = sre + inv_re(dre, dim);
            let nim = sim + inv_im(dre, dim);
            if sum_overflows(nre, nim) {
                (Some(i), z)
            } else {
                newton_scan(z, roots, i + 1, nre, nim)
            }
        }
    }
}

/// One Newton step for the polynomial whose roots are `roots`: either the
/// index of a root that `z` has reached, or the next iterate.
pub open spec fn newton_step(z: Point, roots: Seq<Point>) -> (Option<int>, Point) {
    newton_scan(z, roots, 0, 0, 0)
}

/// An optional index as an optional integer.
pub open spec fn opt_index(o: Option<usize>) -> Option<int> {
    match o {
        Some(i) => Some(i as int),
        None => None,
    }
}

/// Index of the root nearest to `z` among the first `n` roots; the first of
/// equally near roots wins.
pub open spec fn nearest_prefix(z: Point, roots: Seq<Point>, n: int) -> int
    decreases n,
{
    if n <= 1 {
        0
    } else {
        let k = nearest_prefix(z, roots, n - 1);
        if dist_sq(z, roots[n - 1]) < dist_sq(z, roots[k]) {
            n - 1
        } else {
            k
        }
    }
}

/// Index of the root nearest to `z`; the first of equally near roots wins.
pub open spec fn nearest_root(z: Point, roots: Seq<Point>) -> int {
    nearest_prefix(z, roots, roots.len() as int)
}

/// `k` is the first index of a root at minimal distance from `z`.
pub open spec fn is_first_nearest(z: Point, roots: Seq<Point>, k: int) -> bool {
    &&& 0 <= k < roots.len()
    &&& forall|j: int| 0 <= j < roots.len() ==> dist_sq(z, roots[k]) <= #[trigger] dist_sq(z, roots[j])
    &&& forall|j: int| 0 <= j < k ==> dist_sq(z, roots[k]) < #[trigger] dist_sq(z, roots[j])
}

/// The nearest-root scan picks the first root at minimal distance.
pub proof fn lemma_nearest_prefix(z: Point, roots: Seq<Point>, n: int)
    requires
        1 <= n <= roots.len(),
    ensures
        is_first_nearest(z, roots.subrange(0, n), nearest_prefix(z, roots, n)),
    decreases n,
{
    let sub = roots.subrange(0, n);
    if n > 1 {
        lemma_nearest_prefix(z, roots, n - 1);
        let prev = roots.subrange(0, n - 1);
        assert forall|j: int| 0 <= j < n - 1 implies sub[j] == prev[j] by {}
    }
}

/// The nearest root is the first root at minimal distance.
pub proof fn lemma_nearest_root(z: Point, roots: Seq<Point>)
    requires
        roots.len() >= 1,
    ensures
        is_first_nearest(z, roots, nearest_root(z, roots)),
{
    lemma_nearest_prefix(z, roots, roots.len() as int);
    assert(roots.subrange(0, roots.len() as int) =~= roots);
}

/// Squared distance between two points.
pub fn dist_sq_exec(a: Point, b: Point) -> (r: i128)
    ensures
        r == dist_sq(a, b),
        r >= 0,
{
    square_norm_exec(a.re as i64 - b.re as i64, a.im as i64 - b.im as i64)
}

/// The index of the root nearest to `z`, with its squared distance.
pub fn nearest_root_exec(z: Point, roots: &[Point]) -> (r: (usize, i128))
    requires
        roots@.len() >= 1,
    ensures
        r.0 == nearest_root(z, roots@),
        r.1 == dist_sq(z, roots@[r.0 as int]),
{
    let mut best: usize = 0;
    let mut min_d = dist_sq_exec(z, roots[0]);
    let mut i: usize = 1;
    while i < roots.len()
        invariant
            1 <= i <= roots@.len(),
            best as int == nearest_prefix(z, roots@, i as int),
            0 <= best < i,
            min_d == dist_sq(z, roots@[best as int]),
        decreases roots@.len() - i,
    {
        let d = dist_sq_exec(z, roots[i]);
        if d < min_d {
            min_d = d;
            best = i;
        }
        i = i + 1;
    }
    (best, min_d)
}

/// One Newton step on `z` for the polynomial whose roots are `roots`.
///
/// Returns the index of the root that `z` has reached, or none with the next
/// iterate `z - 1 / sum(1 / (z - root))`.
pub fn newton_method_approx(z: Point, roots: &[Point]) -> (r: (Option<usize>, Point))
    ensures
        (opt_index(r.0), r.1) == newton_step(z, roots@),
{
    let mut sre: i64 = 0;
    let mut sim: i64 = 0;
    let mut i: usize = 0;
    while i < roots.len()
        invariant
            0 <= i <= roots@.len(),
            -SUM_LIMIT <= sre <= SUM_LIMIT,
            -SUM_LIMIT <= sim <= SUM_LIMIT,
            newton_step(z, roots@) == newton_scan(z, roots@, i as int, sre as int, sim as int),
        decreases roots@.len() - i,
    {
        let root = roots[i];
        let dre = z.re as i64 - root.re as i64;
        let dim = z.im as i64 - root.im as i64;
        let n = square_norm_exec(dre, dim);
        if n < MIN_DIFF {
            return (Some(i), z);
        }
        let (ire, iim) = inversion_exec(dre, dim);
        proof {
            lemma_inv_bounds(dre as int, dim as int);
        }
        let nre = sre + ire;
        let nim = sim + iim;
        if nre < -SUM_LIMIT || nre > SUM_LIMIT || nim < -SUM_LIMIT || nim > SUM_LIMIT {
            return (Some(i), z);
        }
        sre = nre;
        sim = nim;
        i = i + 1;
    }
    let (ire, iim) = inversion_exec(sre, sim);
    proof {
        lemma_inv_bounds(sre as int, sim as int);
    }
    let re = clamp_i32_exec(z.re as i64 - ire);
    let im = clamp_i32_exec(z.im as i64 - iim);
    (None, Point { re, im })
}

/// Fixed-point product of `a` and `b`, before saturation.
pub open spec fn fx_mul(are: int, aim: int, bre: int, bim: int) -> (int, int) {
    (div_trunc(are * bre - aim * bim, ONE as int), div_trunc(are * bim + aim * bre, ONE as int))
}

/// Parts saturated to the range of `i64`.
pub open spec fn wide_of(re: int, im: int) -> WidePoint {
    WidePoint { re: clamp_i64(re) as i64, im: clamp_i64(im) as i64 }
}

/// The value and derivative of the product of `(z - root)` over the first `k`
/// roots, folded left to right by the product rule
/// (`p' = p * (z - root)`, `d' = d * (z - root) + p`), each partial result
/// saturated to the range of `WidePoint`.
pub open spec fn eval_prefix(z: Point, roots: Seq<Point>, k: int) -> (WidePoint, WidePoint)
    decreases k,
{
    if k <= 0 {
        (WidePoint { re: ONE, im: 0 }, WidePoint { re: 0, im: 0 })
    } else {
        let pd = eval_prefix(z, roots, k - 1);
        let ere = z.re - roots[k - 1].re;
        let eim = z.im - roots[k - 1].im;
        let p = fx_mul(pd.0.re as int, pd.0.im as int, ere, eim);
        let dm = fx_mul(pd.1.re as int, pd.1.im as int, ere, eim);
        (wide_of(p.0, p.1), wide_of(dm.0 + pd.0.re, dm.1 + pd.0.im))
    }
}

/// The polynomial's value at `z`; none for no roots.
pub open spec fn poly_value(z: Point, roots: Seq<Point>) -> Option<WidePoint> {
    if roots.len() == 0 {
        None
    } else {
        Some(eval_prefix(z, roots, roots.len() as int).0)
    }
}

/// The polynomial's derivative at `z`; none for no roots.
pub open spec fn poly_derivative(z: Point, roots: Seq<Point>) -> Option<WidePoint> {
    if roots.len() == 0 {
        None
    } else {
        Some(eval_prefix(z, roots, roots.len() as int).1)
    }
}

/// Fixed-point product of a wide value and a difference of points.
fn fx_mul_exec(a: WidePoint, bre: i64, bim: i64) -> (r: (i128, i128))
    requires
        -0x1_0000_0000 <= bre <= 0x1_0000_0000,
        -0x1_0000_0000 <= bim <= 0x1_0000_0000,
    ensures
        (r.0 as int, r.1 as int) == fx_mul(a.re as int, a.im as int, bre as int, bim as int),
        -0x4_0000_0000_0000_0000_0000 <= r.0 <= 0x4_0000_0000_0000_0000_0000,
        -0x4_0000_0000_0000_0000_0000 <= r.1 <= 0x4_0000_0000_0000_0000_0000,
{
    let ar = a.re as i128;
    let ai = a.im as i128;
    let br = bre as i128;
    let bi = bim as i128;
    proof {
        assert(-0x1_0000_0000_0000_0000_0000_0000 <= ar * br <= 0x1_0000_0000_0000_0000_0000_0000) by (nonlinear_arith)
            requires
                i64::MIN <= ar <= i64::MAX,
                -0x1_0000_0000 <= br <= 0x1_0000_0000,
        ;
        assert(-0x1_0000_0000_0000_0000_0000_0000 <= ai * bi <= 0x1_0000_0000_0000_0000_0000_0000) by (nonlinear_arith)
            requires
                i64::MIN <= ai <= i64::MAX,
                -0x1_0000_0000 <= bi <= 0x1_0000_0000,
        ;
        assert(-0x1_0000_0000_0000_0000_0000_0000 <= ar * bi <= 0x1_0000_0000_0000_0000_0000_0000) by (nonlinear_arith)
            requires
                i64::MIN <= ar <= i64::MAX,
                -0x1_0000_0000 <= bi <= 0x1_0000_0000,
        ;
        assert(-0x1_0000_0000_0000_0000_0000_0000 <= ai * br <= 0x1_0000_0000_0000_0000_0000_0000) by (nonlinear_arith)
            requires
                i64::MIN <= ai <= i64::MAX,
                -0x1_0000_0000 <= br <= 0x1_0000_0000,
        ;
    }
    let re = div_trunc_exec(ar * br - ai * bi, ONE as i128);
    let im = div_trunc_exec(ar * bi + ai * br, ONE as i128);
    proof {
        let b: int = 0x4_0000_0000_0000_0000_0000;
        assert(b * 65536 >= 0x2_0000_0000_0000_0000_0000_0000);
        crate::complex::lemma_div_trunc_bound(ar * br - ai * bi, 65536, b);
        crate::complex::lemma_div_trunc_bound(ar * bi + ai * br, 65536, b);
    }
    (re, im)
}

/// The value and derivative of the polynomial at `z`, folded over the roots.
fn evaluate_exec(z: Point, roots: &[Point]) -> (r: (WidePoint, WidePoint))
    ensures
        r == eval_prefix(z, roots@, roots@.len() as int),
{
    let mut p = WidePoint { re: ONE, im: 0 };
    let mut d = WidePoint { re: 0, im: 0 };
    let mut k: usize = 0;
    while k < roots.len()
        invariant
            k <= roots@.len(),
            eval_prefix(z, roots@, k as int) == (p, d),
        decreases roots@.len() - k,
    {
        let root = roots[k];
        let ere = z.re as i64 - root.re as i64;
        let eim = z.im as i64 - root.im as i64;
        let np = fx_mul_exec(p, ere, eim);
        let dm = fx_mul_exec(d, ere, eim);
        let nd = WidePoint {
            re: clamp_i64_exec(dm.0 + p.re as i128),
            im: clamp_i64_exec(dm.1 + p.im as i128),
        };
        p = WidePoint { re: clamp_i64_exec(np.0), im: clamp_i64_exec(np.1) };
        d = nd;
        k = k + 1;
    }
    (p, d)
}

/// Floor square root of a non-negative value below `2^66`.
pub fn isqrt(n: u128) -> (r: u64)
    requires
        n < 0x4_0000_0000_0000_0000,
    ensures
        r * r <= n < (r + 1) * (r + 1),
{
    let mut lo: u128 = 0;
    let mut hi: u128 = 0x2_0000_0000;
    assert(hi * hi == 0x4_0000_0000_0000_0000) by (nonlinear_arith)
        requires
            hi == 0x2_0000_0000,
    ;
    while hi - lo > 1
        invariant
            lo < hi <= 0x2_0000_0000,
            lo * lo <= n < hi * hi,
        decreases hi - lo,
    {
        let mid = lo + (hi - lo) / 2;
        assert(mid * mid <= 0x4_0000_0000_0000_0000) by (nonlinear_arith)
            requires
                mid <= 0x2_0000_0000,
        ;
        if mid * mid <= n {
            lo = mid;
        } else {
            hi = mid;
        }
    }
    lo as u64
}

/// A root index that does not name a root.
#[derive(Clone, Copy, Debug, PartialEq, Eq, Structural)]
pub enum RootSetError {
    IndexOutOfRange,
}

/// An ordered set of polynomial roots; a root's index is its identity.
#[derive(Clone, Debug)]
pub struct Polynomial {
    roots: Vec<Point>,
}

impl View for Polynomial {
    type V = Seq<Point>;

    closed spec fn view(&self) -> Seq<Point> {
        self.roots@
    }
}

impl Polynomial {
    /// The polynomial with the given roots, in the given order.
    pub fn new(roots: Vec<Point>) -> (r: Polynomial)
        ensures
            r@ == roots@,
    {
        Polynomial { roots }
    }

    pub fn get_roots_count(&self) -> (r: usize)
        ensures
            r == self@.len(),
    {
        self.roots.len()
    }

    pub fn get_roots(&self) -> (r: &[Point])
        ensures
            r@ == self@,
    {
        self.roots.as_slice()
    }

    /// Appends a root; it gets the next free index.
    pub fn add_root(&mut self, re: i32, im: i32)
        ensures
            final(self)@ == old(self)@.push(Point { re, im }),
    {
        self.roots.push(Point { re, im });
    }

    /// Removes the root at `id`; the roots after it move down by one.
    pub fn remove_root_by_id(&mut self, id: usize) -> (r: Result<(), RootSetError>)
        ensures
            r is Ok <==> id < old(self)@.len(),
            r is Ok ==> final(self)@ == old(self)@.remove(id as int),
            r is Err ==> final(self)@ == old(self)@,
    {
        if id >= self.roots.len() {
            return Err(RootSetError::IndexOutOfRange);
        }
        self.roots.remove(id);
        Ok(())
    }

    /// Replaces the root at `id` in place.
    pub fn set_root_by_id(&mut self, id: usize, re: i32, im: i32) -> (r: Result<(), RootSetError>)
        ensures
            r is Ok <==> id < old(self)@.len(),
            r is Ok ==> final(self)@ == old(self)@.update(id as int, Point { re, im }),
            r is Err ==> final(self)@ == old(self)@,
    {
        if id >= self.roots.len() {
            return Err(RootSetError::IndexOutOfRange);
        }
        self.roots.set(id, Point { re, im });
        Ok(())
    }

    /// The index of the root nearest to `re + im i` and its Euclidean
    /// distance in raw units, rounded down; none for an empty set. The first of
    /// equally near roots wins.
    pub fn get_closest_root_id(&self, re: i32, im: i32) -> (r: Option<(usize, u64)>)
        ensures
            r is None <==> self@.len() == 0,
            r matches Some(v) ==> v.0 == nearest_root(Point { re, im }, self@)
                && is_first_nearest(Point { re, im }, self@, v.0 as int)
                && v.1 * v.1 <= dist_sq(Point { re, im }, self@[v.0 as int]) < (v.1 + 1) * (v.1
                + 1),
    {
        if self.roots.len() == 0 {
            return None;
        }
        let p = Point { re, im };
        proof {
            lemma_nearest_root(p, self@);
        }
        let (k, d) = nearest_root_exec(p, self.roots.as_slice());
        proof {
            assert(0 <= k < self@.len());
            let q = self@[k as int];
            assert(d == dist_sq(p, q));
            let x = re - q.re;
            let y = im - q.im;
            assert(x * x <= 0x1_0000_0000_0000_0000) by (nonlinear_arith)
                requires
                    -0x1_0000_0000 <= x <= 0x1_0000_0000,
            ;
            assert(y * y <= 0x1_0000_0000_0000_0000) by (nonlinear_arith)
                requires
                    -0x1_0000_0000 <= y <= 0x1_0000_0000,
            ;
            assert(d == x * x + y * y);
            assert(d < 0x4_0000_0000_0000_0000);
            assert(x * x >= 0 && y * y >= 0) by (nonlinear_arith);
        }
        Some((k, isqrt(d as u128)))
    }

    /// The polynomial's value at `z`: the product of `z - root` over the
    /// roots, left to right; none exactly for no roots. Partial products are
    /// saturated to the range of `WidePoint`.
    pub fn calculate(&self, z: Point) -> (r: Option<WidePoint>)
        ensures
            r == poly_value(z, self@),
            r is None <==> self@.len() == 0,
    {
        if self.roots.len() == 0 {
            return None;
        }
        Some(evaluate_exec(z, self.roots.as_slice()).0)
    }

    /// The polynomial's derivative at `z` by the product rule; none exactly
    /// for no roots. Partial results are saturated to the range of
    /// `WidePoint`.
    pub fn derivative(&self, z: Point) -> (r: Option<WidePoint>)
        ensures
            r == poly_derivative(z, self@),
            r is None <==> self@.len() == 0,
    {
        if self.roots.len() == 0 {
            return None;
        }
        Some(evaluate_exec(z, self.roots.as_slice()).1)
    }

    /// One Newton step on `z` for this polynomial.
    pub fn newton_method_approx(&self, z: Point) -> (r: (Option<usize>, Point))
        ensures
            (opt_index(r.0), r.1) == newton_step(z, self@),
    {
        newton_method_approx(z, self.roots.as_slice())
    }

    /// One Newton step on `z`, two roots at a time in vector lanes; the same
    /// result as `newton_method_approx`.
    pub fn simd_newton_method_approx(&self, z: Point) -> (r: (Option<usize>, Point))
        ensures
            (opt_index(r.0), r.1) == newton_step(z, self@),
    {
        crate::fractal_calculation::simd_newton_method_approx(z, self.roots.as_slice())
    }

    /// One Newton step on each of two points.
    pub fn simd_newton_method_approx_for_two_numbers(&self, two_z: (Point, Point)) -> (r: (
        (Option<usize>, Point),
        (Option<usize>, Point),
    ))
        ensures
            (opt_index(r.0.0), r.0.1) == newton_step(two_z.0, self@),
            (opt_index(r.1.0), r.1.1) == newton_step(two_z.1, self@),
    {
        crate::fractal_calculation::simd_newton_method_approx_for_two_numbers(
            two_z,
            self.roots.as_slice(),
        )
    }
}

/// Removing the root at `k` keeps every root before `k` at its index and
/// moves every root after `k` down by one.
pub proof fn lemma_remove_shifts(roots: Seq<Point>, k: int)
    requires
        0 <= k < roots.len(),
    ensures
        roots.remove(k).len() == roots.len() - 1,
        forall|j: int| 0 <= j < k ==> #[trigger] roots.remove(k)[j] == roots[j],
        forall|j: int| k <= j < roots.len() - 1 ==> #[trigger] roots.remove(k)[j] == roots[j + 1],
{
}

} // verus!
