//! Root classification: bounded Newton iteration with a nearest-root
//! fallback, for one point or for four points at once.
use vstd::prelude::*;
use crate::complex::{clamp_i32_exec, inversion_exec, lemma_inv_bounds, Point, MIN_DIFF, SUM_LIMIT};
use crate::geometry::{plot_point, simd_transform_point_to_plot_scale, PlotScale};
use crate::polynomial::{
    nearest_prefix, nearest_root, newton_method_approx, newton_scan, newton_step,
    nearest_root_exec, opt_index,
};
use crate::simd_math::{lanes_i32, Lanes, SimdMath};

verus! {

/// The index of the root that `z` is classified to after at most `n` Newton
/// steps: the root a step lands on, or else the root nearest to the last
/// iterate.
pub open spec fn classify(z: Point, roots: Seq<Point>, n: nat) -> int
    decreases n,
{
    if n == 0 {
        nearest_root(z, roots)
    } else {
        match newton_step(z, roots).0 {
            Some(i) => i,
            None => classify(newton_step(z, roots).1, roots, (n - 1) as nat),
        }
    }
}

/// The result of `get_root_id` on these inputs: none exactly for an empty
/// root set, else the classified root.
pub open spec fn root_id_result(z: Point, roots: Seq<Point>, n: nat, r: Option<usize>) -> bool {
    &&& r is None <==> roots.len() == 0
    &&& r matches Some(k) ==> k == classify(z, roots, n)
}

/// A step that ends with an index ends with the index of a root.
pub proof fn lemma_newton_scan_index(z: Point, roots: Seq<Point>, i: int, sre: int, sim: int)
    requires
        0 <= i,
    ensures
        newton_scan(z, roots, i, sre, sim).0 matches Some(k) ==> i <= k < roots.len(),
    decreases roots.len() - i,
{
    if i < roots.len() {
        let dre = z.re - roots[i].re;
        let dim = z.im - roots[i].im;
        let nre = sre + crate::complex::inv_re(dre, dim);
        let nim = sim + crate::complex::inv_im(dre, dim);
        lemma_newton_scan_index(z, roots, i + 1, nre, nim);
    }
}

/// The nearest-root scan names a root.
pub proof fn lemma_nearest_prefix_index(z: Point, roots: Seq<Point>, n: int)
    requires
        1 <= n,
    ensures
        0 <= nearest_prefix(z, roots, n) < n,
    decreases n,
{
    if n > 1 {
        lemma_nearest_prefix_index(z, roots, n - 1);
    }
}

/// A classification of a point against a nonempty root set names a root.
pub proof fn lemma_classify_index(z: Point, roots: Seq<Point>, n: nat)
    requires
        roots.len() >= 1,
    ensures
        0 <= classify(z, roots, n) < roots.len(),
    decreases n,
{
    if n == 0 {
        lemma_nearest_prefix_index(z, roots, roots.len() as int);
    } else {
        lemma_newton_scan_index(z, roots, 0, 0, 0);
        if newton_step(z, roots).0 is None {
            lemma_classify_index(newton_step(z, roots).1, roots, (n - 1) as nat);
        }
    }
}

/// With a single root, every point is classified to that root, whatever the
/// starting point and the iteration bound.
pub proof fn lemma_single_root(z: Point, root: Point, n: nat)
    ensures
        classify(z, seq![root], n) == 0,
{
    lemma_classify_index(z, seq![root], n);
}

/// Classifies `z`: at most `iterations_count` Newton steps, then the nearest
/// root. An empty root set has no classification.
pub fn get_root_id(z: Point, roots: &[Point], iterations_count: usize) -> (r: Option<usize>)
    ensures
        root_id_result(z, roots@, iterations_count as nat, r),
        r matches Some(k) ==> k < roots@.len(),
{
    if roots.len() == 0 {
        return None;
    }
    proof {
        lemma_classify_index(z, roots@, iterations_count as nat);
    }
    let mut w = z;
    let mut it: usize = 0;
    while it < iterations_count
        invariant
            it <= iterations_count,
            0 <= classify(z, roots@, iterations_count as nat) < roots@.len(),
            classify(z, roots@, iterations_count as nat) == classify(
                w,
                roots@,
                (iterations_count - it) as nat,
            ),
        decreases iterations_count - it,
    {
        let (c, next) = newton_method_approx(w, roots);
        assert(classify(w, roots@, (iterations_count - it) as nat) == match newton_step(
            w,
            roots@,
        ).0 {
            Some(i) => i,
            None => classify(newton_step(w, roots@).1, roots@, (iterations_count - it - 1) as nat),
        });
        if let Some(i) = c {
            return Some(i);
        }
        w = next;
        it = it + 1;
    }
    let (k, _) = nearest_root_exec(w, roots);
    Some(k)
}

/// Classification is a function of its inputs: any two results that meet
/// the contract of `get_root_id` for the same point, roots and iteration
/// bound are equal.
pub proof fn lemma_classifier_deterministic(
    z: Point,
    roots: Seq<Point>,
    n: nat,
    r1: Option<usize>,
    r2: Option<usize>,
)
    requires
        root_id_result(z, roots, n, r1),
        root_id_result(z, roots, n, r2),
    ensures
        r1 == r2,
{
}

/// One Newton step on `z`, with the differences, norms and reciprocals for
/// two roots at a time computed in vector lanes. Same result as
/// `newton_method_approx`.
pub fn simd_newton_method_approx(z: Point, roots: &[Point]) -> (r: (Option<usize>, Point))
    ensures
        (opt_index(r.0), r.1) == newton_step(z, roots@),
{
    let mut sre: i64 = 0;
    let mut sim: i64 = 0;
    let mut i: usize = 0;
    while roots.len() - i >= 2
        invariant
            0 <= i <= roots@.len(),
            -SUM_LIMIT <= sre <= SUM_LIMIT,
            -SUM_LIMIT <= sim <= SUM_LIMIT,
            newton_step(z, roots@) == newton_scan(z, roots@, i as int, sre as int, sim as int),
        decreases roots@.len() - i,
    {
        let r0 = roots[i];
        let r1 = roots[i + 1];
        let diffs: Lanes = (
            z.re as i64 - r0.re as i64,
            z.im as i64 - r0.im as i64,
            z.re as i64 - r1.re as i64,
            z.im as i64 - r1.im as i64,
        );
        let norms = SimdMath::calculate_square_norms(diffs);
        let invs = SimdMath::complex_numbers_inversion(diffs);
        proof {
            lemma_inv_bounds(diffs.0 as int, diffs.1 as int);
            lemma_inv_bounds(diffs.2 as int, diffs.3 as int);
        }
        if norms.0 < MIN_DIFF {
            return (Some(i), z);
        }
        let re1 = sre + invs.0;
        let im1 = sim + invs.1;
        if re1 < -SUM_LIMIT || re1 > SUM_LIMIT || im1 < -SUM_LIMIT || im1 > SUM_LIMIT {
            return (Some(i), z);
        }
        assert(newton_scan(z, roots@, i as int, sre as int, sim as int) == newton_scan(
            z,
            roots@,
            i + 1,
            re1 as int,
            im1 as int,
        ));
        if norms.2 < MIN_DIFF {
            return (Some(i + 1), z);
        }
        let re2 = re1 + invs.2;
        let im2 = im1 + invs.3;
        if re2 < -SUM_LIMIT || re2 > SUM_LIMIT || im2 < -SUM_LIMIT || im2 > SUM_LIMIT {
            return (Some(i + 1), z);
        }
        sre = re2;
        sim = im2;
        i = i + 2;
    }
    if i < roots.len() {
        let r0 = roots[i];
        let diffs: Lanes = (z.re as i64 - r0.re as i64, z.im as i64 - r0.im as i64, 0, 0);
        let norms = SimdMath::calculate_square_norms(diffs);
        let invs = SimdMath::complex_numbers_inversion(diffs);
        proof {
            lemma_inv_bounds(diffs.0 as int, diffs.1 as int);
        }
        if norms.0 < MIN_DIFF {
            return (Some(i), z);
        }
        let re1 = sre + invs.0;
        let im1 = sim + invs.1;
        if re1 < -SUM_LIMIT || re1 > SUM_LIMIT || im1 < -SUM_LIMIT || im1 > SUM_LIMIT {
            return (Some(i), z);
        }
        assert(newton_scan(z, roots@, i as int, sre as int, sim as int) == newton_scan(
            z,
            roots@,
            i + 1,
            re1 as int,
            im1 as int,
        ));
        sre = re1;
        sim = im1;
        i = i + 1;
    }
    assert(i == roots@.len());
    let (ire, iim) = inversion_exec(sre, sim);
    proof {
        lemma_inv_bounds(sre as int, sim as int);
    }
    let re = clamp_i32_exec(z.re as i64 - ire);
    let im = clamp_i32_exec(z.im as i64 - iim);
    (None, Point { re, im })
}

/// One Newton step on each of two points.
pub fn simd_newton_method_approx_for_two_numbers(two_z: (Point, Point), roots: &[Point]) -> (r: (
    (Option<usize>, Point),
    (Option<usize>, Point),
))
    ensures
        (opt_index(r.0.0), r.0.1) == newton_step(two_z.0, roots@),
        (opt_index(r.1.0), r.1.1) == newton_step(two_z.1, roots@),
{
    (simd_newton_method_approx(two_z.0, roots), simd_newton_method_approx(two_z.1, roots))
}

/// Where one point of a batch stands: the root it has landed on, or its
/// current iterate.
pub open spec fn lane_ok(
    done: Option<usize>,
    z: Point,
    p: Point,
    roots: Seq<Point>,
    n: nat,
    left: nat,
) -> bool {
    match done {
        Some(i) => classify(p, roots, n) == i,
        None => classify(p, roots, n) == classify(z, roots, left),
    }
}

/// Takes a step's result into one lane; a lane that has landed stays.
fn advance(done: Option<usize>, z: Point, step: (Option<usize>, Point)) -> (r: (
    Option<usize>,
    Point,
))
    ensures
        done is Some ==> r == (done, z),
        done is None ==> r == (step.0, if step.0 is Some { z } else { step.1 }),
{
    match done {
        Some(_) => (done, z),
        None => match step.0 {
            Some(_) => (step.0, z),
            None => (None, step.1),
        },
    }
}

/// The nearest roots of two points, found with vector distances.
fn simd_nearest_roots(z0: Point, z1: Point, roots: &[Point]) -> (r: (usize, usize))
    requires
        roots@.len() >= 1,
    ensures
        r.0 == nearest_root(z0, roots@),
        r.1 == nearest_root(z1, roots@),
{
    let zs: Lanes = (z0.re as i64, z0.im as i64, z1.re as i64, z1.im as i64);
    let first = roots[0];
    let d = SimdMath::calculate_squared_distances(
        zs,
        (first.re as i64, first.im as i64, first.re as i64, first.im as i64),
    );
    let mut min0 = d.0;
    let mut min1 = d.2;
    let mut best0: usize = 0;
    let mut best1: usize = 0;
    let mut i: usize = 1;
    while i < roots.len()
        invariant
            1 <= i <= roots@.len(),
            zs == (z0.re as i64, z0.im as i64, z1.re as i64, z1.im as i64),
            best0 as int == nearest_prefix(z0, roots@, i as int),
            best1 as int == nearest_prefix(z1, roots@, i as int),
            0 <= best0 < i,
            0 <= best1 < i,
            min0 == crate::complex::dist_sq(z0, roots@[best0 as int]),
            min1 == crate::complex::dist_sq(z1, roots@[best1 as int]),
        decreases roots@.len() - i,
    {
        let root = roots[i];
        let d = SimdMath::calculate_squared_distances(
            zs,
            (root.re as i64, root.im as i64, root.re as i64, root.im as i64),
        );
        if d.0 < min0 {
            min0 = d.0;
            best0 = i;
        }
        if d.2 < min1 {
            min1 = d.2;
            best1 = i;
        }
        i = i + 1;
    }
    (best0, best1)
}

/// The four classifications of `simd_get_root_id`.
pub open spec fn batch_ids(
    xs: Lanes,
    ys: Lanes,
    roots: Seq<Point>,
    n: nat,
    s: PlotScale,
) -> (int, int, int, int) {
    (
        classify(plot_point(xs.0 as int, ys.0 as int, s), roots, n),
        classify(plot_point(xs.1 as int, ys.1 as int, s), roots, n),
        classify(plot_point(xs.2 as int, ys.2 as int, s), roots, n),
        classify(plot_point(xs.3 as int, ys.3 as int, s), roots, n),
    )
}

/// Classifies four pixels `(xs.k, ys.k)` at once: mapped to plot space and
/// stepped in pairs. Each result is the one `get_root_id` gives for that
/// pixel's plot point; an empty root set has no classification.
pub fn simd_get_root_id(
    xs: Lanes,
    ys: Lanes,
    roots: &[Point],
    iterations_count: usize,
    plot_scale: &PlotScale,
) -> (r: Option<(usize, usize, usize, usize)>)
    requires
        plot_scale.wf(),
        lanes_i32(xs),
        lanes_i32(ys),
    ensures
        r is None <==> roots@.len() == 0,
        r matches Some(ids) ==> (ids.0 as int, ids.1 as int, ids.2 as int, ids.3 as int)
            == batch_ids(xs, ys, roots@, iterations_count as nat, *plot_scale),
{
    if roots.len() == 0 {
        return None;
    }
    let ghost n = iterations_count as nat;
    let p01 = simd_transform_point_to_plot_scale((xs.0, ys.0, xs.1, ys.1), plot_scale);
    let p23 = simd_transform_point_to_plot_scale((xs.2, ys.2, xs.3, ys.3), plot_scale);
    let mut z0 = Point { re: p01.0 as i32, im: p01.1 as i32 };
    let mut z1 = Point { re: p01.2 as i32, im: p01.3 as i32 };
    let mut z2 = Point { re: p23.0 as i32, im: p23.1 as i32 };
    let mut z3 = Point { re: p23.2 as i32, im: p23.3 as i32 };
    let ghost q0 = z0;
    let ghost q1 = z1;
    let ghost q2 = z2;
    let ghost q3 = z3;
    assert(q0 == plot_point(xs.0 as int, ys.0 as int, *plot_scale));
    assert(q1 == plot_point(xs.1 as int, ys.1 as int, *plot_scale));
    assert(q2 == plot_point(xs.2 as int, ys.2 as int, *plot_scale));
    assert(q3 == plot_point(xs.3 as int, ys.3 as int, *plot_scale));
    let mut d0: Option<usize> = None;
    let mut d1: Option<usize> = None;
    let mut d2: Option<usize> = None;
    let mut d3: Option<usize> = None;
    let mut it: usize = 0;
    while it < iterations_count
        invariant
            it <= iterations_count,
            n == iterations_count as nat,
            lane_ok(d0, z0, q0, roots@, n, (n - it) as nat),
            lane_ok(d1, z1, q1, roots@, n, (n - it) as nat),
            lane_ok(d2, z2, q2, roots@, n, (n - it) as nat),
            lane_ok(d3, z3, q3, roots@, n, (n - it) as nat),
        decreases iterations_count - it,
    {
        let (a, b) = simd_newton_method_approx_for_two_numbers((z0, z1), roots);
        let (c, d) = simd_newton_method_approx_for_two_numbers((z2, z3), roots);
        let ghost left = (n - it - 1) as nat;
        assert(classify(z0, roots@, (left + 1) as nat) == match newton_step(z0, roots@).0 {
            Some(i) => i,
            None => classify(newton_step(z0, roots@).1, roots@, left),
        });
        assert(classify(z1, roots@, (left + 1) as nat) == match newton_step(z1, roots@).0 {
            Some(i) => i,
            None => classify(newton_step(z1, roots@).1, roots@, left),
        });
        assert(classify(z2, roots@, (left + 1) as nat) == match newton_step(z2, roots@).0 {
            Some(i) => i,
            None => classify(newton_step(z2, roots@).1, roots@, left),
        });
        assert(classify(z3, roots@, (left + 1) as nat) == match newton_step(z3, roots@).0 {
            Some(i) => i,
            None => classify(newton_step(z3, roots@).1, roots@, left),
        });
        let s0 = advance(d0, z0, a);
        let s1 = advance(d1, z1, b);
        let s2 = advance(d2, z2, c);
        let s3 = advance(d3, z3, d);
        d0 = s0.0;
        z0 = s0.1;
        d1 = s1.0;
        z1 = s1.1;
        d2 = s2.0;
        z2 = s2.1;
        d3 = s3.0;
        z3 = s3.1;
        it = it + 1;
    }
    let (n0, n1) = simd_nearest_roots(z0, z1, roots);
    let (n2, n3) = simd_nearest_roots(z2, z3, roots);
    Some((d0.unwrap_or(n0), d1.unwrap_or(n1), d2.unwrap_or(n2), d3.unwrap_or(n3)))
}

/// Scalar/vector equivalence of classification: for any four pixels, each
/// result of `simd_get_root_id` is the result that `get_root_id` gives for that
/// pixel's plot point.
pub proof fn lemma_batch_matches_scalar(
    xs: Lanes,
    ys: Lanes,
    roots: Seq<Point>,
    n: nat,
    s: PlotScale,
    ids: (usize, usize, usize, usize),
    r0: Option<usize>,
    r1: Option<usize>,
    r2: Option<usize>,
    r3: Option<usize>,
)
    requires
        roots.len() >= 1,
        (ids.0 as int, ids.1 as int, ids.2 as int, ids.3 as int) == batch_ids(xs, ys, roots, n, s),
        root_id_result(plot_point(xs.0 as int, ys.0 as int, s), roots, n, r0),
        root_id_result(plot_point(xs.1 as int, ys.1 as int, s), roots, n, r1),
        root_id_result(plot_point(xs.2 as int, ys.2 as int, s), roots, n, r2),
        root_id_result(plot_point(xs.3 as int, ys.3 as int, s), roots, n, r3),
    ensures
        r0 == Some(ids.0),
        r1 == Some(ids.1),
        r2 == Some(ids.2),
        r3 == Some(ids.3),
{
}

} // verus!
