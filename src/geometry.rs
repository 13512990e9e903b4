//! The affine map between raster pixels and the fixed-point complex plane.
use vstd::prelude::*;
use crate::complex::{
    clamp_i32, clamp_i32_exec, div_floor_exec, div_trunc, div_trunc_signed, div_trunc_signed_exec,
    lemma_div_trunc_close, Point, ONE,
};
use crate::simd_math::{lanes_i32, Lanes};

verus! {

/// An affine map between pixel space and plot space:
/// `plot = offset + pixel * value_range / display_range`.
///
/// Offsets and value ranges are raw fixed-point values; display ranges are
/// the raster's width and height in pixels.
#[derive(Clone, Copy, Debug, PartialEq, Eq, Structural)]
pub struct PlotScale {
    pub x_offset: i32,
    pub y_offset: i32,
    pub x_value_range: i32,
    pub y_value_range: i32,
    pub x_display_range: i32,
    pub y_display_range: i32,
}

impl PlotScale {
    /// Display ranges are positive. Value ranges may have either sign (a
    /// negative one flips its axis), or be zero.
    pub open spec fn wf(&self) -> bool {
        self.x_display_range > 0 && self.y_display_range > 0
    }

    /// Checks `wf`.
    pub fn is_valid(&self) -> (r: bool)
        ensures
            r == self.wf(),
    {
        self.x_display_range > 0 && self.y_display_range > 0
    }

    /// The map can be inverted: `wf`, and neither value range is zero.
    pub open spec fn invertible(&self) -> bool {
        self.wf() && self.x_value_range != 0 && self.y_value_range != 0
    }
}

/// Plot coordinate of pixel coordinate `p` on one axis, before saturation.
pub open spec fn axis_to_plot(p: int, offset: int, value_range: int, display_range: int) -> int {
    offset + (p * value_range) / display_range
}

/// Pixel coordinate of plot coordinate `v` on one axis,
/// `(v - offset) * display_range / value_range`, in units of `1 / ONE` pixel,
/// truncated.
pub open spec fn axis_to_pixel(v: int, offset: int, value_range: int, display_range: int) -> int {
    div_trunc_signed((v - offset) * display_range * ONE, value_range)
}

/// The plot-space point of a pixel, saturated to the representable plane.
pub open spec fn plot_point(px: int, py: int, s: PlotScale) -> Point {
    Point {
        re: clamp_i32(axis_to_plot(px, s.x_offset as int, s.x_value_range as int, s.x_display_range as int)) as i32,
        im: clamp_i32(axis_to_plot(py, s.y_offset as int, s.y_value_range as int, s.y_display_range as int)) as i32,
    }
}

/// The pixel-space position of a plot-space point, in units of `1 / ONE`
/// pixel.
pub open spec fn pixel_point(p: Point, s: PlotScale) -> (int, int) {
    (
        axis_to_pixel(p.re as int, s.x_offset as int, s.x_value_range as int, s.x_display_range as int),
        axis_to_pixel(p.im as int, s.y_offset as int, s.y_value_range as int, s.y_display_range as int),
    )
}

/// One axis of `transform_point_to_plot_scale`, saturated.
fn axis_to_plot_exec(p: i64, offset: i32, value_range: i32, display_range: i32) -> (r: i32)
    requires
        i32::MIN <= p <= i32::MAX,
        display_range > 0,
    ensures
        r == clamp_i32(axis_to_plot(p as int, offset as int, value_range as int, display_range as int)),
{
    proof {
        let pv = p as int * value_range as int;
        assert(-0x4000_0000_0000_0000 <= pv <= 0x4000_0000_0000_0000) by (nonlinear_arith)
            requires
                i32::MIN <= p <= i32::MAX,
                i32::MIN <= value_range <= i32::MAX,
                pv == p * value_range,
        ;
    }
    let prod = (p as i128) * (value_range as i128);
    let q = div_floor_exec(prod, display_range as i128);
    clamp_i32_exec((offset as i64) + (q as i64))
}

/// Maps a pixel to plot space, saturating to the representable plane.
pub fn transform_point_to_plot_scale(x: i32, y: i32, plot_scale: &PlotScale) -> (r: Point)
    requires
        plot_scale.wf(),
    ensures
        r == plot_point(x as int, y as int, *plot_scale),
{
    let re = axis_to_plot_exec(x as i64, plot_scale.x_offset, plot_scale.x_value_range, plot_scale.x_display_range);
    let im = axis_to_plot_exec(y as i64, plot_scale.y_offset, plot_scale.y_value_range, plot_scale.y_display_range);
    Point { re, im }
}

/// One axis of `transform_point_to_canvas_scale`.
fn axis_to_pixel_exec(v: i32, offset: i32, value_range: i32, display_range: i32) -> (r: i128)
    requires
        value_range != 0,
        display_range > 0,
    ensures
        r == axis_to_pixel(v as int, offset as int, value_range as int, display_range as int),
{
    let d = (v as i128) - (offset as i128);
    proof {
        let dd = d as int * display_range as int;
        assert(-0x8000_0000_0000_0000 <= dd <= 0x8000_0000_0000_0000) by (nonlinear_arith)
            requires
                -0x1_0000_0000 < d < 0x1_0000_0000,
                0 < display_range <= i32::MAX,
                dd == d * display_range,
        ;
    }
    let dd = d * (display_range as i128);
    let a = dd * 65536;
    div_trunc_signed_exec(a, value_range as i128)
}

/// Maps a plot-space point back to pixel space: on each axis
/// `(v - offset) * display_range / value_range`, with the fractional part
/// kept in units of `1 / ONE` pixel and the result truncated towards zero.
pub fn transform_point_to_canvas_scale(p: Point, plot_scale: &PlotScale) -> (r: (i128, i128))
    requires
        plot_scale.invertible(),
    ensures
        (r.0 as int, r.1 as int) == pixel_point(p, *plot_scale),
{
    let x = axis_to_pixel_exec(p.re, plot_scale.x_offset, plot_scale.x_value_range, plot_scale.x_display_range);
    let y = axis_to_pixel_exec(p.im, plot_scale.y_offset, plot_scale.y_value_range, plot_scale.y_display_range);
    (x, y)
}

/// Maps two pixels `[x0, y0, x1, y1]` to plot space at once; each point is
/// mapped exactly as `transform_point_to_plot_scale` maps it.
pub fn simd_transform_point_to_plot_scale(points: Lanes, plot_scale: &PlotScale) -> (r: Lanes)
    requires
        plot_scale.wf(),
        lanes_i32(points),
    ensures
        r.0 == plot_point(points.0 as int, points.1 as int, *plot_scale).re,
        r.1 == plot_point(points.0 as int, points.1 as int, *plot_scale).im,
        r.2 == plot_point(points.2 as int, points.3 as int, *plot_scale).re,
        r.3 == plot_point(points.2 as int, points.3 as int, *plot_scale).im,
        lanes_i32(r),
{
    let s = plot_scale;
    (
        axis_to_plot_exec(points.0, s.x_offset, s.x_value_range, s.x_display_range) as i64,
        axis_to_plot_exec(points.1, s.y_offset, s.y_value_range, s.y_display_range) as i64,
        axis_to_plot_exec(points.2, s.x_offset, s.x_value_range, s.x_display_range) as i64,
        axis_to_plot_exec(points.3, s.y_offset, s.y_value_range, s.y_display_range) as i64,
    )
}

/// On one axis, mapping a pixel to plot space and back lands within
/// `display_range / |value_range|` of a pixel plus one unit of `1 / ONE` pixel
/// of where it started: the plot map loses less than one raw unit.
pub proof fn lemma_axis_round_trip(p: int, offset: int, value_range: int, display_range: int)
    requires
        value_range != 0,
        display_range > 0,
    ensures
        ({
            let n = if value_range > 0 { value_range } else { -value_range };
            let t = axis_to_pixel(axis_to_plot(p, offset, value_range, display_range), offset, value_range, display_range);
            -(display_range * ONE + n) < (t - p * ONE) * n < display_range * ONE + n
        }),
{
    let r = value_range;
    let d = display_range;
    let k = ONE as int;
    let q = (p * r) / d;
    let e = (p * r) % d;
    vstd::arithmetic::div_mod::lemma_fundamental_div_mod(p * r, d);
    vstd::arithmetic::div_mod::lemma_mod_bound(p * r, d);
    let v = axis_to_plot(p, offset, r, d);
    assert(v - offset == q);
    let a = q * d * k;
    assert(a == p * r * k - e * k) by (nonlinear_arith)
        requires
            p * r == d * q + e,
            a == q * d * k,
    ;
    assert(0 <= e * k < d * k) by (nonlinear_arith)
        requires
            0 <= e < d,
            k == 65536,
    ;
    let t = axis_to_pixel(v, offset, r, d);
    if r > 0 {
        lemma_div_trunc_close(a, r);
        assert(t == div_trunc(a, r));
        assert(-(d * k + r) < (t - p * k) * r < d * k + r) by (nonlinear_arith)
            requires
                -r < t * r - a < r,
                a == p * r * k - e * k,
                0 <= e * k < d * k,
        ;
    } else {
        let n = -r;
        lemma_div_trunc_close(a, n);
        let t0 = div_trunc(a, n);
        assert(t == -t0);
        assert(-(d * k + n) < (t - p * k) * n < d * k + n) by (nonlinear_arith)
            requires
                -n < t0 * n - a < n,
                t == -t0,
                r == -n,
                a == p * r * k - e * k,
                0 <= e * k < d * k,
        ;
    }
}

/// Round trip: for every pixel and every invertible scale, mapping the pixel
/// to plot space and back to pixel space (in units of `1 / ONE` pixel) gives
/// the pixel again, up to the rounding of the plot map: on each axis the error
/// is less than `display_range / |value_range|` of a pixel plus one unit,
/// unless the plot point had to be saturated. It is exact on an axis where
/// a pixel spans a whole number of raw units.
pub proof fn lemma_round_trip(px: i32, py: i32, s: PlotScale)
    requires
        s.invertible(),
        i32::MIN <= axis_to_plot(px as int, s.x_offset as int, s.x_value_range as int, s.x_display_range as int) <= i32::MAX,
        i32::MIN <= axis_to_plot(py as int, s.y_offset as int, s.y_value_range as int, s.y_display_range as int) <= i32::MAX,
    ensures
        ({
            let t = pixel_point(plot_point(px as int, py as int, s), s);
            let nx = if s.x_value_range > 0 { s.x_value_range as int } else { -s.x_value_range };
            let ny = if s.y_value_range > 0 { s.y_value_range as int } else { -s.y_value_range };
            &&& -(s.x_display_range * ONE + nx) < (t.0 - px * ONE) * nx < s.x_display_range * ONE + nx
            &&& -(s.y_display_range * ONE + ny) < (t.1 - py * ONE) * ny < s.y_display_range * ONE + ny
        }),
{
    lemma_axis_round_trip(px as int, s.x_offset as int, s.x_value_range as int, s.x_display_range as int);
    lemma_axis_round_trip(py as int, s.y_offset as int, s.y_value_range as int, s.y_display_range as int);
}

} // verus!
