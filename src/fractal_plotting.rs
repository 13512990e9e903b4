//! Filling a raster with root colors, whole or one partition at a time.
use vstd::prelude::*;
use crate::complex::Point;
use crate::fractal_calculation::{classify, get_root_id, simd_get_root_id};
use crate::geometry::{plot_point, transform_point_to_plot_scale, PlotScale};
use crate::simd_math::{Lanes, SimdMath};

verus! {

/// `floor(total * offset / (parts_count * step)) * step`: the start of
/// partition `offset` of `parts_count`, aligned down to a multiple of `step`.
pub open spec fn part_size(total: int, parts_count: int, offset: int, step: int) -> int {
    ((total * offset) / (parts_count * step)) * step
}

/// First pixel of a partition.
pub open spec fn partition_begin(total: int, parts_count: int, index: int, alignment: int) -> int {
    part_size(total, parts_count, index, alignment)
}

/// One past the last pixel of a partition; the last partition also takes the
/// pixels beyond its aligned end.
pub open spec fn partition_end(total: int, parts_count: int, index: int, alignment: int) -> int {
    if index + 1 >= parts_count {
        total
    } else {
        part_size(total, parts_count, index + 1, alignment)
    }
}

/// Pixel `p` lies in partition `index`.
pub open spec fn in_partition(total: int, parts_count: int, index: int, alignment: int, p: int) -> bool {
    partition_begin(total, parts_count, index, alignment) <= p < partition_end(
        total,
        parts_count,
        index,
        alignment,
    )
}

/// Some partition holds pixel `p`.
pub open spec fn covered(total: int, parts_count: int, alignment: int, p: int) -> bool {
    exists|i: int| 0 <= i < parts_count && #[trigger] in_partition(total, parts_count, i, alignment, p)
}

proof fn lemma_part_size_bounds(total: int, parts_count: int, offset: int, step: int)
    requires
        total >= 0,
        parts_count >= 1,
        step >= 1,
        0 <= offset <= parts_count,
    ensures
        0 <= part_size(total, parts_count, offset, step) <= total,
{
    let a = total * offset;
    let d = parts_count * step;
    assert(a >= 0 && d >= 1) by (nonlinear_arith)
        requires
            total >= 0,
            offset >= 0,
            parts_count >= 1,
            step >= 1,
            a == total * offset,
            d == parts_count * step,
    ;
    let q = a / d;
    vstd::arithmetic::div_mod::lemma_fundamental_div_mod(a, d);
    vstd::arithmetic::div_mod::lemma_mod_bound(a, d);
    vstd::arithmetic::div_mod::lemma_div_pos_is_pos(a, d);
    assert(a <= total * parts_count) by (nonlinear_arith)
        requires
            a == total * offset,
            offset <= parts_count,
            total >= 0,
    ;
    assert(parts_count * (q * step) <= parts_count * total) by (nonlinear_arith)
        requires
            a == d * q + a % d,
            0 <= a % d,
            a <= total * parts_count,
            d == parts_count * step,
    ;
    assert(q * step <= total) by (nonlinear_arith)
        requires
            parts_count * (q * step) <= parts_count * total,
            parts_count >= 1,
    ;
    assert(0 <= q * step) by (nonlinear_arith)
        requires
            q >= 0,
            step >= 1,
    ;
}

proof fn lemma_part_size_zero(total: int, parts_count: int, step: int)
    requires
        parts_count >= 1,
        step >= 1,
    ensures
        part_size(total, parts_count, 0, step) == 0,
{
    assert(parts_count * step >= 1) by (nonlinear_arith)
        requires
            parts_count >= 1,
            step >= 1,
    ;
    assert(total * 0 == 0);
    vstd::arithmetic::div_mod::lemma_div_of0(parts_count * step);
    assert(0 * step == 0);
}

proof fn lemma_part_size_monotone(total: int, parts_count: int, i: int, j: int, step: int)
    requires
        total >= 0,
        parts_count >= 1,
        step >= 1,
        0 <= i <= j,
    ensures
        part_size(total, parts_count, i, step) <= part_size(total, parts_count, j, step),
{
    let d = parts_count * step;
    assert(total * i <= total * j && d > 0) by (nonlinear_arith)
        requires
            total >= 0,
            i <= j,
            parts_count >= 1,
            step >= 1,
            d == parts_count * step,
    ;
    vstd::arithmetic::div_mod::lemma_div_is_ordered(total * i, total * j, d);
    let qi = (total * i) / d;
    let qj = (total * j) / d;
    assert(qi * step <= qj * step) by (nonlinear_arith)
        requires
            qi <= qj,
            step >= 1,
    ;
}

/// Aligned partition start, computed exactly.
pub fn calculate_part_size(total_size: u64, parts_count: u64, offset: u64, step: u64) -> (r: u64)
    requires
        parts_count >= 1,
        step >= 1,
        offset <= parts_count,
    ensures
        r == part_size(total_size as int, parts_count as int, offset as int, step as int),
        r <= total_size,
{
    proof {
        lemma_part_size_bounds(total_size as int, parts_count as int, offset as int, step as int);
        assert((total_size as int) * (offset as int) <= 0xffff_ffff_ffff_ffff_ffff_ffff_ffff_ffff)
            by (nonlinear_arith)
            requires
                total_size <= u64::MAX,
                offset <= u64::MAX,
        ;
        assert(1 <= (parts_count as int) * (step as int) <= 0xffff_ffff_ffff_ffff_ffff_ffff_ffff_ffff)
            by (nonlinear_arith)
            requires
                1 <= parts_count <= u64::MAX,
                1 <= step <= u64::MAX,
        ;
    }
    let a = (total_size as u128) * (offset as u128);
    let d = (parts_count as u128) * (step as u128);
    let q = a / d;
    proof {
        assert(q * step <= total_size);
    }
    (q * (step as u128)) as u64
}

/// The half-open pixel range `[begin, end)` of partition `partition_index`
/// out of `parts_count`, with starts aligned to `alignment`.
pub fn partition_bounds(total: u64, parts_count: u64, partition_index: u64, alignment: u64) -> (r: (
    u64,
    u64,
))
    requires
        parts_count >= 1,
        alignment >= 1,
        partition_index < parts_count,
    ensures
        r.0 == partition_begin(total as int, parts_count as int, partition_index as int, alignment as int),
        r.1 == partition_end(total as int, parts_count as int, partition_index as int, alignment as int),
        r.0 <= r.1 <= total,
{
    let begin = calculate_part_size(total, parts_count, partition_index, alignment);
    let end = if partition_index + 1 == parts_count {
        total
    } else {
        calculate_part_size(total, parts_count, partition_index + 1, alignment)
    };
    proof {
        lemma_part_size_monotone(
            total as int,
            parts_count as int,
            partition_index as int,
            partition_index + 1,
            alignment as int,
        );
    }
    (begin, end)
}

proof fn lemma_partition_cover(total: int, parts_count: int, alignment: int, k: int, p: int)
    requires
        total >= 0,
        parts_count >= 1,
        alignment >= 1,
        0 <= k < parts_count,
        0 <= p < partition_end(total, parts_count, k, alignment),
    ensures
        exists|i: int| 0 <= i <= k && in_partition(total, parts_count, i, alignment, p),
    decreases k,
{
    if p >= partition_begin(total, parts_count, k, alignment) {
        assert(in_partition(total, parts_count, k, alignment, p));
    } else {
        assert(k > 0) by {
            if k == 0 {
                lemma_part_size_zero(total, parts_count, alignment);
            }
        }
        lemma_partition_cover(total, parts_count, alignment, k - 1, p);
    }
}

/// Partition tiling: for every pixel count, partition count and alignment,
/// the partitions are in order, each starts where the one before it ends, the
/// first starts at 0 and the last ends at `total`; so every pixel of
/// `[0, total)` lies in exactly one partition, and no partition holds any
/// other pixel.
pub proof fn lemma_partitions_tile(total: int, parts_count: int, alignment: int)
    requires
        total >= 0,
        parts_count >= 1,
        alignment >= 1,
    ensures
        partition_begin(total, parts_count, 0, alignment) == 0,
        partition_end(total, parts_count, parts_count - 1, alignment) == total,
        forall|i: int|
            0 <= i < parts_count - 1 ==> #[trigger] partition_end(total, parts_count, i, alignment)
                == partition_begin(total, parts_count, i + 1, alignment),
        forall|i: int|
            0 <= i < parts_count ==> 0 <= #[trigger] partition_begin(total, parts_count, i, alignment)
                <= partition_end(total, parts_count, i, alignment) <= total,
        forall|p: int| 0 <= p < total ==> #[trigger] covered(total, parts_count, alignment, p),
        forall|i: int, j: int, p: int|
            0 <= i < parts_count && 0 <= j < parts_count && #[trigger] in_partition(
                total,
                parts_count,
                i,
                alignment,
                p,
            ) && #[trigger] in_partition(total, parts_count, j, alignment, p) ==> i == j,
        forall|i: int, p: int|
            0 <= i < parts_count && #[trigger] in_partition(total, parts_count, i, alignment, p)
                ==> 0 <= p < total,
{
    lemma_part_size_zero(total, parts_count, alignment);
    assert forall|i: int|
        0 <= i < parts_count implies 0 <= #[trigger] partition_begin(total, parts_count, i, alignment)
        <= partition_end(total, parts_count, i, alignment) <= total by {
        lemma_part_size_bounds(total, parts_count, i, alignment);
        if i + 1 < parts_count {
            lemma_part_size_bounds(total, parts_count, i + 1, alignment);
            lemma_part_size_monotone(total, parts_count, i, i + 1, alignment);
        }
    }
    assert forall|p: int| 0 <= p < total implies #[trigger] covered(total, parts_count, alignment, p) by {
        lemma_partition_cover(total, parts_count, alignment, parts_count - 1, p);
    }
    assert forall|i: int, j: int, p: int|
        0 <= i < parts_count && 0 <= j < parts_count && #[trigger] in_partition(
            total,
            parts_count,
            i,
            alignment,
            p,
        ) && #[trigger] in_partition(total, parts_count, j, alignment, p) implies i == j by {
        if i < j {
            lemma_part_size_monotone(total, parts_count, i + 1, j, alignment);
        } else if j < i {
            lemma_part_size_monotone(total, parts_count, j + 1, i, alignment);
        }
    }
    assert forall|i: int, p: int|
        0 <= i < parts_count && #[trigger] in_partition(total, parts_count, i, alignment, p)
            implies 0 <= p < total by {
        lemma_part_size_bounds(total, parts_count, i, alignment);
        if i + 1 < parts_count {
            lemma_part_size_bounds(total, parts_count, i + 1, alignment);
        }
    }
}

/// The colors of four neighbouring pixels.
#[derive(Clone, Copy, Debug, PartialEq, Eq, Structural)]
pub struct ColorsPack(pub u32, pub u32, pub u32, pub u32);

/// The fill path: four pixels at a time in vector lanes, or one at a time.
#[derive(Clone, Copy, Debug, PartialEq, Eq, Structural)]
pub enum DrawingModes {
    Simd,
    Scalar,
}

/// Why a fill was refused.
#[derive(Clone, Copy, Debug, PartialEq, Eq, Structural)]
pub enum FillError {
    /// A display range or value range is not positive.
    InvalidGeometry,
    /// There is no root to classify against.
    EmptyRoots,
    /// There is no color to paint with.
    EmptyColors,
    /// The partition count is zero, or the index is not below it.
    InvalidPartition,
    /// The buffer has fewer slots than the raster has pixels.
    BufferSizeMismatch,
}

/// Four color channels packed into one value, first channel lowest.
pub open spec fn pack_channels(c0: u8, c1: u8, c2: u8, c3: u8) -> u32 {
    (c0 + 256 * c1 + 65536 * c2 + 16777216 * c3) as u32
}

/// A color's four channels packed into one value, first channel lowest.
pub open spec fn packed(c: [u8; 4]) -> u32 {
    pack_channels(c@[0], c@[1], c@[2], c@[3])
}

/// Packs four color channels into one value, first channel lowest.
pub fn pack_color(c0: u8, c1: u8, c2: u8, c3: u8) -> (r: u32)
    ensures
        r == pack_channels(c0, c1, c2, c3),
{
    (c0 as u32) + 256 * (c1 as u32) + 65536 * (c2 as u32) + 16777216 * (c3 as u32)
}

/// Packs each color of a table once, so that a fill writes whole pixels.
pub fn convert_colors_array(colors: &[[u8; 4]]) -> (r: Vec<u32>)
    ensures
        r@.len() == colors@.len(),
        forall|i: int| 0 <= i < colors@.len() ==> #[trigger] r@[i] == packed(colors@[i]),
{
    let mut out: Vec<u32> = Vec::new();
    let mut i: usize = 0;
    while i < colors.len()
        invariant
            i <= colors@.len(),
            out@.len() == i,
            forall|j: int| 0 <= j < i ==> #[trigger] out@[j] == packed(colors@[j]),
        decreases colors@.len() - i,
    {
        let c = colors[i];
        out.push(pack_color(c[0], c[1], c[2], c[3]));
        i = i + 1;
    }
    out
}

/// Number of pixels of the raster that a scale describes.
pub open spec fn pixel_count(s: PlotScale) -> int {
    s.x_display_range * s.y_display_range
}

/// What a fill with these inputs returns: the first rule that they break, or
/// success.
pub open spec fn fill_check(
    s: PlotScale,
    roots_len: int,
    colors_len: int,
    buffer_len: int,
    part_offset: int,
    parts_count: int,
) -> Result<(), FillError> {
    if !s.wf() {
        Err(FillError::InvalidGeometry)
    } else if roots_len == 0 {
        Err(FillError::EmptyRoots)
    } else if colors_len == 0 {
        Err(FillError::EmptyColors)
    } else if parts_count == 0 || part_offset >= parts_count {
        Err(FillError::InvalidPartition)
    } else if buffer_len < pixel_count(s) {
        Err(FillError::BufferSizeMismatch)
    } else {
        Ok(())
    }
}

/// The color of pixel `i` (row-major): the color of the root that its plot
/// point is classified to, the color table wrapping around.
pub open spec fn pixel_color(i: int, s: PlotScale, roots: Seq<Point>, n: nat, colors: Seq<u32>) -> u32 {
    let w = s.x_display_range as int;
    colors[classify(plot_point(i % w, i / w, s), roots, n) % (colors.len() as int)]
}

/// `new` is `old` with the pixels of `[begin, end)` painted, and no other
/// slot changed.
pub open spec fn filled(
    old: Seq<u32>,
    new: Seq<u32>,
    begin: int,
    end: int,
    s: PlotScale,
    roots: Seq<Point>,
    n: nat,
    colors: Seq<u32>,
) -> bool {
    &&& new.len() == old.len()
    &&& forall|i: int|
        0 <= i < new.len() ==> #[trigger] new[i] == if begin <= i < end {
            pixel_color(i, s, roots, n, colors)
        } else {
            old[i]
        }
}

proof fn lemma_row_bound(i: int, w: int, h: int)
    requires
        0 <= i < w * h,
        w > 0,
        h > 0,
    ensures
        0 <= i / w < h,
        0 <= i % w < w,
{
    vstd::arithmetic::div_mod::lemma_fundamental_div_mod(i, w);
    vstd::arithmetic::div_mod::lemma_mod_bound(i, w);
    vstd::arithmetic::div_mod::lemma_div_pos_is_pos(i, w);
    let q = i / w;
    if q >= h {
        assert(w * q >= w * h) by (nonlinear_arith)
            requires
                q >= h,
                w > 0,
        ;
    }
}

/// The color of pixel `i`.
fn scalar_pixel_color(
    i: usize,
    plot_scale: &PlotScale,
    roots: &[Point],
    iterations_count: usize,
    colors: &[u32],
) -> (r: u32)
    requires
        plot_scale.wf(),
        roots@.len() >= 1,
        colors@.len() >= 1,
        i < pixel_count(*plot_scale),
    ensures
        r == pixel_color(i as int, *plot_scale, roots@, iterations_count as nat, colors@),
{
    let w = plot_scale.x_display_range as usize;
    proof {
        lemma_row_bound(i as int, w as int, plot_scale.y_display_range as int);
    }
    let x = (i % w) as i32;
    let y = (i / w) as i32;
    let z = transform_point_to_plot_scale(x, y, plot_scale);
    let k = get_root_id(z, roots, iterations_count).unwrap();
    colors[k % colors.len()]
}

/// Paints the pixels of `[begin, end)` one at a time.
fn fill_range_scalar(
    plot_scale: &PlotScale,
    roots: &[Point],
    iterations_count: usize,
    colors: &[u32],
    buffer: &mut Vec<u32>,
    begin: usize,
    end: usize,
)
    requires
        plot_scale.wf(),
        roots@.len() >= 1,
        colors@.len() >= 1,
        begin <= end <= pixel_count(*plot_scale),
        old(buffer)@.len() >= pixel_count(*plot_scale),
    ensures
        filled(
            old(buffer)@,
            final(buffer)@,
            begin as int,
            end as int,
            *plot_scale,
            roots@,
            iterations_count as nat,
            colors@,
        ),
{
    let ghost start = buffer@;
    let mut i = begin;
    while i < end
        invariant
            begin <= i <= end,
            end <= pixel_count(*plot_scale),
            start.len() >= pixel_count(*plot_scale),
            plot_scale.wf(),
            roots@.len() >= 1,
            colors@.len() >= 1,
            filled(start, buffer@, begin as int, i as int, *plot_scale, roots@, iterations_count as nat, colors@),
        decreases end - i,
    {
        let c = scalar_pixel_color(i, plot_scale, roots, iterations_count, colors);
        buffer.set(i, c);
        i = i + 1;
    }
}

/// Checks the inputs of a fill in the order of `fill_check`.
fn check_fill(
    plot_scale: &PlotScale,
    roots: &[Point],
    colors: &[u32],
    buffer_len: usize,
    part_offset: usize,
    parts_count: usize,
) -> (r: Result<u64, FillError>)
    ensures
        r is Ok <==> fill_check(*plot_scale, roots@.len() as int, colors@.len() as int, buffer_len as int, part_offset as int, parts_count as int) is Ok,
        r matches Err(e) ==> fill_check(*plot_scale, roots@.len() as int, colors@.len() as int, buffer_len as int, part_offset as int, parts_count as int) == Err::<(), FillError>(e),
        r matches Ok(t) ==> t == pixel_count(*plot_scale) && t <= buffer_len,
{
    if !plot_scale.is_valid() {
        return Err(FillError::InvalidGeometry);
    }
    if roots.len() == 0 {
        return Err(FillError::EmptyRoots);
    }
    if colors.len() == 0 {
        return Err(FillError::EmptyColors);
    }
    if parts_count == 0 || part_offset >= parts_count {
        return Err(FillError::InvalidPartition);
    }
    let w = plot_scale.x_display_range as u64;
    let h = plot_scale.y_display_range as u64;
    proof {
        assert(w * h <= 0x4000_0000_0000_0000) by (nonlinear_arith)
            requires
                0 < w <= i32::MAX,
                0 < h <= i32::MAX,
        ;
    }
    let total = w * h;
    if (buffer_len as u64) < total {
        return Err(FillError::BufferSizeMismatch);
    }
    Ok(total)
}

/// Paints partition `part_offset` of `parts_count` of the raster, one pixel
/// at a time: every pixel of the partition gets the color of the root its plot
/// point is classified to, and no other slot of the buffer changes. A refused
/// fill leaves the buffer as it was.
pub fn fill_pixels_scalar(
    plot_scale: &PlotScale,
    roots: &[Point],
    iterations_count: usize,
    colors: &[u32],
    buffer: &mut Vec<u32>,
    part_offset: usize,
    parts_count: usize,
) -> (r: Result<(), FillError>)
    ensures
        r == fill_check(*plot_scale, roots@.len() as int, colors@.len() as int, old(buffer)@.len() as int, part_offset as int, parts_count as int),
        r is Ok ==> filled(
            old(buffer)@,
            final(buffer)@,
            partition_begin(pixel_count(*plot_scale), parts_count as int, part_offset as int, 1),
            partition_end(pixel_count(*plot_scale), parts_count as int, part_offset as int, 1),
            *plot_scale,
            roots@,
            iterations_count as nat,
            colors@,
        ),
        r is Err ==> final(buffer)@ == old(buffer)@,
{
    let total = match check_fill(plot_scale, roots, colors, buffer.len(), part_offset, parts_count) {
        Ok(t) => t,
        Err(e) => return Err(e),
    };
    let (begin, end) = partition_bounds(total, parts_count as u64, part_offset as u64, 1);
    fill_range_scalar(plot_scale, roots, iterations_count, colors, buffer, begin as usize, end as usize);
    Ok(())
}

proof fn lemma_filled_compose(
    a: Seq<u32>,
    b: Seq<u32>,
    c: Seq<u32>,
    begin: int,
    mid: int,
    end: int,
    s: PlotScale,
    roots: Seq<Point>,
    n: nat,
    colors: Seq<u32>,
)
    requires
        begin <= mid <= end,
        filled(a, b, begin, mid, s, roots, n, colors),
        filled(b, c, mid, end, s, roots, n, colors),
    ensures
        filled(a, c, begin, end, s, roots, n, colors),
{
    assert forall|i: int| 0 <= i < c.len() implies #[trigger] c[i] == if begin <= i < end {
        pixel_color(i, s, roots, n, colors)
    } else {
        a[i]
    } by {
        assert(c[i] == if mid <= i < end {
            pixel_color(i, s, roots, n, colors)
        } else {
            b[i]
        });
        assert(b[i] == if begin <= i < mid {
            pixel_color(i, s, roots, n, colors)
        } else {
            a[i]
        });
    }
}

/// Paints the pixels of `[begin, end)`: four at a time while four are left,
/// the rest one at a time.
fn fill_range_simd(
    plot_scale: &PlotScale,
    roots: &[Point],
    iterations_count: usize,
    colors: &[u32],
    buffer: &mut Vec<u32>,
    begin: usize,
    end: usize,
)
    requires
        plot_scale.wf(),
        roots@.len() >= 1,
        colors@.len() >= 1,
        begin <= end <= pixel_count(*plot_scale),
        old(buffer)@.len() >= pixel_count(*plot_scale),
    ensures
        filled(
            old(buffer)@,
            final(buffer)@,
            begin as int,
            end as int,
            *plot_scale,
            roots@,
            iterations_count as nat,
            colors@,
        ),
{
    let ghost start = buffer@;
    let ghost n = iterations_count as nat;
    let w = plot_scale.x_display_range as usize;
    let ghost h = plot_scale.y_display_range as int;
    let m = colors.len();
    let mut g = begin;
    proof {
        assert(pixel_count(*plot_scale) <= 0x4000_0000_0000_0000) by (nonlinear_arith)
            requires
                0 < plot_scale.x_display_range <= i32::MAX,
                0 < plot_scale.y_display_range <= i32::MAX,
        ;
    }
    while end - g >= 4
        invariant
            begin <= g <= end,
            end <= pixel_count(*plot_scale),
            start.len() >= pixel_count(*plot_scale),
            pixel_count(*plot_scale) <= 0x4000_0000_0000_0000,
            w == plot_scale.x_display_range,
            h == plot_scale.y_display_range,
            m == colors@.len(),
            n == iterations_count as nat,
            plot_scale.wf(),
            roots@.len() >= 1,
            colors@.len() >= 1,
            filled(start, buffer@, begin as int, g as int, *plot_scale, roots@, n, colors@),
        decreases end - g,
    {
        proof {
            lemma_row_bound(g as int, w as int, h);
            lemma_row_bound(g + 1, w as int, h);
            lemma_row_bound(g + 2, w as int, h);
            lemma_row_bound(g + 3, w as int, h);
            vstd::arithmetic::div_mod::lemma_fundamental_div_mod(g as int, w as int);
            vstd::arithmetic::div_mod::lemma_fundamental_div_mod(g + 1, w as int);
            vstd::arithmetic::div_mod::lemma_fundamental_div_mod(g + 2, w as int);
            vstd::arithmetic::div_mod::lemma_fundamental_div_mod(g + 3, w as int);
        }
        let idx: Lanes = (g as i64, (g + 1) as i64, (g + 2) as i64, (g + 3) as i64);
        let ws: Lanes = (w as i64, w as i64, w as i64, w as i64);
        let xs = SimdMath::f32x4_mod(idx, ws);
        let ys: Lanes = (
            (g / w) as i64,
            ((g + 1) / w) as i64,
            ((g + 2) / w) as i64,
            ((g + 3) / w) as i64,
        );
        let ids = simd_get_root_id(xs, ys, roots, iterations_count, plot_scale).unwrap();
        let pack = ColorsPack(colors[ids.0 % m], colors[ids.1 % m], colors[ids.2 % m], colors[ids.3 % m]);
        assert(pack.0 == pixel_color(g as int, *plot_scale, roots@, n, colors@));
        assert(pack.1 == pixel_color(g + 1, *plot_scale, roots@, n, colors@));
        assert(pack.2 == pixel_color(g + 2, *plot_scale, roots@, n, colors@));
        assert(pack.3 == pixel_color(g + 3, *plot_scale, roots@, n, colors@));
        buffer.set(g, pack.0);
        buffer.set(g + 1, pack.1);
        buffer.set(g + 2, pack.2);
        buffer.set(g + 3, pack.3);
        g = g + 4;
    }
    let ghost mid = buffer@;
    fill_range_scalar(plot_scale, roots, iterations_count, colors, buffer, g, end);
    proof {
        lemma_filled_compose(start, mid, buffer@, begin as int, g as int, end as int, *plot_scale, roots@, n, colors@);
    }
}

/// Paints partition `part_offset` of `parts_count` of the raster, four
/// pixels at a time, with partition starts aligned to groups of four; the last
/// partition paints the pixels after the last whole group one at a time. Every
/// painted pixel gets the color that `fill_pixels_scalar` gives it. A refused
/// fill leaves the buffer as it was.
pub fn fill_pixels_simd(
    plot_scale: &PlotScale,
    roots: &[Point],
    iterations_count: usize,
    colors: &[u32],
    buffer: &mut Vec<u32>,
    part_offset: usize,
    parts_count: usize,
) -> (r: Result<(), FillError>)
    ensures
        r == fill_check(*plot_scale, roots@.len() as int, colors@.len() as int, old(buffer)@.len() as int, part_offset as int, parts_count as int),
        r is Ok ==> filled(
            old(buffer)@,
            final(buffer)@,
            partition_begin(pixel_count(*plot_scale), parts_count as int, part_offset as int, 4),
            partition_end(pixel_count(*plot_scale), parts_count as int, part_offset as int, 4),
            *plot_scale,
            roots@,
            iterations_count as nat,
            colors@,
        ),
        r is Err ==> final(buffer)@ == old(buffer)@,
{
    let total = match check_fill(plot_scale, roots, colors, buffer.len(), part_offset, parts_count) {
        Ok(t) => t,
        Err(e) => return Err(e),
    };
    let (begin, end) = partition_bounds(total, parts_count as u64, part_offset as u64, 4);
    fill_range_simd(plot_scale, roots, iterations_count, colors, buffer, begin as usize, end as usize);
    Ok(())
}

/// The alignment of partition starts on a fill path.
pub open spec fn alignment_of(mode: DrawingModes) -> int {
    match mode {
        DrawingModes::Simd => 4,
        DrawingModes::Scalar => 1,
    }
}

/// Paints one partition of the raster on the chosen path. The partition
/// defaults to the whole raster: index 0 of 1.
pub fn fill_pixels(
    drawing_mode: DrawingModes,
    plot_scale: &PlotScale,
    roots: &[Point],
    iterations_count: usize,
    colors: &[u32],
    buffer: &mut Vec<u32>,
    part_offset: Option<usize>,
    parts_count: Option<usize>,
) -> (r: Result<(), FillError>)
    ensures
        ({
            let off = match part_offset { Some(v) => v as int, None => 0 };
            let cnt = match parts_count { Some(v) => v as int, None => 1 };
            let len = old(buffer)@.len() as int;
            &&& r == fill_check(*plot_scale, roots@.len() as int, colors@.len() as int, len, off, cnt)
            &&& r is Ok ==> filled(
                old(buffer)@,
                final(buffer)@,
                partition_begin(pixel_count(*plot_scale), cnt, off, alignment_of(drawing_mode)),
                partition_end(pixel_count(*plot_scale), cnt, off, alignment_of(drawing_mode)),
                *plot_scale,
                roots@,
                iterations_count as nat,
                colors@,
            )
            &&& r is Err ==> final(buffer)@ == old(buffer)@
        }),
{
    let off = match part_offset {
        Some(v) => v,
        None => 0,
    };
    let cnt = match parts_count {
        Some(v) => v,
        None => 1,
    };
    match drawing_mode {
        DrawingModes::Simd => fill_pixels_simd(plot_scale, roots, iterations_count, colors, buffer, off, cnt),
        DrawingModes::Scalar => fill_pixels_scalar(plot_scale, roots, iterations_count, colors, buffer, off, cnt),
    }
}

/// Scalar/vector equivalence of a whole-raster fill: from the same buffer
/// and inputs, the buffer that `fill_pixels_simd` leaves and the one that
/// `fill_pixels_scalar` leaves for the whole raster of `total` pixels are
/// equal, slot for slot.
pub proof fn lemma_vector_fill_matches_scalar(
    old: Seq<u32>,
    by_scalar: Seq<u32>,
    by_vector: Seq<u32>,
    total: int,
    s: PlotScale,
    roots: Seq<Point>,
    n: nat,
    colors: Seq<u32>,
)
    requires
        filled(
            old,
            by_scalar,
            partition_begin(total, 1, 0, 1),
            partition_end(total, 1, 0, 1),
            s,
            roots,
            n,
            colors,
        ),
        filled(
            old,
            by_vector,
            partition_begin(total, 1, 0, 4),
            partition_end(total, 1, 0, 4),
            s,
            roots,
            n,
            colors,
        ),
    ensures
        by_scalar == by_vector,
{
    lemma_part_size_zero(total, 1, 1);
    lemma_part_size_zero(total, 1, 4);
    assert(by_scalar =~= by_vector);
}

} // verus!
