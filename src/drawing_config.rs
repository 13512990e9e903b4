//! A self-contained description of one fill job, and running it.
use vstd::prelude::*;
use crate::complex::Point;
use crate::fractal_plotting::{
    alignment_of, fill_check, fill_pixels, filled, pack_channels, pack_color, partition_begin,
    partition_end, pixel_count, DrawingModes, FillError,
};
use crate::geometry::PlotScale;

verus! {

/// Everything one fill needs, owned, so that it can be handed whole to
/// whoever runs it.
#[derive(Clone, Debug)]
pub struct DrawingConfig {
    pub plot_scale: PlotScale,
    pub roots: Vec<Point>,
    pub iterations_count: usize,
    pub colors: Vec<u32>,
    pub part_offset: Option<usize>,
    pub parts_count: Option<usize>,
}

/// The points of a flat `[re0, im0, re1, im1, ...]` sequence.
pub open spec fn unflatten_roots(flat: Seq<i32>) -> Seq<Point> {
    Seq::new((flat.len() / 2) as nat, |k: int| Point { re: flat[2 * k], im: flat[2 * k + 1] })
}

/// The packed colors of a flat `[r0, g0, b0, a0, r1, ...]` sequence.
pub open spec fn unflatten_colors(flat: Seq<u8>) -> Seq<u32> {
    Seq::new(
        (flat.len() / 4) as nat,
        |k: int| pack_channels(flat[4 * k], flat[4 * k + 1], flat[4 * k + 2], flat[4 * k + 3]),
    )
}

impl DrawingConfig {
    /// A job from flat root coordinates (two per root) and flat color
    /// channels (four per color); none where either does not divide evenly.
    pub fn new(
        plot_scale: &PlotScale,
        roots: Vec<i32>,
        iterations_count: usize,
        colors: Vec<u8>,
        part_offset: Option<usize>,
        parts_count: Option<usize>,
    ) -> (r: Option<DrawingConfig>)
        ensures
            r is None <==> (roots@.len() % 2 != 0 || colors@.len() % 4 != 0),
            r matches Some(c) ==> {
                &&& c.plot_scale == *plot_scale
                &&& c.roots@ == unflatten_roots(roots@)
                &&& c.iterations_count == iterations_count
                &&& c.colors@ == unflatten_colors(colors@)
                &&& c.part_offset == part_offset
                &&& c.parts_count == parts_count
            },
    {
        if roots.len() % 2 != 0 || colors.len() % 4 != 0 {
            return None;
        }
        let mut points: Vec<Point> = Vec::new();
        let mut k: usize = 0;
        while k < roots.len() / 2
            invariant
                k <= roots@.len() / 2,
                roots@.len() % 2 == 0,
                points@.len() == k,
                forall|j: int| 0 <= j < k ==> #[trigger] points@[j] == unflatten_roots(roots@)[j],
            decreases roots@.len() / 2 - k,
        {
            points.push(Point { re: roots[2 * k], im: roots[2 * k + 1] });
            k = k + 1;
        }
        let mut packed: Vec<u32> = Vec::new();
        let mut k: usize = 0;
        while k < colors.len() / 4
            invariant
                k <= colors@.len() / 4,
                colors@.len() % 4 == 0,
                packed@.len() == k,
                forall|j: int| 0 <= j < k ==> #[trigger] packed@[j] == unflatten_colors(colors@)[j],
            decreases colors@.len() / 4 - k,
        {
            packed.push(
                pack_color(colors[4 * k], colors[4 * k + 1], colors[4 * k + 2], colors[4 * k + 3]),
            );
            k = k + 1;
        }
        assert(points@ =~= unflatten_roots(roots@));
        assert(packed@ =~= unflatten_colors(colors@));
        Some(DrawingConfig {
            plot_scale: *plot_scale,
            roots: points,
            iterations_count,
            colors: packed,
            part_offset,
            parts_count,
        })
    }
}

/// The partition index of a job; the whole raster by default.
pub open spec fn job_offset(c: DrawingConfig) -> int {
    match c.part_offset {
        Some(v) => v as int,
        None => 0,
    }
}

/// The partition count of a job; one by default.
pub open spec fn job_count(c: DrawingConfig) -> int {
    match c.parts_count {
        Some(v) => v as int,
        None => 1,
    }
}

/// Runs a job on a fresh raster of zeros and returns the raster, with the
/// job's partition painted on the chosen path. A raster too large to address
/// counts as invalid geometry.
pub fn fill_pixels_parallel(config: &DrawingConfig, drawing_mode: DrawingModes) -> (r: Result<
    Vec<u32>,
    FillError,
>)
    ensures
        config.plot_scale.wf() && pixel_count(config.plot_scale) <= usize::MAX ==> ({
            let check = fill_check(
                config.plot_scale,
                config.roots@.len() as int,
                config.colors@.len() as int,
                pixel_count(config.plot_scale),
                job_offset(*config),
                job_count(*config),
            );
            &&& r is Ok <==> check is Ok
            &&& r matches Err(e) ==> check == Err::<(), FillError>(e)
        }),
        !(config.plot_scale.wf() && pixel_count(config.plot_scale) <= usize::MAX) ==> r == Err::<
            Vec<u32>,
            FillError,
        >(FillError::InvalidGeometry),
        r matches Ok(buf) ==> {
            let total = pixel_count(config.plot_scale);
            &&& buf@.len() == total
            &&& filled(
                Seq::new(total as nat, |i: int| 0u32),
                buf@,
                partition_begin(total, job_count(*config), job_offset(*config), alignment_of(drawing_mode)),
                partition_end(total, job_count(*config), job_offset(*config), alignment_of(drawing_mode)),
                config.plot_scale,
                config.roots@,
                config.iterations_count as nat,
                config.colors@,
            )
        },
{
    let s = &config.plot_scale;
    if !s.is_valid() {
        return Err(FillError::InvalidGeometry);
    }
    let w = s.x_display_range as u64;
    let h = s.y_display_range as u64;
    proof {
        assert(w * h <= 0x4000_0000_0000_0000) by (nonlinear_arith)
            requires
                0 < w <= i32::MAX,
                0 < h <= i32::MAX,
        ;
    }
    let total = w * h;
    if total > usize::MAX as u64 {
        return Err(FillError::InvalidGeometry);
    }
    let total = total as usize;
    let mut buffer: Vec<u32> = Vec::new();
    let mut i: usize = 0;
    while i < total
        invariant
            i <= total,
            buffer@ == Seq::new(i as nat, |j: int| 0u32),
        decreases total - i,
    {
        buffer.push(0);
        i = i + 1;
        assert(buffer@ =~= Seq::new(i as nat, |j: int| 0u32));
    }
    match fill_pixels(
        drawing_mode,
        s,
        config.roots.as_slice(),
        config.iterations_count,
        config.colors.as_slice(),
        &mut buffer,
        config.part_offset,
        config.parts_count,
    ) {
        Ok(()) => Ok(buffer),
        Err(e) => Err(e),
    }
}

} // verus!
