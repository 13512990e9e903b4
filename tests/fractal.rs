use newton_fractal::approximation::Approximation;
use newton_fractal::complex::{Point, WidePoint};
use newton_fractal::drawing_config::{fill_pixels_parallel, DrawingConfig};
use newton_fractal::fractal_calculation::{get_root_id, simd_get_root_id, simd_newton_method_approx};
use newton_fractal::fractal_plotting::{
    calculate_part_size, convert_colors_array, fill_pixels, fill_pixels_scalar, fill_pixels_simd,
    partition_bounds, DrawingModes, FillError,
};
use newton_fractal::geometry::{
    simd_transform_point_to_plot_scale, transform_point_to_canvas_scale,
    transform_point_to_plot_scale, PlotScale,
};
use newton_fractal::polynomial::{newton_method_approx, Polynomial, RootSetError};
use newton_fractal::simd_math::SimdMath;

const UNIT: i32 = 65536;
const RED: u32 = 0xff00_00ff;
const BLUE: u32 = 0xffff_0000;

fn pt(re: f64, im: f64) -> Point {
    Point { re: (re * UNIT as f64) as i32, im: (im * UNIT as f64) as i32 }
}

fn line_scale() -> PlotScale {
    PlotScale {
        x_offset: 0,
        y_offset: 0,
        x_value_range: 4 * UNIT,
        y_value_range: UNIT,
        x_display_range: 4,
        y_display_range: 1,
    }
}

fn square_scale(side: i32) -> PlotScale {
    PlotScale {
        x_offset: -2 * UNIT,
        y_offset: -2 * UNIT,
        x_value_range: 4 * UNIT,
        y_value_range: 4 * UNIT,
        x_display_range: side,
        y_display_range: side,
    }
}

fn cube_roots() -> Vec<Point> {
    vec![pt(1.0, 0.0), pt(-0.5, 0.866), pt(-0.5, -0.866)]
}

#[test]
fn converges_to_nearer_root_of_two() {
    let roots = vec![pt(-1.0, 0.0), pt(1.0, 0.0)];
    assert_eq!(get_root_id(pt(0.5, 0.5), &roots, 20), Some(1));
}

#[test]
fn single_root_always_wins() {
    let roots = vec![pt(0.0, 0.0)];
    for z in [pt(0.3, -7.0), pt(100.0, 2.5), pt(-0.001, 0.0), pt(0.0, 0.0)] {
        assert_eq!(get_root_id(z, &roots, 1), Some(0));
        assert_eq!(get_root_id(z, &roots, 5), Some(0));
    }
}

#[test]
fn line_of_four_pixels_colors() {
    let scale = line_scale();
    let roots = vec![Point { re: 0, im: 0 }, Point { re: 3 * UNIT, im: 0 }];
    let colors = vec![RED, BLUE];
    let mut buffer = vec![0u32; 4];
    assert_eq!(fill_pixels_scalar(&scale, &roots, 1, &colors, &mut buffer, 0, 1), Ok(()));
    assert_eq!(buffer[0], RED);
    assert_eq!(buffer[3], BLUE);
    assert_eq!(buffer, vec![RED, RED, BLUE, BLUE]);
}

#[test]
fn two_partitions_of_eight() {
    assert_eq!(partition_bounds(8, 2, 0, 1), (0, 4));
    assert_eq!(partition_bounds(8, 2, 1, 1), (4, 8));
}

#[test]
fn round_trip_pixel_plot_pixel() {
    let unit = UNIT as i128;
    // a pixel spans 4 / 4 = 1 plot unit: the round trip is exact
    let exact = square_scale(4);
    for (x, y) in [(0, 0), (1, 2), (3, 3), (-5, 9)] {
        let p = transform_point_to_plot_scale(x, y, &exact);
        assert_eq!(transform_point_to_canvas_scale(p, &exact), (x as i128 * unit, y as i128 * unit));
    }
    // otherwise within display_range / |value_range| pixel plus one unit
    let scale = square_scale(200);
    for (x, y) in [(0, 0), (1, 2), (57, 199), (199, 199), (123, 7)] {
        let p = transform_point_to_plot_scale(x, y, &scale);
        let (tx, ty) = transform_point_to_canvas_scale(p, &scale);
        assert!((tx - x as i128 * unit).abs() <= 51);
        assert!((ty - y as i128 * unit).abs() <= 51);
    }
    let odd = PlotScale {
        x_offset: 12345,
        y_offset: -999,
        x_value_range: 3 * UNIT + 17,
        y_value_range: -(5 * UNIT - 3),
        x_display_range: 641,
        y_display_range: 479,
    };
    for (x, y) in [(0, 0), (640, 478), (333, 111), (1, 1)] {
        let p = transform_point_to_plot_scale(x, y, &odd);
        let (tx, ty) = transform_point_to_canvas_scale(p, &odd);
        assert!((tx - x as i128 * unit).abs() * (3 * unit + 17) < 641 * unit + 3 * unit + 17);
        assert!((ty - y as i128 * unit).abs() * (5 * unit - 3) < 479 * unit + 5 * unit - 3);
    }
}

#[test]
fn plot_mapping_exact_values() {
    let scale = square_scale(4);
    assert_eq!(transform_point_to_plot_scale(0, 0, &scale), Point { re: -2 * UNIT, im: -2 * UNIT });
    assert_eq!(transform_point_to_plot_scale(3, 1, &scale), Point { re: UNIT, im: -UNIT });
    let s3 = PlotScale { x_display_range: 3, y_display_range: 3, ..scale };
    // 1 * 4 / 3 units rounds down to 87381 raw units past the offset
    assert_eq!(transform_point_to_plot_scale(1, 2, &s3), Point { re: -2 * UNIT + 87381, im: -2 * UNIT + 174762 });
    // 1 raw unit is 3 / 4 of a pixel unit, truncated to 0
    assert_eq!(transform_point_to_canvas_scale(Point { re: -2 * UNIT + 1, im: -2 * UNIT }, &s3), (0, 0));
    // plot 0.5 on a 4-unit, 4-pixel axis is pixel 0.5
    assert_eq!(transform_point_to_canvas_scale(Point { re: UNIT / 2, im: 0 }, &line_scale()), (32768, 0));
}

#[test]
fn flipped_axis_maps_and_fills() {
    let flipped = PlotScale {
        x_offset: 2 * UNIT,
        y_offset: 0,
        x_value_range: -4 * UNIT,
        y_value_range: UNIT,
        x_display_range: 4,
        y_display_range: 1,
    };
    assert_eq!(transform_point_to_plot_scale(3, 0, &flipped), Point { re: -UNIT, im: 0 });
    assert_eq!(transform_point_to_canvas_scale(Point { re: -UNIT, im: 0 }, &flipped), (3 * UNIT as i128, 0));
    let roots = vec![pt(2.0, 0.0), pt(-1.0, 0.0)];
    let mut buffer = vec![0u32; 4];
    assert_eq!(fill_pixels_scalar(&flipped, &roots, 1, &[RED, BLUE], &mut buffer, 0, 1), Ok(()));
    assert_eq!(buffer[0], RED);
    assert_eq!(buffer[3], BLUE);
}

#[test]
fn simd_plot_mapping_matches_scalar() {
    let scale = square_scale(97);
    let r = simd_transform_point_to_plot_scale((5, 9, 96, 0), &scale);
    let a = transform_point_to_plot_scale(5, 9, &scale);
    let b = transform_point_to_plot_scale(96, 0, &scale);
    assert_eq!(r, (a.re as i64, a.im as i64, b.re as i64, b.im as i64));
}

#[test]
fn partitions_tile_the_range() {
    for total in [0u64, 1, 7, 8, 9, 100, 1023] {
        for count in 1u64..=7 {
            for alignment in [1u64, 4] {
                let mut next = 0;
                for i in 0..count {
                    let (b, e) = partition_bounds(total, count, i, alignment);
                    assert_eq!(b, next);
                    assert!(b <= e);
                    if alignment == 4 && i + 1 < count {
                        assert_eq!(e % 4, 0);
                    }
                    next = e;
                }
                assert_eq!(next, total);
            }
        }
    }
}

#[test]
fn part_size_exact_values() {
    assert_eq!(calculate_part_size(10, 3, 1, 1), 3);
    assert_eq!(calculate_part_size(10, 3, 2, 1), 6);
    assert_eq!(calculate_part_size(10, 3, 3, 1), 10);
    assert_eq!(calculate_part_size(100, 3, 1, 4), 32);
    assert_eq!(calculate_part_size(100, 3, 2, 4), 64);
    assert_eq!(calculate_part_size(u64::MAX, 2, 1, 1), u64::MAX / 2);
}

#[test]
fn classification_is_repeatable() {
    let roots = cube_roots();
    for z in [pt(0.1, 0.2), pt(-3.0, 1.5), pt(0.0, 0.0), pt(2.0, -2.0)] {
        let first = get_root_id(z, &roots, 25);
        for _ in 0..5 {
            assert_eq!(get_root_id(z, &roots, 25), first);
        }
    }
}

#[test]
fn vector_fill_equals_scalar_fill() {
    let scale = square_scale(37);
    let roots = cube_roots();
    let colors = vec![1, 2, 3];
    let mut a = vec![0u32; 37 * 37];
    let mut b = vec![0u32; 37 * 37];
    assert_eq!(fill_pixels_scalar(&scale, &roots, 12, &colors, &mut a, 0, 1), Ok(()));
    assert_eq!(fill_pixels_simd(&scale, &roots, 12, &colors, &mut b, 0, 1), Ok(()));
    assert_eq!(a, b);
    assert!(a.iter().all(|c| (1..=3).contains(c)));
    assert!(a.contains(&1) && a.contains(&2) && a.contains(&3));
}

#[test]
fn four_wide_classifier_matches_scalar() {
    let scale = square_scale(16);
    let roots = cube_roots();
    let xs = (0, 5, 11, 15);
    let ys = (3, 3, 15, 0);
    let ids = simd_get_root_id(xs, ys, &roots, 10, &scale).unwrap();
    let one = |x: i64, y: i64| {
        get_root_id(transform_point_to_plot_scale(x as i32, y as i32, &scale), &roots, 10).unwrap()
    };
    assert_eq!(ids, (one(0, 3), one(5, 3), one(11, 15), one(15, 0)));
    assert_eq!(simd_get_root_id(xs, ys, &[], 10, &scale), None);
}

#[test]
fn pairwise_newton_step_matches_scalar() {
    let roots = cube_roots();
    let five = vec![pt(1.0, 0.0), pt(-1.0, 0.0), pt(0.0, 2.0), pt(0.5, -0.5), pt(3.0, 3.0)];
    for z in [pt(0.2, 0.3), pt(-0.5, 0.866), pt(5.0, -5.0), pt(0.0, 0.0)] {
        assert_eq!(simd_newton_method_approx(z, &roots), newton_method_approx(z, &roots));
        assert_eq!(simd_newton_method_approx(z, &five), newton_method_approx(z, &five));
    }
}

#[test]
fn partitioned_fills_equal_whole_fill() {
    let scale = square_scale(23);
    let roots = cube_roots();
    let colors = vec![10, 20, 30];
    let mut whole = vec![0u32; 23 * 23];
    fill_pixels_scalar(&scale, &roots, 8, &colors, &mut whole, 0, 1).unwrap();
    for mode in [DrawingModes::Scalar, DrawingModes::Simd] {
        let mut parts = vec![0u32; 23 * 23];
        for i in 0..3 {
            fill_pixels(mode, &scale, &roots, 8, &colors, &mut parts, Some(i), Some(3)).unwrap();
        }
        assert_eq!(parts, whole);
    }
    let mut by_default = vec![0u32; 23 * 23];
    fill_pixels(DrawingModes::Simd, &scale, &roots, 8, &colors, &mut by_default, None, None).unwrap();
    assert_eq!(by_default, whole);
}

#[test]
fn one_partition_touches_only_its_slice() {
    let scale = square_scale(10);
    let roots = cube_roots();
    let colors = vec![7];
    let mut buffer = vec![0u32; 100];
    fill_pixels_simd(&scale, &roots, 3, &colors, &mut buffer, 1, 3).unwrap();
    let (b, e) = partition_bounds(100, 3, 1, 4);
    assert_eq!((b, e), (32, 64));
    for (i, c) in buffer.iter().enumerate() {
        let inside = (b as usize..e as usize).contains(&i);
        assert_eq!(*c, if inside { 7 } else { 0 });
    }
}

#[test]
fn color_table_wraps() {
    let scale = line_scale();
    let roots = vec![Point { re: 0, im: 0 }, Point { re: 3 * UNIT, im: 0 }];
    let mut buffer = vec![0u32; 4];
    fill_pixels_scalar(&scale, &roots, 1, &[RED], &mut buffer, 0, 1).unwrap();
    assert_eq!(buffer, vec![RED; 4]);
}

#[test]
fn fill_errors() {
    let scale = line_scale();
    let roots = vec![Point { re: 0, im: 0 }];
    let colors = vec![RED];
    let mut buffer = vec![5u32; 4];
    let bad = PlotScale { x_display_range: 0, ..scale };
    assert_eq!(fill_pixels_scalar(&bad, &roots, 1, &colors, &mut buffer, 0, 1), Err(FillError::InvalidGeometry));
    let bad = PlotScale { y_display_range: -1, ..scale };
    assert_eq!(fill_pixels_simd(&bad, &roots, 1, &colors, &mut buffer, 0, 1), Err(FillError::InvalidGeometry));
    assert_eq!(fill_pixels_scalar(&scale, &[], 1, &colors, &mut buffer, 0, 1), Err(FillError::EmptyRoots));
    assert_eq!(fill_pixels_simd(&scale, &roots, 1, &[], &mut buffer, 0, 1), Err(FillError::EmptyColors));
    assert_eq!(fill_pixels_scalar(&scale, &roots, 1, &colors, &mut buffer, 0, 0), Err(FillError::InvalidPartition));
    assert_eq!(fill_pixels_simd(&scale, &roots, 1, &colors, &mut buffer, 2, 2), Err(FillError::InvalidPartition));
    let mut short = vec![5u32; 3];
    assert_eq!(fill_pixels_scalar(&scale, &roots, 1, &colors, &mut short, 0, 1), Err(FillError::BufferSizeMismatch));
    assert_eq!(buffer, vec![5u32; 4]);
    assert_eq!(short, vec![5u32; 3]);
    let zero_range = PlotScale { x_value_range: 0, ..scale };
    assert_eq!(fill_pixels_scalar(&zero_range, &roots, 1, &colors, &mut buffer, 0, 1), Ok(()));
    assert_eq!(buffer, vec![RED; 4]);
}

#[test]
fn longer_buffer_keeps_extra_slots() {
    let scale = line_scale();
    let roots = vec![Point { re: 0, im: 0 }, Point { re: 3 * UNIT, im: 0 }];
    let mut buffer = vec![9u32; 7];
    assert_eq!(fill_pixels_simd(&scale, &roots, 1, &[RED, BLUE], &mut buffer, 0, 1), Ok(()));
    assert_eq!(buffer, vec![RED, RED, BLUE, BLUE, 9, 9, 9]);
}

#[test]
fn empty_root_set_has_no_class() {
    assert_eq!(get_root_id(pt(1.0, 1.0), &[], 10), None);
    assert_eq!(get_root_id(pt(1.0, 1.0), &[], 0), None);
}

#[test]
fn zero_iterations_use_nearest_root() {
    let roots = vec![pt(-1.0, 0.0), pt(1.0, 0.0), pt(1.0, 0.0)];
    assert_eq!(get_root_id(pt(0.9, 5.0), &roots, 0), Some(1));
    assert_eq!(get_root_id(pt(-0.1, 0.0), &roots, 0), Some(0));
    // equally near: the first wins
    assert_eq!(get_root_id(pt(0.0, 3.0), &roots, 0), Some(0));
}

#[test]
fn newton_step_values() {
    let roots = vec![pt(-1.0, 0.0), pt(1.0, 0.0)];
    // sum = 1/(2) + 1/(0 - ...) at z = 2: 1/3 + 1/1 = 4/3, z - 3/4
    let (c, z) = newton_method_approx(pt(2.0, 0.0), &roots);
    assert_eq!(c, None);
    assert_eq!(z, Point { re: 2 * UNIT - 49152, im: 0 });
    // landing within tolerance of a root
    let (c, z) = newton_method_approx(Point { re: UNIT + 10, im: 0 }, &roots);
    assert_eq!((c, z), (Some(1), Point { re: UNIT + 10, im: 0 }));
    // a zero sum leaves the point where it is
    let (c, z) = newton_method_approx(Point { re: 0, im: 0 }, &roots);
    assert_eq!((c, z), (None, Point { re: 0, im: 0 }));
}

#[test]
fn simd_math_values() {
    assert_eq!(SimdMath::f32x4_mod((7, 8, 0, 13), (4, 4, 3, 13)), (3, 0, 0, 0));
    assert_eq!(SimdMath::f32x4_mod((-7, 7, -7, 7), (4, -4, -4, 4)), (1, -1, -3, 3));
    assert_eq!(SimdMath::f32x4_mod((i64::MIN, i64::MAX, -1, 0), (-1, i64::MIN, i64::MAX, -5)), (0, -1, i64::MAX - 1, 0));
    assert_eq!(SimdMath::calculate_square_norms((3, 4, -5, 12)), (25, 25, 169, 169));
    assert_eq!(
        SimdMath::complex_numbers_inversion((2 * UNIT as i64, 0, 0, UNIT as i64)),
        (32768, 0, 0, -(UNIT as i64))
    );
    assert_eq!(SimdMath::complex_numbers_inversion((0, 0, 0, 0)), (0, 0, 0, 0));
    assert_eq!(SimdMath::calculate_squared_distances((1, 1, 0, 0), (4, 5, -1, 0)), (25, 25, 1, 1));
}

#[test]
fn colors_pack_channels() {
    let packed = convert_colors_array(&[[0xff, 0, 0, 0xff], [1, 2, 3, 4]]);
    assert_eq!(packed, vec![RED, 0x0403_0201]);
    assert_eq!(convert_colors_array(&[]), Vec::<u32>::new());
}

#[test]
fn removing_a_root_shifts_later_ones() {
    let mut p = Polynomial::new(vec![pt(0.0, 0.0), pt(1.0, 0.0), pt(2.0, 0.0), pt(3.0, 0.0)]);
    assert_eq!(p.remove_root_by_id(1), Ok(()));
    assert_eq!(p.get_roots(), &[pt(0.0, 0.0), pt(2.0, 0.0), pt(3.0, 0.0)]);
    assert_eq!(p.get_roots_count(), 3);
    assert_eq!(p.remove_root_by_id(3), Err(RootSetError::IndexOutOfRange));
    assert_eq!(p.get_roots_count(), 3);
}

#[test]
fn root_set_edits() {
    let mut p = Polynomial::new(vec![]);
    assert_eq!(p.get_closest_root_id(0, 0), None);
    p.add_root(UNIT, 0);
    p.add_root(-UNIT, 0);
    assert_eq!(p.set_root_by_id(1, 0, 2 * UNIT), Ok(()));
    assert_eq!(p.set_root_by_id(2, 0, 0), Err(RootSetError::IndexOutOfRange));
    assert_eq!(p.get_roots(), &[Point { re: UNIT, im: 0 }, Point { re: 0, im: 2 * UNIT }]);
    assert_eq!(p.get_closest_root_id(0, 3 * UNIT), Some((1, UNIT as u64)));
    assert_eq!(p.get_closest_root_id(UNIT, UNIT / 2), Some((0, UNIT as u64 / 2)));
    let q = Polynomial::new(vec![Point { re: 0, im: 0 }]);
    assert_eq!(q.get_closest_root_id(2 * UNIT, 0), Some((0, 131072)));
    // sqrt(5) units, rounded down to a raw unit
    assert_eq!(q.get_closest_root_id(UNIT, 2 * UNIT), Some((0, 146542)));
}

fn wp(re: f64, im: f64) -> WidePoint {
    WidePoint { re: (re * UNIT as f64) as i64, im: (im * UNIT as f64) as i64 }
}

#[test]
fn polynomial_value_and_derivative() {
    // (z - 1)(z + 1) = z^2 - 1, derivative 2z
    let p = Polynomial::new(vec![pt(1.0, 0.0), pt(-1.0, 0.0)]);
    assert_eq!(p.calculate(pt(2.0, 0.0)), Some(wp(3.0, 0.0)));
    assert_eq!(p.derivative(pt(2.0, 0.0)), Some(wp(4.0, 0.0)));
    assert_eq!(p.calculate(pt(0.0, 1.0)), Some(wp(-2.0, 0.0)));
    assert_eq!(p.derivative(pt(0.0, 1.0)), Some(wp(0.0, 2.0)));
    assert_eq!(p.calculate(pt(1.0, 0.0)), Some(wp(0.0, 0.0)));
    let empty = Polynomial::new(vec![]);
    assert_eq!(empty.calculate(pt(1.0, 0.0)), None);
    assert_eq!(empty.derivative(pt(1.0, 0.0)), None);
    // values beyond the plane of a point are still exact
    let double = Polynomial::new(vec![pt(0.0, 0.0), pt(0.0, 0.0)]);
    assert_eq!(double.calculate(pt(200.0, 0.0)), Some(wp(40000.0, 0.0)));
    assert_eq!(double.derivative(pt(200.0, 0.0)), Some(wp(400.0, 0.0)));
    let big = Polynomial::new(vec![pt(-10000.0, 0.0), pt(10000.0, 0.0)]);
    assert_eq!(big.calculate(pt(0.0, 0.0)), Some(wp(-100_000_000.0, 0.0)));
    assert_eq!(big.derivative(pt(0.0, 0.0)), Some(wp(0.0, 0.0)));
    // and saturate where even the wide range ends
    let many = Polynomial::new(vec![pt(-30000.0, 0.0); 4]);
    assert_eq!(many.calculate(pt(30000.0, 0.0)), Some(WidePoint { re: i64::MAX, im: 0 }));
    assert_eq!(p.newton_method_approx(pt(2.0, 0.0)), newton_method_approx(pt(2.0, 0.0), &[pt(1.0, 0.0), pt(-1.0, 0.0)]));
}

#[test]
fn approximation_trail() {
    let p = Polynomial::new(vec![pt(-1.0, 0.0), pt(1.0, 0.0)]);
    let mut a = Approximation::new(Some(2 * UNIT), Some(0));
    a.get_next_point(&p);
    assert_eq!(a.get_points(), &[pt(2.0, 0.0), Point { re: 2 * UNIT - 49152, im: 0 }]);
    for _ in 0..30 {
        a.get_next_point(&p);
    }
    let n = a.get_points().len();
    let last = a.get_points()[n - 1];
    assert!((last.re - UNIT).abs() < 2100 && last.im == 0);
    a.get_next_point(&p);
    assert_eq!(a.get_points().len(), n);
    let mut empty = Approximation::new(Some(1), None);
    empty.get_next_point(&p);
    assert!(empty.get_points().is_empty());
}

#[test]
fn polynomial_vector_steps_match_scalar() {
    let p = Polynomial::new(cube_roots());
    for z in [pt(0.2, 0.3), pt(-4.0, 1.0)] {
        assert_eq!(p.simd_newton_method_approx(z), p.newton_method_approx(z));
    }
    let (a, b) = p.simd_newton_method_approx_for_two_numbers((pt(0.2, 0.3), pt(1.0, 0.0)));
    assert_eq!(a, p.newton_method_approx(pt(0.2, 0.3)));
    assert_eq!(b, (Some(0), pt(1.0, 0.0)));
}

#[test]
fn drawing_config_from_flat_inputs() {
    let scale = line_scale();
    let c = DrawingConfig::new(&scale, vec![0, 0, 3 * UNIT, 0], 1, vec![0xff, 0, 0, 0xff, 0, 0, 0xff, 0xff], None, None)
        .unwrap();
    assert_eq!(c.roots, vec![Point { re: 0, im: 0 }, Point { re: 3 * UNIT, im: 0 }]);
    assert_eq!(c.colors, vec![RED, BLUE]);
    assert_eq!(fill_pixels_parallel(&c, DrawingModes::Scalar), Ok(vec![RED, RED, BLUE, BLUE]));
    assert_eq!(fill_pixels_parallel(&c, DrawingModes::Simd), Ok(vec![RED, RED, BLUE, BLUE]));
    assert!(DrawingConfig::new(&scale, vec![0, 0, 1], 1, vec![1, 2, 3, 4], None, None).is_none());
    assert!(DrawingConfig::new(&scale, vec![0, 0], 1, vec![1, 2, 3], None, None).is_none());
}

#[test]
fn drawing_config_partition_and_errors() {
    let scale = square_scale(6);
    let mut c = DrawingConfig::new(&scale, vec![UNIT, 0, -UNIT, 0], 5, vec![1, 0, 0, 0, 2, 0, 0, 0], Some(1), Some(2))
        .unwrap();
    let half = fill_pixels_parallel(&c, DrawingModes::Simd).unwrap();
    assert_eq!(half.len(), 36);
    let (b, e) = partition_bounds(36, 2, 1, 4);
    for (i, v) in half.iter().enumerate() {
        assert_eq!(*v == 0, !(b as usize..e as usize).contains(&i));
    }
    c.parts_count = Some(1);
    assert_eq!(fill_pixels_parallel(&c, DrawingModes::Scalar), Err(FillError::InvalidPartition));
    c.part_offset = None;
    c.roots.clear();
    assert_eq!(fill_pixels_parallel(&c, DrawingModes::Scalar), Err(FillError::EmptyRoots));
    c.plot_scale.x_display_range = 0;
    assert_eq!(fill_pixels_parallel(&c, DrawingModes::Scalar), Err(FillError::InvalidGeometry));
}
