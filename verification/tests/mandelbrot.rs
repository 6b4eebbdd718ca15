use mandelbrot::complex::{Complex, SCALE};
use mandelbrot::escape::escape_time;
use mandelbrot::mapper::pixel_to_point;
use mandelbrot::render::{render, render_band_rows};
use mandelbrot::schedule::{band_layout, render_grid};

const S: i64 = SCALE;

fn unit_viewport() -> (Complex, Complex) {
    (Complex { re: -S, im: S }, Complex { re: S, im: -S })
}

#[test]
fn origin_never_escapes() {
    let zero = Complex { re: 0, im: 0 };
    assert_eq!(escape_time(zero, 1), None);
    assert_eq!(escape_time(zero, 10), None);
    assert_eq!(escape_time(zero, 1000), None);
}

#[test]
fn zero_iteration_bound_never_escapes() {
    let far = Complex { re: 3 * S, im: 0 };
    assert_eq!(escape_time(far, 0), None);
    let zero = Complex { re: 0, im: 0 };
    assert_eq!(escape_time(zero, 0), None);
}

#[test]
fn far_points_escape_at_iteration_zero() {
    assert_eq!(escape_time(Complex { re: 3 * S, im: 0 }, 10), Some(0));
    assert_eq!(escape_time(Complex { re: 0, im: -3 * S }, 1), Some(0));
    assert_eq!(escape_time(Complex { re: -5 * S, im: 5 * S }, 100), Some(0));
}

#[test]
fn boundary_point_escapes_one_step_later() {
    // |c|² == 4·SCALE² exactly: not beyond the radius at iteration 0, but
    // z₂ = (2)² + 2 = 6 is, so the escape comes at iteration 1.
    assert_eq!(escape_time(Complex { re: 2 * S, im: 0 }, 10), Some(1));
}

#[test]
fn escape_trace_of_minus_one_plus_i() {
    // c = -1 + i: z₁ = -1 + i (|z|² = 2), z₂ = -1 - i (|z|² = 2),
    // z₃ = -1 + 3i (|z|² = 10 > 4) — escape at iteration 2.
    let c = Complex { re: -S, im: S };
    assert_eq!(escape_time(c, 2), None);
    assert_eq!(escape_time(c, 3), Some(2));
    assert_eq!(escape_time(c, 10), Some(2));
}

#[test]
fn mapper_hits_viewport_corners_exactly() {
    let (ul, lr) = unit_viewport();
    assert_eq!(pixel_to_point((3, 3), (0, 0), ul, lr), ul);
    assert_eq!(pixel_to_point((3, 3), (3, 3), ul, lr), lr);

    let ul2 = Complex { re: -3 * S / 2, im: S };
    let lr2 = Complex { re: S / 2, im: -S };
    assert_eq!(pixel_to_point((500, 500), (0, 0), ul2, lr2), ul2);
    assert_eq!(pixel_to_point((500, 500), (500, 500), ul2, lr2), lr2);
    assert_eq!(pixel_to_point((7, 5), (0, 0), ul2, lr2), ul2);
    assert_eq!(pixel_to_point((7, 5), (7, 5), ul2, lr2), lr2);
}

#[test]
fn mapper_interpolates_with_truncation() {
    // Pixel (1, 1) of a 3×3 grid over [-1, 1] × [-1, 1]: the offset is
    // 2·SCALE / 3 = 43690 (truncated), giving (-21846, 21846).
    let (ul, lr) = unit_viewport();
    let p = pixel_to_point((3, 3), (1, 1), ul, lr);
    assert_eq!(p, Complex { re: -21846, im: 21846 });
}

#[test]
fn render_fills_exactly_width_times_height() {
    let (ul, lr) = unit_viewport();
    for &(w, h) in &[(1usize, 1usize), (3, 3), (7, 2), (16, 9)] {
        let grid = render_grid((w, h), 10, ul, lr, 4);
        assert_eq!(grid.len(), w * h);
        let mut buf = vec![0u32; w * h];
        render(&mut buf, 10, (w, h), ul, lr);
        assert_eq!(buf.len(), w * h);
    }
}

#[test]
fn center_pixel_of_unit_viewport_is_in_the_set() {
    // Pixel (1, 1) of a 3×3 grid maps near the middle of the viewport; its
    // orbit stays bounded for 10 iterations, so entry 4 (row 1, col 1) is 0.
    let (ul, lr) = unit_viewport();
    let grid = render_grid((3, 3), 10, ul, lr, 2);
    assert_eq!(grid.len(), 9);
    assert_eq!(grid[4], 0);
}

#[test]
fn corner_pixel_shade_matches_hand_computed_trace() {
    // Pixel (0, 0) maps exactly to -1 + i, which escapes at iteration 2,
    // so its shade is max_iter - 2.
    let (ul, lr) = unit_viewport();
    let grid = render_grid((3, 3), 10, ul, lr, 2);
    assert_eq!(grid[0], 8);
}

#[test]
fn single_pixel_grid_gets_inverted_count() {
    // The lone pixel maps exactly to the upper-left corner, 3 + 0i, which
    // escapes at iteration 0: the written value is max_iter - 0.
    let ul = Complex { re: 3 * S, im: 0 };
    let lr = Complex { re: 3 * S + 1, im: -1 };
    let grid = render_grid((1, 1), 10, ul, lr, 1);
    assert_eq!(grid, vec![10]);
}

#[test]
fn band_layout_splits_as_floor_plus_one() {
    assert_eq!(band_layout(10, 3), vec![(0, 4), (4, 4), (8, 2)]);
    assert_eq!(band_layout(7, 1), vec![(0, 7)]);
    assert_eq!(band_layout(500, 8), vec![(0, 63), (63, 63), (126, 63), (189, 63), (252, 63), (315, 63), (378, 63), (441, 59)]);
}

#[test]
fn band_layout_with_more_workers_than_rows() {
    // Worker counts beyond the row count yield one-row bands, never an
    // empty or out-of-range one.
    assert_eq!(band_layout(3, 10), vec![(0, 1), (1, 1), (2, 1)]);
    assert_eq!(band_layout(1, 100), vec![(0, 1)]);
}

#[test]
fn band_layouts_partition_every_row_exactly_once() {
    for &(height, workers) in &[(1usize, 1usize), (10, 3), (500, 8), (5, 8), (17, 4), (64, 64)] {
        let bands = band_layout(height, workers);
        let mut covered = vec![0u32; height];
        for &(top, band_height) in &bands {
            assert!(band_height >= 1);
            assert!(top + band_height <= height);
            for row in top..top + band_height {
                covered[row] += 1;
            }
        }
        assert!(covered.iter().all(|&n| n == 1), "rows covered other than once");
    }
}

#[test]
fn render_is_deterministic_across_worker_counts() {
    let (ul, lr) = unit_viewport();
    let reference = render_grid((16, 16), 20, ul, lr, 1);
    for &workers in &[2usize, 3, 8, 100] {
        assert_eq!(render_grid((16, 16), 20, ul, lr, workers), reference);
    }
    let mut in_place = vec![0u32; 16 * 16];
    render(&mut in_place, 20, (16, 16), ul, lr);
    assert_eq!(in_place, reference);
}

#[test]
fn band_rows_agree_with_the_full_grid() {
    let (ul, lr) = unit_viewport();
    let full = render_grid((8, 8), 15, ul, lr, 1);
    let band = render_band_rows(15, (8, 8), ul, lr, 3, 2);
    assert_eq!(band.len(), 2 * 8);
    assert_eq!(&band[..], &full[3 * 8..5 * 8]);
}
