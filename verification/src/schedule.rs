use vstd::prelude::*;
use vstd::arithmetic::div_mod::{
    lemma_fundamental_div_mod, lemma_fundamental_div_mod_converse_div,
    lemma_fundamental_div_mod_converse_mod, lemma_mod_division_less_than_divisor,
};
use crate::complex::Complex;
use crate::render::{grid_matches, pixel_shade, render_band_rows};

verus! {

/// A well-formed band layout for a grid of `height` rows: at least one band,
/// the first starting at row 0, every band at least one row high, each band
/// starting exactly where the one before it ends, and the last ending at
/// `height`. Bands of such a layout cover every grid row exactly once.
pub open spec fn layout_wf(bands: Seq<(usize, usize)>, height: int) -> bool {
    &&& bands.len() >= 1
    &&& bands[0].0 == 0
    &&& forall|k: int| 0 <= k < bands.len() ==> (#[trigger] bands[k]).1 >= 1
    &&& forall|k: int|
        0 <= k < bands.len() - 1 ==> (#[trigger] bands[k]).0 + bands[k].1 == bands[k + 1].0
    &&& bands[bands.len() - 1].0 + bands[bands.len() - 1].1 == height
}

/// Split a grid of `height` rows into contiguous horizontal bands, one per
/// worker, of `height / worker_count + 1` rows each; the last band takes
/// whatever remains, so a large worker count simply yields fewer, one-row
/// bands and never an empty or out-of-range one.
pub fn band_layout(height: usize, worker_count: usize) -> (bands: Vec<(usize, usize)>)
    requires
        height >= 1,
        worker_count >= 1,
        height / worker_count + 1 <= usize::MAX,
    ensures
        layout_wf(bands@, height as int),
{
    let rows_per_band: usize = height / worker_count + 1;
    let mut bands: Vec<(usize, usize)> = Vec::new();
    let mut top: usize = 0;
    while top < height
        invariant
            top <= height,
            rows_per_band >= 1,
            bands.len() == 0 ==> top == 0,
            bands.len() >= 1 ==> bands@[0].0 == 0,
            forall|k: int| 0 <= k < bands.len() ==> (#[trigger] bands@[k]).1 >= 1,
            forall|k: int|
                0 <= k < bands.len() - 1 ==> (#[trigger] bands@[k]).0 + bands@[k].1 == bands@[k
                    + 1].0,
            bands.len() >= 1 ==> bands@[bands.len() - 1].0 + bands@[bands.len() - 1].1 == top,
        decreases height - top,
    {
        let remaining: usize = height - top;
        let band_height: usize = if remaining < rows_per_band {
            remaining
        } else {
            rows_per_band
        };
        bands.push((top, band_height));
        top = top + band_height;
    }
    bands
}

/// Every band of a well-formed layout ends within the grid.
pub proof fn lemma_band_end_le(bands: Seq<(usize, usize)>, height: int, k: int)
    requires
        layout_wf(bands, height),
        0 <= k < bands.len(),
    ensures
        bands[k].0 + bands[k].1 <= height,
    decreases bands.len() - k,
{
    if k < bands.len() - 1 {
        lemma_band_end_le(bands, height, k + 1);
    }
}

/// An earlier band of a well-formed layout ends at or before a later band
/// starts.
pub proof fn lemma_band_order(bands: Seq<(usize, usize)>, height: int, j: int, k: int)
    requires
        layout_wf(bands, height),
        0 <= j < k < bands.len(),
    ensures
        bands[j].0 + bands[j].1 <= bands[k].0,
    decreases k - j,
{
    if k > j + 1 {
        lemma_band_order(bands, height, j, k - 1);
    }
}

/// Partition completeness, first half: every grid row lies in some band of a
/// well-formed layout. Returns the index of one band that holds the row.
pub proof fn lemma_row_in_some_band(bands: Seq<(usize, usize)>, height: int, row: int) -> (k: int)
    requires
        layout_wf(bands, height),
        0 <= row < height,
    ensures
        0 <= k < bands.len(),
        bands[k].0 <= row < bands[k].0 + bands[k].1,
    decreases bands.len(),
{
    let last = bands.len() - 1;
    if row >= bands[last].0 {
        last
    } else {
        assert(bands.len() >= 2);
        let prefix = bands.drop_last();
        assert(forall|i: int| 0 <= i < prefix.len() ==> prefix[i] == bands[i]);
        assert(layout_wf(prefix, bands[last].0 as int));
        let k = lemma_row_in_some_band(prefix, bands[last].0 as int, row);
        k
    }
}

/// Partition completeness, second half: every grid row lies in at most one
/// band of a well-formed layout — two bands that both hold it are the same.
pub proof fn lemma_row_in_one_band(
    bands: Seq<(usize, usize)>,
    height: int,
    row: int,
    j: int,
    k: int,
)
    requires
        layout_wf(bands, height),
        0 <= j < bands.len(),
        0 <= k < bands.len(),
        bands[j].0 <= row < bands[j].0 + bands[j].1,
        bands[k].0 <= row < bands[k].0 + bands[k].1,
    ensures
        j == k,
{
    if j < k {
        lemma_band_order(bands, height, j, k);
    } else if k < j {
        lemma_band_order(bands, height, k, j);
    }
}

/// Render the whole grid by splitting it into horizontal bands, one per
/// worker, each band computed independently in the geometry of the full grid
/// and the results concatenated in row order. The contract pins every entry
/// of the output, so identical bounds, iteration bound and viewport give an
/// identical grid whatever `worker_count` was used.
pub fn render_grid(
    bounds: (usize, usize),
    max_iter: u32,
    upper_left: Complex,
    lower_right: Complex,
    worker_count: usize,
) -> (pixels: Vec<u32>)
    requires
        bounds.0 >= 1,
        bounds.1 >= 1,
        worker_count >= 1,
        bounds.0 * bounds.1 <= usize::MAX,
        bounds.1 / worker_count + 1 <= usize::MAX,
        upper_left.in_range(),
        lower_right.in_range(),
    ensures
        grid_matches(pixels@, bounds, max_iter, upper_left, lower_right),
{
    let bands = band_layout(bounds.1, worker_count);
    let mut pixels: Vec<u32> = Vec::new();
    let mut k: usize = 0;
    while k < bands.len()
        invariant
            k <= bands.len(),
            layout_wf(bands@, bounds.1 as int),
            bounds.0 >= 1,
            bounds.1 >= 1,
            bounds.0 * bounds.1 <= usize::MAX,
            upper_left.in_range(),
            lower_right.in_range(),
            pixels.len() == if k < bands.len() {
                bands@[k as int].0 * bounds.0
            } else {
                bounds.1 * bounds.0
            },
            forall|idx: int|
                0 <= idx < pixels.len() ==> #[trigger] pixels@[idx] == pixel_shade(
                    bounds,
                    max_iter,
                    upper_left,
                    lower_right,
                    idx % (bounds.0 as int),
                    idx / (bounds.0 as int),
                ),
        decreases bands.len() - k,
    {
        let top: usize = bands[k].0;
        let band_height: usize = bands[k].1;
        proof {
            lemma_band_end_le(bands@, bounds.1 as int, k as int);
            assert(((top as int) + (band_height as int)) * (bounds.0 as int) == (top as int) * (
            bounds.0 as int) + (band_height as int) * (bounds.0 as int)) by (nonlinear_arith);
            assert(((top as int) + (band_height as int)) * (bounds.0 as int) <= (bounds.1 as int)
                * (bounds.0 as int)) by (nonlinear_arith)
                requires
                    (top as int) + (band_height as int) <= bounds.1 as int,
                    bounds.0 as int >= 1,
            ;
            assert((bounds.1 as int) * (bounds.0 as int) == (bounds.0 as int) * (bounds.1 as int))
                by (nonlinear_arith);
        }
        let mut band = render_band_rows(
            max_iter,
            bounds,
            upper_left,
            lower_right,
            top,
            band_height,
        );
        let ghost band_snap = band@;
        pixels.append(&mut band);
        proof {
            let w = bounds.0 as int;
            let top_w = (top as int) * w;
            assert forall|idx: int|
                0 <= idx < pixels.len() implies #[trigger] pixels@[idx] == pixel_shade(
                bounds,
                max_iter,
                upper_left,
                lower_right,
                idx % w,
                idx / w,
            ) by {
                if idx >= top_w {
                    let j = idx - top_w;
                    assert(pixels@[idx] == band_snap[j]);
                    lemma_fundamental_div_mod(j, w);
                    lemma_mod_division_less_than_divisor(j, w);
                    assert(idx == ((top as int) + j / w) * w + j % w) by (nonlinear_arith)
                        requires
                            idx == (top as int) * w + j,
                            j == w * (j / w) + j % w,
                    ;
                    lemma_fundamental_div_mod_converse_div(idx, w, (top as int) + j / w, j % w);
                    lemma_fundamental_div_mod_converse_mod(idx, w, (top as int) + j / w, j % w);
                }
            }
            if k as int + 1 < bands@.len() {
                assert(bands@[k as int].0 + bands@[k as int].1 == bands@[k as int + 1].0);
            }
        }
        k = k + 1;
    }
    pixels
}

/// Determinism of rendering: two grids that each meet the full render
/// contract for the same bounds, iteration bound and viewport are equal
/// entry for entry — the band split, worker count and completion order
/// leave no trace in the output.
pub proof fn lemma_render_deterministic(
    g1: Seq<u32>,
    g2: Seq<u32>,
    bounds: (usize, usize),
    max_iter: u32,
    ul: Complex,
    lr: Complex,
)
    requires
        grid_matches(g1, bounds, max_iter, ul, lr),
        grid_matches(g2, bounds, max_iter, ul, lr),
    ensures
        g1 == g2,
{
    assert forall|idx: int| 0 <= idx < g1.len() implies g1[idx] == g2[idx] by {
        assert(g2[idx] == pixel_shade(
            bounds,
            max_iter,
            ul,
            lr,
            idx % (bounds.0 as int),
            idx / (bounds.0 as int),
        ));
    }
    assert(g1 =~= g2);
}

} // verus!
