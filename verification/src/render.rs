use vstd::prelude::*;
use vstd::arithmetic::div_mod::{
    lemma_fundamental_div_mod_converse_div, lemma_fundamental_div_mod_converse_mod,
};
use crate::complex::Complex;
use crate::escape::{escape_time, first_escape};
use crate::mapper::{map_im, map_re, pixel_to_point};

verus! {

/// The value written for one pixel: `0` where the point never escaped within
/// the bound, else `max_iter - i` for an escape at iteration `i`, so points
/// that escape at once are dark and points in or near the set are bright.
pub open spec fn shade(max_iter: u32, e: Option<nat>) -> int {
    match e {
        None => 0,
        Some(i) => max_iter - i,
    }
}

/// The shade owed to pixel `(col, row)` of a grid with the given bounds,
/// viewport corners and iteration bound.
pub open spec fn pixel_shade(
    bounds: (usize, usize),
    max_iter: u32,
    ul: Complex,
    lr: Complex,
    col: int,
    row: int,
) -> int {
    shade(
        max_iter,
        first_escape(
            map_re(bounds.0 as int, col, ul.re as int, lr.re as int),
            map_im(bounds.1 as int, row, ul.im as int, lr.im as int),
            max_iter as nat,
        ),
    )
}

/// A finished grid: row-major, exactly one entry per pixel, each entry the
/// shade its position is owed.
pub open spec fn grid_matches(
    g: Seq<u32>,
    bounds: (usize, usize),
    max_iter: u32,
    ul: Complex,
    lr: Complex,
) -> bool {
    &&& g.len() == bounds.0 * bounds.1
    &&& forall|idx: int|
        0 <= idx < g.len() ==> #[trigger] g[idx] == pixel_shade(
            bounds,
            max_iter,
            ul,
            lr,
            idx % (bounds.0 as int),
            idx / (bounds.0 as int),
        )
}

/// Fill the whole of `pixels`, row-major, with the shade of every pixel of a
/// `bounds`-sized grid under the given viewport corners and iteration bound.
/// Callers that hand a band's bounds and its own corners render that band in
/// its local coordinate space.
pub fn render(
    pixels: &mut Vec<u32>,
    max_iter: u32,
    bounds: (usize, usize),
    upper_left: Complex,
    lower_right: Complex,
)
    requires
        old(pixels).len() == bounds.0 * bounds.1,
        bounds.0 >= 1,
        bounds.1 >= 1,
        upper_left.in_range(),
        lower_right.in_range(),
    ensures
        grid_matches(final(pixels)@, bounds, max_iter, upper_left, lower_right),
{
    let mut row: usize = 0;
    while row < bounds.1
        invariant
            row <= bounds.1,
            bounds.0 >= 1,
            bounds.1 >= 1,
            upper_left.in_range(),
            lower_right.in_range(),
            pixels.len() == bounds.0 * bounds.1,
            forall|idx: int|
                0 <= idx < row * bounds.0 ==> #[trigger] pixels@[idx] == pixel_shade(
                    bounds,
                    max_iter,
                    upper_left,
                    lower_right,
                    idx % (bounds.0 as int),
                    idx / (bounds.0 as int),
                ),
        decreases bounds.1 - row,
    {
        let mut col: usize = 0;
        while col < bounds.0
            invariant
                row < bounds.1,
                col <= bounds.0,
                bounds.0 >= 1,
                bounds.1 >= 1,
                upper_left.in_range(),
                lower_right.in_range(),
                pixels.len() == bounds.0 * bounds.1,
                forall|idx: int|
                    0 <= idx < row * bounds.0 + col ==> #[trigger] pixels@[idx] == pixel_shade(
                        bounds,
                        max_iter,
                        upper_left,
                        lower_right,
                        idx % (bounds.0 as int),
                        idx / (bounds.0 as int),
                    ),
            decreases bounds.0 - col,
        {
            proof {
                assert((row as int) * (bounds.0 as int) + (col as int) < (bounds.1 as int) * (
                bounds.0 as int)) by (nonlinear_arith)
                    requires
                        0 <= row < bounds.1 as int,
                        0 <= col < bounds.0 as int,
                ;
                assert((bounds.1 as int) * (bounds.0 as int) == (bounds.0 as int) * (
                bounds.1 as int)) by (nonlinear_arith);
            }
            let point = pixel_to_point(bounds, (col, row), upper_left, lower_right);
            let v: u32 = match escape_time(point, max_iter) {
                None => 0,
                Some(count) => max_iter - count,
            };
            let idx: usize = row * bounds.0 + col;
            proof {
                lemma_fundamental_div_mod_converse_div(
                    idx as int,
                    bounds.0 as int,
                    row as int,
                    col as int,
                );
                lemma_fundamental_div_mod_converse_mod(
                    idx as int,
                    bounds.0 as int,
                    row as int,
                    col as int,
                );
            }
            pixels[idx] = v;
            col = col + 1;
        }
        proof {
            assert(((row as int) + 1) * (bounds.0 as int) == (row as int) * (bounds.0 as int) + (
            bounds.0 as int)) by (nonlinear_arith);
        }
        row = row + 1;
    }
}

/// Compute the pixels of the horizontal band of `band_height` grid rows
/// starting at grid row `top`, in the geometry of the full grid: entry
/// `r·width + c` of the result is the shade owed to pixel `(c, top + r)` of
/// the whole picture.
pub fn render_band_rows(
    max_iter: u32,
    bounds: (usize, usize),
    upper_left: Complex,
    lower_right: Complex,
    top: usize,
    band_height: usize,
) -> (band: Vec<u32>)
    requires
        bounds.0 >= 1,
        bounds.1 >= 1,
        top + band_height <= bounds.1,
        bounds.0 * bounds.1 <= usize::MAX,
        upper_left.in_range(),
        lower_right.in_range(),
    ensures
        band.len() == band_height * bounds.0,
        forall|idx: int|
            0 <= idx < band.len() ==> #[trigger] band@[idx] == pixel_shade(
                bounds,
                max_iter,
                upper_left,
                lower_right,
                idx % (bounds.0 as int),
                top + idx / (bounds.0 as int),
            ),
{
    let mut band: Vec<u32> = Vec::new();
    let mut r: usize = 0;
    while r < band_height
        invariant
            r <= band_height,
            bounds.0 >= 1,
            bounds.1 >= 1,
            top + band_height <= bounds.1,
            upper_left.in_range(),
            lower_right.in_range(),
            band.len() == r * bounds.0,
            forall|idx: int|
                0 <= idx < band.len() ==> #[trigger] band@[idx] == pixel_shade(
                    bounds,
                    max_iter,
                    upper_left,
                    lower_right,
                    idx % (bounds.0 as int),
                    top + idx / (bounds.0 as int),
                ),
        decreases band_height - r,
    {
        let mut c: usize = 0;
        while c < bounds.0
            invariant
                r < band_height,
                c <= bounds.0,
                bounds.0 >= 1,
                bounds.1 >= 1,
                top + band_height <= bounds.1,
                upper_left.in_range(),
                lower_right.in_range(),
                band.len() == r * bounds.0 + c,
                forall|idx: int|
                    0 <= idx < band.len() ==> #[trigger] band@[idx] == pixel_shade(
                        bounds,
                        max_iter,
                        upper_left,
                        lower_right,
                        idx % (bounds.0 as int),
                        top + idx / (bounds.0 as int),
                    ),
            decreases bounds.0 - c,
        {
            let point = pixel_to_point(bounds, (c, top + r), upper_left, lower_right);
            let v: u32 = match escape_time(point, max_iter) {
                None => 0,
                Some(count) => max_iter - count,
            };
            proof {
                let w = bounds.0 as int;
                let idx = (r as int) * w + (c as int);
                lemma_fundamental_div_mod_converse_div(idx, w, r as int, c as int);
                lemma_fundamental_div_mod_converse_mod(idx, w, r as int, c as int);
            }
            band.push(v);
            c = c + 1;
        }
        proof {
            assert(((r as int) + 1) * (bounds.0 as int) == (r as int) * (bounds.0 as int) + (
            bounds.0 as int)) by (nonlinear_arith);
        }
        r = r + 1;
    }
    band
}

} // verus!
