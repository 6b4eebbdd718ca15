use vstd::prelude::*;
use crate::complex::{
    div_trunc, div_trunc_i128, lemma_div_trunc_exact, lemma_div_trunc_zero,
    lemma_interp_offset_range, lemma_mul_bound, Complex, COORD_LIMIT,
};

verus! {

/// The real part of the complex point of pixel column `col`: linear
/// interpolation from `upper_left.re` toward `lower_right.re`, the quotient
/// truncated toward zero.
pub open spec fn map_re(width: int, col: int, ul_re: int, lr_re: int) -> int {
    ul_re + div_trunc(col * (lr_re - ul_re), width)
}

/// The imaginary part of the complex point of pixel row `row`: linear
/// interpolation downward from `upper_left.im` toward `lower_right.im`,
/// the plane's imaginary axis being inverted relative to pixel rows.
pub open spec fn map_im(height: int, row: int, ul_im: int, lr_im: int) -> int {
    ul_im - div_trunc(row * (ul_im - lr_im), height)
}

/// Convert a pixel position to the corresponding point of the complex plane
/// for the given viewport corners. A column equal to `width` or a row equal
/// to `height` — one past the last pixel — is allowed, and yields the far
/// edge of the viewport exactly.
pub fn pixel_to_point(
    bounds: (usize, usize),
    pixel: (usize, usize),
    upper_left: Complex,
    lower_right: Complex,
) -> (p: Complex)
    requires
        bounds.0 >= 1,
        bounds.1 >= 1,
        pixel.0 <= bounds.0,
        pixel.1 <= bounds.1,
        upper_left.in_range(),
        lower_right.in_range(),
    ensures
        p.re as int == map_re(
            bounds.0 as int,
            pixel.0 as int,
            upper_left.re as int,
            lower_right.re as int,
        ),
        p.im as int == map_im(
            bounds.1 as int,
            pixel.1 as int,
            upper_left.im as int,
            lower_right.im as int,
        ),
        p.in_range(),
{
    proof {
        lemma_mul_bound(
            pixel.0 as int,
            0xffff_ffff_ffff_ffff,
            (lower_right.re as int) - (upper_left.re as int),
            2 * (COORD_LIMIT as int),
        );
        lemma_mul_bound(
            pixel.1 as int,
            0xffff_ffff_ffff_ffff,
            (upper_left.im as int) - (lower_right.im as int),
            2 * (COORD_LIMIT as int),
        );
        lemma_interp_offset_range(
            pixel.0 as int,
            bounds.0 as int,
            (lower_right.re as int) - (upper_left.re as int),
        );
        lemma_interp_offset_range(
            pixel.1 as int,
            bounds.1 as int,
            (upper_left.im as int) - (lower_right.im as int),
        );
    }
    let dre: i128 = (lower_right.re as i128) - (upper_left.re as i128);
    let dim: i128 = (upper_left.im as i128) - (lower_right.im as i128);
    let off_re: i128 = div_trunc_i128((pixel.0 as i128) * dre, bounds.0 as i128);
    let off_im: i128 = div_trunc_i128((pixel.1 as i128) * dim, bounds.1 as i128);
    let re: i64 = ((upper_left.re as i128) + off_re) as i64;
    let im: i64 = ((upper_left.im as i128) - off_im) as i64;
    Complex { re, im }
}

/// The mapper is exact at the viewport corners: pixel `(0, 0)` yields
/// `upper_left`, and pixel `(width, height)` yields `lower_right`, for every
/// bounds and viewport.
pub proof fn lemma_map_corners(width: int, height: int, ul: Complex, lr: Complex)
    requires
        width >= 1,
        height >= 1,
    ensures
        map_re(width, 0, ul.re as int, lr.re as int) == ul.re,
        map_im(height, 0, ul.im as int, lr.im as int) == ul.im,
        map_re(width, width, ul.re as int, lr.re as int) == lr.re,
        map_im(height, height, ul.im as int, lr.im as int) == lr.im,
{
    lemma_div_trunc_zero(width);
    lemma_div_trunc_zero(height);
    lemma_div_trunc_exact((lr.re as int) - (ul.re as int), width);
    lemma_div_trunc_exact((ul.im as int) - (lr.im as int), height);
}

} // verus!
