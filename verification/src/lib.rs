//! Escape-time rendering of the Mandelbrot set.
//!
//! Coordinates of the complex plane are held in fixed-point form: an `i64`
//! component stands for that many units of `1 / SCALE`. All arithmetic is
//! exact integer arithmetic with a stated truncation rule, so every pixel of
//! the output is pinned down by the contracts and a render is deterministic
//! whatever the order or number of workers that computed its bands.

pub mod complex;
pub mod escape;
pub mod mapper;
pub mod render;
pub mod schedule;
