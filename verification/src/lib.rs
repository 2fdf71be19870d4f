//! Building blocks of an escape-time fractal renderer: how a raster is cut
//! into row bands, how a band is filled, how an orbit is followed until it
//! escapes and how its escape count becomes a grey level; and the small text
//! and number helpers that a command line around them needs.

pub mod band;
pub mod escape;
pub mod foo;
pub mod gcd;
pub mod pair;
pub mod render;
