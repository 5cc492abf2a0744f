//! The discrete core of a recursive ray tracer.
//!
//! Everything here works on integers, handles and containers: which
//! intersection a ray hits first, which media lie on either side of a
//! surface, how a raster is indexed and written out, how matrices are cut
//! and turned, and how deep secondary rays may go. The numeric side of the
//! renderer (vectors, transforms, shading) supplies ray parameters as
//! IEEE-754 binary64 bit patterns and shapes as indices into its own table.

pub mod canvas;
pub mod depth;
pub mod intersection;
pub mod matrix;
pub mod object;
pub mod order;
pub mod plane;
pub mod ppm;
pub mod sphere;
pub mod time;
