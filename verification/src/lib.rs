//! The exact core of a stochastic sphere ray tracer.
//!
//! A ray tracer computes in single precision, which a proof cannot follow.
//! What it decides, it decides on whole numbers, and those decisions are
//! gathered here, each with a machine-checked contract:
//!
//! - `scalar`: numbers by their bit pattern, with their order, their
//!   whole part and the test for a unit length;
//! - `random`: draws from the generator, as fractions of the unit interval
//!   and as lattice points;
//! - `camera`: the random point on the lens;
//! - `surfaces`: which crossing a sphere reports, which hit is nearest,
//!   and the plan of the random scene;
//! - `scatters`: what each material does with a ray, and the random point
//!   in the unit ball;
//! - `integrator`: the walk of a ray through its bounces, which is
//!   bounded;
//! - `tiling`: the split of the pixels among workers;
//! - `image`: the pixel grid, rendered at once or gathered from the
//!   workers' parts;
//! - `ppm`: the text of an image, written and read back.
//!
//! The arithmetic on vectors, the camera's geometry and the files stay
//! with the program that uses this library.

pub mod camera;
pub mod image;
pub mod integrator;
pub mod ppm;
pub mod random;
pub mod scalar;
pub mod scatters;
pub mod surfaces;
pub mod tiling;
