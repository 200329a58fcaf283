//! Verified core of a Monte-Carlo path tracer, in exact integer arithmetic.
//!
//! * `geometry`: boxes, rays and clip intervals on a lattice, and the slab
//!   test of a ray against a box.
//! * `bvh`: the bounding volume hierarchy, built by insertion and kept
//!   balanced by rotations; `traverse` walks it, `query` searches it for
//!   the nearest hit.
//! * `sampler`: mixtures of scattering lobes, the draw of a lobe and the
//!   blended density.
//! * `material`, `object`, `volume`: what the scene is made of, as far as
//!   the decisions of the renderer read it.
//! * `buffer`: the accumulation buffer and its tiles.
//! * `tracer`: the settings of a pass, the budget of a path, and what a
//!   pass adds to the buffer.
//!
//! Whether a ray hits a primitive, in which direction a lobe scatters and
//! what colour comes back are computed on floats by the caller, who hands
//! the library fixed-point numbers.

pub mod buffer;
pub mod bvh;
pub mod geometry;
pub mod material;
pub mod object;
pub mod query;
pub mod sampler;
pub mod tracer;
pub mod traverse;
pub mod volume;
