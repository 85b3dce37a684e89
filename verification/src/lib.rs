//! Sphere-traced rendering of a signed-distance scene into a grid of glyphs.
//!
//! This crate holds the discrete skeleton of the renderer and proves it: the
//! tree of unions and transforms that composes a distance field, the per-ray
//! marching loop with its step budget, the walk over the screen's pixels, the
//! glyph ramp with its quantisation, and the assembly of a frame's text.
//!
//! The arithmetic on points and distances is the caller's. It comes in as
//! closures, each a single computation or comparison (a primitive's distance,
//! a point carried through a transform, whether one distance is closer than
//! another, a ray moved on, a pixel's ray, the brightness of a hit), and the
//! contracts speak of whatever those closures returned. Every loop and every
//! decision between them is made here.
pub mod field;
pub mod frame;
pub mod march;
pub mod ramp;
pub mod render;

pub use field::{Field, SdfTransform};
pub use frame::compose_frame;
pub use march::{cast_ray, decide, march, probe, Probe, Step, MAX_STEPS};
pub use ramp::{glyph, glyph_index, glyph_str, RAMP, RAMP_LEN};
pub use render::{is_wide, render_scene, trace_pixels};
