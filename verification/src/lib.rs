//! Orbit exploration under rotation generators in constant-curvature planes.
//!
//! The crate holds the discrete half of the exploration: the generators and
//! their rules, the bucketed keys under which nearby coordinates count as one
//! state, the set that deduplicates them, and the two breadth-first searches
//! (the orbit of a point, and the grips that hold a point).  Coordinates are
//! opaque to the searches: whoever calls supplies the numeric kernel, as
//! functions that test a point against a circle, turn a point about a centre,
//! and name the bucket of a point or a circle.  For the last, the crate
//! offers a grid of buckets over the bit patterns of binary64 numbers.

pub mod bucket;
pub mod geom;
pub mod grips;
pub mod grips_laws;
pub mod orbit;
pub mod orbit_laws;
pub mod packing;
pub mod palette;
pub mod puzzle;
pub mod quantize;

pub use bucket::{BucketSet, CircleKey, PointKey};
pub use geom::{Circle, Curvature, RotCircle};
pub use grips::{expand_grips, GripSearch, GripSet, Member, Turn};
pub use orbit::{expand_seed, OrbitRecord, Outcome, PointOrbit, Probe};
pub use packing::{packing_radii, packing_radius, point_max_rad};
pub use palette::{gen_colors, Rgb};
pub use puzzle::{Grip, Piece};
pub use quantize::{circle_key, point_key, quantize};
