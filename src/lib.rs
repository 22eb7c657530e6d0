//! Geometry and interaction core of a cubic Bézier edge editor on an integer canvas:
//! anchors with control handles, smoothing, hit testing, the drag state machine, and
//! curve sampling.

pub mod geometry;
pub mod anchor;
pub mod curve;
pub mod bezier;
pub mod node_hit;
