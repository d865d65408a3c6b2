//! A small 2-D vector-shape rasterizer: points, lines, triangles, rectangles
//! and circles are turned into a deterministic sequence of `(x, y, color)`
//! writes against an abstract pixel sink. Out-of-bounds rejection is the
//! sink's business, not the shapes'.

pub mod arith;
pub mod canvas;
pub mod geometrical_shapes;
mod rng;
pub mod trig;
