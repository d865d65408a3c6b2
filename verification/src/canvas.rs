//! A recording sink: it keeps every pixel write it receives, in order, with
//! no bounds policy of its own. What a shape emits is exactly what it holds,
//! which makes drawing observable to callers and tests.

use vstd::prelude::*;
use crate::geometrical_shapes::{Color, Displayable};

verus! {

/// One recorded pixel write.
#[derive(Clone, Copy, PartialEq, Eq, Structural, Debug)]
pub struct Pixel {
    pub x: i32,
    pub y: i32,
    pub color: Color,
}

/// A sink that records every write.
pub struct Canvas {
    pub pixels: Vec<Pixel>,
}

impl Canvas {
    /// An empty canvas: nothing has been written yet.
    pub fn new() -> (c: Canvas)
        ensures
            c.writes().len() == 0,
            c.pixels@.len() == 0,
    {
        Canvas { pixels: Vec::new() }
    }
}

impl Displayable for Canvas {
    open spec fn writes(&self) -> Seq<(int, int, Color)> {
        self.pixels@.map(|j: int, p: Pixel| (p.x as int, p.y as int, p.color))
    }

    fn display(&mut self, x: i32, y: i32, color: Color) {
        self.pixels.push(Pixel { x, y, color });
        proof {
            assert(self.writes() =~= old(self).writes().push((x as int, y as int, color)));
        }
    }
}

} // verus!
