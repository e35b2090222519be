//! Rectangles and extents inside the atlas canvas.

use vstd::prelude::*;

verus! {

/// Largest width or height, in pixels, that an image or the canvas may have.
///
/// Keeps `4 * width * height`, the byte length of a pixel buffer, well inside
/// `usize` on every target.
pub const MAX_DIM: u32 = 16384;

/// A size in whole pixels.
#[derive(Clone, Copy, Debug, PartialEq, Eq, Structural)]
pub struct Extent {
    pub width: u32,
    pub height: u32,
}

/// A rectangular region of the atlas canvas.
#[derive(Clone, Copy, Debug, PartialEq, Eq, Structural)]
pub struct Rect {
    pub x: u32,
    pub y: u32,
    pub width: u32,
    pub height: u32,
}

impl Rect {
    /// The size of this region.
    pub fn extent(&self) -> (e: Extent)
        ensures
            e == (Extent { width: self.width, height: self.height }),
    {
        Extent { width: self.width, height: self.height }
    }
}

/// Two regions share no pixel.
pub open spec fn disjoint(a: Rect, b: Rect) -> bool {
    ||| a.x + a.width <= b.x
    ||| b.x + b.width <= a.x
    ||| a.y + a.height <= b.y
    ||| b.y + b.height <= a.y
}

/// The region lies fully inside a canvas of the given extent.
pub open spec fn within(r: Rect, canvas: Extent) -> bool {
    r.x + r.width <= canvas.width && r.y + r.height <= canvas.height
}

} // verus!
