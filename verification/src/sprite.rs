//! The area a sprite occupies on a texture.
//!
//! Drawing itself happens outside the crate; the rectangle is kept here
//! because configuration processing produces and sizes it.

use vstd::prelude::*;

verus! {

/// A rectangle on a sprite sheet: a tile position and a tile size.
#[derive(Clone, Copy, Debug, PartialEq, Eq, Structural)]
pub struct SpriteRect {
    pub h: i32,
    pub w: i32,
    pub x: i32,
    pub y: i32,
}

impl SpriteRect {
    /// A rectangle at tile `(x, y)` of `w` by `h` pixels.
    pub fn new(x: i32, y: i32, w: i32, h: i32) -> (r: SpriteRect)
        ensures
            r.x == x,
            r.y == y,
            r.w == w,
            r.h == h,
    {
        SpriteRect { x, y, w, h }
    }

    /// The width in pixels.
    pub fn get_width(&self) -> (r: i32)
        ensures
            r == self.w,
    {
        self.w
    }

    /// The height in pixels.
    pub fn get_height(&self) -> (r: i32)
        ensures
            r == self.h,
    {
        self.h
    }
}

} // verus!
