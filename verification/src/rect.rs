//! Axis-aligned rectangles in screen space.
use vstd::prelude::*;

verus! {

/// A 2D rectangle.
///
/// - `(x, y)` is the top-left corner.
/// - `(w, h)` are the left-to-right, top-to-bottom dimensions of the rectangle.
pub struct Rect2 {
    x: i32,
    y: i32,
    w: u32,
    h: u32,
}

impl Rect2 {
    pub closed spec fn spec_x(&self) -> i32 {
        self.x
    }

    pub closed spec fn spec_y(&self) -> i32 {
        self.y
    }

    pub closed spec fn spec_w(&self) -> u32 {
        self.w
    }

    pub closed spec fn spec_h(&self) -> u32 {
        self.h
    }

    pub fn new(x: i32, y: i32, w: u32, h: u32) -> (r: Self)
        ensures
            r.spec_x() == x,
            r.spec_y() == y,
            r.spec_w() == w,
            r.spec_h() == h,
    {
        Self { x, y, w, h }
    }

    pub fn x(&self) -> (r: i32)
        ensures
            r == self.spec_x(),
    {
        self.x
    }

    pub fn y(&self) -> (r: i32)
        ensures
            r == self.spec_y(),
    {
        self.y
    }

    pub fn w(&self) -> (r: u32)
        ensures
            r == self.spec_w(),
    {
        self.w
    }

    pub fn h(&self) -> (r: u32)
        ensures
            r == self.spec_h(),
    {
        self.h
    }
}

} // verus!
