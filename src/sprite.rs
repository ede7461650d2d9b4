use vstd::prelude::*;

verus! {

/// Number of bytes that encode one pixel (RGBA, one byte per channel).
pub const BYTES_PER_PIXEL: usize = 4;

/// A source image: row-major pixel bytes and its width and height in pixels.
#[derive(Debug, Clone)]
pub struct InputSprite {
    pub bytes: Vec<u8>,
    pub width: u32,
    pub height: u32,
}

impl InputSprite {
    /// The pixel buffer holds exactly `width * height` pixels.
    pub open spec fn wf(&self) -> bool {
        self.bytes@.len() == self.width as int * self.height as int
            * BYTES_PER_PIXEL as int
    }
}

/// The shape of one sprite as the packers see it: its id and its size.
#[derive(Debug, Clone, Copy)]
pub struct SpriteData {
    pub id: usize,
    pub width: u32,
    pub height: u32,
}

/// Where a packer put one sprite: the sheet's index and the top-left corner.
#[derive(Debug, Clone, Copy)]
pub struct Placement {
    pub sheet: usize,
    pub x: u32,
    pub y: u32,
}

/// The placement of one sprite on a sheet.
#[derive(Debug, Clone, Copy)]
pub struct SpriteAnchor {
    pub id: usize,
    pub x: u32,
    pub y: u32,
    pub width: u32,
    pub height: u32,
}

/// An axis-aligned rectangle `[x, x + w) x [y, y + h)` over mathematical integers.
pub struct Rect {
    pub x: int,
    pub y: int,
    pub w: int,
    pub h: int,
}

/// Two rectangles share no pixel.
pub open spec fn disjoint(a: Rect, b: Rect) -> bool {
    a.x + a.w <= b.x || b.x + b.w <= a.x || a.y + a.h <= b.y || b.y + b.h <= a.y
}

/// `inner` lies fully inside `outer`.
pub open spec fn within(inner: Rect, outer: Rect) -> bool {
    outer.x <= inner.x && inner.x + inner.w <= outer.x + outer.w && outer.y <= inner.y
        && inner.y + inner.h <= outer.y + outer.h
}

/// The rectangle of size `w` by `h` whose top-left corner is at `(x, y)`.
pub open spec fn rect_at(x: u32, y: u32, w: u32, h: u32) -> Rect {
    Rect { x: x as int, y: y as int, w: w as int, h: h as int }
}

impl SpriteAnchor {
    pub open spec fn rect(&self) -> Rect {
        rect_at(self.x, self.y, self.width, self.height)
    }
}

} // verus!
