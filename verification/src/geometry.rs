use vstd::prelude::*;

verus! {

/// A rectangle in physical pixels, with exclusive right and bottom edges.
#[derive(Clone, Copy, Debug, PartialEq, Eq, Structural, Hash)]
pub struct PhysicalRect {
    pub left: i32,
    pub top: i32,
    pub right: i32,
    pub bottom: i32,
}

/// The width of a rectangle; negative when its edges are swapped.
pub open spec fn rect_width(r: PhysicalRect) -> int {
    r.right - r.left
}

/// The height of a rectangle; negative when its edges are swapped.
pub open spec fn rect_height(r: PhysicalRect) -> int {
    r.bottom - r.top
}

pub open spec fn clamp_zero(v: int) -> int {
    if v < 0 {
        0
    } else {
        v
    }
}

/// The number of pixels a rectangle covers, counting a negative extent as empty.
pub open spec fn rect_area(r: PhysicalRect) -> int {
    clamp_zero(rect_width(r)) * clamp_zero(rect_height(r))
}

pub open spec fn min_int(a: int, b: int) -> int {
    if a < b {
        a
    } else {
        b
    }
}

impl PhysicalRect {
    pub fn new(left: i32, top: i32, right: i32, bottom: i32) -> (r: PhysicalRect)
        ensures
            r == (PhysicalRect { left, top, right, bottom }),
    {
        PhysicalRect { left, top, right, bottom }
    }

    pub fn width(&self) -> (r: i64)
        ensures
            r == rect_width(*self),
    {
        self.right as i64 - self.left as i64
    }

    pub fn height(&self) -> (r: i64)
        ensures
            r == rect_height(*self),
    {
        self.bottom as i64 - self.top as i64
    }

    /// The covered pixel count; it always fits in a `u64`.
    pub fn area(&self) -> (r: u64)
        ensures
            r == rect_area(*self),
    {
        let w = self.width();
        let h = self.height();
        let w: u64 = if w < 0 {
            0
        } else {
            w as u64
        };
        let h: u64 = if h < 0 {
            0
        } else {
            h as u64
        };
        assert(w * h <= 0xffff_ffff_ffff_ffff) by (nonlinear_arith)
            requires
                w <= 0xffff_ffff,
                h <= 0xffff_ffff,
        {
            assert(w * h <= 0xffff_ffff * 0xffff_ffff);
        }
        w * h
    }
}

/// The overlap of two rectangles, if they share any pixel.
pub open spec fn rect_intersection(a: PhysicalRect, b: PhysicalRect) -> Option<PhysicalRect> {
    let left = if a.left < b.left { b.left } else { a.left };
    let top = if a.top < b.top { b.top } else { a.top };
    let right = if a.right < b.right { a.right } else { b.right };
    let bottom = if a.bottom < b.bottom { a.bottom } else { b.bottom };
    if left < right && top < bottom {
        Some(PhysicalRect { left, top, right, bottom })
    } else {
        None
    }
}

impl PhysicalRect {
    /// The overlap of two rectangles, if they share any pixel.
    pub fn intersect(self, other: PhysicalRect) -> (r: Option<PhysicalRect>)
        ensures
            r == rect_intersection(self, other),
    {
        let left = if self.left < other.left { other.left } else { self.left };
        let top = if self.top < other.top { other.top } else { self.top };
        let right = if self.right < other.right { self.right } else { other.right };
        let bottom = if self.bottom < other.bottom { self.bottom } else { other.bottom };
        if left < right && top < bottom {
            Some(PhysicalRect { left, top, right, bottom })
        } else {
            None
        }
    }
}

/// `a * b`, or `u64::MAX` where the product does not fit.
pub fn saturating_mul_u64(a: u64, b: u64) -> (r: u64)
    ensures
        r == min_int(a * b, u64::MAX as int),
{
    match a.checked_mul(b) {
        Some(v) => v,
        None => u64::MAX,
    }
}

/// `a * b`, or `usize::MAX` where the product does not fit.
pub fn saturating_mul_usize(a: usize, b: usize) -> (r: usize)
    ensures
        r == min_int(a * b, usize::MAX as int),
{
    match a.checked_mul(b) {
        Some(v) => v,
        None => usize::MAX,
    }
}

} // verus!
