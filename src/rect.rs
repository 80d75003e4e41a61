use vstd::prelude::*;

verus! {

/// An axis-aligned rectangle with its top-left corner at `(x, y)`.
#[derive(Debug, Clone, Copy, Default, PartialEq, Eq, Structural)]
pub struct Rect {
    pub x: usize,
    pub y: usize,
    pub w: usize,
    pub h: usize,
}

/// The right edge `x + w`, as a mathematical integer.
pub open spec fn right_of(r: Rect) -> int {
    r.x + r.w
}

/// The bottom edge `y + h`, as a mathematical integer.
pub open spec fn bottom_of(r: Rect) -> int {
    r.y + r.h
}

/// The area `w * h`, as a mathematical integer.
pub open spec fn area_of(r: Rect) -> int {
    r.w * r.h
}

/// Both far edges are representable as `usize`.
pub open spec fn fits(r: Rect) -> bool {
    right_of(r) <= usize::MAX && bottom_of(r) <= usize::MAX
}

/// `inner` lies entirely inside `outer`.
pub open spec fn encloses(outer: Rect, inner: Rect) -> bool {
    &&& inner.x >= outer.x
    &&& inner.y >= outer.y
    &&& right_of(inner) <= right_of(outer)
    &&& bottom_of(inner) <= bottom_of(outer)
}

/// The open interiors of `a` and `b` intersect; never so where either has
/// zero width or height.
pub open spec fn meets(a: Rect, b: Rect) -> bool {
    &&& a.w > 0 && a.h > 0 && b.w > 0 && b.h > 0
    &&& a.x < right_of(b)
    &&& a.y < bottom_of(b)
    &&& right_of(a) > b.x
    &&& bottom_of(a) > b.y
}

/// The parts of `s` that are left of, right of, above and below `r`; each
/// one is present only where it has positive area.
pub open spec fn residuals(s: Rect, r: Rect) -> [Option<Rect>; 4] {
    [
        if r.x > s.x && s.h > 0 {
            Some(Rect { x: s.x, y: s.y, w: (r.x - s.x) as usize, h: s.h })
        } else {
            None
        },
        if right_of(r) < right_of(s) && s.h > 0 {
            Some(Rect { x: right_of(r) as usize, y: s.y, w: (right_of(s) - right_of(r)) as usize, h: s.h })
        } else {
            None
        },
        if r.y > s.y && s.w > 0 {
            Some(Rect { x: s.x, y: s.y, w: s.w, h: (r.y - s.y) as usize })
        } else {
            None
        },
        if bottom_of(r) < bottom_of(s) && s.w > 0 {
            Some(Rect { x: s.x, y: bottom_of(r) as usize, w: s.w, h: (bottom_of(s) - bottom_of(r)) as usize })
        } else {
            None
        },
    ]
}

/// `a < b + len`, computed without overflow.
fn below_end(a: usize, b: usize, len: usize) -> (r: bool)
    ensures
        r == (a < b + len),
{
    a < b || a - b < len
}

impl Rect {
    /// Creates a rectangle at `(x, y)` of size `w` x `h`.
    pub fn new(x: usize, y: usize, w: usize, h: usize) -> (r: Self)
        ensures
            r == (Rect { x, y, w, h }),
    {
        Rect { x, y, w, h }
    }

    /// Creates a rectangle of size `w` x `h` at the origin.
    pub fn of_size(w: usize, h: usize) -> (r: Self)
        ensures
            r == (Rect { x: 0, y: 0, w, h }),
    {
        Self::new(0, 0, w, h)
    }

    /// The area of the rectangle.
    pub fn area(&self) -> (r: usize)
        requires
            area_of(*self) <= usize::MAX,
        ensures
            r == area_of(*self),
    {
        self.w * self.h
    }

    /// Returns true if `other` is fully contained inside `self`.
    pub fn contains(&self, other: &Rect) -> (r: bool)
        ensures
            r == encloses(*self, *other),
    {
        other.x >= self.x && other.y >= self.y && other.w <= self.w && other.h <= self.h
            && other.x - self.x <= self.w - other.w && other.y - self.y <= self.h - other.h
    }

    /// Returns true if `other` overlaps `self`.
    pub fn overlaps(&self, other: &Rect) -> (r: bool)
        ensures
            r == meets(*self, *other),
    {
        self.w > 0 && self.h > 0 && other.w > 0 && other.h > 0
            && below_end(self.x, other.x, other.w) && below_end(self.y, other.y, other.h)
            && below_end(other.x, self.x, self.w) && below_end(other.y, self.y, self.h)
    }

    /// The rectangle's top-left coordinates.
    pub fn top_left(&self) -> (r: (usize, usize))
        ensures
            r == (self.x, self.y),
    {
        (self.x, self.y)
    }

    /// The right edge of the rectangle.
    pub fn right(&self) -> (r: usize)
        requires
            right_of(*self) <= usize::MAX,
        ensures
            r == right_of(*self),
    {
        self.x + self.w
    }

    /// The bottom edge of the rectangle.
    pub fn bottom(&self) -> (r: usize)
        requires
            bottom_of(*self) <= usize::MAX,
        ensures
            r == bottom_of(*self),
    {
        self.y + self.h
    }

    /// The parts of `self` not covered by `rect`: left, right, top and bottom
    /// strips, each present only where it has positive area.
    pub fn split(&self, rect: &Rect) -> (r: [Option<Rect>; 4])
        requires
            fits(*self),
            fits(*rect),
        ensures
            r == residuals(*self, *rect),
    {
        let self_r = self.right();
        let self_b = self.bottom();
        let rect_r = rect.right();
        let rect_b = rect.bottom();
        let left = if rect.x > self.x && self.h > 0 {
            Some(Rect::new(self.x, self.y, rect.x - self.x, self.h))
        } else {
            None
        };
        let right = if rect_r < self_r && self.h > 0 {
            Some(Rect::new(rect_r, self.y, self_r - rect_r, self.h))
        } else {
            None
        };
        let top = if rect.y > self.y && self.w > 0 {
            Some(Rect::new(self.x, self.y, self.w, rect.y - self.y))
        } else {
            None
        };
        let bottom = if rect_b < self_b && self.w > 0 {
            Some(Rect::new(self.x, rect_b, self.w, self_b - rect_b))
        } else {
            None
        };
        [left, right, top, bottom]
    }
}

} // verus!
