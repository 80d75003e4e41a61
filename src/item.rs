use vstd::prelude::*;
use crate::rect::Rect;

verus! {

/// Rotation setting for packing rectangles.
#[derive(Debug, Clone, Copy, PartialEq, Eq, Structural)]
pub enum Rotation {
    /// The item may not be rotated.
    Disallowed,
    /// The item may be rotated 90° to fit better.
    Allowed,
}

/// An item to be packed: an opaque payload and a size.
#[derive(Clone)]
pub struct Item<T> {
    /// Data carried along with the item (an id, a reference to an image).
    pub data: T,
    /// The item's width.
    pub w: usize,
    /// The item's height.
    pub h: usize,
    /// Whether the packer may place the item as `h` x `w`. A square item is
    /// never rotated.
    pub rot: Rotation,
}

/// An item that has been placed: its payload and where it went.
///
/// Where rotation was allowed, a `rect.w` that differs from the item's `w`
/// means that the item was rotated.
pub struct PackedItem<T> {
    pub data: T,
    pub rect: Rect,
}

/// The result of a power-of-two search: the container's size and the
/// placements inside it.
pub struct PackedItems<T> {
    pub w: usize,
    pub h: usize,
    pub items: Vec<PackedItem<T>>,
}

/// Items are packed in descending order of this key: area plus longest side.
pub open spec fn priority<T>(it: Item<T>) -> int {
    it.w * it.h + if it.w >= it.h { it.w as int } else { it.h as int }
}

/// Product of two `usize` values, which always fits in `u128`.
pub(crate) fn wide_mul(a: usize, b: usize) -> (r: u128)
    ensures
        r == a * b,
{
    proof {
        assert(a as int * b as int <= u64::MAX as int * u64::MAX as int) by (nonlinear_arith)
            requires
                0 <= a <= u64::MAX,
                0 <= b <= u64::MAX,
        ;
        assert(u64::MAX as int * u64::MAX as int <= u128::MAX);
    }
    (a as u128) * (b as u128)
}

impl<T> Item<T> {
    /// Creates a new item of size `w` x `h`, carrying `data`.
    pub fn new(data: T, w: usize, h: usize, rot: Rotation) -> (r: Self)
        ensures
            r == (Item { data, w, h, rot }),
    {
        Item { data, w, h, rot }
    }

    /// The ordering key: area plus longest side (computed in `u128`, where
    /// it always fits).
    pub fn sort_priority(&self) -> (r: u128)
        ensures
            r == priority(*self),
    {
        let area = wide_mul(self.w, self.h);
        let longest_side = if self.w >= self.h { self.w } else { self.h };
        proof {
            assert(area as int <= u64::MAX as int * u64::MAX as int) by (nonlinear_arith)
                requires
                    area == self.w * self.h,
                    0 <= self.w <= u64::MAX,
                    0 <= self.h <= u64::MAX,
            ;
            assert(u64::MAX as int * u64::MAX as int + u64::MAX <= u128::MAX);
        }
        area + longest_side as u128
    }
}

} // verus!
