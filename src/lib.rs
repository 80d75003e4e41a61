//! Rectangle packing: places rectangular items into a container without
//! overlap, optionally turning items by 90°, and can search, from side 1
//! upward, for a power-of-two container that takes them all.
//!
//! Free space is kept as a tree of regions in a flat arena. Items are packed
//! largest first (area plus longest side); each goes to the top-left corner
//! of the free region that wastes the least area, then the least length on
//! its tighter side, and every free region it overlaps is split around it.
//!
//! Two rectangles overlap only where their open interiors intersect, so a
//! rectangle of zero width or height overlaps nothing. Items of zero width or
//! height get no special treatment: such an item fits any free region that
//! its other side fits and is placed at that region's corner, and since it
//! overlaps nothing it leaves the free space as it was. A container of zero
//! width or height takes only such items.
//!
//! Every pack, whether it succeeds or stops at the first item that does not
//! fit, returns placements that lie inside the container, never overlap one
//! another, and keep each item's size (or, for a rotatable item that is not
//! square, its size turned by 90°).

pub mod area;
pub mod item;
pub mod packer;
pub mod rect;
mod tree;

pub use item::{Item, PackedItem, PackedItems, Rotation};
pub use packer::{Packer, pack, pack_into_po2};
pub use rect::Rect;
