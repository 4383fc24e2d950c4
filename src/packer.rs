//! The rectangle packer behind each atlas: etagere's shelf allocator.
use crate::geometry::{Rectangle, disjoint};
use vstd::prelude::*;

verus! {

#[verifier::external_type_specification]
#[verifier::external_body]
pub struct ExAtlasAllocator(etagere::AtlasAllocator);

/// The live allocations of a packer, by serialized allocation id.
pub uninterp spec fn packer_regions(a: etagere::AtlasAllocator) -> Map<u32, Rectangle>;

/// Every box of `m` ends at or above row `y`.
pub open spec fn below_all(m: Map<u32, Rectangle>, y: int) -> bool {
    forall|id: u32| #[trigger] m.contains_key(id) ==> m[id].max_y <= y
}

/// No allocation at all.
pub open spec fn no_regions() -> Map<u32, Rectangle> {
    Map::empty()
}

/// The width and height that a packer was made with.
pub uninterp spec fn packer_extent(a: etagere::AtlasAllocator) -> (int, int);

/// One allocation: its serialized id and the box it covers.
#[derive(Clone, Copy, Debug, PartialEq, Eq, Structural)]
pub struct Allocation {
    pub id: u32,
    pub rectangle: Rectangle,
}

/// Most live allocations a packer is asked to hold. etagere numbers its
/// shelves and items with `u16`, and keeps at most four items and two
/// shelves per live allocation, plus one: under this bound no index reaches
/// its `u16::MAX` "none" marker.
pub const MAX_ALLOCATIONS: usize = 16000;

/// Largest side of a packer. Shelf heights then stay far below the
/// `u16::MAX` that `allocate` starts its best fit from, and adding the split
/// threshold to a height cannot overflow.
pub const MAX_PACKER_SIDE: i32 = 8192;

/// Relies on etagere::AtlasAllocator::new: an allocator over the given size
/// that holds no allocation yet. It asserts a positive size of at most
/// `u16::MAX` on each side whose area fits in an `i32`.
#[verifier::external_body]
pub(crate) fn packer_new(width: i32, height: i32) -> (a: etagere::AtlasAllocator)
    requires
        0 < width <= MAX_PACKER_SIDE,
        0 < height <= MAX_PACKER_SIDE,
    ensures
        packer_regions(a) == no_regions(),
        packer_extent(a) == (width as int, height as int),
{
    etagere::AtlasAllocator::new(etagere::size2(width, height))
}

/// Relies on etagere::AtlasAllocator::allocate (default options: one
/// column, horizontal shelves, no alignment): on success a fresh id and a
/// box inside the atlas, at least as large as asked, that overlaps no live
/// allocation; on failure nothing changes.
///
/// Each live box spans the full height of its shelf; shelves tile the
/// atlas from top to bottom, and no two empty shelves stay next to each
/// other. So with a packer no taller than [`MAX_PACKER_SIDE`]:
/// - with no live box, the packer is one free shelf and grants any size
///   within it;
/// - when every live box ends at or above row `y`, the rows from `y` down
///   lie in one free last shelf. A request no wider than the packer, whose
///   height rounded up to its shelf height (by at most 63) and the shelf
///   split threshold (8) still fit below `y`, is granted, in that shelf or
///   in one above, so its box ends by row `y + height + 72`.
#[verifier::external_body]
pub(crate) fn packer_allocate(a: &mut etagere::AtlasAllocator, width: i32, height: i32) -> (r:
    Option<Allocation>)
    requires
        packer_extent(*old(a)).0 <= MAX_PACKER_SIDE,
        packer_extent(*old(a)).1 <= MAX_PACKER_SIDE,
        packer_regions(*old(a)).dom().finite(),
        packer_regions(*old(a)).len() < MAX_ALLOCATIONS,
    ensures
        packer_extent(*final(a)) == packer_extent(*old(a)),
        packer_regions(*old(a)).is_empty() && 0 < width <= packer_extent(*old(a)).0 && 0 < height
            <= packer_extent(*old(a)).1 ==> r is Some,
        forall|y: int|
            #![trigger below_all(packer_regions(*old(a)), y)]
            below_all(packer_regions(*old(a)), y) && 0 <= y && 0 < width <= packer_extent(*old(a)).0
                && 0 < height && y + height + 72 <= packer_extent(*old(a)).1 ==> (r matches Some(al)
                && al.rectangle.max_y <= y + height + 72),
        match r {
            None => packer_regions(*final(a)) == packer_regions(*old(a)),
            Some(al) => {
                &&& !packer_regions(*old(a)).contains_key(al.id)
                &&& packer_regions(*final(a)) == packer_regions(*old(a)).insert(
                    al.id,
                    al.rectangle,
                )
                &&& al.rectangle.within(packer_extent(*old(a)).0, packer_extent(*old(a)).1)
                &&& al.rectangle.width_spec() >= width
                &&& al.rectangle.height_spec() >= height
                &&& forall|id: u32|
                    #[trigger] packer_regions(*old(a)).contains_key(id) ==> disjoint(
                        packer_regions(*old(a))[id],
                        al.rectangle,
                    )
            },
        },
{
    match a.allocate(etagere::size2(width, height)) {
        Some(al) => Some(
            Allocation {
                id: al.id.serialize(),
                rectangle: Rectangle {
                    min_x: al.rectangle.min.x,
                    min_y: al.rectangle.min.y,
                    max_x: al.rectangle.max.x,
                    max_y: al.rectangle.max.y,
                },
            },
        ),
        None => None,
    }
}

/// Relies on etagere::AtlasAllocator::deallocate: frees one live allocation
/// and leaves the others where they are. It asserts that the id is live.
#[verifier::external_body]
pub(crate) fn packer_deallocate(a: &mut etagere::AtlasAllocator, id: u32)
    requires
        packer_regions(*old(a)).contains_key(id),
    ensures
        packer_extent(*final(a)) == packer_extent(*old(a)),
        packer_regions(*final(a)) == packer_regions(*old(a)).remove(id),
{
    a.deallocate(etagere::AllocId::deserialize(id))
}

/// Relies on etagere::AtlasAllocator::get: the box of a live allocation, the
/// same that `allocate` returned for it. It asserts that the id is live.
#[verifier::external_body]
pub(crate) fn packer_get(a: &etagere::AtlasAllocator, id: u32) -> (r: Rectangle)
    requires
        packer_regions(*a).contains_key(id),
    ensures
        r == packer_regions(*a)[id],
{
    let b = a.get(etagere::AllocId::deserialize(id));
    Rectangle { min_x: b.min.x, min_y: b.min.y, max_x: b.max.x, max_y: b.max.y }
}

} // verus!
