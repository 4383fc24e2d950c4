//! A texture atlas: many glyph images packed into one texture.
//!
//! The atlas decides where each image goes and hands out the texture work
//! that follows as a list of [`AtlasOp`]s, in the order it must be done.
//! A ghost model of the texture, [`Atlas::texels`], says what the texture
//! holds once every operation handed out so far has been carried out.
use crate::geometry::{Rectangle, disjoint, pairwise_disjoint};
use crate::key::GlyphKey;
use crate::packer::{
    Allocation,
    MAX_ALLOCATIONS,
    below_all,
    packer_allocate,
    packer_deallocate,
    packer_extent,
    packer_get,
    packer_new,
    packer_regions,
};
use vstd::prelude::*;

verus! {

/// Side length of a new atlas.
pub const INITIAL_SIZE: u32 = 1024;

/// Largest side length an atlas grows to, the texture size that GPUs accept
/// by default.
pub const MAX_SIZE: u32 = 8192;

/// The pixel layout of an atlas texture.
#[derive(Clone, Copy, Debug, PartialEq, Eq, Structural)]
pub enum PixelFormat {
    /// One coverage byte per pixel.
    Mask,
    /// Four bytes per pixel, red, green, blue and alpha in sRGB.
    Color,
}

impl PixelFormat {
    pub open spec fn bytes_spec(self) -> nat {
        match self {
            PixelFormat::Mask => 1,
            PixelFormat::Color => 4,
        }
    }

    pub fn bytes_per_pixel(&self) -> (n: u32)
        ensures
            n == self.bytes_spec(),
    {
        match self {
            PixelFormat::Mask => 1,
            PixelFormat::Color => 4,
        }
    }
}

/// A copy of a region from the old texture into the new one while growing.
#[derive(Clone, Copy, Debug, PartialEq, Eq, Structural)]
pub struct RegionCopy {
    pub src_x: u32,
    pub src_y: u32,
    pub dst_x: u32,
    pub dst_y: u32,
    pub width: u32,
    pub height: u32,
}

/// Work on the atlas texture.
#[derive(Debug)]
pub enum AtlasOp {
    /// Replace the texture by a zeroed one of the given size, after copying
    /// the listed regions of the old texture into it.
    Grow { width: u32, height: u32, copies: Vec<RegionCopy> },
    /// Write an image, row by row, with its top-left corner at `(x, y)`.
    Upload { x: u32, y: u32, width: u32, height: u32, data: Vec<u8> },
    /// Zero a region.
    Clear { x: u32, y: u32, width: u32, height: u32 },
}

/// What a texture holds: the bytes of the pixel at each position.
pub type Texels = spec_fn(int, int) -> Seq<u8>;

pub open spec fn zero_pixel(bpp: nat) -> Seq<u8> {
    Seq::new(bpp, |i: int| 0u8)
}

/// Pixel `(i, j)` of a row-major image `width` pixels wide.
pub open spec fn image_pixel(data: Seq<u8>, width: int, bpp: int, i: int, j: int) -> Seq<u8> {
    data.subrange((j * width + i) * bpp, (j * width + i) * bpp + bpp)
}

pub open spec fn in_box(x: int, y: int, width: int, height: int, px: int, py: int) -> bool {
    x <= px < x + width && y <= py < y + height
}

/// A pixel of a grown texture: copied from the old one by the last copy
/// that covers it, zero where none does.
pub open spec fn copied_pixel(t: Texels, bpp: nat, copies: Seq<RegionCopy>, px: int, py: int) -> Seq<
    u8,
>
    decreases copies.len(),
{
    if copies.len() == 0 {
        zero_pixel(bpp)
    } else {
        let c = copies.last();
        if in_box(c.dst_x as int, c.dst_y as int, c.width as int, c.height as int, px, py) {
            t(c.src_x + (px - c.dst_x), c.src_y + (py - c.dst_y))
        } else {
            copied_pixel(t, bpp, copies.drop_last(), px, py)
        }
    }
}

/// The texture after one operation.
pub open spec fn apply_op(t: Texels, bpp: nat, op: AtlasOp) -> Texels {
    match op {
        AtlasOp::Grow { copies, .. } => |px: int, py: int| copied_pixel(t, bpp, copies@, px, py),
        AtlasOp::Upload { x, y, width, height, data } => |px: int, py: int|
            if in_box(x as int, y as int, width as int, height as int, px, py) {
                image_pixel(data@, width as int, bpp as int, px - x, py - y)
            } else {
                t(px, py)
            },
        AtlasOp::Clear { x, y, width, height } => |px: int, py: int|
            if in_box(x as int, y as int, width as int, height as int, px, py) {
                zero_pixel(bpp)
            } else {
                t(px, py)
            },
    }
}

/// The texture after a run of operations, first to last.
pub open spec fn apply_ops(t: Texels, bpp: nat, ops: Seq<AtlasOp>) -> Texels
    decreases ops.len(),
{
    if ops.len() == 0 {
        t
    } else {
        apply_op(apply_ops(t, bpp, ops.drop_last()), bpp, ops.last())
    }
}

/// The texture shows the image `pixels`, `width` by `height`, with its
/// top-left corner at the corner of `r`.
pub open spec fn shows(t: Texels, bpp: nat, r: Rectangle, width: int, height: int, pixels: Seq<u8>) -> bool {
    forall|i: int, j: int|
        0 <= i < width && 0 <= j < height ==> t(r.min_x + i, r.min_y + j) == #[trigger] image_pixel(
            pixels,
            width,
            bpp as int,
            i,
            j,
        )
}

/// An image kept in the atlas: its width, height and pixel bytes.
pub type StoredImage = (u32, u32, Seq<u8>);

/// Two to the power `k`.
pub open spec fn pow2(k: nat) -> nat
    decreases k,
{
    if k == 0 {
        1
    } else {
        2 * pow2((k - 1) as nat)
    }
}

proof fn lemma_pow2_add(j: nat, k: nat)
    ensures
        pow2(j) * pow2(k) == pow2(j + k),
    decreases k,
{
    if k == 0 {
        assert(pow2(0) == 1);
        assert(j + k == j);
    } else {
        lemma_pow2_add(j, (k - 1) as nat);
        assert((j + k - 1) as nat == j + (k - 1) as nat);
        assert(pow2(j + k) == 2 * pow2((j + k - 1) as nat));
        assert(pow2(j) * (2 * pow2((k - 1) as nat)) == 2 * (pow2(j) * pow2((k - 1) as nat)))
            by (nonlinear_arith);
    }
}

/// One of the first `n` ids is `j`.
spec fn id_listed(ids: Seq<u32>, n: int, j: u32) -> bool {
    exists|k: int| 0 <= k < n && #[trigger] ids[k] == j
}

/// Every key with a box in `a` has the same box in `b`.
pub open spec fn keeps_boxes_of(a: Atlas, b: Atlas) -> bool {
    forall|k: GlyphKey|
        #[trigger] a.allocations().contains_key(k) ==> b.allocations().contains_key(k)
            && b.allocations()[k] == a.allocations()[k]
}

/// A `width` by `height` image fits the atlas `a` while it is empty.
pub open spec fn fits_empty(a: Atlas, width: u32, height: u32) -> bool {
    &&& a.allocations().is_empty()
    &&& 0 < width <= a.size_spec().0
    &&& 0 < height <= a.size_spec().1
}

/// A map whose keys are all among the first `n` ids has at most `n`.
proof fn lemma_ids_bound(m: Map<u32, Rectangle>, ids: Seq<u32>, n: int)
    requires
        0 <= n <= ids.len(),
        forall|j: u32| #[trigger] m.contains_key(j) ==> id_listed(ids, n, j),
    ensures
        m.dom().finite(),
        m.len() <= n,
{
    broadcast use vstd::seq_lib::seq_to_set_is_finite;

    let prefix = ids.take(n);
    let s = prefix.to_set();
    prefix.lemma_cardinality_of_set();
    assert forall|j: u32| m.dom().contains(j) implies s.contains(j) by {
        let k = choose|k: int| 0 <= k < n && #[trigger] ids[k] == j;
        assert(prefix[k] == j);
    }
    vstd::set_lib::lemma_len_subset(m.dom(), s);
}

/// A `width` by `height` image fits below the fill line of `a`, and `a`
/// may hold one more key.
pub open spec fn fits_below(a: Atlas, width: u32, height: u32) -> bool {
    &&& a.key_count() < MAX_ALLOCATIONS
    &&& 0 < width <= a.size_spec().0
    &&& 0 < height
    &&& a.fill_spec() + height + 72 <= a.size_spec().1
}

/// Some entry holds the allocation `j`.
spec fn owned_id(entries: Seq<Entry>, j: u32) -> bool {
    exists|i: int| 0 <= i < entries.len() && #[trigger] entries[i].id == j
}

#[derive(Clone, Copy)]
struct Entry {
    key: GlyphKey,
    id: u32,
    width: u32,
    height: u32,
    pixels: Ghost<Seq<u8>>,
}

/// Maps glyph keys to rectangles of one texture.
pub struct Atlas {
    format: PixelFormat,
    width: u32,
    height: u32,
    allocator: etagere::AtlasAllocator,
    entries: Vec<Entry>,
    ops: Vec<AtlasOp>,
    texels: Ghost<Texels>,
    fill: Ghost<int>,
}

proof fn lemma_apply_last(t: Texels, bpp: nat, ops: Seq<AtlasOp>, start: int)
    requires
        0 <= start < ops.len(),
    ensures
        apply_ops(t, bpp, ops.subrange(start, ops.len() as int)) == apply_op(
            apply_ops(t, bpp, ops.subrange(start, ops.len() - 1)),
            bpp,
            ops.last(),
        ),
{
    assert(ops.subrange(start, ops.len() as int).drop_last() =~= ops.subrange(
        start,
        ops.len() - 1,
    ));
}

proof fn lemma_copied_pixel(t: Texels, bpp: nat, copies: Seq<RegionCopy>, k: int, px: int, py: int)
    requires
        0 <= k < copies.len(),
        in_box(
            copies[k].dst_x as int,
            copies[k].dst_y as int,
            copies[k].width as int,
            copies[k].height as int,
            px,
            py,
        ),
        forall|m: int|
            0 <= m < copies.len() && m != k ==> !in_box(
                #[trigger] copies[m].dst_x as int,
                copies[m].dst_y as int,
                copies[m].width as int,
                copies[m].height as int,
                px,
                py,
            ),
    ensures
        copied_pixel(t, bpp, copies, px, py) == t(
            copies[k].src_x + (px - copies[k].dst_x),
            copies[k].src_y + (py - copies[k].dst_y),
        ),
    decreases copies.len(),
{
    if k < copies.len() - 1 {
        assert(!in_box(
            copies[copies.len() - 1].dst_x as int,
            copies[copies.len() - 1].dst_y as int,
            copies[copies.len() - 1].width as int,
            copies[copies.len() - 1].height as int,
            px,
            py,
        ));
        let rest = copies.drop_last();
        assert forall|m: int| 0 <= m < rest.len() && m != k implies !in_box(
            #[trigger] rest[m].dst_x as int,
            rest[m].dst_y as int,
            rest[m].width as int,
            rest[m].height as int,
            px,
            py,
        ) by {
            assert(rest[m] == copies[m]);
        }
        lemma_copied_pixel(t, bpp, rest, k, px, py);
    }
}

proof fn lemma_insert_disjoint(m: Map<u32, Rectangle>, id: u32, r: Rectangle)
    requires
        pairwise_disjoint(m),
        !m.contains_key(id),
        forall|j: u32| #[trigger] m.contains_key(j) ==> disjoint(m[j], r),
    ensures
        pairwise_disjoint(m.insert(id, r)),
{
    let n = m.insert(id, r);
    assert forall|i: u32, j: u32|
        #![trigger n[i], n[j]]
        n.contains_key(i) && n.contains_key(j) && i != j implies disjoint(n[i], n[j]) by {
        if i != id && j != id {
            assert(m[i] == n[i] && m[j] == n[j]);
        } else if i == id {
            assert(m.contains_key(j));
        } else {
            assert(m.contains_key(i));
        }
    }
}

proof fn lemma_remove_disjoint(m: Map<u32, Rectangle>, id: u32)
    requires
        pairwise_disjoint(m),
    ensures
        pairwise_disjoint(m.remove(id)),
{
    let n = m.remove(id);
    assert forall|i: u32, j: u32|
        #![trigger n[i], n[j]]
        n.contains_key(i) && n.contains_key(j) && i != j implies disjoint(n[i], n[j]) by {
        assert(m[i] == n[i] && m[j] == n[j]);
    }
}

impl Atlas {
    /// Bytes per pixel of the texture.
    pub open spec fn bpp(&self) -> nat {
        self.format_spec().bytes_spec()
    }

    pub closed spec fn format_spec(&self) -> PixelFormat {
        self.format
    }

    /// The texture's width and height.
    pub closed spec fn size_spec(&self) -> (int, int) {
        (self.width as int, self.height as int)
    }

    /// What the texture holds once the operations handed out so far are done.
    pub closed spec fn texels(&self) -> Texels {
        self.texels@
    }

    /// Operations that were not taken yet, oldest first.
    pub closed spec fn pending(&self) -> Seq<AtlasOp> {
        self.ops@
    }

    /// Whether the atlas holds an image under `k`.
    pub closed spec fn has(&self, k: GlyphKey) -> bool {
        exists|i: int| 0 <= i < self.entries.len() && #[trigger] self.entries@[i].key == k
    }

    closed spec fn index_of(&self, k: GlyphKey) -> int {
        choose|i: int| 0 <= i < self.entries.len() && #[trigger] self.entries@[i].key == k
    }

    closed spec fn entry_allocation(&self, e: Entry) -> Allocation {
        Allocation { id: e.id, rectangle: packer_regions(self.allocator)[e.id] }
    }

    /// The allocation of each key.
    pub closed spec fn allocations(&self) -> Map<GlyphKey, Allocation> {
        Map::new(
            |k: GlyphKey| self.has(k),
            |k: GlyphKey| self.entry_allocation(self.entries@[self.index_of(k)]),
        )
    }

    /// The image stored under each key.
    pub closed spec fn images(&self) -> Map<GlyphKey, StoredImage> {
        Map::new(
            |k: GlyphKey| self.has(k),
            |k: GlyphKey|
                {
                    let e = self.entries@[self.index_of(k)];
                    (e.width, e.height, e.pixels@)
                },
        )
    }

    closed spec fn entry_ok(&self, e: Entry) -> bool {
        let regions = packer_regions(self.allocator);
        &&& regions.contains_key(e.id)
        &&& regions[e.id].within(self.width as int, self.height as int)
        &&& 0 < e.width <= regions[e.id].width_spec()
        &&& 0 < e.height <= regions[e.id].height_spec()
        &&& e.pixels@.len() == e.width * e.height * self.bpp()
        &&& shows(
            self.texels@,
            self.bpp(),
            regions[e.id],
            e.width as int,
            e.height as int,
            e.pixels@,
        )
    }

    /// The atlas's invariant: every key has a live box of its own inside the
    /// texture, no two boxes overlap, and the texture shows each key's image
    /// at the corner of its box.
    pub closed spec fn wf(&self) -> bool {
        &&& 0 < self.width <= MAX_SIZE
        &&& 0 < self.height <= MAX_SIZE
        &&& packer_extent(self.allocator) == (self.width as int, self.height as int)
        &&& pairwise_disjoint(packer_regions(self.allocator))
        &&& forall|i: int| 0 <= i < self.entries.len() ==> self.entry_ok(#[trigger] self.entries@[i])
        &&& forall|i: int, j: int|
            0 <= i < self.entries.len() && 0 <= j < self.entries.len() && i != j ==> (
            #[trigger] self.entries@[i]).key != (#[trigger] self.entries@[j]).key
                && self.entries@[i].id != self.entries@[j].id
        &&& forall|j: u32|
            #[trigger] packer_regions(self.allocator).contains_key(j) ==> owned_id(self.entries@, j)
        &&& self.entries.len() <= MAX_ALLOCATIONS
        &&& 0 <= self.fill@ <= self.height
        &&& below_all(packer_regions(self.allocator), self.fill@)
    }

    /// A row that every box ends at or above: the rows below it are free.
    pub closed spec fn fill_spec(&self) -> int {
        self.fill@
    }

    /// The number of keys stored.
    pub closed spec fn key_count(&self) -> nat {
        self.entries@.len()
    }

    /// The fill line lies within the texture.
    pub proof fn lemma_fill_within(&self)
        requires
            self.wf(),
        ensures
            0 <= self.fill_spec() <= self.size_spec().1,
            self.key_count() <= MAX_ALLOCATIONS,
    {
    }

    /// The packer holds no more live allocations than there are entries.
    proof fn lemma_regions_bound(&self)
        requires
            self.wf(),
        ensures
            packer_regions(self.allocator).dom().finite(),
            packer_regions(self.allocator).len() <= self.entries.len(),
    {
        let ids = self.entries@.map_values(|e: Entry| e.id);
        assert forall|j: u32| #[trigger] packer_regions(self.allocator).contains_key(j) implies id_listed(
            ids,
            self.entries.len() as int,
            j,
        ) by {
            assert(owned_id(self.entries@, j));
            let i = choose|i: int| 0 <= i < self.entries.len() && #[trigger] self.entries@[i].id == j;
            assert(ids[i] == j);
        }
        lemma_ids_bound(packer_regions(self.allocator), ids, self.entries.len() as int);
    }

    /// An atlas with no key has no entry.
    proof fn lemma_no_entries(&self)
        requires
            self.wf(),
            self.allocations().is_empty(),
        ensures
            self.entries.len() == 0,
    {
        if self.entries.len() > 0 {
            self.lemma_index_of(0);
            assert(self.allocations().contains_key(self.entries@[0].key));
        }
    }

    /// An atlas with no key has no live allocation in its packer.
    proof fn lemma_empty_packer(&self)
        requires
            self.wf(),
            self.allocations().is_empty(),
        ensures
            packer_regions(self.allocator).is_empty(),
    {
        if self.entries.len() > 0 {
            self.lemma_index_of(0);
            assert(self.allocations().contains_key(self.entries@[0].key));
        }
        assert forall|j: u32| !packer_regions(self.allocator).contains_key(j) by {
            if packer_regions(self.allocator).contains_key(j) {
                assert(owned_id(self.entries@, j));
            }
        }
        assert(packer_regions(self.allocator) =~= Map::empty());
    }

    proof fn lemma_index_of(&self, i: int)
        requires
            self.wf(),
            0 <= i < self.entries.len(),
        ensures
            self.has(self.entries@[i].key),
            self.index_of(self.entries@[i].key) == i,
    {
        let k = self.entries@[i].key;
        assert(self.entries@[i].key == k);
        let j = self.index_of(k);
        assert(0 <= j < self.entries.len() && self.entries@[j].key == k);
    }

    /// The sizes and copies of a migration of every entry, in order, into
    /// the packer `a` of size `width` by `height`.
    closed spec fn migrated(
        &self,
        a: etagere::AtlasAllocator,
        ids: Seq<u32>,
        copies: Seq<RegionCopy>,
        n: int,
        width: int,
        height: int,
    ) -> bool {
        let old_regions = packer_regions(self.allocator);
        let regions = packer_regions(a);
        &&& packer_extent(a) == (width, height)
        &&& pairwise_disjoint(regions)
        &&& ids.len() == n
        &&& copies.len() == n
        &&& forall|k: int|
            #![trigger ids[k]]
            0 <= k < n ==> {
                let o = old_regions[self.entries@[k].id];
                let r = regions[ids[k]];
                let c = copies[k];
                &&& regions.contains_key(ids[k])
                &&& r.within(width, height)
                &&& r.width_spec() >= o.width_spec()
                &&& r.height_spec() >= o.height_spec()
                &&& c.src_x == o.min_x
                &&& c.src_y == o.min_y
                &&& c.dst_x == r.min_x
                &&& c.dst_y == r.min_y
                &&& c.width == o.width_spec()
                &&& c.height == o.height_spec()
            }
        &&& forall|k: int, m: int|
            0 <= k < n && 0 <= m < n && k != m ==> #[trigger] ids[k] != #[trigger] ids[m]
        &&& forall|j: u32| #[trigger] regions.contains_key(j) ==> id_listed(ids, n, j)
    }

    /// Places every entry, in order, into a new packer of the given size.
    /// Fails as soon as one entry finds no room.
    fn migrate(&self, width: u32, height: u32) -> (r: Option<
        (etagere::AtlasAllocator, Vec<u32>, Vec<RegionCopy>, Ghost<int>),
    >)
        requires
            self.wf(),
            0 < width <= MAX_SIZE,
            0 < height <= MAX_SIZE,
        ensures
            match r {
                Some((a, ids, copies, fill)) => self.migrated(
                    a,
                    ids@,
                    copies@,
                    self.entries.len() as int,
                    width as int,
                    height as int,
                ) && 0 <= fill@ <= height && below_all(packer_regions(a), fill@),
                None => self.entries.len() > 0,
            },
    {
        assert((width as int) * (height as int) <= (MAX_SIZE as int) * (MAX_SIZE as int))
            by (nonlinear_arith)
            requires
                0 < width <= MAX_SIZE,
                0 < height <= MAX_SIZE,
        ;
        let ghost mut fill: int = 0;
        let mut a = packer_new(width as i32, height as i32);
        let mut ids: Vec<u32> = Vec::new();
        let mut copies: Vec<RegionCopy> = Vec::new();
        let mut i: usize = 0;
        while i < self.entries.len()
            invariant
                self.wf(),
                0 < width <= MAX_SIZE,
                0 < height <= MAX_SIZE,
                0 <= i <= self.entries.len(),
                self.migrated(a, ids@, copies@, i as int, width as int, height as int),
                0 <= fill <= height,
                below_all(packer_regions(a), fill),
            decreases self.entries.len() - i,
        {
            let e = self.entries[i];
            assert(self.entry_ok(self.entries@[i as int]));
            let o = packer_get(&self.allocator, e.id);
            let w = o.max_x - o.min_x;
            let h = o.max_y - o.min_y;
            let ghost before = a;
            let ghost ids0 = ids@;
            proof {
                lemma_ids_bound(packer_regions(a), ids@, i as int);
            }
            match packer_allocate(&mut a, w, h) {
                None => {
                    return None;
                },
                Some(al) => {
                    proof {
                        lemma_insert_disjoint(packer_regions(before), al.id, al.rectangle);
                    }
                    proof {
                        let f2 = if al.rectangle.max_y > fill { al.rectangle.max_y as int } else { fill };
                        assert forall|id: u32| #[trigger] packer_regions(a).contains_key(id) implies packer_regions(a)[id].max_y <= f2 by {
                            if id != al.id {
                                assert(packer_regions(before).contains_key(id));
                            }
                        }
                        fill = f2;
                    }
                    ids.push(al.id);
                    copies.push(
                        RegionCopy {
                            src_x: o.min_x as u32,
                            src_y: o.min_y as u32,
                            dst_x: al.rectangle.min_x as u32,
                            dst_y: al.rectangle.min_y as u32,
                            width: w as u32,
                            height: h as u32,
                        },
                    );
                    proof {
                        assert forall|k: int| 0 <= k < i implies packer_regions(a)[ids@[k]]
                            == packer_regions(before)[ids@[k]] && packer_regions(a).contains_key(
                            ids@[k],
                        ) by {
                            assert(packer_regions(before).contains_key(ids@[k]));
                            assert(ids@[k] != al.id);
                        }
                        assert forall|j: u32| #[trigger] packer_regions(a).contains_key(j) implies id_listed(ids@, i + 1, j) by {
                            if j == al.id {
                                assert(ids@[i as int] == j);
                            } else {
                                assert(packer_regions(before).contains_key(j));
                                assert(id_listed(ids0, i as int, j));
                                let k = choose|k: int| 0 <= k < i && #[trigger] ids0[k] == j;
                                assert(ids@[k] == j);
                            }
                        }
                        assert forall|k: int, m: int|
                            0 <= k < i + 1 && 0 <= m < i + 1 && k != m implies #[trigger] ids@[k]
                            != #[trigger] ids@[m] by {
                            if k == i {
                                assert(packer_regions(before).contains_key(ids@[m]));
                            } else if m == i {
                                assert(packer_regions(before).contains_key(ids@[k]));
                            }
                        }
                    }
                },
            }
            i += 1;
        }
        Some((a, ids, copies, Ghost(fill)))
    }

    /// Doubles the texture until every entry fits in a new packer, moving
    /// each entry's pixels to its new box. Gives up, changing nothing, when
    /// the next size would pass [`MAX_SIZE`].
    fn grow(&mut self) -> (grew: bool)
        requires
            old(self).wf(),
        ensures
            final(self).wf(),
            final(self).format_spec() == old(self).format_spec(),
            final(self).images() == old(self).images(),
            grew ==> final(self).size_spec().0 > old(self).size_spec().0,
            grew ==> final(self).pending().len() == old(self).pending().len() + 1
                && final(self).pending().subrange(0, old(self).pending().len() as int)
                == old(self).pending() && final(self).texels() == apply_op(
                old(self).texels(),
                old(self).bpp(),
                final(self).pending().last(),
            ),
            !grew ==> *final(self) == *old(self),
            grew ==> final(self).pending().last() is Grow,
            final(self).key_count() == old(self).key_count(),
            grew ==> exists|k: nat|
                k >= 1 && final(self).size_spec() == (
                    old(self).size_spec().0 * pow2(k),
                    old(self).size_spec().1 * pow2(k),
                ),
            old(self).allocations().is_empty() && 2 * old(self).size_spec().0 <= MAX_SIZE && 2
                * old(self).size_spec().1 <= MAX_SIZE ==> grew,
    {
        let mut w = self.width;
        let mut h = self.height;
        let ghost mut k: nat = 0;
        proof {
            assert(pow2(0) == 1);
            if self.allocations().is_empty() {
                self.lemma_no_entries();
            }
        }
        loop
            invariant
                self.wf(),
                *self == *old(self),
                self.width <= w <= MAX_SIZE,
                self.height <= h <= MAX_SIZE,
                w == self.width * pow2(k),
                h == self.height * pow2(k),
                old(self).allocations().is_empty() ==> self.entries.len() == 0,
                old(self).allocations().is_empty() && 2 * old(self).size_spec().0 <= MAX_SIZE && 2
                    * old(self).size_spec().1 <= MAX_SIZE ==> k == 0,
            decreases MAX_SIZE - w,
        {
            proof {
                assert(pow2(0) == 1);
                if old(self).allocations().is_empty() && 2 * old(self).size_spec().0 <= MAX_SIZE
                    && 2 * old(self).size_spec().1 <= MAX_SIZE {
                    assert(k == 0);
                    assert(w == self.width * 1);
                    assert(h == self.height * 1);
                }
            }
            if w > MAX_SIZE / 2 || h > MAX_SIZE / 2 {
                return false;
            }
            w = w * 2;
            h = h * 2;
            proof {
                let p = pow2(k);
                assert(pow2(k + 1) == 2 * p);
                assert(self.width * p * 2 == self.width * (2 * p)) by (nonlinear_arith);
                assert(self.height * p * 2 == self.height * (2 * p)) by (nonlinear_arith);
                k = k + 1;
            }
            match self.migrate(w, h) {
                None => {},
                Some((a, ids, copies, fill)) => {
                    self.commit(a, ids, copies, fill, w, h);
                    return true;
                },
            }
        }
    }

    /// Switches to the packer and boxes that [`Atlas::migrate`] made.
    fn commit(
        &mut self,
        a: etagere::AtlasAllocator,
        ids: Vec<u32>,
        copies: Vec<RegionCopy>,
        fill: Ghost<int>,
        width: u32,
        height: u32,
    )
        requires
            old(self).wf(),
            0 <= fill@ <= height,
            below_all(packer_regions(a), fill@),
            old(self).width < width <= MAX_SIZE,
            0 < height <= MAX_SIZE,
            old(self).migrated(
                a,
                ids@,
                copies@,
                old(self).entries.len() as int,
                width as int,
                height as int,
            ),
        ensures
            final(self).wf(),
            final(self).format_spec() == old(self).format_spec(),
            final(self).images() == old(self).images(),
            final(self).size_spec() == (width as int, height as int),
            final(self).key_count() == old(self).key_count(),
            final(self).pending() == old(self).pending().push(
                AtlasOp::Grow { width, height, copies },
            ),
            final(self).texels() == apply_op(
                old(self).texels(),
                old(self).bpp(),
                AtlasOp::Grow { width, height, copies },
            ),
    {
        let ghost old_self = *self;
        let ghost new_texels: Texels = |px: int, py: int|
            copied_pixel(self.texels@, self.bpp(), copies@, px, py);
        let mut entries: Vec<Entry> = Vec::new();
        let mut i: usize = 0;
        while i < self.entries.len()
            invariant
                *self == old_self,
                old_self.wf(),
                old_self.migrated(
                    a,
                    ids@,
                    copies@,
                    old_self.entries.len() as int,
                    width as int,
                    height as int,
                ),
                0 <= i <= self.entries.len(),
                entries.len() == i,
                forall|k: int|
                    0 <= k < i ==> #[trigger] entries@[k] == (Entry {
                        id: ids@[k],
                        ..self.entries@[k]
                    }),
            decreases self.entries.len() - i,
        {
            let e = self.entries[i];
            entries.push(Entry { id: ids[i], ..e });
            i += 1;
        }
        let ghost bpp = self.bpp();
        let ghost t = self.texels@;
        let ghost regions = packer_regions(a);
        let ghost old_regions = packer_regions(self.allocator);
        assert forall|k: int| 0 <= k < entries.len() implies {
            let e = #[trigger] entries@[k];
            &&& regions.contains_key(e.id)
            &&& regions[e.id].within(width as int, height as int)
            &&& 0 < e.width <= regions[e.id].width_spec()
            &&& 0 < e.height <= regions[e.id].height_spec()
            &&& e.pixels@.len() == e.width * e.height * bpp
            &&& shows(new_texels, bpp, regions[e.id], e.width as int, e.height as int, e.pixels@)
        } by {
            let e = entries@[k];
            let oe = old_self.entries@[k];
            assert(old_self.entry_ok(oe));
            assert(ids@[k] == e.id);
            let o = old_regions[oe.id];
            let r = regions[e.id];
            assert forall|i: int, j: int| 0 <= i < e.width && 0 <= j < e.height implies new_texels(
                r.min_x + i,
                r.min_y + j,
            ) == #[trigger] image_pixel(e.pixels@, e.width as int, bpp as int, i, j) by {
                let px = r.min_x + i;
                let py = r.min_y + j;
                assert forall|m: int| 0 <= m < copies@.len() && m != k implies !in_box(
                    #[trigger] copies@[m].dst_x as int,
                    copies@[m].dst_y as int,
                    copies@[m].width as int,
                    copies@[m].height as int,
                    px,
                    py,
                ) by {
                    assert(ids@[m] != ids@[k]);
                    assert(regions.contains_key(ids@[m]));
                    assert(disjoint(regions[ids@[m]], regions[ids@[k]]));
                    let om = old_regions[old_self.entries@[m].id];
                    assert(copies@[m].width == om.width_spec());
                }
                lemma_copied_pixel(t, bpp, copies@, k, px, py);
                assert(t(o.min_x + i, o.min_y + j) == image_pixel(
                    oe.pixels@,
                    oe.width as int,
                    bpp as int,
                    i,
                    j,
                ));
            }
        }
        let op = AtlasOp::Grow { width, height, copies };
        self.allocator = a;
        self.entries = entries;
        self.width = width;
        self.height = height;
        self.ops.push(op);
        self.texels = Ghost(new_texels);
        self.fill = fill;
        proof {
            assert(self.texels@ == apply_op(t, bpp, op));
            assert forall|i: int| 0 <= i < self.entries.len() implies self.entry_ok(
                #[trigger] self.entries@[i],
            ) by {
                assert(entries@[i] == self.entries@[i]);
            }
            assert forall|i: int, j: int|
                0 <= i < self.entries.len() && 0 <= j < self.entries.len() && i != j implies (
                #[trigger] self.entries@[i]).key != (#[trigger] self.entries@[j]).key
                && self.entries@[i].id != self.entries@[j].id by {
                assert(old_self.entries@[i].key != old_self.entries@[j].key);
                assert(ids@[i] != ids@[j]);
            }
            assert forall|j: u32| #[trigger] packer_regions(self.allocator).contains_key(j) implies owned_id(self.entries@, j) by {
                assert(id_listed(ids@, old_self.entries.len() as int, j));
                let k = choose|k: int| 0 <= k < old_self.entries.len() && #[trigger] ids@[k] == j;
                assert(self.entries@[k].id == j);
            }
            assert forall|k: GlyphKey| self.has(k) == old_self.has(k) by {
                if self.has(k) {
                    let i = choose|i: int| 0 <= i < self.entries.len() && #[trigger] self.entries@[i].key == k;
                    assert(old_self.entries@[i].key == k);
                }
                if old_self.has(k) {
                    let i = choose|i: int| 0 <= i < old_self.entries.len() && #[trigger] old_self.entries@[i].key == k;
                    assert(self.entries@[i].key == k);
                }
            }
            assert forall|k: GlyphKey| #[trigger] self.images().contains_key(k) implies self.images()[k] == old_self.images()[k] by {
                let i = self.index_of(k);
                old_self.lemma_index_of(i);
                assert(self.entries@[i].key == k);
            }
            assert(self.images() =~= old_self.images());
        }
    }

    /// A new atlas of [`INITIAL_SIZE`] on each side.
    pub fn new(format: PixelFormat) -> (a: Atlas)
        ensures
            a.wf(),
            a.format_spec() == format,
            a.size_spec() == (INITIAL_SIZE as int, INITIAL_SIZE as int),
            a.allocations().is_empty(),
            a.images().is_empty(),
            a.key_count() == 0,
            a.fill_spec() == 0,
            a.pending().len() == 1,
            a.pending()[0] matches AtlasOp::Grow { width: w, height: h, copies }
                && w == INITIAL_SIZE && h == INITIAL_SIZE && copies@.len() == 0,
    {
        Self::new_with_initial_size(format, INITIAL_SIZE, INITIAL_SIZE)
    }

    /// A new, empty atlas of the given size. Its first operation creates
    /// the zeroed texture.
    pub fn new_with_initial_size(format: PixelFormat, width: u32, height: u32) -> (a: Atlas)
        requires
            0 < width <= MAX_SIZE,
            0 < height <= MAX_SIZE,
        ensures
            a.wf(),
            a.format_spec() == format,
            a.size_spec() == (width as int, height as int),
            a.allocations().is_empty(),
            a.images().is_empty(),
            a.key_count() == 0,
            a.fill_spec() == 0,
            a.pending().len() == 1,
            a.pending()[0] matches AtlasOp::Grow { width: w, height: h, copies }
                && w == width && h == height && copies@.len() == 0,
            forall|px: int, py: int| #[trigger] a.texels()(px, py) == zero_pixel(format.bytes_spec()),
    {
        assert((width as int) * (height as int) <= (MAX_SIZE as int) * (MAX_SIZE as int))
            by (nonlinear_arith)
            requires
                0 < width <= MAX_SIZE,
                0 < height <= MAX_SIZE,
        ;
        let copies: Vec<RegionCopy> = Vec::new();
        let ghost t: Texels = |px: int, py: int| zero_pixel(format.bytes_spec());
        let mut ops: Vec<AtlasOp> = Vec::new();
        let op = AtlasOp::Grow { width, height, copies };
        ops.push(op);
        let a = Atlas {
            format,
            width,
            height,
            allocator: packer_new(width as i32, height as i32),
            entries: Vec::new(),
            ops,
            texels: Ghost(apply_op(t, format.bytes_spec(), op)),
            fill: Ghost(0),
        };
        assert(a.allocations() =~= Map::empty());
        assert(a.images() =~= Map::empty());
        a
    }

    pub fn format(&self) -> (f: PixelFormat)
        ensures
            f == self.format_spec(),
    {
        self.format
    }

    /// The texture's width and height.
    pub fn size(&self) -> (r: (u32, u32))
        ensures
            r.0 as int == self.size_spec().0,
            r.1 as int == self.size_spec().1,
    {
        (self.width, self.height)
    }

    /// Hands out the pending operations, oldest first, and forgets them.
    pub fn take_ops(&mut self) -> (ops: Vec<AtlasOp>)
        requires
            old(self).wf(),
        ensures
            final(self).wf(),
            ops@ == old(self).pending(),
            final(self).pending().len() == 0,
            final(self).texels() == old(self).texels(),
            final(self).allocations() == old(self).allocations(),
            final(self).images() == old(self).images(),
            final(self).format_spec() == old(self).format_spec(),
            final(self).size_spec() == old(self).size_spec(),
    {
        let mut ops: Vec<AtlasOp> = Vec::new();
        std::mem::swap(&mut ops, &mut self.ops);
        ops
    }

    fn find(&self, key: GlyphKey) -> (r: Option<usize>)
        ensures
            match r {
                Some(i) => i < self.entries.len() && self.entries@[i as int].key == key,
                None => !self.has(key),
            },
    {
        let mut i: usize = 0;
        while i < self.entries.len()
            invariant
                0 <= i <= self.entries.len(),
                forall|k: int| 0 <= k < i ==> #[trigger] self.entries@[k].key != key,
            decreases self.entries.len() - i,
        {
            if self.entries[i].key == key {
                return Some(i);
            }
            i += 1;
        }
        None
    }

    /// The allocation of `key`, if it has one.
    pub fn get(&self, key: GlyphKey) -> (r: Option<Allocation>)
        requires
            self.wf(),
        ensures
            r == (if self.allocations().contains_key(key) {
                Some(self.allocations()[key])
            } else {
                None
            }),
    {
        match self.find(key) {
            None => None,
            Some(i) => {
                proof {
                    self.lemma_index_of(i as int);
                    assert(self.entry_ok(self.entries@[i as int]));
                }
                let id = self.entries[i].id;
                Some(Allocation { id, rectangle: packer_get(&self.allocator, id) })
            },
        }
    }

    /// Stores an image of `width` by `height` pixels under `key` and uploads
    /// it, growing the texture as long as it finds no room and may still
    /// grow.
    ///
    /// A key that is already stored keeps its allocation, which is returned,
    /// and nothing is uploaded. `None` means that the image is empty, or
    /// found no room even in the largest texture; nothing is stored then.
    pub fn add(&mut self, key: GlyphKey, pixels: Vec<u8>, width: u32, height: u32) -> (r: Option<
        Allocation,
    >)
        requires
            old(self).wf(),
            pixels@.len() == width * height * old(self).bpp(),
            width <= MAX_SIZE,
            height <= MAX_SIZE,
        ensures
            final(self).wf(),
            final(self).format_spec() == old(self).format_spec(),
            final(self).size_spec().0 >= old(self).size_spec().0,
            old(self).pending().len() <= final(self).pending().len(),
            final(self).pending().subrange(0, old(self).pending().len() as int)
                == old(self).pending(),
            final(self).texels() == apply_ops(
                old(self).texels(),
                old(self).bpp(),
                final(self).pending().subrange(
                    old(self).pending().len() as int,
                    final(self).pending().len() as int,
                ),
            ),
            old(self).allocations().contains_key(key) ==> r == Some(old(self).allocations()[key])
                && *final(self) == *old(self),
            !old(self).allocations().contains_key(key) ==> match r {
                Some(a) => {
                    &&& final(self).allocations().contains_key(key)
                    &&& final(self).allocations()[key] == a
                    &&& a.rectangle.width_spec() >= width
                    &&& a.rectangle.height_spec() >= height
                    &&& final(self).images() == old(self).images().insert(
                        key,
                        (width, height, pixels@),
                    )
                },
                None => final(self).images() == old(self).images(),
            },
            !old(self).allocations().contains_key(key) && (width == 0 || height == 0) ==> r.is_none(),
            !old(self).allocations().contains_key(key) ==> {
                &&& forall|i: int|
                    old(self).pending().len() <= i < final(self).pending().len() ==> (
                    #[trigger] final(self).pending()[i] is Grow || (r is Some && i
                        == final(self).pending().len() - 1))
                &&& (r matches Some(a) ==> (final(self).pending().last() matches AtlasOp::Upload {
                    x,
                    y,
                    width: w,
                    height: h,
                    data,
                } && x == a.rectangle.min_x && y == a.rectangle.min_y && w == width && h == height
                    && data@ == pixels@))
                &&& exists|j: nat|
                    final(self).size_spec() == (
                        old(self).size_spec().0 * pow2(j),
                        old(self).size_spec().1 * pow2(j),
                    )
                &&& (final(self).size_spec() == old(self).size_spec() ==> keeps_boxes_of(
                    *old(self),
                    *final(self),
                ))
                &&& (fits_empty(*old(self), width, height) ==> r is Some)
                &&& (fits_below(*old(self), width, height) ==> (r matches Some(a) && a.rectangle.max_y
                    <= old(self).fill_spec() + height + 72))
                &&& (fits_below(*old(self), width, height)
                    ==> final(self).size_spec() == old(self).size_spec())
                &&& (final(self).size_spec() == old(self).size_spec() ==> final(self).pending().len()
                    <= old(self).pending().len() + 1)
                &&& (r is Some ==> final(self).key_count() == old(self).key_count() + 1)
                &&& (r is Some && final(self).size_spec() == old(self).size_spec()
                    ==> final(self).fill_spec() <= old(self).fill_spec() + height + 72)
                &&& (r is None ==> final(self).key_count() == old(self).key_count())
                &&& (r is None ==> !fits_below(*final(self), width, height))
                &&& (r is None && width > 0 && height > 0 ==> (2
                    * final(self).size_spec().0 > MAX_SIZE || 2 * final(self).size_spec().1
                    > MAX_SIZE || final(self).key_count() > 0))
            },
            forall|k: GlyphKey|
                #[trigger] old(self).images().contains_key(k) ==> shows(
                    final(self).texels(),
                    final(self).bpp(),
                    final(self).allocations()[k].rectangle,
                    old(self).images()[k].0 as int,
                    old(self).images()[k].1 as int,
                    old(self).images()[k].2,
                ),
    {
        let ghost start = *old(self);
        let ghost n0 = self.ops.len() as int;
        proof {
            assert(self.pending().subrange(n0, n0) =~= Seq::<AtlasOp>::empty());
            assert(self.pending().subrange(0, n0) =~= self.pending());
        }
        if let Some(i) = self.find(key) {
            proof {
                self.lemma_index_of(i as int);
            }
            return self.get(key);
        }
        if width == 0 || height == 0 {
            proof {
                self.lemma_keep_showing(start);
                assert(pow2(0) == 1);
                assert(self.size_spec().0 == self.size_spec().0 * pow2(0));
                assert(self.size_spec().1 == self.size_spec().1 * pow2(0));
            }
            return None;
        }
        if self.entries.len() >= MAX_ALLOCATIONS {
            proof {
                self.lemma_index_of(0);
                assert(self.allocations().contains_key(self.entries@[0].key));
                self.lemma_keep_showing(start);
                assert(pow2(0) == 1);
                assert(self.size_spec().0 == self.size_spec().0 * pow2(0));
                assert(self.size_spec().1 == self.size_spec().1 * pow2(0));
            }
            return None;
        }
        let ghost mut j: nat = 0;
        proof {
            assert(pow2(0) == 1);
        }
        loop
            invariant
                self.wf(),
                start == *old(self),
                start.wf(),
                !self.has(key),
                !start.has(key),
                0 < width <= MAX_SIZE,
                0 < height <= MAX_SIZE,
                pixels@.len() == width * height * start.bpp(),
                self.format_spec() == start.format_spec(),
                self.images() == start.images(),
                self.size_spec().0 >= start.size_spec().0,
                n0 == start.pending().len(),
                n0 <= self.pending().len(),
                self.pending().subrange(0, n0) == start.pending(),
                self.texels() == apply_ops(
                    start.texels(),
                    start.bpp(),
                    self.pending().subrange(n0, self.pending().len() as int),
                ),
                forall|i: int| n0 <= i < self.pending().len() ==> #[trigger] self.pending()[i] is Grow,
                self.width == start.width * pow2(j),
                self.height == start.height * pow2(j),
                self.size_spec() == start.size_spec() ==> self.entries@ == start.entries@
                    && packer_regions(self.allocator) == packer_regions(start.allocator),
                self.size_spec() != start.size_spec() ==> !fits_empty(start, width, height),
                self.size_spec() != start.size_spec() ==> !fits_below(start, width, height),
                self.size_spec() == start.size_spec() ==> self.pending() == start.pending()
                    && self.fill@ == start.fill@,
                self.entries.len() == start.entries.len(),
                start.entries.len() < MAX_ALLOCATIONS,
            decreases MAX_SIZE - self.width,
        {
            let ghost before = *self;
            proof {
                self.lemma_regions_bound();
                if self.size_spec() == start.size_spec() {
                    assert(below_all(packer_regions(self.allocator), start.fill@));
                }
                if self.size_spec() == start.size_spec() && fits_empty(start, width, height) {
                    start.lemma_empty_packer();
                }
            }
            match packer_allocate(&mut self.allocator, width as i32, height as i32) {
                Some(al) => {
                    proof {
                        lemma_insert_disjoint(
                            packer_regions(before.allocator),
                            al.id,
                            al.rectangle,
                        );
                    }
                    let op = AtlasOp::Upload {
                        x: al.rectangle.min_x as u32,
                        y: al.rectangle.min_y as u32,
                        width,
                        height,
                        data: pixels,
                    };
                    let ghost data = pixels@;
                    let entry = Entry { key, id: al.id, width, height, pixels: Ghost(data) };
                    self.entries.push(entry);
                    self.ops.push(op);
                    self.texels = Ghost(apply_op(before.texels@, before.bpp(), op));
                    self.fill = Ghost(
                        if al.rectangle.max_y > before.fill@ {
                            al.rectangle.max_y as int
                        } else {
                            before.fill@
                        },
                    );
                    proof {
                        self.lemma_after_upload(before, entry, al);
                        lemma_apply_last(start.texels(), start.bpp(), self.pending(), n0);
                        assert(self.pending().subrange(n0, self.pending().len() - 1)
                            =~= before.pending().subrange(n0, before.pending().len() as int));
                        assert(self.pending().subrange(0, n0) =~= before.pending().subrange(
                            0,
                            n0,
                        ));
                        self.lemma_keep_showing(start);
                        assert(self.pending()[self.pending().len() - 1] == op);
                        assert forall|i: int|
                            n0 <= i < self.pending().len() implies (#[trigger] self.pending()[i] is Grow
                                || i == self.pending().len() - 1) by {
                            if i < self.pending().len() - 1 {
                                assert(self.pending()[i] == before.pending()[i]);
                            }
                        }
                        if self.size_spec() == start.size_spec() {
                            assert(before.allocations() =~= start.allocations());
                        }
                    }
                    return Some(al);
                },
                None => {},
            }
            proof {
                if self.size_spec() == start.size_spec() {
                    assert(below_all(packer_regions(before.allocator), start.fill@));
                    assert(!fits_below(start, width, height));
                    assert(!fits_empty(start, width, height));
                    assert(self.allocations() =~= start.allocations());
                }
            }
            proof {
                assert(below_all(packer_regions(before.allocator), before.fill@));
                assert(!fits_below(before, width, height));
                assert(!fits_below(*self, width, height));
            }
            let ghost mid = *self;
            if !self.grow() {
                proof {
                    self.lemma_keep_showing(start);
                    if self.entries.len() == 0 {
                        assert(self.allocations() =~= Map::empty());
                    }
                }
                return None;
            }
            proof {
                let k = choose|k: nat|
                    k >= 1 && self.size_spec() == (mid.size_spec().0 * pow2(k), mid.size_spec().1
                        * pow2(k));
                lemma_pow2_add(j, k);
                assert(start.width * pow2(j) * pow2(k) == start.width * (pow2(j) * pow2(k)))
                    by (nonlinear_arith);
                assert(start.height * pow2(j) * pow2(k) == start.height * (pow2(j) * pow2(k)))
                    by (nonlinear_arith);
                j = j + k;
                assert forall|i: int| n0 <= i < self.pending().len() implies #[trigger] self.pending()[i] is Grow by {
                    if i < self.pending().len() - 1 {
                        assert(self.pending()[i] == mid.pending()[i]);
                    }
                }

                lemma_apply_last(start.texels(), start.bpp(), self.pending(), n0);
                assert(self.pending().subrange(n0, self.pending().len() - 1)
                    =~= before.pending().subrange(n0, before.pending().len() as int));
                assert(self.pending().subrange(0, n0) =~= before.pending().subrange(0, n0));
                assert(!self.has(key)) by {
                    if self.has(key) {
                        assert(self.images().contains_key(key));
                    }
                }
            }
        }
    }

    /// Forgets `key`, frees its box and zeroes it in the texture, so that
    /// nothing of the old image shows when the box is handed out again.
    /// A key that is not stored changes nothing.
    pub fn remove(&mut self, key: GlyphKey)
        requires
            old(self).wf(),
        ensures
            final(self).wf(),
            final(self).format_spec() == old(self).format_spec(),
            final(self).size_spec() == old(self).size_spec(),
            final(self).images() == old(self).images().remove(key),
            final(self).allocations() == old(self).allocations().remove(key),
            !old(self).allocations().contains_key(key) ==> *final(self) == *old(self),
            final(self).fill_spec() == old(self).fill_spec(),
            old(self).allocations().contains_key(key)
                ==> final(self).key_count() + 1 == old(self).key_count(),
            old(self).allocations().contains_key(key) ==> {
                let r = old(self).allocations()[key].rectangle;
                &&& final(self).pending() == old(self).pending().push(
                    AtlasOp::Clear {
                        x: r.min_x as u32,
                        y: r.min_y as u32,
                        width: r.width_spec() as u32,
                        height: r.height_spec() as u32,
                    },
                )
                &&& final(self).texels() == apply_op(
                    old(self).texels(),
                    old(self).bpp(),
                    final(self).pending().last(),
                )
                &&& forall|px: int, py: int|
                    r.holds(px, py) ==> #[trigger] final(self).texels()(px, py) == zero_pixel(
                        old(self).bpp(),
                    )
            },
    {
        let i = match self.find(key) {
            None => {
                proof {
                    assert(self.allocations().remove(key) =~= self.allocations());
                    assert(self.images().remove(key) =~= self.images());
                }
                return;
            },
            Some(i) => i,
        };
        let ghost before = *self;
        proof {
            self.lemma_index_of(i as int);
            assert(self.entry_ok(self.entries@[i as int]));
        }
        let id = self.entries[i].id;
        let r = packer_get(&self.allocator, id);
        packer_deallocate(&mut self.allocator, id);
        self.entries.remove(i);
        let op = AtlasOp::Clear {
            x: r.min_x as u32,
            y: r.min_y as u32,
            width: (r.max_x - r.min_x) as u32,
            height: (r.max_y - r.min_y) as u32,
        };
        self.ops.push(op);
        self.texels = Ghost(apply_op(before.texels@, before.bpp(), op));
        proof {
            self.lemma_after_clear(before, i as int, r);
        }
    }

    proof fn lemma_after_clear(&self, before: Atlas, i: int, r: Rectangle)
        requires
            before.wf(),
            self.fill@ == before.fill@,
            0 <= i < before.entries.len(),
            r == packer_regions(before.allocator)[before.entries@[i].id],
            packer_regions(self.allocator) == packer_regions(before.allocator).remove(
                before.entries@[i].id,
            ),
            packer_extent(self.allocator) == packer_extent(before.allocator),
            self.entries@ == before.entries@.remove(i),
            self.ops@ == before.ops@.push(
                AtlasOp::Clear {
                    x: r.min_x as u32,
                    y: r.min_y as u32,
                    width: (r.max_x - r.min_x) as u32,
                    height: (r.max_y - r.min_y) as u32,
                },
            ),
            self.texels@ == apply_op(before.texels@, before.bpp(), self.ops@.last()),
            self.format == before.format,
            self.width == before.width,
            self.height == before.height,
        ensures
            self.wf(),
            self.images() == before.images().remove(before.entries@[i].key),
            self.allocations() == before.allocations().remove(before.entries@[i].key),
            before.allocations()[before.entries@[i].key].rectangle == r,
            forall|px: int, py: int|
                r.holds(px, py) ==> #[trigger] self.texels()(px, py) == zero_pixel(before.bpp()),
    {
        let bpp = self.bpp();
        let key = before.entries@[i].key;
        let gone = before.entries@[i].id;
        let old_regions = packer_regions(before.allocator);
        let regions = packer_regions(self.allocator);
        before.lemma_index_of(i);
        assert(before.entry_ok(before.entries@[i]));
        lemma_remove_disjoint(old_regions, gone);
        assert forall|j: int| 0 <= j < self.entries.len() implies self.entry_ok(
            #[trigger] self.entries@[j],
        ) by {
            let oj = if j < i { j } else { j + 1 };
            assert(self.entries@[j] == before.entries@[oj]);
            let e = before.entries@[oj];
            assert(before.entry_ok(e));
            assert(e.id != gone);
            let b = old_regions[e.id];
            assert(disjoint(b, r));
            assert forall|a: int, c: int| 0 <= a < e.width && 0 <= c < e.height implies self.texels@(
                b.min_x + a,
                b.min_y + c,
            ) == #[trigger] image_pixel(e.pixels@, e.width as int, bpp as int, a, c) by {
                assert(before.texels@(b.min_x + a, b.min_y + c) == image_pixel(
                    e.pixels@,
                    e.width as int,
                    bpp as int,
                    a,
                    c,
                ));
            }
        }
        assert forall|j: int, k: int|
            0 <= j < self.entries.len() && 0 <= k < self.entries.len() && j != k implies (
            #[trigger] self.entries@[j]).key != (#[trigger] self.entries@[k]).key
            && self.entries@[j].id != self.entries@[k].id by {
            let oj = if j < i { j } else { j + 1 };
            let ok = if k < i { k } else { k + 1 };
            assert(self.entries@[j] == before.entries@[oj]);
            assert(self.entries@[k] == before.entries@[ok]);
        }
        assert forall|id: u32| #[trigger] regions.contains_key(id) implies regions[id].max_y <= self.fill@ by {
            assert(old_regions.contains_key(id));
        }
        assert forall|j: u32| #[trigger] regions.contains_key(j) implies owned_id(self.entries@, j) by {
            assert(old_regions.contains_key(j));
            assert(owned_id(before.entries@, j));
            let q = choose|q: int| 0 <= q < before.entries.len() && #[trigger] before.entries@[q].id == j;
            assert(q != i);
            let nq = if q < i { q } else { q - 1 };
            assert(self.entries@[nq].id == j);
        }
        assert(self.wf());
        assert forall|k: GlyphKey| self.has(k) == (before.has(k) && k != key) by {
            if self.has(k) {
                let j = choose|j: int| 0 <= j < self.entries.len() && #[trigger] self.entries@[j].key == k;
                let oj = if j < i { j } else { j + 1 };
                assert(before.entries@[oj].key == k);
            }
            if before.has(k) && k != key {
                let j = choose|j: int| 0 <= j < before.entries.len() && #[trigger] before.entries@[j].key == k;
                assert(j != i);
                let nj = if j < i { j } else { j - 1 };
                assert(self.entries@[nj].key == k);
            }
        }
        assert forall|k: GlyphKey| #[trigger] self.images().contains_key(k) implies self.images()[k]
            == before.images()[k] && self.allocations()[k] == before.allocations()[k] by {
            let j = self.index_of(k);
            self.lemma_index_of(j);
            let oj = if j < i { j } else { j + 1 };
            assert(self.entries@[j] == before.entries@[oj]);
            before.lemma_index_of(oj);
            assert(before.entry_ok(before.entries@[oj]));
        }
        assert(self.images() =~= before.images().remove(key));
        assert(self.allocations() =~= before.allocations().remove(key));
    }

    /// After an image was stored, the atlas holds it and keeps the others.
    proof fn lemma_after_upload(&self, before: Atlas, entry: Entry, al: Allocation)
        requires
            before.wf(),
            before.entries.len() < MAX_ALLOCATIONS,
            self.fill@ == if al.rectangle.max_y > before.fill@ {
                al.rectangle.max_y as int
            } else {
                before.fill@
            },
            !before.has(entry.key),
            !packer_regions(before.allocator).contains_key(al.id),
            packer_regions(self.allocator) == packer_regions(before.allocator).insert(
                al.id,
                al.rectangle,
            ),
            pairwise_disjoint(packer_regions(self.allocator)),
            packer_extent(self.allocator) == packer_extent(before.allocator),
            al.rectangle.within(before.width as int, before.height as int),
            al.rectangle.width_spec() >= entry.width,
            al.rectangle.height_spec() >= entry.height,
            forall|id: u32|
                #[trigger] packer_regions(before.allocator).contains_key(id) ==> disjoint(
                    packer_regions(before.allocator)[id],
                    al.rectangle,
                ),
            entry.id == al.id,
            0 < entry.width,
            0 < entry.height,
            entry.pixels@.len() == entry.width * entry.height * before.bpp(),
            self.entries@ == before.entries@.push(entry),
            self.ops@ == before.ops@.push(
                AtlasOp::Upload {
                    x: al.rectangle.min_x as u32,
                    y: al.rectangle.min_y as u32,
                    width: entry.width,
                    height: entry.height,
                    data: self.ops@.last()->Upload_data,
                },
            ),
            self.ops@.last()->Upload_data@ == entry.pixels@,
            self.texels@ == apply_op(before.texels@, before.bpp(), self.ops@.last()),
            self.format == before.format,
            self.width == before.width,
            self.height == before.height,
        ensures
            self.wf(),
            self.allocations().contains_key(entry.key),
            self.allocations()[entry.key] == al,
            self.images() == before.images().insert(
                entry.key,
                (entry.width, entry.height, entry.pixels@),
            ),
            self.format_spec() == before.format_spec(),
            self.size_spec() == before.size_spec(),
            self.pending() == before.pending().push(self.pending().last()),
            forall|k: GlyphKey|
                #[trigger] before.allocations().contains_key(k) ==> self.allocations().contains_key(k)
                    && self.allocations()[k] == before.allocations()[k],
    {
        let bpp = self.bpp();
        let regions = packer_regions(self.allocator);
        let n = before.entries.len() as int;
        assert forall|i: int| 0 <= i < self.entries.len() implies self.entry_ok(
            #[trigger] self.entries@[i],
        ) by {
            let e = self.entries@[i];
            if i < n {
                assert(before.entry_ok(before.entries@[i]));
                assert(e == before.entries@[i]);
                assert(e.id != al.id);
                let r = regions[e.id];
                assert(disjoint(r, al.rectangle));
                assert forall|a: int, b: int| 0 <= a < e.width && 0 <= b < e.height implies self.texels@(
                    r.min_x + a,
                    r.min_y + b,
                ) == #[trigger] image_pixel(e.pixels@, e.width as int, bpp as int, a, b) by {
                    assert(before.texels@(r.min_x + a, r.min_y + b) == image_pixel(
                        e.pixels@,
                        e.width as int,
                        bpp as int,
                        a,
                        b,
                    ));
                }
            } else {
                assert(e == entry);
                let r = al.rectangle;
                assert forall|a: int, b: int| 0 <= a < e.width && 0 <= b < e.height implies self.texels@(
                    r.min_x + a,
                    r.min_y + b,
                ) == #[trigger] image_pixel(e.pixels@, e.width as int, bpp as int, a, b) by {}
            }
        }
        assert forall|i: int, j: int|
            0 <= i < self.entries.len() && 0 <= j < self.entries.len() && i != j implies (
            #[trigger] self.entries@[i]).key != (#[trigger] self.entries@[j]).key
            && self.entries@[i].id != self.entries@[j].id by {
            if i < n && j < n {
                assert(self.entries@[i] == before.entries@[i]);
                assert(self.entries@[j] == before.entries@[j]);
            } else if i < n {
                assert(self.entries@[i] == before.entries@[i]);
                assert(before.entry_ok(before.entries@[i]));
                assert(before.entries@[i].key == self.entries@[i].key);
            } else {
                assert(self.entries@[j] == before.entries@[j]);
                assert(before.entry_ok(before.entries@[j]));
                assert(before.entries@[j].key == self.entries@[j].key);
            }
        }
        assert forall|id: u32| #[trigger] regions.contains_key(id) implies regions[id].max_y <= self.fill@ by {
            if id != al.id {
                assert(packer_regions(before.allocator).contains_key(id));
            }
        }
        assert forall|j: u32| #[trigger] regions.contains_key(j) implies owned_id(self.entries@, j) by {
            if j == al.id {
                assert(self.entries@[n].id == j);
            } else {
                assert(packer_regions(before.allocator).contains_key(j));
                assert(owned_id(before.entries@, j));
                let q = choose|q: int| 0 <= q < before.entries.len() && #[trigger] before.entries@[q].id == j;
                assert(self.entries@[q].id == j);
            }
        }
        assert(self.wf());
        self.lemma_index_of(n);
        assert forall|k: GlyphKey| self.has(k) == (before.has(k) || k == entry.key) by {
            if self.has(k) {
                let i = choose|i: int| 0 <= i < self.entries.len() && #[trigger] self.entries@[i].key == k;
                if i < n {
                    assert(before.entries@[i].key == k);
                }
            }
            if before.has(k) {
                let i = choose|i: int| 0 <= i < before.entries.len() && #[trigger] before.entries@[i].key == k;
                assert(self.entries@[i].key == k);
            }
        }
        assert forall|k: GlyphKey| #[trigger] before.images().contains_key(k) implies self.images()[k]
            == before.images()[k] by {
            let i = before.index_of(k);
            before.lemma_index_of(i);
            self.lemma_index_of(i);
            assert(self.entries@[i] == before.entries@[i]);
        }
        assert(self.images() =~= before.images().insert(
            entry.key,
            (entry.width, entry.height, entry.pixels@),
        ));
        assert forall|k: GlyphKey| #[trigger] before.allocations().contains_key(k) implies self.allocations().contains_key(k)
            && self.allocations()[k] == before.allocations()[k] by {
            let i = before.index_of(k);
            before.lemma_index_of(i);
            self.lemma_index_of(i);
            assert(before.entry_ok(before.entries@[i]));
            assert(self.entries@[i] == before.entries@[i]);
        }
        assert(self.pending() =~= before.pending().push(self.pending().last()));
    }

    /// Every image that `start` held and this atlas still holds under the
    /// same contents shows in its box.
    proof fn lemma_keep_showing(&self, start: Atlas)
        requires
            self.wf(),
            forall|k: GlyphKey|
                #[trigger] start.images().contains_key(k) ==> self.images().contains_key(k)
                    && self.images()[k] == start.images()[k],
        ensures
            forall|k: GlyphKey|
                #[trigger] start.images().contains_key(k) ==> shows(
                    self.texels(),
                    self.bpp(),
                    self.allocations()[k].rectangle,
                    start.images()[k].0 as int,
                    start.images()[k].1 as int,
                    start.images()[k].2,
                ),
    {
        assert forall|k: GlyphKey| #[trigger] start.images().contains_key(k) implies shows(
            self.texels(),
            self.bpp(),
            self.allocations()[k].rectangle,
            start.images()[k].0 as int,
            start.images()[k].1 as int,
            start.images()[k].2,
        ) by {
            self.lemma_pixels_read_back(k);
        }
    }

    /// Every box lies inside the texture.
    pub proof fn lemma_in_bounds(&self, k: GlyphKey)
        requires
            self.wf(),
            self.allocations().contains_key(k),
        ensures
            self.allocations()[k].rectangle.within(self.size_spec().0, self.size_spec().1),
            self.images().contains_key(k),
            self.images()[k].0 <= self.allocations()[k].rectangle.width_spec(),
            self.images()[k].1 <= self.allocations()[k].rectangle.height_spec(),
    {
        let i = self.index_of(k);
        assert(self.entry_ok(self.entries@[i]));
    }

    /// A key has an allocation exactly when it has an image.
    pub proof fn lemma_same_keys(&self)
        ensures
            forall|k: GlyphKey|
                #[trigger] self.allocations().contains_key(k) == self.images().contains_key(k),
    {
    }

    /// The texture shows each stored image in the box of its key.
    pub proof fn lemma_pixels_read_back(&self, k: GlyphKey)
        requires
            self.wf(),
            self.images().contains_key(k),
        ensures
            shows(
                self.texels(),
                self.bpp(),
                self.allocations()[k].rectangle,
                self.images()[k].0 as int,
                self.images()[k].1 as int,
                self.images()[k].2,
            ),
    {
        let i = self.index_of(k);
        assert(self.entry_ok(self.entries@[i]));
    }

    /// The boxes of two different keys do not overlap.
    pub proof fn lemma_boxes_disjoint(&self, k1: GlyphKey, k2: GlyphKey)
        requires
            self.wf(),
            self.allocations().contains_key(k1),
            self.allocations().contains_key(k2),
            k1 != k2,
        ensures
            disjoint(self.allocations()[k1].rectangle, self.allocations()[k2].rectangle),
            self.allocations()[k1].rectangle.within(self.size_spec().0, self.size_spec().1),
    {
        let i = self.index_of(k1);
        let j = self.index_of(k2);
        assert(self.entry_ok(self.entries@[i]));
        assert(self.entry_ok(self.entries@[j]));
        let regions = packer_regions(self.allocator);
        assert(self.entries@[i].id != self.entries@[j].id);
        assert(disjoint(regions[self.entries@[i].id], regions[self.entries@[j].id]));
    }
}

} // verus!
