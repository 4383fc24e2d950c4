//! The glyph cache: rasterized glyphs go into one of two atlases, coverage
//! masks or color bitmaps, and leave them once unused for
//! [`MAX_CACHE_AGE`] frames.
use crate::atlas::{Atlas, MAX_SIZE, PixelFormat, fits_below};
use crate::color::{Color, tint_spec, white_spec};
use crate::key::GlyphKey;
use crate::recency::{
    keys_unique,
    recency_drain_from,
    recency_entries,
    recency_get,
    recency_len,
    recency_new,
    recency_touch,
};
use vstd::prelude::*;

verus! {

/// Frames after its last use that a glyph stays cached.
pub const MAX_CACHE_AGE: usize = 100;

/// What a rasterized glyph holds.
#[derive(Clone, Copy, Debug, PartialEq, Eq, Structural)]
pub enum GlyphContent {
    /// One coverage byte per pixel.
    Mask,
    /// Per-channel coverage, of which the atlas keeps one byte per pixel.
    SubpixelMask,
    /// Four bytes of RGBA per pixel.
    Color,
}

impl GlyphContent {
    pub open spec fn is_mask_spec(self) -> bool {
        self != GlyphContent::Color
    }

    /// Bytes per pixel that the atlas stores for this content.
    pub open spec fn bytes_spec(self) -> nat {
        if self.is_mask_spec() {
            1
        } else {
            4
        }
    }
}

/// The bitmap of a rasterized glyph.
#[derive(Debug)]
pub struct GlyphImage {
    pub content: GlyphContent,
    pub width: u32,
    pub height: u32,
    /// Row-major pixels, `width * height` of them.
    pub data: Vec<u8>,
}

/// One shaped glyph together with its bitmap, if it has one.
#[derive(Debug)]
pub struct RasterGlyph {
    pub key: GlyphKey,
    pub image: Option<GlyphImage>,
    /// The color that the text's attributes give this glyph, if any.
    pub color: Option<Color>,
    /// Places the glyph's bitmap relative to the text's origin.
    pub transform: glam::Affine2,
}

/// A glyph to draw from one of the two atlases.
#[derive(Clone, Copy, Debug)]
pub struct TextSprite {
    pub key: GlyphKey,
    /// Whether it comes from the mask atlas rather than the color atlas.
    pub is_mask: bool,
    pub offset: glam::IVec2,
    pub size: glam::UVec2,
    pub transform: glam::Affine2,
    pub tint: Color,
}

/// The glyph has a bitmap and the bitmap is not empty.
pub open spec fn visible(g: RasterGlyph) -> bool {
    g.image matches Some(img) && img.width > 0 && img.height > 0
}

/// The bitmap of the glyph holds as many bytes as its size says, and is
/// no wider or taller than the largest atlas.
pub open spec fn glyph_sized(g: RasterGlyph) -> bool {
    g.image matches Some(img) ==> img.data@.len() == img.width * img.height
        * img.content.bytes_spec() && img.width <= MAX_SIZE && img.height <= MAX_SIZE
}

pub open spec fn visible_glyphs(gs: Seq<RasterGlyph>) -> Seq<RasterGlyph> {
    gs.filter(|g: RasterGlyph| visible(g))
}

/// The tint of a glyph: for a mask, the text's tint modulated by the
/// glyph's own color, if it has one; none for a color bitmap.
pub open spec fn glyph_tint(g: RasterGlyph, color: Color) -> Color {
    if g.image->Some_0.content.is_mask_spec() {
        match g.color {
            Some(c) => tint_spec(color, c),
            None => color,
        }
    } else {
        white_spec()
    }
}

/// `s` draws the visible glyph `g` from its box in the right atlas.
pub open spec fn sprite_for(s: TextSprite, g: RasterGlyph, color: Color, mask: Atlas, colors: Atlas) -> bool {
    let is_mask = g.image->Some_0.content.is_mask_spec();
    let atlas = if is_mask {
        mask
    } else {
        colors
    };
    let r = atlas.allocations()[g.key].rectangle;
    &&& atlas.allocations().contains_key(g.key)
    &&& s.key == g.key
    &&& s.is_mask == is_mask
    &&& s.offset.x == r.min_x
    &&& s.offset.y == r.min_y
    &&& s.size.x == r.width_spec()
    &&& s.size.y == r.height_spec()
    &&& s.transform == g.transform
    &&& s.tint == glyph_tint(g, color)
}

pub open spec fn has_key(s: Seq<(GlyphKey, usize)>, k: GlyphKey) -> bool {
    exists|i: int| 0 <= i < s.len() && #[trigger] s[i].0 == k
}

pub open spec fn use_of(s: Seq<(GlyphKey, usize)>, k: GlyphKey) -> usize {
    s[choose|i: int| 0 <= i < s.len() && #[trigger] s[i].0 == k].1
}

/// The frame of each key's last use.
pub open spec fn use_map(s: Seq<(GlyphKey, usize)>) -> Map<GlyphKey, usize> {
    Map::new(|k: GlyphKey| has_key(s, k), |k: GlyphKey| use_of(s, k))
}

/// Keys are unique, the most recent use comes first, and no use lies after
/// the frame `now`.
pub open spec fn recency_ok(s: Seq<(GlyphKey, usize)>, now: usize) -> bool {
    &&& keys_unique(s)
    &&& forall|i: int, j: int| 0 <= i <= j < s.len() ==> #[trigger] s[j].1 <= #[trigger] s[i].1
    &&& forall|i: int| 0 <= i < s.len() ==> #[trigger] s[i].1 <= now
}

proof fn lemma_use_at(s: Seq<(GlyphKey, usize)>, i: int)
    requires
        keys_unique(s),
        0 <= i < s.len(),
    ensures
        has_key(s, s[i].0),
        use_of(s, s[i].0) == s[i].1,
{
    let k = s[i].0;
    assert(s[i].0 == k);
    let j = choose|j: int| 0 <= j < s.len() && #[trigger] s[j].0 == k;
    assert(j == i);
}

proof fn lemma_touch(s: Seq<(GlyphKey, usize)>, t: Seq<(GlyphKey, usize)>, k: GlyphKey, now: usize)
    requires
        recency_ok(s, now),
        forall|p: int|
            0 <= p < s.len() && (#[trigger] s[p]).0 == k ==> t == seq![(k, now)] + s.remove(p),
        (forall|p: int| 0 <= p < s.len() ==> (#[trigger] s[p]).0 != k) ==> t == seq![(k, now)]
            + s,
    ensures
        recency_ok(t, now),
        use_map(t) == use_map(s).insert(k, now),
{
    let r = if has_key(s, k) {
        let p = choose|p: int| 0 <= p < s.len() && #[trigger] s[p].0 == k;
        assert(t == seq![(k, now)] + s.remove(p));
        s.remove(p)
    } else {
        s
    };
    assert(t == seq![(k, now)] + r);
    // `r` is `s` without `k`, order kept: each entry of `r` is an entry of `s`
    // at an index that grows with its own.
    let f = |q: int|
        if has_key(s, k) && q >= choose|p: int| 0 <= p < s.len() && #[trigger] s[p].0 == k {
            q + 1
        } else {
            q
        };
    assert forall|q: int| 0 <= q < r.len() implies 0 <= #[trigger] f(q) < s.len() && r[q] == s[f(q)]
        && s[f(q)].0 != k by {}
    assert forall|q1: int, q2: int| 0 <= q1 <= q2 < r.len() implies #[trigger] f(q1) <= #[trigger] f(q2)
        by {}
    assert forall|q1: int, q2: int| 0 <= q1 < r.len() && 0 <= q2 < r.len() && q1 != q2 implies #[trigger] f(q1) != #[trigger] f(q2)
        by {}
    assert forall|i: int, j: int| 0 <= i < t.len() && 0 <= j < t.len() && i != j implies #[trigger] t[i].0
        != #[trigger] t[j].0 by {
        if i > 0 && j > 0 {
            assert(t[i] == r[i - 1] && t[j] == r[j - 1]);
            assert(s[f(i - 1)].0 != s[f(j - 1)].0);
        } else if i == 0 {
            assert(t[j] == r[j - 1]);
        } else {
            assert(t[i] == r[i - 1]);
        }
    }
    assert forall|i: int, j: int| 0 <= i <= j < t.len() implies #[trigger] t[j].1 <= #[trigger] t[i].1 by {
        if i > 0 {
            assert(t[i] == r[i - 1] && t[j] == r[j - 1]);
            assert(s[f(j - 1)].1 <= s[f(i - 1)].1);
        } else if j > 0 {
            assert(t[j] == r[j - 1]);
            assert(s[f(j - 1)].1 <= now);
        }
    }
    assert forall|i: int| 0 <= i < t.len() implies #[trigger] t[i].1 <= now by {
        if i > 0 {
            assert(t[i] == r[i - 1]);
            assert(s[f(i - 1)].1 <= now);
        }
    }
    assert(recency_ok(t, now));
    lemma_use_at(t, 0);
    assert forall|x: GlyphKey| x != k implies has_key(t, x) == has_key(s, x) && (has_key(t, x) ==> use_of(t, x) == use_of(s, x)) by {
        if has_key(t, x) {
            let i = choose|i: int| 0 <= i < t.len() && #[trigger] t[i].0 == x;
            assert(i > 0);
            assert(t[i] == r[i - 1]);
            lemma_use_at(t, i);
            lemma_use_at(s, f(i - 1));
        }
        if has_key(s, x) {
            let i = choose|i: int| 0 <= i < s.len() && #[trigger] s[i].0 == x;
            let q = if has_key(s, k) && i > (choose|p: int| 0 <= p < s.len() && #[trigger] s[p].0 == k) {
                i - 1
            } else {
                i
            };
            assert(0 <= q < r.len() && r[q] == s[i]);
            assert(t[q + 1] == s[i]);
        }
    }
    assert(use_map(t) =~= use_map(s).insert(k, now));
}

/// One of the first `n` glyphs of `gs` has a bitmap and the key `k`.
pub open spec fn touched_upto(gs: Seq<RasterGlyph>, n: int, k: GlyphKey) -> bool {
    exists|j: int| 0 <= j < n && (#[trigger] gs[j]).image is Some && gs[j].key == k
}

/// A glyph of `gs` with a bitmap has the key `k`.
pub open spec fn touched(gs: Seq<RasterGlyph>, k: GlyphKey) -> bool {
    touched_upto(gs, gs.len() as int, k)
}

/// The atlas that a visible glyph goes to.
pub open spec fn atlas_for(g: RasterGlyph, mask: Atlas, colors: Atlas) -> Atlas {
    if g.image->Some_0.content.is_mask_spec() {
        mask
    } else {
        colors
    }
}

/// The visible glyph `g` fits below the fill line of neither atlas it
/// could go to as they stand: the one its content picks has no room left.
pub open spec fn no_room(g: RasterGlyph, mask: Atlas, colors: Atlas) -> bool {
    !fits_below(atlas_for(g, mask, colors), g.image->Some_0.width, g.image->Some_0.height)
}

/// Every visible glyph of `gs` is stored already in the atlas it goes to.
pub open spec fn all_cached(gs: Seq<RasterGlyph>, mask: Atlas, colors: Atlas) -> bool {
    forall|j: int|
        0 <= j < gs.len() && visible(#[trigger] gs[j]) ==> atlas_for(gs[j], mask, colors).images().contains_key(
            gs[j].key,
        )
}

/// `b` holds every image of `a`, unchanged.
pub open spec fn keeps_images(a: Atlas, b: Atlas) -> bool {
    forall|k: GlyphKey|
        #[trigger] a.images().contains_key(k) ==> b.images().contains_key(k) && b.images()[k]
            == a.images()[k]
}

/// `b` is `a` with only `Clear` operations queued after those of `a`, at
/// the same size.
pub open spec fn only_clears(a: Atlas, b: Atlas) -> bool {
    &&& a.pending().len() <= b.pending().len()
    &&& b.pending().subrange(0, a.pending().len() as int) == a.pending()
    &&& forall|i: int|
        a.pending().len() <= i < b.pending().len() ==> #[trigger] b.pending()[i] is Clear
    &&& b.size_spec() == a.size_spec()
}

proof fn lemma_clear_step(a: Atlas, b: Atlas, c: Atlas)
    requires
        only_clears(a, b),
        c.size_spec() == b.size_spec(),
        c.pending() == b.pending() || (c.pending().len() > 0 && c.pending().drop_last()
            == b.pending() && c.pending().last() is Clear),
    ensures
        only_clears(a, c),
{
    if c.pending() != b.pending() {
        assert forall|i: int| a.pending().len() <= i < c.pending().len() implies #[trigger] c.pending()[i] is Clear by {
            if i < b.pending().len() {
                assert(c.pending()[i] == c.pending().drop_last()[i]);
            }
        }
        assert(c.pending().subrange(0, a.pending().len() as int) =~= b.pending().subrange(0, a.pending().len() as int));
    }
}

/// `b` is the first entries of `a`, in order: those used less than
/// `MAX_CACHE_AGE` frames before `now`, all of which come before the others.
pub open spec fn young_prefix(a: Seq<(GlyphKey, usize)>, b: Seq<(GlyphKey, usize)>, now: usize) -> bool {
    exists|n: int|
        0 <= n <= a.len() && b == a.subrange(0, n) && (forall|q: int|
            0 <= q < n ==> now - (#[trigger] a[q]).1 < MAX_CACHE_AGE) && (forall|q: int|
            n <= q < a.len() ==> now - (#[trigger] a[q]).1 >= MAX_CACHE_AGE)
}

/// Every key with a box in `a` has the same box in `b`.
pub open spec fn keeps_boxes(a: Atlas, b: Atlas) -> bool {
    forall|k: GlyphKey|
        #[trigger] a.allocations().contains_key(k) ==> b.allocations().contains_key(k)
            && b.allocations()[k] == a.allocations()[k]
}

/// Turns shaped glyphs into sprites drawn from the glyph atlases.
pub struct SpriteMaker {
    mask_atlas: Atlas,
    color_atlas: Atlas,
    draw_count: usize,
    last_draw_at: indexmap::IndexMap<GlyphKey, usize>,
}

impl SpriteMaker {
    pub closed spec fn mask(&self) -> Atlas {
        self.mask_atlas
    }

    pub closed spec fn colors(&self) -> Atlas {
        self.color_atlas
    }

    /// The number of frames flushed so far.
    pub closed spec fn frame(&self) -> usize {
        self.draw_count
    }

    /// The glyph keys by recency, most recent first, with the frame of
    /// their last use.
    pub closed spec fn recency(&self) -> Seq<(GlyphKey, usize)> {
        recency_entries(self.last_draw_at)
    }

    /// The frame of each glyph key's last use.
    pub open spec fn last_use(&self) -> Map<GlyphKey, usize> {
        use_map(self.recency())
    }

    pub open spec fn wf(&self) -> bool {
        &&& self.mask().wf()
        &&& self.colors().wf()
        &&& self.mask().format_spec() == PixelFormat::Mask
        &&& self.colors().format_spec() == PixelFormat::Color
        &&& recency_ok(self.recency(), self.frame())
        &&& forall|k: GlyphKey| #[trigger]
            self.mask().images().contains_key(k) ==> self.last_use().contains_key(k)
        &&& forall|k: GlyphKey| #[trigger]
            self.colors().images().contains_key(k) ==> self.last_use().contains_key(k)
    }

    /// An empty cache with two new atlases.
    pub fn new() -> (m: SpriteMaker)
        ensures
            m.wf(),
            m.frame() == 0,
            m.last_use().is_empty(),
            m.mask().images().is_empty(),
            m.colors().images().is_empty(),
    {
        let m = SpriteMaker {
            mask_atlas: Atlas::new(PixelFormat::Mask),
            color_atlas: Atlas::new(PixelFormat::Color),
            draw_count: 0,
            last_draw_at: recency_new(),
        };
        assert(m.last_use() =~= Map::empty());
        m
    }

    /// The number of frames flushed so far.
    pub fn frame_count(&self) -> (n: usize)
        ensures
            n == self.frame(),
    {
        self.draw_count
    }

    /// The atlas of coverage masks.
    pub fn mask_atlas(&self) -> (a: &Atlas)
        ensures
            *a == self.mask(),
    {
        &self.mask_atlas
    }

    /// The atlas of color bitmaps.
    pub fn color_atlas(&self) -> (a: &Atlas)
        ensures
            *a == self.colors(),
    {
        &self.color_atlas
    }

    /// Hands out the pending work of both atlases: the mask atlas's first.
    pub fn take_ops(&mut self) -> (ops: (Vec<crate::atlas::AtlasOp>, Vec<crate::atlas::AtlasOp>))
        requires
            old(self).wf(),
        ensures
            final(self).wf(),
            ops.0@ == old(self).mask().pending(),
            ops.1@ == old(self).colors().pending(),
            final(self).mask().images() == old(self).mask().images(),
            final(self).colors().images() == old(self).colors().images(),
            final(self).mask().allocations() == old(self).mask().allocations(),
            final(self).colors().allocations() == old(self).colors().allocations(),
            final(self).last_use() == old(self).last_use(),
            final(self).frame() == old(self).frame(),
    {
        let a = self.mask_atlas.take_ops();
        let b = self.color_atlas.take_ops();
        (a, b)
    }

    /// Stores each visible glyph in its atlas, the first time it is seen,
    /// and marks every glyph with a bitmap as used in this frame. Then
    /// returns one sprite per visible glyph, in order, each placed at its
    /// box as the atlases stand after all of them were stored.
    ///
    /// `None` means that a glyph found no room even in the largest atlas;
    /// the sprites of such a call must not be drawn.
    pub fn make(&mut self, glyphs: &Vec<RasterGlyph>, color: Color) -> (r: Option<Vec<TextSprite>>)
        requires
            old(self).wf(),
            forall|i: int| 0 <= i < glyphs.len() ==> glyph_sized(#[trigger] glyphs@[i]),
        ensures
            final(self).wf(),
            final(self).frame() == old(self).frame(),
            keeps_images(old(self).mask(), final(self).mask()),
            keeps_images(old(self).colors(), final(self).colors()),
            forall|k: GlyphKey| #[trigger]
                final(self).last_use().contains_key(k) ==> touched(glyphs@, k) || (
                old(self).last_use().contains_key(k) && final(self).last_use()[k]
                    == old(self).last_use()[k]),
            forall|k: GlyphKey| #[trigger]
                old(self).last_use().contains_key(k) ==> final(self).last_use().contains_key(k),
            r matches Some(sprites) ==> {
                &&& sprites@.len() == visible_glyphs(glyphs@).len()
                &&& forall|j: int|
                    0 <= j < sprites@.len() ==> sprite_for(
                        #[trigger] sprites@[j],
                        visible_glyphs(glyphs@)[j],
                        color,
                        final(self).mask(),
                        final(self).colors(),
                    )
                &&& forall|k: GlyphKey| #[trigger]
                    touched(glyphs@, k) ==> final(self).last_use().contains_key(k)
                        && final(self).last_use()[k] == old(self).frame()
            },
            all_cached(glyphs@, old(self).mask(), old(self).colors()) ==> r is Some
                && final(self).mask() == old(self).mask() && final(self).colors() == old(
                self,
            ).colors(),
            r is None ==> exists|j: int|
                0 <= j < glyphs.len() && visible(#[trigger] glyphs@[j]) && !atlas_for(
                    glyphs@[j],
                    old(self).mask(),
                    old(self).colors(),
                ).images().contains_key(glyphs@[j].key) && no_room(
                    glyphs@[j],
                    final(self).mask(),
                    final(self).colors(),
                ),
    {
        let ghost start = *old(self);
        let now = self.draw_count;
        let mut i: usize = 0;
        while i < glyphs.len()
            invariant
                start == *old(self),
                self.wf(),
                self.frame() == now,
                now == start.frame(),
                0 <= i <= glyphs.len(),
                forall|i: int| 0 <= i < glyphs.len() ==> glyph_sized(#[trigger] glyphs@[i]),
                keeps_images(start.mask(), self.mask()),
                keeps_images(start.colors(), self.colors()),
                uses_explained(self.last_use(), start.last_use(), glyphs@, i as int),
                all_cached(glyphs@, start.mask(), start.colors()) ==> self.mask() == start.mask()
                    && self.colors() == start.colors(),
                forall|k: GlyphKey| #[trigger]
                    start.last_use().contains_key(k) ==> self.last_use().contains_key(k),
                forall|k: GlyphKey| #[trigger]
                    touched_upto(glyphs@, i as int, k) ==> self.last_use().contains_key(k)
                        && self.last_use()[k] == now,
                forall|j: int|
                    0 <= j < i && visible(#[trigger] glyphs@[j]) ==> atlas_for(
                        glyphs@[j],
                        self.mask(),
                        self.colors(),
                    ).images().contains_key(glyphs@[j].key),
            decreases glyphs.len() - i,
        {
            let g = &glyphs[i];
            let ghost before = *self;
            proof {
                assert forall|k: GlyphKey| touched_upto(glyphs@, i as int, k) implies #[trigger] touched_upto(glyphs@, i + 1, k) by {
                    let j = choose|j: int| 0 <= j < i && (#[trigger] glyphs@[j]).image is Some && glyphs@[j].key == k;
                }
            }
            match &g.image {
                None => {
                    proof {
                        assert forall|k: GlyphKey| #[trigger] touched_upto(glyphs@, i + 1, k) implies touched_upto(glyphs@, i as int, k) by {
                            let j = choose|j: int| 0 <= j < i + 1 && (#[trigger] glyphs@[j]).image is Some && glyphs@[j].key == k;
                            assert(j != i);
                        }
                        assert(uses_explained(self.last_use(), start.last_use(), glyphs@, i + 1));
                    }
                },
                Some(img) => {
                    recency_touch(&mut self.last_draw_at, g.key, now);
                    proof {
                        lemma_touch(before.recency(), self.recency(), g.key, now);
                        assert(touched_upto(glyphs@, i + 1, g.key));
                        assert forall|k: GlyphKey| #[trigger] touched_upto(glyphs@, i + 1, k) && k != g.key implies touched_upto(glyphs@, i as int, k) by {
                            let j = choose|j: int| 0 <= j < i + 1 && (#[trigger] glyphs@[j]).image is Some && glyphs@[j].key == k;
                            assert(j != i);
                        }
                    }
                    if img.width > 0 && img.height > 0 {
                        let ghost mid = *self;
                        let is_mask = img.content != GlyphContent::Color;
                        let data = img.data.clone();
                        proof {
                            assert(data@ =~= img.data@);
                        }
                        proof {
                            mid.mask().lemma_same_keys();
                            mid.colors().lemma_same_keys();
                            assert(visible(glyphs@[i as int]));
                        }
                        let stored = if is_mask {
                            self.mask_atlas.get(g.key).is_some() || self.mask_atlas.add(
                                g.key,
                                data,
                                img.width,
                                img.height,
                            ).is_some()
                        } else {
                            self.color_atlas.get(g.key).is_some() || self.color_atlas.add(
                                g.key,
                                data,
                                img.width,
                                img.height,
                            ).is_some()
                        };
                        proof {
                            mid.mask().lemma_same_keys();
                            mid.colors().lemma_same_keys();
                            self.mask().lemma_same_keys();
                            self.colors().lemma_same_keys();
                            lemma_make_step(start.last_use(), before.last_use(), self.last_use(), glyphs@, i as int, now);
                        }
                        if !stored {
                            proof {
                                assert(!atlas_for(glyphs@[i as int], start.mask(), start.colors()).images().contains_key(g.key));
                                assert(no_room(glyphs@[i as int], self.mask(), self.colors()));
                                assert forall|k: GlyphKey| #[trigger] self.last_use().contains_key(k) implies touched(glyphs@, k) || (
                                    start.last_use().contains_key(k) && self.last_use()[k] == start.last_use()[k]) by {
                                    if touched_upto(glyphs@, i + 1, k) {
                                        let j = choose|j: int| 0 <= j < i + 1 && (#[trigger] glyphs@[j]).image is Some && glyphs@[j].key == k;
                                    }
                                }
                                assert forall|k: GlyphKey| #[trigger] touched_upto(glyphs@, i + 1, k) implies touched(glyphs@, k) by {
                                    let j = choose|j: int| 0 <= j < i + 1 && (#[trigger] glyphs@[j]).image is Some && glyphs@[j].key == k;
                                }
                            }
                            return None;
                        }
                    }
                },
            }
            i += 1;
        }
        proof {
            self.mask().lemma_same_keys();
            self.colors().lemma_same_keys();
        }
        Some(self.place(glyphs, color))
    }

    /// The key was last used `MAX_CACHE_AGE` or more frames before the
    /// current one.
    pub open spec fn stale(&self, k: GlyphKey) -> bool {
        self.last_use().contains_key(k) && self.frame() - self.last_use()[k] >= MAX_CACHE_AGE
    }

    /// A glyph used within the last `MAX_CACHE_AGE` frames is not stale, so
    /// the next flush keeps it: one used at least every 99 flushes is never
    /// evicted.
    pub proof fn lemma_recent_not_stale(&self, k: GlyphKey)
        requires
            self.last_use().contains_key(k),
            self.frame() - self.last_use()[k] < MAX_CACHE_AGE,
        ensures
            !self.stale(k),
    {
    }

    /// Removes every stale glyph from both atlases and from the recency
    /// order. The rest stay as they were.
    fn remove_unused(&mut self)
        requires
            old(self).wf(),
        ensures
            final(self).wf(),
            final(self).frame() == old(self).frame(),
            forall|k: GlyphKey| #[trigger]
                final(self).last_use().contains_key(k) == (old(self).last_use().contains_key(k)
                    && !old(self).stale(k)),
            forall|k: GlyphKey| #[trigger]
                final(self).last_use().contains_key(k) ==> final(self).last_use()[k]
                    == old(self).last_use()[k],
            forall|k: GlyphKey| #[trigger]
                final(self).mask().images().contains_key(k) == (old(self).mask().images().contains_key(k)
                    && !old(self).stale(k)),
            forall|k: GlyphKey| #[trigger]
                final(self).colors().images().contains_key(k) == (old(self).colors().images().contains_key(k)
                    && !old(self).stale(k)),
            keeps_images(final(self).mask(), old(self).mask()),
            keeps_images(final(self).colors(), old(self).colors()),
            keeps_boxes(final(self).mask(), old(self).mask()),
            keeps_boxes(final(self).colors(), old(self).colors()),
            only_clears(old(self).mask(), final(self).mask()),
            only_clears(old(self).colors(), final(self).colors()),
            young_prefix(old(self).recency(), final(self).recency(), old(self).frame()),
    {
        let ghost start = *old(self);
        let ghost s = self.recency();
        let now = self.draw_count;
        let len = recency_len(&self.last_draw_at);
        let mut i: usize = len;
        loop
            invariant
                s == self.recency(),
                recency_ok(s, now),
                len == s.len(),
                0 <= i <= len,
                forall|q: int| i <= q < len ==> now - (#[trigger] s[q]).1 >= MAX_CACHE_AGE,
            ensures
                0 <= i <= len,
                forall|q: int| i <= q < len ==> now - (#[trigger] s[q]).1 >= MAX_CACHE_AGE,
                i == 0 || now - s[i - 1].1 < MAX_CACHE_AGE,
            decreases i,
        {
            if i == 0 {
                break;
            }
            let (_, t) = recency_get(&self.last_draw_at, i - 1);
            if now - t < MAX_CACHE_AGE {
                break;
            }
            i -= 1;
        }
        proof {
            assert forall|q: int| 0 <= q < i implies now - (#[trigger] s[q]).1 < MAX_CACHE_AGE by {
                assert(s[i - 1].1 <= s[q].1);
            }
        }
        let keys = recency_drain_from(&mut self.last_draw_at, i);
        proof {
            assert(young_prefix(s, self.recency(), now));
            assert(only_clears(start.mask(), self.mask())) by {
                assert(self.mask().pending().subrange(0, self.mask().pending().len() as int) =~= self.mask().pending());
            }
            assert(only_clears(start.colors(), self.colors())) by {
                assert(self.colors().pending().subrange(0, self.colors().pending().len() as int) =~= self.colors().pending());
            }
            let r = self.recency();
            assert(r == s.subrange(0, i as int));
            assert forall|k: GlyphKey| #[trigger] start.stale(k) == among(keys@, keys@.len() as int, k) by {
                if start.stale(k) {
                    let q = choose|q: int| 0 <= q < s.len() && #[trigger] s[q].0 == k;
                    lemma_use_at(s, q);
                    assert(q >= i);
                    assert(keys@[q - i] == k);
                }
                if among(keys@, keys@.len() as int, k) {
                    let q = choose|q: int| 0 <= q < keys@.len() && #[trigger] keys@[q] == k;
                    assert(s[q + i].0 == k);
                    lemma_use_at(s, q + i);
                }
            }
            assert forall|k: GlyphKey| #[trigger] has_key(r, k) == (has_key(s, k) && !start.stale(k)) by {
                if has_key(r, k) {
                    let q = choose|q: int| 0 <= q < r.len() && #[trigger] r[q].0 == k;
                    assert(s[q].0 == k);
                    lemma_use_at(s, q);
                }
                if has_key(s, k) && !start.stale(k) {
                    let q = choose|q: int| 0 <= q < s.len() && #[trigger] s[q].0 == k;
                    lemma_use_at(s, q);
                    assert(q < i);
                    assert(r[q].0 == k);
                }
            }
            assert forall|k: GlyphKey| #[trigger] has_key(r, k) implies use_of(r, k) == use_of(s, k) by {
                let q = choose|q: int| 0 <= q < r.len() && #[trigger] r[q].0 == k;
                assert(s[q] == r[q]);
                lemma_use_at(s, q);
                lemma_use_at(r, q);
            }
        }
        let mut j: usize = 0;
        while j < keys.len()
            invariant
                0 <= j <= keys.len(),
                self.mask().wf(),
                self.colors().wf(),
                self.mask().format_spec() == PixelFormat::Mask,
                self.colors().format_spec() == PixelFormat::Color,
                self.frame() == now,
                now == start.frame(),
                self.recency() == s.subrange(0, i as int),
                forall|k: GlyphKey| #[trigger] start.stale(k) == among(keys@, keys@.len() as int, k),
                forall|k: GlyphKey| #[trigger]
                    self.mask().images().contains_key(k) == (start.mask().images().contains_key(k)
                        && !among(keys@, j as int, k)),
                forall|k: GlyphKey| #[trigger]
                    self.colors().images().contains_key(k) == (start.colors().images().contains_key(k)
                        && !among(keys@, j as int, k)),
                keeps_images(self.mask(), start.mask()),
                keeps_images(self.colors(), start.colors()),
                keeps_boxes(self.mask(), start.mask()),
                keeps_boxes(self.colors(), start.colors()),
                only_clears(start.mask(), self.mask()),
                only_clears(start.colors(), self.colors()),
            decreases keys.len() - j,
        {
            let k = keys[j];
            let ghost m0 = *self;
            self.color_atlas.remove(k);
            let ghost m1 = *self;
            self.mask_atlas.remove(k);
            proof {
                if m0.colors().allocations().contains_key(k) {
                    assert(self.colors().pending().drop_last() =~= m0.colors().pending());
                }
                if m1.mask().allocations().contains_key(k) {
                    assert(self.mask().pending().drop_last() =~= m1.mask().pending());
                }
                lemma_clear_step(start.colors(), m0.colors(), self.colors());
                lemma_clear_step(start.mask(), m1.mask(), self.mask());
                assert forall|x: GlyphKey| #[trigger] among(keys@, j + 1, x) == (among(keys@, j as int, x) || x == k) by {
                    if x == k {
                        assert(keys@[j as int] == x);
                    }
                    if among(keys@, j + 1, x) && x != k {
                        let q = choose|q: int| 0 <= q < j + 1 && #[trigger] keys@[q] == x;
                        assert(q != j);
                    }
                }
            }
            j += 1;
        }
        proof {
            let r = self.recency();
            assert forall|k: GlyphKey| #[trigger] self.mask().images().contains_key(k) == (start.mask().images().contains_key(k) && !start.stale(k)) by {}
            assert forall|k: GlyphKey| #[trigger] self.colors().images().contains_key(k) == (start.colors().images().contains_key(k) && !start.stale(k)) by {}
            assert forall|i: int, j: int| 0 <= i < r.len() && 0 <= j < r.len() && i != j implies #[trigger] r[i].0 != #[trigger] r[j].0 by {
                assert(r[i] == s[i] && r[j] == s[j]);
            }
            assert forall|a: int, b: int| 0 <= a <= b < r.len() implies #[trigger] r[b].1 <= #[trigger] r[a].1 by {
                assert(r[a] == s[a] && r[b] == s[b]);
            }
            assert forall|a: int| 0 <= a < r.len() implies #[trigger] r[a].1 <= now by {
                assert(r[a] == s[a]);
            }
            assert forall|k: GlyphKey| #[trigger] self.mask().images().contains_key(k) implies self.last_use().contains_key(k) by {
                assert(start.last_use().contains_key(k));
            }
            assert forall|k: GlyphKey| #[trigger] self.colors().images().contains_key(k) implies self.last_use().contains_key(k) by {
                assert(start.last_use().contains_key(k));
            }
        }
    }

    /// Ends a frame: evicts every glyph not used in the last
    /// [`MAX_CACHE_AGE`] frames from both atlases, then counts the frame.
    /// Call it once per frame, after every [`SpriteMaker::make`] of it.
    pub fn flush(&mut self)
        requires
            old(self).wf(),
            old(self).frame() < usize::MAX,
        ensures
            final(self).wf(),
            final(self).frame() == old(self).frame() + 1,
            forall|k: GlyphKey| #[trigger]
                final(self).last_use().contains_key(k) == (old(self).last_use().contains_key(k)
                    && !old(self).stale(k)),
            forall|k: GlyphKey| #[trigger]
                final(self).last_use().contains_key(k) ==> final(self).last_use()[k]
                    == old(self).last_use()[k],
            forall|k: GlyphKey| #[trigger]
                final(self).mask().images().contains_key(k) == (old(self).mask().images().contains_key(k)
                    && !old(self).stale(k)),
            forall|k: GlyphKey| #[trigger]
                final(self).colors().images().contains_key(k) == (old(self).colors().images().contains_key(k)
                    && !old(self).stale(k)),
            keeps_images(final(self).mask(), old(self).mask()),
            keeps_images(final(self).colors(), old(self).colors()),
            keeps_boxes(final(self).mask(), old(self).mask()),
            keeps_boxes(final(self).colors(), old(self).colors()),
            only_clears(old(self).mask(), final(self).mask()),
            only_clears(old(self).colors(), final(self).colors()),
            young_prefix(old(self).recency(), final(self).recency(), old(self).frame()),
    {
        self.remove_unused();
        let ghost mid = *self;
        self.draw_count = self.draw_count + 1;
        proof {
            assert(self.last_use() == mid.last_use());
            assert(self.mask() == mid.mask());
            assert(self.colors() == mid.colors());
            assert(keeps_boxes(self.mask(), old(self).mask()));
            let r = self.recency();
            assert forall|a: int| 0 <= a < r.len() implies #[trigger] r[a].1 <= self.draw_count by {}
        }
    }

    /// One sprite per visible glyph, at its box in its atlas.
    fn place(&self, glyphs: &Vec<RasterGlyph>, color: Color) -> (sprites: Vec<TextSprite>)
        requires
            self.wf(),
            forall|j: int|
                0 <= j < glyphs.len() && visible(#[trigger] glyphs@[j]) ==> atlas_for(
                    glyphs@[j],
                    self.mask(),
                    self.colors(),
                ).images().contains_key(glyphs@[j].key),
        ensures
            sprites@.len() == visible_glyphs(glyphs@).len(),
            forall|j: int|
                0 <= j < sprites@.len() ==> sprite_for(
                    #[trigger] sprites@[j],
                    visible_glyphs(glyphs@)[j],
                    color,
                    self.mask(),
                    self.colors(),
                ),
    {
        let mut sprites: Vec<TextSprite> = Vec::new();
        let mut i: usize = 0;
        while i < glyphs.len()
            invariant
                self.wf(),
                0 <= i <= glyphs.len(),
                forall|j: int|
                    0 <= j < glyphs.len() && visible(#[trigger] glyphs@[j]) ==> atlas_for(
                        glyphs@[j],
                        self.mask(),
                        self.colors(),
                    ).images().contains_key(glyphs@[j].key),
                sprites@.len() == visible_glyphs(glyphs@.take(i as int)).len(),
                forall|j: int|
                    0 <= j < sprites@.len() ==> sprite_for(
                        #[trigger] sprites@[j],
                        visible_glyphs(glyphs@.take(i as int))[j],
                        color,
                        self.mask(),
                        self.colors(),
                    ),
            decreases glyphs.len() - i,
        {
            let g = &glyphs[i];
            proof {
                assert(glyphs@.take(i + 1).drop_last() =~= glyphs@.take(i as int));
                assert(glyphs@.take(i + 1).last() == glyphs@[i as int]);
                reveal_with_fuel(Seq::filter, 1);
                assert(visible_glyphs(glyphs@.take(i + 1)) == if visible(glyphs@[i as int]) {
                    visible_glyphs(glyphs@.take(i as int)).push(glyphs@[i as int])
                } else {
                    visible_glyphs(glyphs@.take(i as int))
                });
            }
            if let Some(img) = &g.image {
                if img.width > 0 && img.height > 0 {
                    let is_mask = img.content != GlyphContent::Color;
                    proof {
                        self.mask().lemma_same_keys();
                        self.colors().lemma_same_keys();
                        assert(visible(glyphs@[i as int]));
                    }
                    let found = if is_mask {
                        self.mask_atlas.get(g.key)
                    } else {
                        self.color_atlas.get(g.key)
                    };
                    let a = match found {
                        Some(a) => a,
                        None => {
                            return sprites;
                        },
                    };
                    let tint = if is_mask {
                        match g.color {
                            Some(c) => color.tint(c),
                            None => color,
                        }
                    } else {
                        Color::white()
                    };
                    proof {
                        assert(a.rectangle.within(
                            atlas_for(*g, self.mask(), self.colors()).size_spec().0,
                            atlas_for(*g, self.mask(), self.colors()).size_spec().1,
                        )) by {
                            let at = atlas_for(*g, self.mask(), self.colors());
                            at.lemma_in_bounds(g.key);
                        }
                    }
                    sprites.push(
                        TextSprite {
                            key: g.key,
                            is_mask,
                            offset: glam::IVec2 { x: a.rectangle.min_x, y: a.rectangle.min_y },
                            size: glam::UVec2 {
                                x: (a.rectangle.max_x - a.rectangle.min_x) as u32,
                                y: (a.rectangle.max_y - a.rectangle.min_y) as u32,
                            },
                            transform: g.transform,
                            tint,
                        },
                    );
                }
            }
            i += 1;
        }
        proof {
            assert(glyphs@.take(glyphs.len() as int) =~= glyphs@);
        }
        sprites
    }
}

/// One of the first `n` keys of `ks` is `k`.
pub open spec fn among(ks: Seq<GlyphKey>, n: int, k: GlyphKey) -> bool {
    exists|q: int| 0 <= q < n && #[trigger] ks[q] == k
}

/// Each use in `after` is a glyph among the first `n` of `gs`, or was in
/// `start` already.
pub open spec fn uses_explained(
    after: Map<GlyphKey, usize>,
    start: Map<GlyphKey, usize>,
    gs: Seq<RasterGlyph>,
    n: int,
) -> bool {
    forall|k: GlyphKey| #[trigger]
        after.contains_key(k) ==> touched_upto(gs, n, k) || (start.contains_key(k) && after[k]
            == start[k])
}

proof fn lemma_make_step(
    start: Map<GlyphKey, usize>,
    before: Map<GlyphKey, usize>,
    after: Map<GlyphKey, usize>,
    gs: Seq<RasterGlyph>,
    i: int,
    now: usize,
)
    requires
        0 <= i < gs.len(),
        gs[i].image is Some,
        after == before.insert(gs[i].key, now),
        uses_explained(before, start, gs, i),
    ensures
        uses_explained(after, start, gs, i + 1),
{
    assert forall|k: GlyphKey| #[trigger] after.contains_key(k) implies touched_upto(gs, i + 1, k) || (
        start.contains_key(k) && after[k] == start[k]) by {
        if k == gs[i].key {
            assert(touched_upto(gs, i + 1, k));
        } else {
            assert(before.contains_key(k));
            if touched_upto(gs, i, k) {
                let j = choose|j: int| 0 <= j < i && (#[trigger] gs[j]).image is Some && gs[j].key == k;
                assert(touched_upto(gs, i + 1, k));
            }
        }
    }
}

} // verus!
