//! Staging a frame: a canvas becomes the ordered list of sprites to draw,
//! each naming the texture it samples.
use crate::atlas::Atlas;
use crate::canvas::{Canvas, Command, Sprite};
use crate::key::GlyphKey;
use crate::math::compose;
use crate::text::{
    all_cached,
    keeps_images,
    RasterGlyph,
    SpriteMaker,
    atlas_for,
    glyph_sized,
    glyph_tint,
    visible_glyphs,
};
use crate::texture::SpriteTexture;
use crate::color::Color;
use vstd::prelude::*;

verus! {

/// Errors that preparing a frame can meet.
#[derive(Clone, Copy, Debug, PartialEq, Eq, Structural)]
pub enum Error {
    /// A glyph found no room even in the largest glyph atlas.
    OutOfGlyphAtlasSpace,
}

impl Error {
    /// A description for people.
    pub fn message(&self) -> (s: &'static str) {
        match self {
            Error::OutOfGlyphAtlasSpace => "out of glyph atlas space",
        }
    }
}

/// The texture a staged sprite samples.
#[derive(Clone, Copy)]
pub enum SpriteSource<'a> {
    Texture(&'a SpriteTexture),
    /// The glyph atlas of coverage masks.
    GlyphMask,
    /// The glyph atlas of color bitmaps.
    GlyphColor,
}

/// A sprite ready to be batched and drawn.
#[derive(Clone, Copy)]
pub struct StagedSprite<'a> {
    pub source: SpriteSource<'a>,
    pub src_offset: glam::IVec2,
    pub src_size: glam::UVec2,
    pub src_layer: u32,
    pub transform: glam::Affine2,
    pub tint: Color,
    /// The glyph it draws, for a sprite from a glyph atlas.
    pub glyph: Option<GlyphKey>,
}

/// The staged form of a sprite draw.
pub open spec fn staged_sprite<'a>(s: Sprite<'a>) -> StagedSprite<'a> {
    StagedSprite {
        source: SpriteSource::Texture(s.texture_slice.texture_spec()),
        src_offset: glam::IVec2 { x: s.texture_slice.rect_spec().x, y: s.texture_slice.rect_spec().y },
        src_size: glam::UVec2 {
            x: s.texture_slice.rect_spec().width,
            y: s.texture_slice.rect_spec().height,
        },
        src_layer: s.texture_slice.layer_spec(),
        transform: s.transform,
        tint: s.tint,
        glyph: None,
    }
}

/// `st` draws the visible glyph `g` of a text tinted `tint`, from the atlas
/// its content goes to; its box is checked apart, by [`placed`].
pub open spec fn staged_glyph(st: StagedSprite, g: RasterGlyph, tint: Color) -> bool {
    &&& st.glyph == Some(g.key)
    &&& if g.image->Some_0.content.is_mask_spec() {
        st.source is GlyphMask
    } else {
        st.source is GlyphColor
    }
    &&& st.src_layer == 0
    &&& st.tint == glyph_tint(g, tint)
}

/// A glyph sprite is placed at the current box of its glyph.
pub open spec fn placed(st: StagedSprite, mask: Atlas, colors: Atlas) -> bool {
    st.glyph matches Some(k) ==> {
        let a = if st.source is GlyphMask {
            mask
        } else {
            colors
        };
        &&& !(st.source is Texture)
        &&& a.allocations().contains_key(k)
        &&& st.src_offset.x == a.allocations()[k].rectangle.min_x
        &&& st.src_offset.y == a.allocations()[k].rectangle.min_y
        &&& st.src_size.x == a.allocations()[k].rectangle.width_spec()
        &&& st.src_size.y == a.allocations()[k].rectangle.height_spec()
    }
}

/// Every visible glyph of every text draw is stored already.
pub open spec fn texts_cached<'a, T>(
    cmds: Seq<Command<'a, T>>,
    shaped: Seq<Vec<RasterGlyph>>,
    mask: Atlas,
    colors: Atlas,
) -> bool {
    forall|i: int|
        0 <= i < cmds.len() && cmds[i] is Text ==> all_cached(#[trigger] shaped[i]@, mask, colors)
}

/// The number of sprites a command stages.
pub open spec fn command_len<'a, T>(c: Command<'a, T>, glyphs: Seq<RasterGlyph>) -> nat {
    match c {
        Command::Sprite(_) => 1,
        Command::Text(_) => visible_glyphs(glyphs).len(),
    }
}

/// The number of sprites the first `n` commands stage.
pub open spec fn staged_len<'a, T>(
    cmds: Seq<Command<'a, T>>,
    shaped: Seq<Vec<RasterGlyph>>,
    n: int,
) -> nat
    decreases n,
{
    if n <= 0 {
        0
    } else {
        staged_len(cmds, shaped, n - 1) + command_len(cmds[n - 1], shaped[n - 1]@)
    }
}

/// The sprites staged for command `i` are those its draw asks for.
pub open spec fn stages_command<'a, T>(
    staged: Seq<StagedSprite<'a>>,
    cmds: Seq<Command<'a, T>>,
    shaped: Seq<Vec<RasterGlyph>>,
    i: int,
) -> bool {
    let start = staged_len(cmds, shaped, i) as int;
    match cmds[i] {
        Command::Sprite(s) => staged[start] == staged_sprite(s),
        Command::Text(sec) => forall|q: int|
            0 <= q < visible_glyphs(shaped[i]@).len() ==> staged_glyph(
                #[trigger] staged[start + q],
                visible_glyphs(shaped[i]@)[q],
                sec.tint,
            ),
    }
}

/// The atlas a glyph sprite samples.
pub open spec fn source_atlas(st: StagedSprite, mask: Atlas, colors: Atlas) -> Atlas {
    if st.source is GlyphMask {
        mask
    } else {
        colors
    }
}

/// A glyph sprite's glyph is stored in its atlas and was used in frame
/// `now`.
pub open spec fn glyph_live(st: StagedSprite, m: SpriteMaker, now: usize) -> bool {
    st.glyph matches Some(k) ==> {
        &&& !(st.source is Texture)
        &&& source_atlas(st, m.mask(), m.colors()).images().contains_key(k)
        &&& m.last_use().contains_key(k)
        &&& m.last_use()[k] == now
    }
}

/// `a` is `b` but for where a glyph sprite samples its atlas.
pub open spec fn same_but_box(a: StagedSprite, b: StagedSprite) -> bool {
    &&& a.source == b.source
    &&& a.src_layer == b.src_layer
    &&& a.transform == b.transform
    &&& a.tint == b.tint
    &&& a.glyph == b.glyph
    &&& b.glyph is None ==> a == b
}

proof fn lemma_staged_len_grows<'a, T>(
    cmds: Seq<Command<'a, T>>,
    shaped: Seq<Vec<RasterGlyph>>,
    n: int,
    m: int,
)
    requires
        0 <= n <= m,
    ensures
        staged_len(cmds, shaped, n) <= staged_len(cmds, shaped, m),
    decreases m - n,
{
    if n < m {
        lemma_staged_len_grows(cmds, shaped, n, m - 1);
    }
}

proof fn lemma_visible_touched(gs: Seq<RasterGlyph>, q: int)
    requires
        0 <= q < visible_glyphs(gs).len(),
    ensures
        crate::text::visible(visible_glyphs(gs)[q]),
        crate::text::touched(gs, visible_glyphs(gs)[q].key),
        exists|p: int| 0 <= p < gs.len() && gs[p] == visible_glyphs(gs)[q],
{
    let pred = |g: RasterGlyph| crate::text::visible(g);
    gs.lemma_filter_pred(pred, q);
    let v = visible_glyphs(gs);
    assert(v.contains(v[q]));
    gs.lemma_filter_contains_rev(pred, v[q]);
    let p = choose|p: int| 0 <= p < gs.len() && gs[p] == v[q];
    assert(gs[p].image is Some);
}

/// Stages the draws of `canvas` in order, for the frame that this call
/// ends. A text draw `i` becomes one sprite per visible glyph of
/// `shaped[i]`, the text shaped and rasterized; `shaped[i]` of a sprite draw
/// is not read.
///
/// Glyph sprites are placed once every text has been staged, since storing
/// a glyph may grow an atlas and move the glyphs already in it. The frame
/// then ends with [`SpriteMaker::flush`].
///
/// Fails, before the frame ends, when a glyph found no room even in the
/// largest atlas.
pub fn stage<'a, T>(
    maker: &mut SpriteMaker,
    canvas: &Canvas<'a, T>,
    shaped: &Vec<Vec<RasterGlyph>>,
) -> (r: Result<Vec<StagedSprite<'a>>, Error>)
    requires
        old(maker).wf(),
        old(maker).frame() < usize::MAX,
        shaped.len() == canvas.commands_spec().len(),
        forall|i: int, j: int|
            0 <= i < shaped.len() && 0 <= j < shaped@[i].len() ==> glyph_sized(
                #[trigger] shaped@[i]@[j],
            ),
    ensures
        final(maker).wf(),
        match r {
            Ok(staged) => {
                &&& final(maker).frame() == old(maker).frame() + 1
                &&& staged@.len() == staged_len(
                    canvas.commands_spec(),
                    shaped@,
                    canvas.commands_spec().len() as int,
                )
                &&& forall|i: int|
                    0 <= i < canvas.commands_spec().len() ==> #[trigger] stages_command(
                        staged@,
                        canvas.commands_spec(),
                        shaped@,
                        i,
                    )
                &&& forall|j: int|
                    0 <= j < staged@.len() ==> placed(
                        #[trigger] staged@[j],
                        final(maker).mask(),
                        final(maker).colors(),
                    )
            },
            Err(e) => e == Error::OutOfGlyphAtlasSpace && final(maker).frame() == old(
                maker,
            ).frame(),
        },
        texts_cached(canvas.commands_spec(), shaped@, old(maker).mask(), old(maker).colors())
            ==> r is Ok,
        r is Err ==> exists|i: int|
            0 <= i < canvas.commands_spec().len() && canvas.commands_spec()[i] is Text
                && !all_cached(#[trigger] shaped@[i]@, old(maker).mask(), old(maker).colors()),
        r is Err ==> exists|i: int, j: int|
            0 <= i < canvas.commands_spec().len() && canvas.commands_spec()[i] is Text && 0 <= j
                < shaped@[i].len() && crate::text::visible(#[trigger] shaped@[i]@[j])
                && crate::text::no_room(shaped@[i]@[j], final(maker).mask(), final(maker).colors()),
{
    let ghost cmds = canvas.commands_spec();
    let ghost now = maker.frame();
    let commands = canvas.commands();
    let mut staged: Vec<StagedSprite<'a>> = Vec::new();
    let mut i: usize = 0;
    while i < commands.len()
        invariant
            maker.wf(),
            maker.frame() == now,
            now == old(maker).frame(),
            now < usize::MAX,
            commands@ == cmds,
            cmds == canvas.commands_spec(),
            shaped.len() == cmds.len(),
            forall|i: int, j: int|
                0 <= i < shaped.len() && 0 <= j < shaped@[i].len() ==> glyph_sized(
                    #[trigger] shaped@[i]@[j],
                ),
            0 <= i <= cmds.len(),
            staged@.len() == staged_len(cmds, shaped@, i as int),
            forall|c: int| 0 <= c < i ==> #[trigger] stages_command(staged@, cmds, shaped@, c),
            forall|j: int| 0 <= j < staged@.len() ==> glyph_live(#[trigger] staged@[j], *maker, now),
            keeps_images(old(maker).mask(), maker.mask()),
            keeps_images(old(maker).colors(), maker.colors()),
            texts_cached(cmds, shaped@, old(maker).mask(), old(maker).colors()) ==> maker.mask()
                == old(maker).mask() && maker.colors() == old(maker).colors(),
        decreases cmds.len() - i,
    {
        let ghost before = staged@;
        let ghost m0 = *maker;
        proof {
            lemma_staged_len_grows(cmds, shaped@, i as int, i + 1);
        }
        match &commands[i] {
            Command::Sprite(s) => {
                staged.push(
                    StagedSprite {
                        source: SpriteSource::Texture(s.texture_slice.texture()),
                        src_offset: s.texture_slice.offset(),
                        src_size: s.texture_slice.size(),
                        src_layer: s.texture_slice.layer(),
                        transform: s.transform,
                        tint: s.tint,
                        glyph: None,
                    },
                );
            },
            Command::Text(sec) => {
                proof {
                    if texts_cached(cmds, shaped@, old(maker).mask(), old(maker).colors()) {
                        assert(cmds[i as int] is Text);
                        assert(all_cached(shaped@[i as int]@, old(maker).mask(), old(maker).colors()));
                    }
                }
                let sprites = match maker.make(&shaped[i], sec.tint) {
                    None => {
                        proof {
                            let gs = shaped@[i as int]@;
                            let j = choose|j: int|
                                0 <= j < gs.len() && crate::text::visible(#[trigger] gs[j]) && !atlas_for(
                                    gs[j],
                                    m0.mask(),
                                    m0.colors(),
                                ).images().contains_key(gs[j].key);
                            assert(!atlas_for(gs[j], old(maker).mask(), old(maker).colors()).images().contains_key(gs[j].key));
                            assert(!all_cached(gs, old(maker).mask(), old(maker).colors()));
                            assert(cmds[i as int] is Text);
                            assert(!all_cached(shaped@[i as int]@, old(maker).mask(), old(maker).colors()));
                            assert(!texts_cached(cmds, shaped@, old(maker).mask(), old(maker).colors()));
                            assert(cmds == canvas.commands_spec());
                            let j2 = choose|j: int|
                                0 <= j < gs.len() && crate::text::visible(#[trigger] gs[j]) && !atlas_for(
                                    gs[j],
                                    m0.mask(),
                                    m0.colors(),
                                ).images().contains_key(gs[j].key) && crate::text::no_room(
                                    gs[j],
                                    maker.mask(),
                                    maker.colors(),
                                );
                            assert(crate::text::visible(shaped@[i as int]@[j2]));
                        }
                        return Err(Error::OutOfGlyphAtlasSpace);
                    },
                    Some(sprites) => sprites,
                };
                let ghost vis = visible_glyphs(shaped@[i as int]@);
                let mut q: usize = 0;
                while q < sprites.len()
                    invariant
                        maker.wf(),
                        maker.frame() == now,
                        0 <= q <= sprites.len(),
                        sprites@.len() == vis.len(),
                        vis == visible_glyphs(shaped@[i as int]@),
                        staged@.len() == before.len() + q,
                        forall|j: int| 0 <= j < before.len() ==> #[trigger] staged@[j] == before[j],
                        forall|j: int|
                            0 <= j < sprites@.len() ==> crate::text::sprite_for(
                                #[trigger] sprites@[j],
                                vis[j],
                                sec.tint,
                                maker.mask(),
                                maker.colors(),
                            ),
                        forall|k: GlyphKey| #[trigger]
                            crate::text::touched(shaped@[i as int]@, k) ==> maker.last_use().contains_key(k)
                                && maker.last_use()[k] == now,
                        forall|j: int|
                            0 <= j < q ==> staged_glyph(
                                #[trigger] staged@[before.len() + j],
                                vis[j],
                                sec.tint,
                            ),
                        forall|j: int| 0 <= j < staged@.len() ==> glyph_live(#[trigger] staged@[j], *maker, now),
                    decreases sprites.len() - q,
                {
                    let t = sprites[q];
                    proof {
                        lemma_visible_touched(shaped@[i as int]@, q as int);
                        maker.mask().lemma_same_keys();
                        maker.colors().lemma_same_keys();
                    }
                    staged.push(
                        StagedSprite {
                            source: if t.is_mask {
                                SpriteSource::GlyphMask
                            } else {
                                SpriteSource::GlyphColor
                            },
                            src_offset: t.offset,
                            src_size: t.size,
                            src_layer: 0,
                            transform: compose(&sec.transform, &t.transform),
                            tint: t.tint,
                            glyph: Some(t.key),
                        },
                    );
                    q += 1;
                }
                proof {
                    assert forall|j: int| 0 <= j < before.len() implies glyph_live(#[trigger] staged@[j], *maker, now) by {
                        assert(glyph_live(before[j], m0, now));
                    }
                }
            },
        }
        proof {
            assert forall|c: int| 0 <= c < i + 1 implies #[trigger] stages_command(staged@, cmds, shaped@, c) by {
                if c < i {
                    assert(stages_command(before, cmds, shaped@, c));
                    lemma_staged_len_grows(cmds, shaped@, c + 1, i as int);
                    let start = staged_len(cmds, shaped@, c) as int;
                    match cmds[c] {
                        Command::Sprite(_) => {
                            assert(staged@[start] == before[start]);
                        },
                        Command::Text(sec) => {
                            assert forall|q: int|
                                0 <= q < visible_glyphs(shaped@[c]@).len() implies staged_glyph(
                                #[trigger] staged@[start + q],
                                visible_glyphs(shaped@[c]@)[q],
                                sec.tint,
                            ) by {
                                assert(staged@[start + q] == before[start + q]);
                            }
                        },
                    }
                }
            }
        }
        i += 1;
    }
    let ghost unplaced = staged@;
    let mut j: usize = 0;
    while j < staged.len()
        invariant
            maker.wf(),
            maker.frame() == now,
            now < usize::MAX,
            0 <= j <= staged.len(),
            staged@.len() == unplaced.len(),
            forall|x: int| 0 <= x < staged@.len() ==> same_but_box(#[trigger] staged@[x], unplaced[x]),
            forall|x: int| 0 <= x < staged@.len() ==> glyph_live(#[trigger] staged@[x], *maker, now),
            forall|x: int| 0 <= x < j ==> placed(#[trigger] staged@[x], maker.mask(), maker.colors()),
        decreases staged.len() - j,
    {
        let st = staged[j];
        if let Some(k) = st.glyph {
            proof {
                maker.mask().lemma_same_keys();
                maker.colors().lemma_same_keys();
                assert(glyph_live(staged@[j as int], *maker, now));
            }
            let found = match st.source {
                SpriteSource::GlyphMask => maker.mask_atlas().get(k),
                _ => maker.color_atlas().get(k),
            };
            if let Some(a) = found {
                proof {
                    source_atlas(st, maker.mask(), maker.colors()).lemma_in_bounds(k);
                }
                let placed_st = StagedSprite {
                    src_offset: glam::IVec2 { x: a.rectangle.min_x, y: a.rectangle.min_y },
                    src_size: glam::UVec2 {
                        x: (a.rectangle.max_x - a.rectangle.min_x) as u32,
                        y: (a.rectangle.max_y - a.rectangle.min_y) as u32,
                    },
                    ..st
                };
                staged.set(j, placed_st);
            }
        }
        j += 1;
    }
    let ghost m1 = *maker;
    maker.flush();
    proof {
        m1.mask().lemma_same_keys();
        m1.colors().lemma_same_keys();
        maker.mask().lemma_same_keys();
        maker.colors().lemma_same_keys();
        assert forall|x: int| 0 <= x < staged@.len() implies placed(#[trigger] staged@[x], maker.mask(), maker.colors()) by {
            assert(placed(staged@[x], m1.mask(), m1.colors()));
            assert(glyph_live(staged@[x], m1, now));
            if let Some(k) = staged@[x].glyph {
                assert(!m1.stale(k));
            }
        }
        assert forall|c: int| 0 <= c < cmds.len() implies #[trigger] stages_command(staged@, cmds, shaped@, c) by {
            assert(stages_command(unplaced, cmds, shaped@, c));
            lemma_staged_len_grows(cmds, shaped@, c + 1, cmds.len() as int);
            let start = staged_len(cmds, shaped@, c) as int;
            match cmds[c] {
                Command::Sprite(_) => {
                    assert(same_but_box(staged@[start], unplaced[start]));
                },
                Command::Text(sec) => {
                    assert forall|q: int|
                        0 <= q < visible_glyphs(shaped@[c]@).len() implies staged_glyph(
                        #[trigger] staged@[start + q],
                        visible_glyphs(shaped@[c]@)[q],
                        sec.tint,
                    ) by {
                        assert(same_but_box(staged@[start + q], unplaced[start + q]));
                    }
                },
            }
        }
    }
    Ok(staged)
}

} // verus!
