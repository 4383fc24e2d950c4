use canvasette::color::Color;
use canvasette::key::GlyphKey;
use canvasette::text::{GlyphContent, GlyphImage, RasterGlyph, SpriteMaker, MAX_CACHE_AGE};

fn key(n: u16) -> GlyphKey {
    GlyphKey { font_id: 3, glyph_id: n, font_size_bits: 0x4180_0000, x_bin: 1, y_bin: 2, flags: 0 }
}

fn glyph(n: u16, content: GlyphContent, w: u32, h: u32) -> RasterGlyph {
    let bpp = if content == GlyphContent::Color { 4 } else { 1 };
    RasterGlyph {
        key: key(n),
        image: Some(GlyphImage { content, width: w, height: h, data: vec![n as u8; (w * h * bpp) as usize] }),
        color: None,
        transform: glam::Affine2::from_translation(glam::Vec2::new(n as f32, 2.0)),
    }
}

#[test]
fn make_places_each_visible_glyph() {
    let mut maker = SpriteMaker::new();
    let red = Color::new(255, 0, 0, 255);
    let mut own = glyph(2, GlyphContent::Mask, 5, 6);
    own.color = Some(Color::new(1, 2, 3, 4));
    let glyphs = vec![
        glyph(1, GlyphContent::Mask, 8, 9),
        glyph(9, GlyphContent::Mask, 0, 7),
        RasterGlyph { key: key(4), image: None, color: None, transform: glam::Affine2::IDENTITY },
        own,
        glyph(3, GlyphContent::Color, 4, 4),
    ];
    let sprites = maker.make(&glyphs, red).expect("room");
    assert_eq!(sprites.len(), 3);
    assert_eq!(sprites[0].key, key(1));
    assert!(sprites[0].is_mask);
    assert_eq!(sprites[0].tint, red);
    assert!(sprites[0].size.x >= 8 && sprites[0].size.y >= 9);
    assert_eq!(sprites[0].transform, glyphs[0].transform);
    assert_eq!(sprites[1].key, key(2));
    assert_eq!(sprites[1].tint, Color::new(1, 0, 0, 4));
    assert_eq!(sprites[2].key, key(3));
    assert!(!sprites[2].is_mask);
    assert_eq!(sprites[2].tint, Color::white());
    let m = maker.mask_atlas().get(key(1)).unwrap();
    assert_eq!((sprites[0].offset.x, sprites[0].offset.y), (m.rectangle.min_x, m.rectangle.min_y));
    assert!(maker.color_atlas().get(key(3)).is_some());
    assert!(maker.mask_atlas().get(key(3)).is_none());
    assert!(maker.mask_atlas().get(key(9)).is_none());
}

#[test]
fn repeated_glyphs_are_uploaded_once() {
    let mut maker = SpriteMaker::new();
    maker.take_ops();
    let glyphs = vec![glyph(1, GlyphContent::Mask, 8, 8), glyph(1, GlyphContent::Mask, 8, 8)];
    let first = maker.make(&glyphs, Color::white()).unwrap();
    let second = maker.make(&glyphs, Color::white()).unwrap();
    assert_eq!(first[0].offset, first[1].offset);
    assert_eq!(first[0].offset, second[0].offset);
    let (mask_ops, color_ops) = maker.take_ops();
    assert_eq!(mask_ops.len(), 1);
    assert!(color_ops.is_empty());
}

#[test]
fn unused_glyphs_are_evicted_after_the_horizon() {
    let mut maker = SpriteMaker::new();
    maker.make(&vec![glyph(1, GlyphContent::Mask, 8, 8), glyph(2, GlyphContent::Color, 8, 8)], Color::white())
        .unwrap();
    for _ in 0..MAX_CACHE_AGE {
        maker.flush();
    }
    assert!(maker.mask_atlas().get(key(1)).is_some());
    assert!(maker.color_atlas().get(key(2)).is_some());
    maker.flush();
    assert!(maker.mask_atlas().get(key(1)).is_none());
    assert!(maker.color_atlas().get(key(2)).is_none());
}

#[test]
fn glyphs_used_every_ninety_nine_frames_stay() {
    let mut maker = SpriteMaker::new();
    let used = vec![glyph(1, GlyphContent::Mask, 8, 8)];
    let idle = vec![glyph(2, GlyphContent::Mask, 8, 8)];
    maker.make(&used, Color::white()).unwrap();
    maker.make(&idle, Color::white()).unwrap();
    for frame in 0..500 {
        if frame % 99 == 98 {
            maker.make(&used, Color::white()).unwrap();
        }
        maker.flush();
        assert!(maker.mask_atlas().get(key(1)).is_some());
    }
    assert!(maker.mask_atlas().get(key(2)).is_none());
}

#[test]
fn eviction_zeroes_the_glyph_box() {
    let mut maker = SpriteMaker::new();
    maker.make(&vec![glyph(5, GlyphContent::Mask, 8, 8)], Color::white()).unwrap();
    maker.take_ops();
    for _ in 0..=MAX_CACHE_AGE {
        maker.flush();
    }
    let (mask_ops, _) = maker.take_ops();
    assert_eq!(mask_ops.len(), 1);
    assert!(matches!(mask_ops[0], canvasette::atlas::AtlasOp::Clear { .. }));
}

#[test]
fn a_glyph_with_no_room_left_fails() {
    let mut maker = SpriteMaker::new();
    let huge = |n: u16| RasterGlyph {
        key: key(n),
        image: Some(GlyphImage { content: GlyphContent::Mask, width: 8192, height: 8192, data: vec![1; 8192 * 8192] }),
        color: None,
        transform: glam::Affine2::IDENTITY,
    };
    assert!(maker.make(&vec![huge(1)], Color::white()).is_some());
    assert_eq!(maker.mask_atlas().size(), (8192, 8192));
    assert!(maker.make(&vec![huge(2)], Color::white()).is_none());
    assert!(maker.make(&vec![huge(1)], Color::white()).is_some());
}

#[test]
fn glyph_color_modulates_the_text_tint() {
    let mut maker = SpriteMaker::new();
    let mut g = glyph(1, GlyphContent::Mask, 2, 2);
    g.color = Some(Color::new(100, 100, 100, 100));
    let sprites = maker.make(&vec![g], Color::new(0, 0, 0, 0)).unwrap();
    assert_eq!(sprites[0].tint, Color::new(0, 0, 0, 0));
    let mut h = glyph(2, GlyphContent::Mask, 2, 2);
    h.color = Some(Color::new(100, 100, 100, 100));
    let sprites = maker.make(&vec![h], Color::new(255, 128, 51, 255)).unwrap();
    assert_eq!(sprites[0].tint, Color::new(100, 50, 20, 100));
}
