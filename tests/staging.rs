use canvasette::cache::{textures_to_upload, Cache};
use canvasette::canvas::{Canvas, Drawable};
use canvasette::color::Color;
use canvasette::key::GlyphKey;
use canvasette::render::{stage, Error, SpriteSource};
use canvasette::text::{GlyphContent, GlyphImage, RasterGlyph, SpriteMaker};
use canvasette::texture::{SpriteTexture, TextureSlice};

fn glyph(n: u16, w: u32, h: u32) -> RasterGlyph {
    RasterGlyph {
        key: GlyphKey { font_id: 1, glyph_id: n, font_size_bits: 1, x_bin: 0, y_bin: 0, flags: 0 },
        image: Some(GlyphImage { content: GlyphContent::Mask, width: w, height: h, data: vec![9; (w * h) as usize] }),
        color: None,
        transform: glam::Affine2::from_translation(glam::Vec2::new(n as f32, 0.0)),
    }
}

#[test]
fn staging_keeps_draw_order_and_expands_text() {
    let tex = SpriteTexture::new(vec![0; 16 * 16 * 4], glam::UVec2::new(16, 16), 1, 5);
    let slice = TextureSlice::from_layer(&tex, 0).unwrap().slice(glam::IVec2::new(2, 3), glam::UVec2::new(4, 5)).unwrap();
    let mut canvas: Canvas<'_, ()> = Canvas::new();
    canvas.draw(Drawable::Slice(slice), glam::Affine2::IDENTITY);
    canvas.draw(Drawable::Text(()).tinted(Color::new(10, 20, 30, 255)), glam::Affine2::from_translation(glam::Vec2::new(100.0, 0.0)));
    canvas.draw(Drawable::Slice(slice).tinted(Color::new(0, 0, 0, 0)), glam::Affine2::IDENTITY);
    let shaped = vec![vec![], vec![glyph(1, 6, 7), glyph(2, 0, 0), glyph(3, 5, 5)], vec![]];
    let mut maker = SpriteMaker::new();
    let staged = stage(&mut maker, &canvas, &shaped).unwrap_or_else(|_| panic!("room"));
    assert_eq!(staged.len(), 4);
    assert!(matches!(staged[0].source, SpriteSource::Texture(_)));
    assert_eq!(staged[0].src_offset, glam::IVec2::new(2, 3));
    assert_eq!(staged[0].src_size, glam::UVec2::new(4, 5));
    assert_eq!(staged[0].tint, Color::white());
    assert!(matches!(staged[1].source, SpriteSource::GlyphMask));
    assert_eq!(staged[1].tint, Color::new(10, 20, 30, 255));
    assert_eq!(staged[1].transform.transform_point2(glam::Vec2::ZERO), glam::Vec2::new(101.0, 0.0));
    assert_eq!(staged[2].glyph.unwrap().glyph_id, 3);
    assert_eq!(staged[3].tint, Color::new(0, 0, 0, 0));
    let a = maker.mask_atlas().get(staged[1].glyph.unwrap()).unwrap();
    assert_eq!(staged[1].src_offset, glam::IVec2::new(a.rectangle.min_x, a.rectangle.min_y));
}

#[test]
fn glyph_sprites_follow_their_glyphs_when_the_atlas_grows() {
    let mut canvas: Canvas<'_, ()> = Canvas::new();
    canvas.draw(Drawable::Text(()), glam::Affine2::IDENTITY);
    canvas.draw(Drawable::Text(()), glam::Affine2::IDENTITY);
    let first: Vec<RasterGlyph> = (0..200).map(|n| glyph(n, 64, 64)).collect();
    let second: Vec<RasterGlyph> = (200..400).map(|n| glyph(n, 64, 64)).collect();
    let mut maker = SpriteMaker::new();
    let staged = stage(&mut maker, &canvas, &vec![first, second]).unwrap_or_else(|_| panic!("room"));
    assert_eq!(staged.len(), 400);
    assert!(maker.mask_atlas().size().0 > 1024);
    for s in &staged {
        let a = maker.mask_atlas().get(s.glyph.unwrap()).unwrap();
        assert_eq!(s.src_offset, glam::IVec2::new(a.rectangle.min_x, a.rectangle.min_y));
    }
}

#[test]
fn staging_reports_an_exhausted_glyph_atlas() {
    let mut canvas: Canvas<'_, ()> = Canvas::new();
    canvas.draw(Drawable::Text(()), glam::Affine2::IDENTITY);
    canvas.draw(Drawable::Text(()), glam::Affine2::IDENTITY);
    let shaped = vec![vec![glyph(1, 8192, 8192)], vec![glyph(2, 8192, 8192)]];
    let mut maker = SpriteMaker::new();
    let r = stage(&mut maker, &canvas, &shaped);
    assert!(matches!(r, Err(Error::OutOfGlyphAtlasSpace)));
    assert_eq!(Error::OutOfGlyphAtlasSpace.message(), "out of glyph atlas space");
}

#[test]
fn each_missing_texture_is_uploaded_once() {
    let a = SpriteTexture::new(vec![0; 4 * 4 * 4], glam::UVec2::new(4, 4), 1, 11);
    let b = SpriteTexture::new(vec![0; 4 * 4 * 4], glam::UVec2::new(4, 4), 1, 12);
    let sa = TextureSlice::from_layer(&a, 0).unwrap();
    let sb = TextureSlice::from_layer(&b, 0).unwrap();
    let mut canvas: Canvas<'_, ()> = Canvas::new();
    canvas.draw(Drawable::Slice(sa), glam::Affine2::IDENTITY);
    canvas.draw(Drawable::Text(()), glam::Affine2::IDENTITY);
    canvas.draw(Drawable::Slice(sb), glam::Affine2::IDENTITY);
    canvas.draw(Drawable::Slice(sa), glam::Affine2::IDENTITY);
    let cache = Cache::new();
    let pending = textures_to_upload(&cache, &canvas);
    let ids: Vec<u64> = pending
        .iter()
        .map(|t| match t {
            SpriteTexture::Managed { id, .. } => *id,
            SpriteTexture::Unmanaged { .. } => 0,
        })
        .collect();
    assert_eq!(ids, vec![11, 12]);
    assert!(!cache.contains(11));
}

#[test]
fn sprites_alone_always_stage() {
    let tex = SpriteTexture::new(vec![0; 4 * 4 * 4], glam::UVec2::new(4, 4), 1, 5);
    let slice = TextureSlice::from_layer(&tex, 0).unwrap();
    let mut canvas: Canvas<'_, ()> = Canvas::new();
    canvas.draw(Drawable::Slice(slice), glam::Affine2::IDENTITY);
    let mut maker = SpriteMaker::new();
    assert!(stage(&mut maker, &canvas, &vec![vec![]]).is_ok());
    assert_eq!(maker.frame_count(), 1);
}
