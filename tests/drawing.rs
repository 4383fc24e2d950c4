use canvasette::canvas::{Canvas, Command, Drawable, Scene};
use canvasette::color::Color;
use canvasette::texture::{SpriteTexture, TextureSlice};

fn tint_of(c: &Command<'_, ()>) -> Color {
    match c {
        Command::Sprite(s) => s.tint,
        Command::Text(t) => t.tint,
    }
}

#[test]
fn tint_multiplies_channels_rounding_down() {
    let c = Color::new(200, 100, 255, 0).tint(Color::new(100, 200, 255, 255));
    assert_eq!(c, Color::new(78, 78, 255, 0));
}

#[test]
fn white_tinted_keeps_the_tint() {
    let t = Color::new(128, 64, 32, 16);
    assert_eq!(Color::white().tint(t), t);
    let mut canvas: Canvas<'_, ()> = Canvas::new();
    canvas.draw(Drawable::Text(()).tinted(t), glam::Affine2::IDENTITY);
    assert_eq!(tint_of(&canvas.commands()[0]), Color::new(128, 64, 32, 16));
}

#[test]
fn nested_tints_commute_on_white() {
    let a = Color::new(128, 64, 32, 16);
    let b = Color::new(200, 10, 255, 77);
    let mut canvas: Canvas<'_, ()> = Canvas::new();
    canvas.draw(Drawable::Text(()).tinted(a).tinted(b), glam::Affine2::IDENTITY);
    canvas.draw(Drawable::Text(()).tinted(b).tinted(a), glam::Affine2::IDENTITY);
    let first = tint_of(&canvas.commands()[0]);
    let second = tint_of(&canvas.commands()[1]);
    assert_eq!(first, second);
    assert_eq!(first, a.tint(b));
}

#[test]
fn canvas_keeps_draw_order() {
    let tex = SpriteTexture::new(vec![0; 4 * 4 * 4], glam::UVec2::new(4, 4), 1, 1);
    let slice = TextureSlice::from_layer(&tex, 0).unwrap();
    let mut canvas: Canvas<'_, u8> = Canvas::new();
    canvas.draw(Drawable::Slice(slice), glam::Affine2::IDENTITY);
    canvas.draw(Drawable::Text(7), glam::Affine2::IDENTITY);
    canvas.draw(Drawable::Slice(slice), glam::Affine2::from_translation(glam::Vec2::new(1.0, 0.0)));
    let cmds = canvas.commands();
    assert_eq!(cmds.len(), 3);
    assert!(matches!(cmds[0], Command::Sprite(_)));
    assert!(matches!(&cmds[1], Command::Text(t) if t.text == 7));
    assert!(matches!(cmds[2], Command::Sprite(_)));
}

#[test]
fn scene_composes_parent_after_child() {
    let tex = SpriteTexture::new(vec![0; 4 * 4 * 4], glam::UVec2::new(4, 4), 1, 1);
    let slice = TextureSlice::from_layer(&tex, 0).unwrap();
    let mut scene: Scene<'_, ()> = Scene::new(glam::Affine2::from_translation(glam::Vec2::new(10.0, 0.0)));
    let child = scene.add_child(0, glam::Affine2::from_translation(glam::Vec2::new(0.0, 5.0)));
    scene.draw(child, Drawable::Slice(slice), glam::Affine2::IDENTITY);
    let canvas = scene.flatten();
    let p = canvas.commands()[0].transform().transform_point2(glam::Vec2::ZERO);
    assert_eq!(p, glam::Vec2::new(10.0, 5.0));
}

#[test]
fn scene_applies_own_transform_first() {
    let mut scene: Scene<'_, u8> = Scene::new(glam::Affine2::from_scale(glam::Vec2::new(2.0, 2.0)));
    let child = scene.add_child(0, glam::Affine2::from_translation(glam::Vec2::new(1.0, 0.0)));
    scene.draw(0, Drawable::Text(1), glam::Affine2::IDENTITY);
    scene.draw(child, Drawable::Text(2), glam::Affine2::from_translation(glam::Vec2::new(0.0, 3.0)));
    scene.draw(0, Drawable::Text(3), glam::Affine2::IDENTITY);
    let canvas = scene.flatten();
    let cmds = canvas.commands();
    let texts: Vec<u8> = cmds.iter().map(|c| match c { Command::Text(t) => t.text, _ => 0 }).collect();
    assert_eq!(texts, vec![1, 2, 3]);
    assert_eq!(cmds[1].transform().transform_point2(glam::Vec2::ZERO), glam::Vec2::new(2.0, 6.0));
}

#[test]
fn slices_stay_inside_their_parent() {
    let tex = SpriteTexture::new(vec![0; 300 * 200 * 4], glam::UVec2::new(300, 200), 2, 9);
    assert!(TextureSlice::from_layer(&tex, 2).is_none());
    let whole = TextureSlice::from_layer(&tex, 1).unwrap();
    assert_eq!(whole.size(), glam::UVec2::new(300, 200));
    assert_eq!(whole.layer(), 1);
    let part = whole.slice(glam::IVec2::new(10, 20), glam::UVec2::new(100, 50)).unwrap();
    assert_eq!(part.offset(), glam::IVec2::new(10, 20));
    let inner = part.slice(glam::IVec2::new(5, 5), glam::UVec2::new(95, 45)).unwrap();
    assert_eq!(inner.offset(), glam::IVec2::new(15, 25));
    assert!(part.slice(glam::IVec2::new(5, 5), glam::UVec2::new(96, 45)).is_none());
    assert!(part.slice(glam::IVec2::new(-1, 0), glam::UVec2::new(1, 1)).is_none());
    assert!(whole.slice(glam::IVec2::new(i32::MAX, 0), glam::UVec2::new(1, 1)).is_none());
}

#[test]
fn managed_texture_reports_its_size() {
    let tex = SpriteTexture::new(vec![0; 8 * 2 * 4 * 3], glam::UVec2::new(8, 2), 3, 4);
    let size = tex.size();
    assert_eq!((size.width, size.height, size.depth_or_array_layers), (8, 2, 3));
}

#[test]
fn very_wide_textures_still_slice() {
    let tex = SpriteTexture::new(vec![], glam::UVec2::new(u32::MAX, 1), 1, 2);
    let whole = TextureSlice::from_layer(&tex, 0).unwrap();
    assert_eq!(whole.size(), glam::UVec2::new(u32::MAX, 1));
    let part = whole.slice(glam::IVec2::new(i32::MAX, 0), glam::UVec2::new(1, 1)).unwrap();
    assert_eq!(part.offset(), glam::IVec2::new(i32::MAX, 0));
    assert!(part.slice(glam::IVec2::new(1, 0), glam::UVec2::new(0, 1)).is_none());
}
