use canvasette::packer::MAX_ALLOCATIONS;
use canvasette::atlas::{Atlas, AtlasOp, PixelFormat, INITIAL_SIZE};
use canvasette::key::GlyphKey;
use canvasette::packer::Allocation;

fn key(n: u16) -> GlyphKey {
    GlyphKey { font_id: 1, glyph_id: n, font_size_bits: 16, x_bin: 0, y_bin: 0, flags: 0 }
}

fn image(n: u16, w: u32, h: u32, bpp: u32) -> Vec<u8> {
    (0..w * h * bpp).map(|i| (i as u16).wrapping_mul(7).wrapping_add(n) as u8 | 1).collect()
}

/// A CPU copy of an atlas texture that carries out the atlas's operations.
struct CpuTexture {
    width: u32,
    height: u32,
    bpp: u32,
    bytes: Vec<u8>,
}

impl CpuTexture {
    fn new(bpp: u32) -> Self {
        CpuTexture { width: 0, height: 0, bpp, bytes: vec![] }
    }

    fn at(&self, x: u32, y: u32) -> usize {
        ((y * self.width + x) * self.bpp) as usize
    }

    fn pixel(&self, x: u32, y: u32) -> &[u8] {
        let i = self.at(x, y);
        &self.bytes[i..i + self.bpp as usize]
    }

    fn apply(&mut self, ops: Vec<AtlasOp>) {
        for op in ops {
            match op {
                AtlasOp::Grow { width, height, copies } => {
                    let mut next = CpuTexture {
                        width,
                        height,
                        bpp: self.bpp,
                        bytes: vec![0; (width * height * self.bpp) as usize],
                    };
                    for c in copies {
                        for j in 0..c.height {
                            for i in 0..c.width {
                                let s = self.at(c.src_x + i, c.src_y + j);
                                let d = next.at(c.dst_x + i, c.dst_y + j);
                                let n = self.bpp as usize;
                                next.bytes[d..d + n].copy_from_slice(&self.bytes[s..s + n]);
                            }
                        }
                    }
                    *self = next;
                }
                AtlasOp::Upload { x, y, width, height, data } => {
                    for j in 0..height {
                        for i in 0..width {
                            let d = self.at(x + i, y + j);
                            let s = ((j * width + i) * self.bpp) as usize;
                            let n = self.bpp as usize;
                            self.bytes[d..d + n].copy_from_slice(&data[s..s + n]);
                        }
                    }
                }
                AtlasOp::Clear { x, y, width, height } => {
                    for j in 0..height {
                        for i in 0..width {
                            let d = self.at(x + i, y + j);
                            let n = self.bpp as usize;
                            self.bytes[d..d + n].iter_mut().for_each(|b| *b = 0);
                        }
                    }
                }
            }
        }
    }

    fn shows(&self, a: &Allocation, w: u32, h: u32, data: &[u8]) -> bool {
        let n = self.bpp as usize;
        (0..h).all(|j| {
            (0..w).all(|i| {
                let s = ((j * w + i) * self.bpp) as usize;
                self.pixel(a.rectangle.min_x as u32 + i, a.rectangle.min_y as u32 + j) == &data[s..s + n]
            })
        })
    }
}

fn overlaps(a: &Allocation, b: &Allocation) -> bool {
    let (a, b) = (a.rectangle, b.rectangle);
    a.min_x < b.max_x && b.min_x < a.max_x && a.min_y < b.max_y && b.min_y < a.max_y
}

#[test]
fn new_atlas_starts_with_one_texture() {
    let mut atlas = Atlas::new(PixelFormat::Mask);
    assert_eq!(atlas.size(), (INITIAL_SIZE, INITIAL_SIZE));
    let ops = atlas.take_ops();
    assert_eq!(ops.len(), 1);
    assert!(matches!(&ops[0], AtlasOp::Grow { width: 1024, height: 1024, copies } if copies.is_empty()));
    assert!(atlas.take_ops().is_empty());
}

#[test]
fn five_glyphs_fit_without_growing() {
    let mut atlas = Atlas::new(PixelFormat::Mask);
    atlas.take_ops();
    for n in 0..5 {
        assert!(atlas.add(key(n), image(n, 64, 64, 1), 64, 64).is_some());
    }
    assert_eq!(atlas.size(), (1024, 1024));
    let ops = atlas.take_ops();
    assert_eq!(ops.len(), 5);
    assert!(ops.iter().all(|op| matches!(op, AtlasOp::Upload { .. })));
}

#[test]
fn three_hundred_glyphs_grow_and_stay_retrievable() {
    let mut atlas = Atlas::new(PixelFormat::Mask);
    let mut tex = CpuTexture::new(1);
    for n in 0..300 {
        let a = atlas.add(key(n), image(n, 64, 64, 1), 64, 64).expect("room");
        assert!(a.rectangle.max_x - a.rectangle.min_x >= 64);
        assert!(a.rectangle.max_y - a.rectangle.min_y >= 64);
    }
    assert!(atlas.size().0 > 1024 && atlas.size().1 > 1024);
    let ops = atlas.take_ops();
    assert!(ops.iter().filter(|op| matches!(op, AtlasOp::Grow { .. })).count() >= 2);
    tex.apply(ops);
    let allocations: Vec<Allocation> = (0..300).map(|n| atlas.get(key(n)).expect("kept")).collect();
    for (n, a) in allocations.iter().enumerate() {
        assert!(a.rectangle.max_x as u32 <= atlas.size().0);
        assert!(a.rectangle.max_y as u32 <= atlas.size().1);
        assert!(tex.shows(a, 64, 64, &image(n as u16, 64, 64, 1)));
    }
    for i in 0..allocations.len() {
        for j in i + 1..allocations.len() {
            assert!(!overlaps(&allocations[i], &allocations[j]));
        }
    }
}

#[test]
fn growth_keeps_color_pixels() {
    let mut atlas = Atlas::new_with_initial_size(PixelFormat::Color, 128, 128);
    let mut tex = CpuTexture::new(4);
    for n in 0..40 {
        atlas.add(key(n), image(n, 30, 20, 4), 30, 20).expect("room");
    }
    assert!(atlas.size().0 > 128);
    tex.apply(atlas.take_ops());
    for n in 0..40 {
        let a = atlas.get(key(n)).unwrap();
        assert!(tex.shows(&a, 30, 20, &image(n, 30, 20, 4)));
    }
}

#[test]
fn adding_a_key_twice_returns_the_same_box_and_uploads_once() {
    let mut atlas = Atlas::new(PixelFormat::Mask);
    atlas.take_ops();
    let first = atlas.add(key(7), image(7, 10, 12, 1), 10, 12).unwrap();
    let second = atlas.add(key(7), image(7, 10, 12, 1), 10, 12).unwrap();
    assert_eq!(first, second);
    assert_eq!(atlas.get(key(7)), Some(first));
    assert_eq!(atlas.take_ops().len(), 1);
}

#[test]
fn distinct_keys_get_disjoint_boxes() {
    let mut atlas = Atlas::new(PixelFormat::Mask);
    let sizes = [(10, 10), (300, 20), (5, 400), (64, 64), (1, 1), (200, 200)];
    let allocations: Vec<Allocation> = sizes
        .iter()
        .enumerate()
        .map(|(n, &(w, h))| atlas.add(key(n as u16), image(n as u16, w, h, 1), w, h).unwrap())
        .collect();
    for i in 0..allocations.len() {
        for j in i + 1..allocations.len() {
            assert!(!overlaps(&allocations[i], &allocations[j]));
        }
    }
}

#[test]
fn removal_zeroes_the_box_before_reuse() {
    let mut atlas = Atlas::new(PixelFormat::Mask);
    let mut tex = CpuTexture::new(1);
    let a = atlas.add(key(1), image(1, 40, 40, 1), 40, 40).unwrap();
    tex.apply(atlas.take_ops());
    assert!(tex.shows(&a, 40, 40, &image(1, 40, 40, 1)));
    atlas.remove(key(1));
    assert_eq!(atlas.get(key(1)), None);
    let ops = atlas.take_ops();
    assert_eq!(ops.len(), 1);
    assert!(matches!(ops[0], AtlasOp::Clear { width: w, height: h, .. } if w as i32 == a.rectangle.max_x - a.rectangle.min_x && h as i32 == a.rectangle.max_y - a.rectangle.min_y));
    tex.apply(ops);
    for y in a.rectangle.min_y..a.rectangle.max_y {
        for x in a.rectangle.min_x..a.rectangle.max_x {
            assert_eq!(tex.pixel(x as u32, y as u32), &[0]);
        }
    }
    let b = atlas.add(key(2), image(2, 20, 20, 1), 20, 20).unwrap();
    tex.apply(atlas.take_ops());
    assert!(tex.shows(&b, 20, 20, &image(2, 20, 20, 1)));
}

#[test]
fn removing_a_missing_key_changes_nothing() {
    let mut atlas = Atlas::new(PixelFormat::Mask);
    atlas.take_ops();
    atlas.remove(key(3));
    assert!(atlas.take_ops().is_empty());
}

#[test]
fn empty_images_are_refused() {
    let mut atlas = Atlas::new(PixelFormat::Mask);
    atlas.take_ops();
    assert_eq!(atlas.add(key(1), vec![], 0, 5), None);
    assert_eq!(atlas.add(key(2), vec![], 5, 0), None);
    assert!(atlas.take_ops().is_empty());
    assert_eq!(atlas.get(key(1)), None);
    assert_eq!(atlas.size(), (1024, 1024));
}

#[test]
fn growth_stops_at_the_largest_size() {
    let mut atlas = Atlas::new_with_initial_size(PixelFormat::Mask, 4096, 4096);
    assert!(atlas.add(key(1), vec![1; 5000 * 8], 5000, 8).is_some());
    assert_eq!(atlas.size(), (8192, 8192));
    let big = vec![1u8; 8192 * 8192];
    assert_eq!(atlas.add(key(2), big, 8192, 8192), None);
    assert_eq!(atlas.size(), (8192, 8192));
    assert!(atlas.get(key(1)).is_some());
}

#[test]
fn an_image_as_large_as_an_empty_atlas_fits_without_growing() {
    let mut atlas = Atlas::new_with_initial_size(PixelFormat::Mask, 64, 32);
    atlas.take_ops();
    let a = atlas.add(key(1), vec![5; 64 * 32], 64, 32).unwrap();
    assert_eq!(atlas.size(), (64, 32));
    assert_eq!(a.rectangle.min_x, 0);
    assert_eq!(a.rectangle.min_y, 0);
    let ops = atlas.take_ops();
    assert_eq!(ops.len(), 1);
    assert!(matches!(ops[0], AtlasOp::Upload { x: 0, y: 0, width: 64, height: 32, .. }));
}

#[test]
fn growth_doubles_both_sides() {
    let mut atlas = Atlas::new_with_initial_size(PixelFormat::Mask, 100, 30);
    atlas.take_ops();
    atlas.add(key(1), vec![5; 90 * 20], 90, 20).unwrap();
    atlas.add(key(2), vec![5; 90 * 20], 90, 20).unwrap();
    assert_eq!(atlas.size(), (200, 60));
    let ops = atlas.take_ops();
    assert!(matches!(ops[1], AtlasOp::Grow { width: 200, height: 60, .. }));
    assert!(matches!(ops[2], AtlasOp::Upload { .. }));
}

#[test]
fn an_atlas_holds_at_most_the_allocation_cap() {
    let mut atlas = Atlas::new(PixelFormat::Mask);
    for n in 0..MAX_ALLOCATIONS {
        let k = GlyphKey { font_id: n as u64, glyph_id: 0, font_size_bits: 0, x_bin: 0, y_bin: 0, flags: 0 };
        assert!(atlas.add(k, vec![1], 1, 1).is_some());
    }
    let last = GlyphKey { font_id: u64::MAX, glyph_id: 0, font_size_bits: 0, x_bin: 0, y_bin: 0, flags: 0 };
    assert_eq!(atlas.add(last, vec![1], 1, 1), None);
    let first = GlyphKey { font_id: 0, glyph_id: 0, font_size_bits: 0, x_bin: 0, y_bin: 0, flags: 0 };
    atlas.remove(first);
    assert!(atlas.add(last, vec![1], 1, 1).is_some());
}
