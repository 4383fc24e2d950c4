//! Textures that sprites are drawn from, and slices of them.
use crate::geometry::Rect;
use crate::gpu::{gpu_texture_size, sampled_usages};
use vstd::prelude::*;

verus! {

/// An image of `layers` layers of `size.x` by `size.y` pixels each.
pub struct Img<Pixels> {
    pixels: Pixels,
    size: glam::UVec2,
    layers: u32,
}

impl<Pixels> Img<Pixels> {
    pub closed spec fn pixels_spec(&self) -> Pixels {
        self.pixels
    }

    pub closed spec fn size_spec(&self) -> glam::UVec2 {
        self.size
    }

    pub closed spec fn layers_spec(&self) -> u32 {
        self.layers
    }

    pub fn new(pixels: Pixels, size: glam::UVec2, layers: u32) -> (r: Self)
        ensures
            r.pixels_spec() == pixels,
            r.size_spec() == size,
            r.layers_spec() == layers,
    {
        Img { pixels, size, layers }
    }

    pub fn size(&self) -> (r: glam::UVec2)
        ensures
            r == self.size_spec(),
    {
        self.size
    }

    pub fn layers(&self) -> (r: u32)
        ensures
            r == self.layers_spec(),
    {
        self.layers
    }
}

impl<Pixel> Img<Vec<Pixel>> {
    /// The pixels, layer after layer, row after row.
    pub fn as_buf(&self) -> (r: &[Pixel])
        ensures
            r@ == self.pixels_spec()@,
    {
        self.pixels.as_slice()
    }
}

/// A texture to draw sprites from.
pub enum SpriteTexture {
    /// Pixels kept by the library, uploaded when first drawn and again
    /// after the GPU state was lost. `id` tells managed textures apart.
    Managed { image: Img<Vec<u8>>, usages: wgpu::TextureUsages, id: u64 },
    /// A texture that the caller created and keeps alive.
    Unmanaged { texture: wgpu::Texture },
}

impl SpriteTexture {
    /// A managed texture with the given usages. `id` must differ from that
    /// of every other managed texture alive.
    pub fn new_with_usages(
        pixels: Vec<u8>,
        size: glam::UVec2,
        layers: u32,
        usages: wgpu::TextureUsages,
        id: u64,
    ) -> (t: SpriteTexture)
        ensures
            t matches SpriteTexture::Managed { image, usages: u, id: i } && i == id && u == usages
                && image.pixels_spec()@ == pixels@ && image.size_spec() == size
                && image.layers_spec() == layers,
    {
        SpriteTexture::Managed { image: Img::new(pixels, size, layers), usages, id }
    }

    /// A managed texture that can be sampled and written to.
    pub fn new(pixels: Vec<u8>, size: glam::UVec2, layers: u32, id: u64) -> (t: SpriteTexture)
        ensures
            t matches SpriteTexture::Managed { image, id: i, .. } && i == id && image.pixels_spec()@
                == pixels@ && image.size_spec() == size && image.layers_spec() == layers,
    {
        Self::new_with_usages(pixels, size, layers, sampled_usages(), id)
    }

    /// Wraps a texture that the caller manages.
    pub fn from_raw(texture: wgpu::Texture) -> (t: SpriteTexture)
        ensures
            t matches SpriteTexture::Unmanaged { texture: x } && x == texture,
    {
        SpriteTexture::Unmanaged { texture }
    }

    /// The size of a managed texture, known without asking the GPU.
    pub open spec fn managed_size(&self) -> Option<wgpu::Extent3d> {
        match self {
            SpriteTexture::Managed { image, .. } => Some(
                wgpu::Extent3d {
                    width: image.size_spec().x,
                    height: image.size_spec().y,
                    depth_or_array_layers: image.layers_spec(),
                },
            ),
            SpriteTexture::Unmanaged { .. } => None,
        }
    }

    /// The width, height and number of layers.
    pub fn size(&self) -> (r: wgpu::Extent3d)
        ensures
            self.managed_size() matches Some(s) ==> r == s,
    {
        match self {
            SpriteTexture::Managed { image, .. } => {
                let size = image.size();
                wgpu::Extent3d {
                    width: size.x,
                    height: size.y,
                    depth_or_array_layers: image.layers(),
                }
            },
            SpriteTexture::Unmanaged { texture } => gpu_texture_size(texture),
        }
    }
}

/// A rectangle of one layer of a texture.
#[derive(Clone, Copy)]
pub struct TextureSlice<'a> {
    texture: &'a SpriteTexture,
    layer: u32,
    rect: Rect,
}

impl<'a> TextureSlice<'a> {
    /// The rectangle starts at no negative position.
    #[verifier::type_invariant]
    spec fn inv(&self) -> bool {
        &&& self.rect.x >= 0
        &&& self.rect.y >= 0
    }

    pub closed spec fn texture_spec(&self) -> &'a SpriteTexture {
        self.texture
    }

    pub closed spec fn layer_spec(&self) -> u32 {
        self.layer
    }

    pub closed spec fn rect_spec(&self) -> Rect {
        self.rect
    }

    /// The whole of one layer. `None` when the texture has no such layer.
    pub fn from_layer(texture: &'a SpriteTexture, layer: u32) -> (r: Option<Self>)
        ensures
            r matches Some(s) ==> s.texture_spec() == texture && s.layer_spec() == layer
                && s.rect_spec().x == 0 && s.rect_spec().y == 0,
            texture.managed_size() matches Some(e) ==> (r is Some <==> layer
                < e.depth_or_array_layers),
            texture.managed_size() matches Some(e) ==> (r is Some ==> r->Some_0.rect_spec()
                == Rect::new_spec(0, 0, e.width, e.height)),
    {
        let size = texture.size();
        if layer >= size.depth_or_array_layers {
            return None;
        }
        Some(TextureSlice { texture, layer, rect: Rect::new(0, 0, size.width, size.height) })
    }

    /// The part of this slice at `offset` within it, of the given size.
    /// `None` when that part does not lie inside this slice, or when its
    /// offset in the texture is past what an `i32` offset can hold.
    pub fn slice(&self, offset: glam::IVec2, size: glam::UVec2) -> (r: Option<Self>)
        ensures
            r is Some <==> (0 <= offset.x && offset.x + size.x <= self.rect_spec().width && 0
                <= offset.y && offset.y + size.y <= self.rect_spec().height
                && self.rect_spec().x + offset.x <= i32::MAX && self.rect_spec().y + offset.y
                <= i32::MAX),
            r matches Some(s) ==> s.texture_spec() == self.texture_spec() && s.layer_spec()
                == self.layer_spec() && s.rect_spec() == Rect::new_spec(
                (self.rect_spec().x + offset.x) as i32,
                (self.rect_spec().y + offset.y) as i32,
                size.x,
                size.y,
            ),
    {
        proof {
            use_type_invariant(self);
        }
        let x = self.rect.x as i64 + offset.x as i64;
        let y = self.rect.y as i64 + offset.y as i64;
        if x < self.rect.x as i64 || x + size.x as i64 > self.rect.x as i64 + self.rect.width as i64
            || y < self.rect.y as i64 || y + size.y as i64 > self.rect.y as i64
            + self.rect.height as i64 || x > i32::MAX as i64 || y > i32::MAX as i64 {
            return None;
        }
        Some(
            TextureSlice {
                texture: self.texture,
                layer: self.layer,
                rect: Rect::new(x as i32, y as i32, size.x, size.y),
            },
        )
    }

    /// The size of the slice.
    pub fn size(&self) -> (r: glam::UVec2)
        ensures
            r.x == self.rect_spec().width && r.y == self.rect_spec().height,
    {
        glam::UVec2 { x: self.rect.width, y: self.rect.height }
    }

    /// The texture it is a slice of.
    pub fn texture(&self) -> (r: &'a SpriteTexture)
        ensures
            r == self.texture_spec(),
    {
        self.texture
    }

    pub fn layer(&self) -> (r: u32)
        ensures
            r == self.layer_spec(),
    {
        self.layer
    }

    /// The offset of the slice within its texture.
    pub fn offset(&self) -> (r: glam::IVec2)
        ensures
            r.x == self.rect_spec().x && r.y == self.rect_spec().y,
    {
        glam::IVec2 { x: self.rect.x, y: self.rect.y }
    }
}

} // verus!
