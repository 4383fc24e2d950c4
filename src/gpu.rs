//! wgpu's texture types, as the library uses them.
use vstd::prelude::*;

verus! {

#[verifier::external_type_specification]
#[verifier::external_body]
pub struct ExTexture(wgpu::Texture);

#[verifier::external_type_specification]
#[verifier::external_body]
pub struct ExTextureUsages(wgpu::TextureUsages);

#[verifier::external_type_specification]
pub struct ExExtent3d(wgpu::Extent3d);

/// Relies on wgpu::Texture::size: the extent the texture was created with.
#[verifier::external_body]
pub(crate) fn gpu_texture_size(texture: &wgpu::Texture) -> (r: wgpu::Extent3d) {
    texture.size()
}

/// Relies on wgpu's `TextureUsages` flags: a texture that can be sampled
/// and written to.
#[verifier::external_body]
pub(crate) fn sampled_usages() -> (r: wgpu::TextureUsages) {
    wgpu::TextureUsages::TEXTURE_BINDING | wgpu::TextureUsages::COPY_DST
}

} // verus!
