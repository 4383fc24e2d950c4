//! glam's vector and transform types, as the library uses them.
use vstd::prelude::*;

verus! {

#[verifier::external_type_specification]
pub struct ExIVec2(glam::IVec2);

#[verifier::external_type_specification]
pub struct ExUVec2(glam::UVec2);

#[verifier::external_type_specification]
#[verifier::external_body]
pub struct ExAffine2(glam::Affine2);

/// Relies on glam's `Affine2 * Affine2`: the transform that applies `inner`
/// first and `outer` after it.
#[verifier::external_body]
pub(crate) fn compose(outer: &glam::Affine2, inner: &glam::Affine2) -> (r: glam::Affine2) {
    *outer * *inner
}

} // verus!
