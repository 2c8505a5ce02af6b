use vstd::prelude::*;

verus! {

/// Why an asset could not be decoded, assembled or encoded.
#[derive(Debug, Clone, Copy, PartialEq, Eq, Structural)]
pub enum GfxError {
    /// A buffer is too short for the structure it declares, or an offset
    /// points outside it.
    MalformedAsset,
    /// A patch record holds a step direction other than 1 or a colormap
    /// other than 0.
    UnsupportedField,
    /// A texture refers to a patch that the patch source cannot supply.
    UnresolvedPatch,
    /// A run of drawn pixels does not fit the one-byte fields of a post.
    UnencodableRun,
}

} // verus!
