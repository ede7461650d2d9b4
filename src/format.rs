use vstd::prelude::*;

use crate::sprite::SpriteAnchor;

verus! {

/// A metadata format for a finished sheet, implemented by the consumer of the sheets:
/// it turns a sheet's size and anchors into the consumer's own data.
pub trait Format {
    type Data;
    type Options;

    fn encode(dimensions: (u32, u32), anchors: &Vec<SpriteAnchor>, options: Self::Options) -> Self::Data;
}

} // verus!
