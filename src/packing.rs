use vstd::prelude::*;

use crate::sprite::{disjoint, rect_at, Placement, Rect, SpriteData};

verus! {

/// What a packer hands back: one placement per input shape, in input order, and the
/// number of sheets that the placements use.
#[derive(Debug)]
pub struct Packing {
    pub placements: Vec<Placement>,
    pub sheets: usize,
}

/// Every shape fits on an empty sheet of at most `max_w` by `max_h`.
pub open spec fn fits_max(sizes: Seq<SpriteData>, max_w: u32, max_h: u32) -> bool {
    forall|j: int| 0 <= j < sizes.len() ==> sizes[j].width <= max_w && sizes[j].height <= max_h
}

/// The rectangle that shape `j` covers on its sheet.
pub open spec fn placed_rect(sizes: Seq<SpriteData>, pl: Seq<Placement>, j: int) -> Rect {
    rect_at(pl[j].x, pl[j].y, sizes[j].width, sizes[j].height)
}

/// Shape `j` lies within a sheet of at most `max_w` by `max_h`.
pub open spec fn placed_within(
    sizes: Seq<SpriteData>,
    pl: Seq<Placement>,
    j: int,
    max_w: u32,
    max_h: u32,
) -> bool {
    pl[j].x + sizes[j].width <= max_w && pl[j].y + sizes[j].height <= max_h
}

/// No two shapes on one sheet share a pixel.
pub open spec fn no_overlap(sizes: Seq<SpriteData>, pl: Seq<Placement>) -> bool {
    forall|j: int, k: int|
        0 <= j < pl.len() && 0 <= k < pl.len() && j != k && pl[j].sheet == pl[k].sheet
            ==> disjoint(#[trigger] placed_rect(sizes, pl, j), #[trigger] placed_rect(sizes, pl, k))
}

/// `pl` places every shape of `sizes` exactly once on one of `n_sheets` sheets of at
/// most `max_w` by `max_h`, with no overlap on a sheet and no sheet left empty.
pub open spec fn valid_packing(
    sizes: Seq<SpriteData>,
    pl: Seq<Placement>,
    n_sheets: nat,
    max_w: u32,
    max_h: u32,
) -> bool {
    &&& pl.len() == sizes.len()
    &&& forall|j: int|
        0 <= j < pl.len() ==> #[trigger] pl[j].sheet < n_sheets && placed_within(
            sizes,
            pl,
            j,
            max_w,
            max_h,
        )
    &&& no_overlap(sizes, pl)
    &&& forall|s: int| 0 <= s < n_sheets ==> #[trigger] sheet_used(pl, s)
}

/// Some placement lies on sheet `s`.
pub open spec fn sheet_used(pl: Seq<Placement>, s: int) -> bool {
    exists|j: int| 0 <= j < pl.len() && pl[j].sheet == s
}

} // verus!
