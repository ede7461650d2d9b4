mod blit;
mod dedup;
mod format;
mod maxrects;
mod packing;
mod sheet;
mod simple;
mod sprite;

use vstd::prelude::*;

pub use blit::{create_pixel_buffer, in_region, source_index, write_sprite};
pub use dedup::{is_canonical, lemma_canonical_kept, lemma_canonical_unique, pixels, resolve_aliases, xxhash64_of};
pub use format::Format;
pub use maxrects::pack_maxrects;
pub use packing::Packing;
pub use sheet::{under, SpriteSheet};
pub use simple::{pack_simple, shelf_after, shelf_placement, shelf_spot, Shelf};
pub use sprite::{
    disjoint, within, rect_at, InputSprite, Placement, Rect, SpriteAnchor, SpriteData, BYTES_PER_PIXEL,
};

use dedup::alias_table;
use packing::{valid_packing, fits_max};
use sheet::{anchor_for, anchors_ok, compose_sheet, composed, layout_wf, listed, shapes_of};

verus! {

/// Why `pack` refused its input.
#[derive(Debug, Clone, Copy, PartialEq, Eq)]
pub enum PackError {
    /// The sprite at this input index is wider or taller than the largest sheet.
    SpriteTooLarge(usize),
    /// A row of the largest sheet does not fit in the requested stride.
    StrideTooSmall,
}

/// The packing strategy.
#[derive(Debug, Clone, Copy, PartialEq, Eq)]
pub enum Strategy {
    /// Shelf packing in input order.
    Simple,
    /// Maximal free rectangles, longest side first.
    MaxRects,
}

/// Strategy and largest sheet size.
#[derive(Debug, Clone, Copy)]
pub struct PackOptions {
    pub strategy: Strategy,
    pub max_width: u32,
    pub max_height: u32,
}

/// Sprite `i` is wider or taller than the largest sheet.
pub open spec fn oversized(input: Seq<InputSprite>, options: PackOptions, i: int) -> bool {
    input[i].width > options.max_width || input[i].height > options.max_height
}

/// `i` is the first oversized sprite.
pub open spec fn first_oversized(input: Seq<InputSprite>, options: PackOptions, i: int) -> bool {
    &&& 0 <= i < input.len()
    &&& oversized(input, options, i)
    &&& forall|j: int| 0 <= j < i ==> !oversized(input, options, j)
}

/// The shapes handed to the packer for the first `i` inputs: one for each input whose
/// bytes occur there for the first time, in input order.
pub open spec fn kept_shapes(input: Seq<InputSprite>, i: nat) -> Seq<SpriteData>
    decreases i,
{
    if i == 0 {
        Seq::empty()
    } else {
        let prev = kept_shapes(input, (i - 1) as nat);
        let j = i - 1;
        if is_canonical(pixels(input), j, j) {
            prev.push(SpriteData { id: j as usize, width: input[j].width, height: input[j].height })
        } else {
            prev
        }
    }
}

/// `f` meets no anchor of the sheet.
pub open spec fn clear_of_sheet(f: Rect, sheet: SpriteSheet) -> bool {
    forall|k: int| 0 <= k < sheet.anchors@.len() ==> disjoint(f, #[trigger] sheet.anchors@[k].rect())
}

/// Sheet `s` holds an anchor whose sprite, if not empty, fits nowhere on sheet `s - 1`
/// of the largest size without meeting an anchor there.
pub open spec fn opened_when_full_sheet(sheets: Seq<SpriteSheet>, s: int, options: PackOptions) -> bool {
    exists|k: int|
        0 <= k < sheets[s].anchors@.len() && (sheets[s].anchors@[k].width > 0 && sheets[s].anchors@[k].height > 0
            ==> forall|f: Rect|
            f.w == sheets[s].anchors@[k].width && f.h == sheets[s].anchors@[k].height && within(
                f,
                rect_at(0, 0, options.max_width, options.max_height),
            ) ==> !#[trigger] clear_of_sheet(f, sheets[s - 1]))
}

/// `(s, k)` names an anchor: anchor `k` of sheet `s`.
pub open spec fn is_anchor(sheets: Seq<SpriteSheet>, s: int, k: int) -> bool {
    0 <= s < sheets.len() && 0 <= k < sheets[s].anchors@.len()
}

/// Anchor `k` of sheet `s`.
pub open spec fn anchor(sheets: Seq<SpriteSheet>, s: int, k: int) -> SpriteAnchor {
    sheets[s].anchors@[k]
}

/// Some sheet holds an anchor for input `i`.
pub open spec fn anchored(sheets: Seq<SpriteSheet>, i: int) -> bool {
    exists|s: int, k: int| is_anchor(sheets, s, k) && anchor(sheets, s, k).id == i
}

/// Every input index has exactly one anchor over all sheets, and no anchor names
/// anything else.
pub open spec fn each_input_once(sheets: Seq<SpriteSheet>, n: int) -> bool {
    &&& forall|s: int, k: int| #[trigger] is_anchor(sheets, s, k) ==> anchor(sheets, s, k).id < n
    &&& forall|i: int| 0 <= i < n ==> #[trigger] anchored(sheets, i)
    &&& forall|s1: int, k1: int, s2: int, k2: int|
        #[trigger] is_anchor(sheets, s1, k1) && #[trigger] is_anchor(sheets, s2, k2) && anchor(sheets, s1, k1).id
            == anchor(sheets, s2, k2).id ==> s1 == s2 && k1 == k2
}

/// Anchors of different pixel content on one sheet do not overlap.
pub open spec fn distinct_content_apart(input: Seq<InputSprite>, sheets: Seq<SpriteSheet>) -> bool {
    forall|s: int, k1: int, k2: int|
        #[trigger] is_anchor(sheets, s, k1) && #[trigger] is_anchor(sheets, s, k2) && input[anchor(sheets, s, k1).id as int].bytes@
            != input[anchor(sheets, s, k2).id as int].bytes@ ==> disjoint(
            anchor(sheets, s, k1).rect(),
            anchor(sheets, s, k2).rect(),
        )
}

/// Anchors of equal pixel content share sheet, position and size.
pub open spec fn same_content_shared(input: Seq<InputSprite>, sheets: Seq<SpriteSheet>) -> bool {
    forall|s1: int, k1: int, s2: int, k2: int|
        #[trigger] is_anchor(sheets, s1, k1) && #[trigger] is_anchor(sheets, s2, k2) && input[anchor(sheets, s1, k1).id as int].bytes@
            == input[anchor(sheets, s2, k2).id as int].bytes@ ==> s1 == s2 && anchor(sheets, s1, k1).rect()
            == anchor(sheets, s2, k2).rect()
}

/// Every sheet is well formed.
pub open spec fn sheets_wf(input: Seq<InputSprite>, sheets: Seq<SpriteSheet>, stride: usize, options: PackOptions) -> bool {
    forall|s: int| 0 <= s < sheets.len() ==> #[trigger] sheet_wf(input, sheets[s], stride, options)
}

/// Each sheet: its stride, its size within the largest sheet, a buffer of exactly its
/// rows, at least one anchor, every anchor inside it, each anchor showing its sprite's
/// pixels, zero bytes elsewhere, and each anchor sized as the first sprite with its
/// pixel content.
pub open spec fn sheet_wf(input: Seq<InputSprite>, r: SpriteSheet, stride: usize, options: PackOptions) -> bool {
    &&& r.stride == stride
    &&& r.dimensions.0 <= options.max_width
    &&& r.dimensions.1 <= options.max_height
    &&& r.dimensions.0 * BYTES_PER_PIXEL <= stride
    &&& r.bytes@.len() == r.dimensions.1 as int * stride as int
    &&& r.anchors@.len() > 0
    &&& forall|k: int| 0 <= k < r.anchors@.len() ==> within(#[trigger] r.anchors@[k].rect(), rect_at(0, 0, r.dimensions.0, r.dimensions.1))
    &&& forall|k: int, c: int|
        0 <= k < r.anchors@.len() && #[trigger] is_canonical(pixels(input), r.anchors@[k].id as int, c) ==> r.anchors@[k].width == input[c].width
            && r.anchors@[k].height == input[c].height
    &&& forall|k: int, idx: int|
        0 <= k < r.anchors@.len() && 0 <= idx < r.bytes@.len() && #[trigger] under(r.anchors@[k], idx, stride as int)
            ==> #[trigger] r.bytes@[idx] == input[r.anchors@[k].id as int].bytes@[source_index(idx, stride as int, r.anchors@[k].x as int, r.anchors@[k].y as int, r.anchors@[k].width as int)]
    &&& forall|idx: int|
        0 <= idx < r.bytes@.len() && (forall|k: int| 0 <= k < r.anchors@.len() ==> !#[trigger] under(r.anchors@[k], idx, stride as int))
            ==> #[trigger] r.bytes@[idx] == 0
}

/// Packs sprites into sheets. Byte-identical sprites are packed once; each later copy
/// gets an anchor of its own at the place of the first. The shapes are packed with
/// the chosen strategy into sheets of at most `max_width` by `max_height` pixels, each
/// sheet's buffer is `height * stride` bytes, zero but where a sprite was copied in.
pub fn pack(input: Vec<InputSprite>, stride: usize, options: PackOptions) -> (r: Result<Vec<SpriteSheet>, PackError>)
    requires
        forall|i: int| 0 <= i < input@.len() ==> #[trigger] input@[i].wf(),
        options.max_height as int * stride as int <= usize::MAX,
    ensures
        forall|i: int| #[trigger] first_oversized(input@, options, i) ==> r == Err::<Vec<SpriteSheet>, PackError>(PackError::SpriteTooLarge(i as usize)),
        (forall|i: int| 0 <= i < input@.len() ==> !#[trigger] oversized(input@, options, i))
            && options.max_width as int * BYTES_PER_PIXEL <= stride ==> r is Ok,
        input@.len() == 0 ==> (r matches Ok(sheets) && sheets@.len() == 0),
        r matches Err(PackError::StrideTooSmall) ==> input@.len() > 0 && stride < options.max_width as int * BYTES_PER_PIXEL
            && forall|i: int| 0 <= i < input@.len() ==> !#[trigger] oversized(input@, options, i),
        options.strategy is Simple ==> (r matches Ok(sheets) ==> sheets@.len() == shelf_after(
            kept_shapes(input@, input@.len()),
            options.max_width,
            options.max_height,
            kept_shapes(input@, input@.len()).len(),
        ).sheets),
        options.strategy is MaxRects ==> (r matches Ok(sheets) ==> forall|s: int|
            1 <= s < sheets@.len() ==> #[trigger] opened_when_full_sheet(sheets@, s, options)),
        r matches Ok(sheets) ==> {
            &&& sheets_wf(input@, sheets@, stride, options)
            &&& each_input_once(sheets@, input@.len() as int)
            &&& distinct_content_apart(input@, sheets@)
            &&& same_content_shared(input@, sheets@)
        },
{
    let n = input.len();
    let mut i: usize = 0;
    while i < n
        invariant
            n == input@.len(),
            i <= n,
            forall|j: int| 0 <= j < i ==> !#[trigger] oversized(input@, options, j),
        decreases n - i,
    {
        if input[i].width > options.max_width || input[i].height > options.max_height {
            proof {
                assert forall|j: int| #[trigger] first_oversized(input@, options, j) implies j == i by {
                    if j < i {
                    } else if j > i {
                        assert(!oversized(input@, options, i as int));
                    }
                }
                assert(oversized(input@, options, i as int));
            }
            return Err(PackError::SpriteTooLarge(i));
        }
        i = i + 1;
    }
    let ghost pix = pixels(input@);
    let canon = resolve_aliases(&input);
    let mut sizes: Vec<SpriteData> = Vec::new();
    let mut slot: Vec<usize> = Vec::new();
    let mut i: usize = 0;
    while i < n
        invariant
            n == input@.len(),
            i <= n,
            pix == pixels(input@),
            alias_table(pix, canon@),
            forall|j: int| 0 <= j < n ==> !#[trigger] oversized(input@, options, j),
            slot@.len() == i,
            forall|j: int|
                0 <= j < i ==> #[trigger] slot@[j] < sizes@.len() && sizes@[slot@[j] as int].id == canon@[j] && slot@[j] == slot@[canon@[j] as int],
            forall|k: int| 0 <= k < sizes@.len() ==> #[trigger] sizes@[k].id < i && slot@[sizes@[k].id as int] == k,
            shapes_of(input@, sizes@),
            fits_max(sizes@, options.max_width, options.max_height),
            sizes@ == kept_shapes(input@, i as nat),
        decreases n - i,
    {
        let c = canon[i];
        proof {
            lemma_canonical_kept(pix, canon@, i as int);
        }
        if c == i {
            let ghost prev_sizes = sizes@;
            slot.push(sizes.len());
            sizes.push(SpriteData { id: i, width: input[i].width, height: input[i].height });
            proof {
                assert(!oversized(input@, options, i as int));
                assert(sizes@ == kept_shapes(input@, (i + 1) as nat));
                assert forall|k: int| 0 <= k < sizes@.len() implies #[trigger] sizes@[k].id < i + 1 && slot@[sizes@[k].id as int] == k by {
                    if k < prev_sizes.len() {
                        assert(sizes@[k] == prev_sizes[k]);
                    }
                }
            }
        } else {
            proof {
                if is_canonical(pix, i as int, i as int) {
                    lemma_canonical_unique(pix, i as int, i as int, c as int);
                }
            }
            let t = slot[c];
            slot.push(t);
        }
        i = i + 1;
    }
    proof {
        assert forall|j: int| 0 <= j < n implies #[trigger] canon@[j] < n && canon@[canon@[j] as int] == canon@[j] && slot@[j]
            < sizes@.len() && sizes@[slot@[j] as int].id == canon@[j] && slot@[j] == slot@[canon@[j] as int] by {
            lemma_canonical_kept(pix, canon@, j);
        }
    }
    let packing = match options.strategy {
        Strategy::Simple => pack_simple(&sizes, options.max_width, options.max_height),
        Strategy::MaxRects => pack_maxrects(&sizes, options.max_width, options.max_height),
    };
    let pl = packing.placements;
    let mut k: usize = 0;
    while k < pl.len()
        invariant
            k <= pl@.len(),
            n == input@.len(),
            shapes_of(input@, sizes@),
            forall|j: int| 0 <= j < n ==> !#[trigger] oversized(input@, options, j),
            valid_packing(sizes@, pl@, packing.sheets as nat, options.max_width, options.max_height),
            forall|q: int| 0 <= q < k ==> (#[trigger] pl@[q].x + sizes@[q].width) * BYTES_PER_PIXEL <= stride,
        decreases pl.len() - k,
    {
        proof {
            assert(pl@[k as int].sheet < packing.sheets);
        }
        if (pl[k].x as u64 + sizes[k].width as u64) * 4 > stride as u64 {
            proof {
                assert(sizes@[k as int].id < n);
                assert(crate::packing::placed_within(sizes@, pl@, k as int, options.max_width, options.max_height));
                assert forall|i: int| #[trigger] first_oversized(input@, options, i) implies false by {
                    assert(!oversized(input@, options, i));
                }
            }
            return Err(PackError::StrideTooSmall);
        }
        k = k + 1;
    }
    proof {
        assert(layout_wf(n as int, canon@, slot@, sizes@, pl@));
        assert forall|k: int| 0 <= k < pl@.len() implies #[trigger] crate::packing::placed_within(sizes@, pl@, k, options.max_width, options.max_height) by {
            assert(pl@[k].sheet < packing.sheets);
        }
    }
    let mut sheets: Vec<SpriteSheet> = Vec::new();
    let mut s: usize = 0;
    while s < packing.sheets
        invariant
            n == input@.len(),
            s <= packing.sheets,
            sheets@.len() == s,
            forall|j: int| 0 <= j < n ==> #[trigger] input@[j].wf(),
            alias_table(pixels(input@), canon@),
            layout_wf(n as int, canon@, slot@, sizes@, pl@),
            shapes_of(input@, sizes@),
            valid_packing(sizes@, pl@, packing.sheets as nat, options.max_width, options.max_height),
            forall|q: int| 0 <= q < pl@.len() ==> (#[trigger] pl@[q].x + sizes@[q].width) * BYTES_PER_PIXEL <= stride,
            options.max_height as int * stride as int <= usize::MAX,
            forall|k: int| 0 <= k < pl@.len() ==> #[trigger] crate::packing::placed_within(sizes@, pl@, k, options.max_width, options.max_height),
            forall|q: int| 0 <= q < s ==> #[trigger] composed(sheets@[q], input@, canon@, slot@, sizes@, pl@, q, stride, options.max_width, options.max_height),
        decreases packing.sheets - s,
    {
        let sheet = compose_sheet(&input, &canon, &slot, &sizes, &pl, s, stride, options.max_width, options.max_height);
        sheets.push(sheet);
        proof {
            assert(composed(sheets@[s as int], input@, canon@, slot@, sizes@, pl@, s as int, stride, options.max_width, options.max_height));
        }
        s = s + 1;
    }
    proof {
        if n == 0 {
            if sizes@.len() > 0 {
                assert(sizes@[0].id < n);
            }
            if packing.sheets > 0 {
                assert(crate::packing::sheet_used(pl@, 0));
            }
        }
        lemma_pack_result(input@, canon@, slot@, sizes@, pl@, packing.sheets as nat, sheets@, stride, options);
        if options.strategy is MaxRects {
            lemma_full_sheets(input@, canon@, slot@, sizes@, pl@, packing.sheets as nat, sheets@, stride, options);
        }
    }
    Ok(sheets)
}

proof fn lemma_full_sheets(
    input: Seq<InputSprite>,
    canon: Seq<usize>,
    slot: Seq<usize>,
    sizes: Seq<SpriteData>,
    pl: Seq<Placement>,
    n_sheets: nat,
    sheets: Seq<SpriteSheet>,
    stride: usize,
    options: PackOptions,
)
    requires
        layout_wf(input.len() as int, canon, slot, sizes, pl),
        valid_packing(sizes, pl, n_sheets, options.max_width, options.max_height),
        sheets.len() == n_sheets,
        forall|q: int| 0 <= q < n_sheets ==> #[trigger] composed(sheets[q], input, canon, slot, sizes, pl, q, stride, options.max_width, options.max_height),
        forall|s: int| 1 <= s < n_sheets ==> #[trigger] maxrects::opened_when_full(sizes, pl, s, options.max_width, options.max_height),
    ensures
        forall|s: int| 1 <= s < sheets.len() ==> #[trigger] opened_when_full_sheet(sheets, s, options),
{
    let n = input.len() as int;
    assert forall|s: int| 1 <= s < sheets.len() implies #[trigger] opened_when_full_sheet(sheets, s, options) by {
        assert(maxrects::opened_when_full(sizes, pl, s, options.max_width, options.max_height));
        let j = choose|j: int|
            0 <= j < pl.len() && pl[j].sheet == s && (sizes[j].width > 0 && sizes[j].height > 0 ==> forall|f: Rect|
                f.w == sizes[j].width && f.h == sizes[j].height && within(f, rect_at(0, 0, options.max_width, options.max_height))
                    ==> !#[trigger] maxrects::clear_on(f, sizes, pl, s - 1));
        let i = sizes[j].id as int;
        assert(slot[i] == j);
        assert(canon[i] < n);
        assert(composed(sheets[s], input, canon, slot, sizes, pl, s, stride, options.max_width, options.max_height));
        assert(composed(sheets[s - 1], input, canon, slot, sizes, pl, s - 1, stride, options.max_width, options.max_height));
        assert(listed(sheets[s].anchors@, i));
        let k = choose|k: int| 0 <= k < sheets[s].anchors@.len() && sheets[s].anchors@[k].id == i;
        assert(anchors_ok(sheets[s].anchors@, n, slot, sizes, pl, s));
        assert(sheets[s].anchors@[k] == anchor_for(slot, sizes, pl, i));
        assert forall|f: Rect|
            sheets[s].anchors@[k].width > 0 && sheets[s].anchors@[k].height > 0 && f.w == sheets[s].anchors@[k].width
                && f.h == sheets[s].anchors@[k].height && within(f, rect_at(0, 0, options.max_width, options.max_height))
                implies !#[trigger] clear_of_sheet(f, sheets[s - 1]) by {
            assert(!maxrects::clear_on(f, sizes, pl, s - 1));
            if clear_of_sheet(f, sheets[s - 1]) {
                assert forall|q: int| 0 <= q < pl.len() && #[trigger] pl[q].sheet == s - 1 implies disjoint(
                    f,
                    crate::packing::placed_rect(sizes, pl, q),
                ) by {
                    let i2 = sizes[q].id as int;
                    assert(slot[i2] == q);
                    assert(canon[i2] < n);
                    assert(listed(sheets[s - 1].anchors@, i2));
                    let prev = sheets[s - 1].anchors@;
                    let k2 = choose|k2: int| 0 <= k2 < prev.len() && prev[k2].id == i2;
                    assert(anchors_ok(sheets[s - 1].anchors@, n, slot, sizes, pl, s - 1));
                    assert(sheets[s - 1].anchors@[k2] == anchor_for(slot, sizes, pl, i2));
                    assert(disjoint(f, sheets[s - 1].anchors@[k2].rect()));
                }
            }
        }
    }
}

proof fn lemma_pack_result(
    input: Seq<InputSprite>,
    canon: Seq<usize>,
    slot: Seq<usize>,
    sizes: Seq<SpriteData>,
    pl: Seq<Placement>,
    n_sheets: nat,
    sheets: Seq<SpriteSheet>,
    stride: usize,
    options: PackOptions,
)
    requires
        alias_table(pixels(input), canon),
        layout_wf(input.len() as int, canon, slot, sizes, pl),
        shapes_of(input, sizes),
        valid_packing(sizes, pl, n_sheets, options.max_width, options.max_height),
        sheets.len() == n_sheets,
        forall|q: int| 0 <= q < n_sheets ==> #[trigger] composed(sheets[q], input, canon, slot, sizes, pl, q, stride, options.max_width, options.max_height),
    ensures
        sheets_wf(input, sheets, stride, options),
        each_input_once(sheets, input.len() as int),
        distinct_content_apart(input, sheets),
        same_content_shared(input, sheets),
{
    let n = input.len() as int;
    let pix = pixels(input);
    assert forall|s: int, k: int| #[trigger] is_anchor(sheets, s, k) implies anchor(sheets, s, k) == anchor_for(slot, sizes, pl, anchor(sheets, s, k).id as int)
        && anchor(sheets, s, k).id < n && pl[slot[anchor(sheets, s, k).id as int] as int].sheet == s by {
        assert(composed(sheets[s], input, canon, slot, sizes, pl, s, stride, options.max_width, options.max_height));
        assert(anchors_ok(sheets[s].anchors@, n, slot, sizes, pl, s));
    }
    assert forall|s: int| 0 <= s < sheets.len() implies #[trigger] sheet_wf(input, sheets[s], stride, options) by {
        assert(composed(sheets[s], input, canon, slot, sizes, pl, s, stride, options.max_width, options.max_height));
        let r = sheets[s];
        assert(crate::packing::sheet_used(pl, s));
        let q = choose|q: int| 0 <= q < pl.len() && pl[q].sheet == s;
        let i = sizes[q].id as int;
        assert(listed(r.anchors@, i));
        assert forall|k: int, c: int|
            0 <= k < r.anchors@.len() && #[trigger] is_canonical(pix, r.anchors@[k].id as int, c) implies r.anchors@[k].width == input[c].width
                && r.anchors@[k].height == input[c].height by {
            assert(is_anchor(sheets, s, k));
            let j = r.anchors@[k].id as int;
            assert(is_canonical(pix, j, canon[j] as int));
            lemma_canonical_unique(pix, j, c, canon[j] as int);
        }
    }
    assert forall|i: int| 0 <= i < n implies #[trigger] anchored(sheets, i) by {
        assert(canon[i] < n);
        let s = pl[slot[i] as int].sheet as int;
        assert(pl[slot[i] as int].sheet < n_sheets);
        assert(composed(sheets[s], input, canon, slot, sizes, pl, s, stride, options.max_width, options.max_height));
        assert(listed(sheets[s].anchors@, i));
        let k = choose|k: int| 0 <= k < sheets[s].anchors@.len() && sheets[s].anchors@[k].id == i;
        assert(is_anchor(sheets, s, k));
    }
    assert forall|s1: int, k1: int, s2: int, k2: int|
        #[trigger] is_anchor(sheets, s1, k1) && #[trigger] is_anchor(sheets, s2, k2) && anchor(sheets, s1, k1).id
            == anchor(sheets, s2, k2).id implies s1 == s2 && k1 == k2 by {
        assert(composed(sheets[s1], input, canon, slot, sizes, pl, s1, stride, options.max_width, options.max_height));
        assert(anchors_ok(sheets[s1].anchors@, n, slot, sizes, pl, s1));
    }
    assert forall|s: int, k1: int, k2: int|
        #[trigger] is_anchor(sheets, s, k1) && #[trigger] is_anchor(sheets, s, k2) && input[anchor(sheets, s, k1).id as int].bytes@
            != input[anchor(sheets, s, k2).id as int].bytes@ implies disjoint(
            anchor(sheets, s, k1).rect(),
            anchor(sheets, s, k2).rect(),
        ) by {
        let i1 = anchor(sheets, s, k1).id as int;
        let i2 = anchor(sheets, s, k2).id as int;
        assert(is_canonical(pix, i1, canon[i1] as int));
        assert(is_canonical(pix, i2, canon[i2] as int));
        assert(pix[i1] == input[i1].bytes@);
        assert(pix[i2] == input[i2].bytes@);
        let q1 = slot[i1] as int;
        let q2 = slot[i2] as int;
        assert(canon[i1] != canon[i2]);
        assert(disjoint(crate::packing::placed_rect(sizes, pl, q1), crate::packing::placed_rect(sizes, pl, q2)));
    }
    assert forall|s1: int, k1: int, s2: int, k2: int|
        #[trigger] is_anchor(sheets, s1, k1) && #[trigger] is_anchor(sheets, s2, k2) && input[anchor(sheets, s1, k1).id as int].bytes@
            == input[anchor(sheets, s2, k2).id as int].bytes@ implies s1 == s2 && anchor(sheets, s1, k1).rect()
            == anchor(sheets, s2, k2).rect() by {
        let i1 = anchor(sheets, s1, k1).id as int;
        let i2 = anchor(sheets, s2, k2).id as int;
        assert(is_canonical(pix, i1, canon[i1] as int));
        assert(is_canonical(pix, i2, canon[i2] as int));
        assert(pix[i1] == input[i1].bytes@);
        assert(pix[i2] == input[i2].bytes@);
        assert(is_canonical(pix, i1, canon[i2] as int));
        lemma_canonical_unique(pix, i1, canon[i1] as int, canon[i2] as int);
        assert(canon[canon[i1] as int] == canon[i1]);
    }
}

/// Hands the sheet's size and anchors, duplicates included, to the format `F`.
pub fn encode<F: Format>(sprite_sheet: &SpriteSheet, options: F::Options) -> (r: F::Data)
    ensures
        call_ensures(F::encode, (sprite_sheet.dimensions, &sprite_sheet.anchors, options), r),
{
    F::encode(sprite_sheet.dimensions, &sprite_sheet.anchors, options)
}

} // verus!
