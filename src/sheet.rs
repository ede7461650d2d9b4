use vstd::prelude::*;

use crate::blit::{create_pixel_buffer, in_region, source_index, write_sprite};
use crate::dedup::{alias_table, pixels};
use crate::packing::{no_overlap, placed_rect, placed_within};
use crate::sprite::{disjoint, within, rect_at, InputSprite, Placement, SpriteAnchor, SpriteData, BYTES_PER_PIXEL};

verus! {

/// How the kept sprites and their duplicates map to the packer's shapes: `canon` is
/// the alias table, `slot[i]` the shape that input `i` is drawn with, `sizes` the
/// shapes handed to the packer and `pl` where the packer put them.
pub open spec fn layout_wf(
    n: int,
    canon: Seq<usize>,
    slot: Seq<usize>,
    sizes: Seq<SpriteData>,
    pl: Seq<Placement>,
) -> bool {
    &&& canon.len() == n
    &&& slot.len() == n
    &&& pl.len() == sizes.len()
    &&& forall|i: int|
        0 <= i < n ==> #[trigger] canon[i] < n && canon[canon[i] as int] == canon[i] && slot[i]
            < sizes.len() && sizes[slot[i] as int].id == canon[i] && slot[i] == slot[canon[i] as int]
    &&& forall|k: int| 0 <= k < sizes.len() ==> #[trigger] sizes[k].id < n && slot[sizes[k].id as int] == k
}

/// One finished sheet: its pixel buffer, the byte length of a row, its width and
/// height in pixels, and the anchors of every sprite on it.
#[derive(Debug)]
pub struct SpriteSheet {
    pub bytes: Vec<u8>,
    pub stride: usize,
    pub dimensions: (u32, u32),
    pub anchors: Vec<SpriteAnchor>,
}

/// Byte `idx` of a buffer with rows of `stride` bytes lies under the anchor.
pub open spec fn under(a: SpriteAnchor, idx: int, stride: int) -> bool {
    in_region(idx, stride, a.x as int, a.y as int, a.width as int, a.height as int)
}

/// Byte `idx` lies under shape `k` as the packer placed it.
pub open spec fn under_shape(sizes: Seq<SpriteData>, pl: Seq<Placement>, k: int, idx: int, stride: int) -> bool {
    in_region(idx, stride, pl[k].x as int, pl[k].y as int, sizes[k].width as int, sizes[k].height as int)
}

/// The anchor of input `i`: the placement of the shape it is drawn with.
pub open spec fn anchor_for(
    slot: Seq<usize>,
    sizes: Seq<SpriteData>,
    pl: Seq<Placement>,
    i: int,
) -> SpriteAnchor {
    SpriteAnchor {
        id: i as usize,
        x: pl[slot[i] as int].x,
        y: pl[slot[i] as int].y,
        width: sizes[slot[i] as int].width,
        height: sizes[slot[i] as int].height,
    }
}

/// Some anchor of `out` is for input `i`.
pub open spec fn listed(out: Seq<SpriteAnchor>, i: int) -> bool {
    exists|k: int| 0 <= k < out.len() && out[k].id == i
}

/// The anchors of `out` are for distinct inputs of sheet `s`, each as `anchor_for` gives it.
pub open spec fn anchors_ok(
    out: Seq<SpriteAnchor>,
    n: int,
    slot: Seq<usize>,
    sizes: Seq<SpriteData>,
    pl: Seq<Placement>,
    s: int,
) -> bool {
    &&& forall|k: int|
        0 <= k < out.len() ==> #[trigger] out[k].id < n && out[k] == anchor_for(
            slot,
            sizes,
            pl,
            out[k].id as int,
        ) && pl[slot[out[k].id as int] as int].sheet == s
    &&& forall|k1: int, k2: int|
        0 <= k1 < out.len() && 0 <= k2 < out.len() && k1 != k2 ==> #[trigger] out[k1].id
            != #[trigger] out[k2].id
}

/// Each shape of the packer was made from the input sprite that it names.
pub open spec fn shapes_of(input: Seq<InputSprite>, sizes: Seq<SpriteData>) -> bool {
    forall|k: int|
        0 <= k < sizes.len() ==> #[trigger] sizes[k].id < input.len() && sizes[k].width == input[sizes[k].id as int].width
            && sizes[k].height == input[sizes[k].id as int].height
}

/// Sheet `r` is sheet `s` of the layout: its buffer, bounds, anchors and pixels.
pub open spec fn composed(
    r: SpriteSheet,
    input: Seq<InputSprite>,
    canon: Seq<usize>,
    slot: Seq<usize>,
    sizes: Seq<SpriteData>,
    pl: Seq<Placement>,
    s: int,
    stride: usize,
    max_w: u32,
    max_h: u32,
) -> bool {
    &&& r.stride == stride
    &&& r.dimensions.0 <= max_w
    &&& r.dimensions.1 <= max_h
    &&& r.dimensions.0 * BYTES_PER_PIXEL <= stride
    &&& r.bytes@.len() == r.dimensions.1 as int * stride as int
    &&& anchors_ok(r.anchors@, canon.len() as int, slot, sizes, pl, s)
    &&& forall|i: int|
            0 <= i < canon.len() && pl[slot[i] as int].sheet == s ==> #[trigger] listed(r.anchors@, i)
    &&& forall|k: int| 0 <= k < r.anchors@.len() ==> within(#[trigger] r.anchors@[k].rect(), rect_at(0, 0, r.dimensions.0, r.dimensions.1))
    &&& forall|k: int, idx: int|
            0 <= k < r.anchors@.len() && 0 <= idx < r.bytes@.len() && #[trigger] under(r.anchors@[k], idx, stride as int)
                ==> #[trigger] r.bytes@[idx] == input[r.anchors@[k].id as int].bytes@[source_index(idx, stride as int, r.anchors@[k].x as int, r.anchors@[k].y as int, r.anchors@[k].width as int)]
    &&& forall|idx: int|
            0 <= idx < r.bytes@.len() && (forall|k: int| 0 <= k < r.anchors@.len() ==> !#[trigger] under(r.anchors@[k], idx, stride as int))
                ==> #[trigger] r.bytes@[idx] == 0
}

/// Every shape on sheet `s` ends within a row of `stride` bytes.
pub open spec fn rows_fit(sizes: Seq<SpriteData>, pl: Seq<Placement>, s: int, stride: usize) -> bool {
    forall|q: int|
        0 <= q < pl.len() && #[trigger] pl[q].sheet == s ==> (pl[q].x + sizes[q].width) * BYTES_PER_PIXEL <= stride
}

/// Builds sheet `s`: the bounding box of its shapes, a zeroed buffer of that many rows,
/// the pixels of each kept sprite copied in at its placement, then the anchors of the
/// kept sprites followed by those of their duplicates.
pub fn compose_sheet(
    input: &Vec<InputSprite>,
    canon: &Vec<usize>,
    slot: &Vec<usize>,
    sizes: &Vec<SpriteData>,
    pl: &Vec<Placement>,
    s: usize,
    stride: usize,
    max_w: u32,
    max_h: u32,
) -> (r: SpriteSheet)
    requires
        input@.len() == canon@.len(),
        forall|i: int| 0 <= i < input@.len() ==> #[trigger] input@[i].wf(),
        alias_table(pixels(input@), canon@),
        layout_wf(canon@.len() as int, canon@, slot@, sizes@, pl@),
        shapes_of(input@, sizes@),
        forall|k: int| 0 <= k < pl@.len() ==> #[trigger] placed_within(sizes@, pl@, k, max_w, max_h),
        no_overlap(sizes@, pl@),
        rows_fit(sizes@, pl@, s as int, stride),
        max_h as int * stride as int <= usize::MAX,
    ensures
        composed(r, input@, canon@, slot@, sizes@, pl@, s as int, stride, max_w, max_h),
{
    let m = sizes.len();
    let mut width: u32 = 0;
    let mut height: u32 = 0;
    let mut k: usize = 0;
    while k < m
        invariant
            m == sizes@.len(),
            pl@.len() == m,
            k <= m,
            forall|q: int| 0 <= q < pl@.len() ==> #[trigger] placed_within(sizes@, pl@, q, max_w, max_h),
            width <= max_w,
            width * BYTES_PER_PIXEL <= stride,
            rows_fit(sizes@, pl@, s as int, stride),
            height <= max_h,
            forall|q: int| 0 <= q < k && pl@[q].sheet == s ==> #[trigger] pl@[q].x + sizes@[q].width <= width
                && pl@[q].y + sizes@[q].height <= height,
        decreases m - k,
    {
        if pl[k].sheet == s {
            proof {
                assert(placed_within(sizes@, pl@, k as int, max_w, max_h));
            }
            let right = pl[k].x + sizes[k].width;
            let bottom = pl[k].y + sizes[k].height;
            if right > width {
                width = right;
            }
            if bottom > height {
                height = bottom;
            }
        }
        k = k + 1;
    }
    proof {
        vstd::arithmetic::mul::lemma_mul_inequality(height as int, max_h as int, stride as int);
    }
    let mut buf = create_pixel_buffer(height, stride);
    let ghost len = buf@.len();
    let mut k: usize = 0;
    while k < m
        invariant
            m == sizes@.len(),
            pl@.len() == m,
            k <= m,
            buf@.len() == len,
            len == height as int * stride as int,
            input@.len() == canon@.len(),
            forall|i: int| 0 <= i < input@.len() ==> #[trigger] input@[i].wf(),
            shapes_of(input@, sizes@),
            forall|q: int| 0 <= q < pl@.len() ==> #[trigger] placed_within(sizes@, pl@, q, max_w, max_h),
            no_overlap(sizes@, pl@),
            rows_fit(sizes@, pl@, s as int, stride),
            forall|q: int| 0 <= q < m && pl@[q].sheet == s ==> #[trigger] pl@[q].x + sizes@[q].width <= width
                && pl@[q].y + sizes@[q].height <= height,
            forall|q: int, idx: int|
                0 <= q < k && pl@[q].sheet == s && 0 <= idx < len && #[trigger] under_shape(sizes@, pl@, q, idx, stride as int)
                    ==> #[trigger] buf@[idx] == input@[sizes@[q].id as int].bytes@[source_index(idx, stride as int, pl@[q].x as int, pl@[q].y as int, sizes@[q].width as int)],
            forall|idx: int|
                0 <= idx < len && (forall|q: int| 0 <= q < k && pl@[q].sheet == s ==> !#[trigger] under_shape(sizes@, pl@, q, idx, stride as int))
                    ==> #[trigger] buf@[idx] == 0,
        decreases m - k,
    {
        if pl[k].sheet == s {
            let id = sizes[k].id;
            proof {
                assert(placed_within(sizes@, pl@, k as int, max_w, max_h));
                assert(input@[id as int].wf());
                vstd::arithmetic::mul::lemma_mul_inequality(pl@[k as int].y + sizes@[k as int].height, height as int, stride as int);
            }
            let ghost prev = buf@;
            write_sprite(&mut buf, stride, &input[id].bytes, pl[k].x, pl[k].y, sizes[k].width, sizes[k].height);
            proof {
                assert forall|q: int, idx: int|
                    0 <= q < k && pl@[q].sheet == s && 0 <= idx < len && #[trigger] under_shape(sizes@, pl@, q, idx, stride as int)
                        implies !under_shape(sizes@, pl@, k as int, idx, stride as int) by {
                    assert(disjoint(placed_rect(sizes@, pl@, q), placed_rect(sizes@, pl@, k as int)));
                }
                assert forall|idx: int|
                    0 <= idx < len && (forall|q: int| 0 <= q < k + 1 && pl@[q].sheet == s ==> !#[trigger] under_shape(sizes@, pl@, q, idx, stride as int))
                        implies #[trigger] buf@[idx] == 0 by {
                    assert(!under_shape(sizes@, pl@, k as int, idx, stride as int));
                    assert(buf@[idx] == prev[idx]);
                }
            }
        }
        k = k + 1;
    }
    let mut anchors: Vec<SpriteAnchor> = Vec::new();
    collect_anchors(canon, slot, sizes, pl, s, true, &mut anchors);
    let ghost first = anchors@;
    collect_anchors(canon, slot, sizes, pl, s, false, &mut anchors);
    proof {
        let n = canon@.len() as int;
        let pix = pixels(input@);
        assert forall|i: int| 0 <= i < n && pl@[slot@[i] as int].sheet == s implies #[trigger] listed(anchors@, i) by {
            if canon@[i] == i {
                assert(listed(first, i));
                let k = choose|k: int| 0 <= k < first.len() && first[k].id == i;
                assert(anchors@[k] == first[k]);
            }
        }
        assert forall|k: int| 0 <= k < anchors@.len() implies within(#[trigger] anchors@[k].rect(), rect_at(0, 0, width, height)) by {
            let i = anchors@[k].id as int;
            assert(anchors@[k] == anchor_for(slot@, sizes@, pl@, i));
            assert(canon@[i] < n);
            let q = slot@[i] as int;
            assert(pl@[q].sheet == s);
        }
        assert forall|k: int, idx: int|
            0 <= k < anchors@.len() && 0 <= idx < buf@.len() && #[trigger] under(anchors@[k], idx, stride as int)
                implies #[trigger] buf@[idx] == input@[anchors@[k].id as int].bytes@[source_index(idx, stride as int, anchors@[k].x as int, anchors@[k].y as int, anchors@[k].width as int)] by {
            let i = anchors@[k].id as int;
            assert(anchors@[k] == anchor_for(slot@, sizes@, pl@, i));
            assert(canon@[i] < n);
            let q = slot@[i] as int;
            assert(under_shape(sizes@, pl@, q, idx, stride as int));
            assert(crate::dedup::is_canonical(pix, i, canon@[i] as int));
            assert(pix[i] == input@[i].bytes@);
            assert(pix[canon@[i] as int] == input@[canon@[i] as int].bytes@);
        }
        assert forall|idx: int|
            0 <= idx < buf@.len() && (forall|k: int| 0 <= k < anchors@.len() ==> !#[trigger] under(anchors@[k], idx, stride as int))
                implies #[trigger] buf@[idx] == 0 by {
            assert forall|q: int| 0 <= q < m && pl@[q].sheet == s implies !#[trigger] under_shape(sizes@, pl@, q, idx, stride as int) by {
                let i = sizes@[q].id as int;
                assert(slot@[i] == q);
                assert(canon@[i] < n);
                assert(listed(anchors@, i));
                let k = choose|k: int| 0 <= k < anchors@.len() && anchors@[k].id == i;
                assert(anchors@[k] == anchor_for(slot@, sizes@, pl@, i));
                assert(!under(anchors@[k], idx, stride as int));
            }
        }
    }
    SpriteSheet { bytes: buf, stride, dimensions: (width, height), anchors }
}

/// Appends, in input order, the anchors of sheet `s` for the inputs that are kept
/// (`kept`) or that are duplicates (`!kept`).
fn collect_anchors(
    canon: &Vec<usize>,
    slot: &Vec<usize>,
    sizes: &Vec<SpriteData>,
    pl: &Vec<Placement>,
    s: usize,
    kept: bool,
    out: &mut Vec<SpriteAnchor>,
)
    requires
        layout_wf(canon@.len() as int, canon@, slot@, sizes@, pl@),
        anchors_ok(old(out)@, canon@.len() as int, slot@, sizes@, pl@, s as int),
        forall|k: int|
            0 <= k < old(out)@.len() ==> (canon@[#[trigger] old(out)@[k].id as int] == old(out)@[k].id)
                != kept,
    ensures
        anchors_ok(final(out)@, canon@.len() as int, slot@, sizes@, pl@, s as int),
        final(out)@.len() >= old(out)@.len(),
        forall|k: int| 0 <= k < old(out)@.len() ==> final(out)@[k] == old(out)@[k],
        forall|k: int|
            old(out)@.len() <= k < final(out)@.len() ==> (canon@[#[trigger] final(out)@[k].id as int]
                == final(out)@[k].id) == kept,
        forall|i: int|
            0 <= i < canon@.len() && (canon@[i] == i) == kept && pl@[slot@[i] as int].sheet == s
                ==> #[trigger] listed(final(out)@, i),
        forall|k: int| 0 <= k < final(out)@.len() ==> listed(old(out)@, #[trigger] final(out)@[k].id as int)
            || (canon@[final(out)@[k].id as int] == final(out)@[k].id) == kept,
{
    let n = canon.len();
    let ghost start = out@;
    let mut i: usize = 0;
    while i < n
        invariant
            n == canon@.len(),
            i <= n,
            layout_wf(n as int, canon@, slot@, sizes@, pl@),
            anchors_ok(out@, n as int, slot@, sizes@, pl@, s as int),
            out@.len() >= start.len(),
            forall|k: int| 0 <= k < start.len() ==> out@[k] == start[k],
            forall|k: int|
                0 <= k < start.len() ==> (canon@[#[trigger] start[k].id as int] == start[k].id) != kept,
            forall|k: int|
                start.len() <= k < out@.len() ==> (canon@[#[trigger] out@[k].id as int] == out@[k].id)
                    == kept && out@[k].id < i,
            forall|j: int|
                0 <= j < i && (canon@[j] == j) == kept && pl@[slot@[j] as int].sheet == s
                    ==> #[trigger] listed(out@, j),
        decreases n - i,
    {
        let c = slot[i];
        if (canon[i] == i) == kept && pl[c].sheet == s {
            let a = SpriteAnchor {
                id: i,
                x: pl[c].x,
                y: pl[c].y,
                width: sizes[c].width,
                height: sizes[c].height,
            };
            let ghost prev = out@;
            out.push(a);
            proof {
                assert(out@[prev.len() as int] == a);
                assert(listed(out@, i as int));
                assert forall|j: int|
                    0 <= j < i && (canon@[j] == j) == kept && pl@[slot@[j] as int].sheet == s implies #[trigger] listed(out@, j) by {
                    assert(listed(prev, j));
                    let k = choose|k: int| 0 <= k < prev.len() && prev[k].id == j;
                    assert(out@[k] == prev[k]);
                }
                assert forall|k1: int, k2: int|
                    0 <= k1 < out@.len() && 0 <= k2 < out@.len() && k1 != k2 implies #[trigger] out@[k1].id
                        != #[trigger] out@[k2].id by {
                    if k1 < prev.len() && k2 < prev.len() {
                        assert(out@[k1] == prev[k1]);
                        assert(out@[k2] == prev[k2]);
                    } else if k1 < prev.len() {
                        assert(out@[k1] == prev[k1]);
                        if k1 < start.len() {
                            assert(prev[k1] == start[k1]);
                        }
                    } else {
                        assert(out@[k2] == prev[k2]);
                        if k2 < start.len() {
                            assert(prev[k2] == start[k2]);
                        }
                    }
                }
            }
        }
        i = i + 1;
    }
    proof {
        assert forall|k: int| 0 <= k < out@.len() implies listed(start, #[trigger] out@[k].id as int)
            || (canon@[out@[k].id as int] == out@[k].id) == kept by {
            if k < start.len() {
                assert(out@[k] == start[k]);
            }
        }
    }
}

} // verus!
