use vstd::prelude::*;

use crate::packing::{fits_max, no_overlap, placed_rect, sheet_used, valid_packing, Packing};
use crate::sprite::{disjoint, Placement, SpriteData};

verus! {

/// Where the shelf walk stands: sheets opened so far, the next free spot on the
/// current row and the height of that row.
pub struct Shelf {
    pub sheets: int,
    pub x: int,
    pub y: int,
    pub row_h: int,
}

/// The walk before it places a shape of size `d`, moved to a new row if the shape
/// passes the right edge, and then to a new sheet if it passes the bottom edge (or
/// if no sheet is open yet).
pub open spec fn shelf_spot(st: Shelf, d: SpriteData, max_w: u32, max_h: u32) -> Shelf {
    let row = if st.x + d.width > max_w {
        Shelf { sheets: st.sheets, x: 0, y: st.y + st.row_h, row_h: 0 }
    } else {
        st
    };
    if row.sheets == 0 || row.y + d.height > max_h {
        Shelf { sheets: row.sheets + 1, x: 0, y: 0, row_h: 0 }
    } else {
        row
    }
}

/// The walk after the first `i` shapes.
pub open spec fn shelf_after(sizes: Seq<SpriteData>, max_w: u32, max_h: u32, i: nat) -> Shelf
    decreases i,
{
    if i == 0 {
        Shelf { sheets: 0, x: 0, y: 0, row_h: 0 }
    } else {
        let d = sizes[i - 1];
        let at = shelf_spot(shelf_after(sizes, max_w, max_h, (i - 1) as nat), d, max_w, max_h);
        Shelf {
            sheets: at.sheets,
            x: at.x + d.width,
            y: at.y,
            row_h: if d.height > at.row_h { d.height as int } else { at.row_h },
        }
    }
}

/// Shape `j` goes where the walk stands when it reaches it.
pub open spec fn shelf_placement(sizes: Seq<SpriteData>, max_w: u32, max_h: u32, j: nat) -> (int, int, int) {
    let at = shelf_spot(shelf_after(sizes, max_w, max_h, j), sizes[j as int], max_w, max_h);
    (at.sheets - 1, at.x, at.y)
}

/// Shelf packing: shapes go left to right along a row in input order; a shape that
/// would pass the right edge starts a new row below the tallest shape of the row, and
/// a shape that would pass the bottom edge starts a new sheet.
pub fn pack_simple(sizes: &Vec<SpriteData>, max_w: u32, max_h: u32) -> (r: Packing)
    requires
        fits_max(sizes@, max_w, max_h),
    ensures
        valid_packing(sizes@, r.placements@, r.sheets as nat, max_w, max_h),
        forall|j: int, k: int|
            0 <= j < k < r.placements@.len() ==> #[trigger] r.placements@[j].sheet
                <= #[trigger] r.placements@[k].sheet,
        r.sheets == shelf_after(sizes@, max_w, max_h, sizes@.len()).sheets,
        forall|j: int|
            0 <= j < r.placements@.len() ==> shelf_placement(sizes@, max_w, max_h, j as nat) == (
                #[trigger] r.placements@[j].sheet as int,
                r.placements@[j].x as int,
                r.placements@[j].y as int,
            ),
{
    let mut placements: Vec<Placement> = Vec::new();
    let mut sheets: usize = 0;
    let mut x: u32 = 0;
    let mut y: u32 = 0;
    let mut row_h: u32 = 0;
    let mut i: usize = 0;
    while i < sizes.len()
        invariant
            i <= sizes.len(),
            fits_max(sizes@, max_w, max_h),
            placements@.len() == i,
            sheets <= i,
            i > 0 ==> sheets > 0,
            x <= max_w,
            y as int + row_h as int <= max_h as int,
            forall|j: int|
                0 <= j < i ==> #[trigger] placements@[j].sheet < sheets
                    && crate::packing::placed_within(sizes@, placements@, j, max_w, max_h),
            no_overlap(sizes@.take(i as int), placements@),
            shelf_after(sizes@, max_w, max_h, i as nat) == (Shelf {
                sheets: sheets as int,
                x: x as int,
                y: y as int,
                row_h: row_h as int,
            }),
            forall|j: int|
                0 <= j < i ==> shelf_placement(sizes@, max_w, max_h, j as nat) == (
                    #[trigger] placements@[j].sheet as int,
                    placements@[j].x as int,
                    placements@[j].y as int,
                ),
            forall|j: int, k: int|
                0 <= j < k < i ==> #[trigger] placements@[j].sheet <= #[trigger] placements@[k].sheet,
            forall|j: int|
                0 <= j < i && #[trigger] placements@[j].sheet == sheets - 1 ==> (placements@[j].y
                    + sizes@[j].height <= y || (placements@[j].y == y && placements@[j].x
                    + sizes@[j].width <= x && sizes@[j].height <= row_h)),
            forall|s: int| 0 <= s < sheets ==> #[trigger] sheet_used(placements@, s),
        decreases sizes.len() - i,
    {
        let w = sizes[i].width;
        let h = sizes[i].height;
        if x as u64 + w as u64 > max_w as u64 {
            y = y + row_h;
            x = 0;
            row_h = 0;
        }
        if sheets == 0 || y as u64 + h as u64 > max_h as u64 {
            sheets = sheets + 1;
            x = 0;
            y = 0;
            row_h = 0;
        }
        let p = Placement { sheet: sheets - 1, x, y };
        proof {
            let ghost sz = sizes@.take(i as int + 1);
            let ghost pl = placements@.push(p);
            assert forall|j: int, k: int|
                0 <= j < pl.len() && 0 <= k < pl.len() && j != k && pl[j].sheet == pl[k].sheet
                    implies disjoint(
                #[trigger] placed_rect(sz, pl, j),
                #[trigger] placed_rect(sz, pl, k),
            ) by {
                if j < i && k < i {
                    assert(placed_rect(sz, pl, j) == placed_rect(
                        sizes@.take(i as int),
                        placements@,
                        j,
                    ));
                    assert(placed_rect(sz, pl, k) == placed_rect(
                        sizes@.take(i as int),
                        placements@,
                        k,
                    ));
                } else if j < i {
                    assert(placements@[j].sheet == sheets - 1);
                } else {
                    assert(placements@[k].sheet == sheets - 1);
                }
            }
        }
        let ghost old_pl = placements@;
        placements.push(p);
        proof {
            assert forall|s: int| 0 <= s < sheets implies #[trigger] sheet_used(placements@, s) by {
                if s == sheets - 1 {
                    assert(placements@[i as int].sheet == s);
                } else {
                    assert(sheet_used(old_pl, s));
                    let j = choose|j: int| 0 <= j < old_pl.len() && old_pl[j].sheet == s;
                    assert(placements@[j] == old_pl[j]);
                }
            }
        }
        x = x + w;
        if h > row_h {
            row_h = h;
        }
        i = i + 1;
        proof {
            assert(placements@[i - 1].sheet == sheets - 1);
        }
    }
    proof {
        assert(sizes@.take(i as int) == sizes@);
    }
    Packing { placements, sheets }
}

} // verus!
