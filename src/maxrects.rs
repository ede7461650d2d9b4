use vstd::prelude::*;

use crate::packing::{
    fits_max, no_overlap, placed_rect, placed_within, sheet_used, valid_packing, Packing,
};
use crate::sprite::{disjoint, rect_at, within, Placement, Rect, SpriteData};

verus! {

/// A free region of the sheet that is being filled.
#[derive(Debug, Clone, Copy)]
pub struct FreeRect {
    pub x: u32,
    pub y: u32,
    pub w: u32,
    pub h: u32,
}

impl FreeRect {
    pub open spec fn view(&self) -> Rect {
        rect_at(self.x, self.y, self.w, self.h)
    }
}

/// `f` lies inside one of the rectangles of `free`.
pub open spec fn covered(f: Rect, free: Seq<FreeRect>) -> bool {
    exists|i: int| 0 <= i < free.len() && within(f, free[i]@)
}

/// `order` lists each of `0..m` exactly once.
pub open spec fn is_perm(order: Seq<usize>, m: int) -> bool {
    &&& order.len() == m
    &&& forall|t: int| 0 <= t < m ==> #[trigger] order[t] < m
    &&& forall|t1: int, t2: int|
        0 <= t1 < m && 0 <= t2 < m && t1 != t2 ==> #[trigger] order[t1] != #[trigger] order[t2]
    &&& forall|j: int| 0 <= j < m ==> #[trigger] occurs(order, j)
}

pub open spec fn occurs(order: Seq<usize>, j: int) -> bool {
    exists|t: int| 0 <= t < order.len() && order[t] == j
}

/// The rectangle of the shape that comes `t`-th in `order`.
pub open spec fn rect_of(sizes: Seq<SpriteData>, pl: Seq<Placement>, order: Seq<usize>, t: int) -> Rect {
    placed_rect(sizes, pl, order[t] as int)
}

/// The sheet of the shape that comes `t`-th in `order`.
pub open spec fn sheet_of(pl: Seq<Placement>, order: Seq<usize>, t: int) -> int {
    pl[order[t] as int].sheet as int
}

/// One of the first `t` shapes in `order` lies on sheet `s`.
pub open spec fn sheet_used_by(pl: Seq<Placement>, order: Seq<usize>, t: int, s: int) -> bool {
    exists|u: int| 0 <= u < t && sheet_of(pl, order, u) == s
}

/// `f` is inside the sheet and clear of the first `t` shapes in `order` that lie on
/// sheet `cur`.
pub open spec fn clear(
    f: Rect,
    sizes: Seq<SpriteData>,
    pl: Seq<Placement>,
    order: Seq<usize>,
    t: int,
    cur: int,
    max_w: u32,
    max_h: u32,
) -> bool {
    &&& within(f, rect_at(0, 0, max_w, max_h))
    &&& forall|u: int|
        0 <= u < t && #[trigger] sheet_of(pl, order, u) == cur ==> disjoint(
            f,
            rect_of(sizes, pl, order, u),
        )
}

/// `f` meets none of the first `t` shapes in `order` that lie on sheet `cur`.
pub open spec fn clear_of(
    f: Rect,
    sizes: Seq<SpriteData>,
    pl: Seq<Placement>,
    order: Seq<usize>,
    t: int,
    cur: int,
) -> bool {
    forall|u: int|
        0 <= u < t && #[trigger] sheet_of(pl, order, u) == cur ==> disjoint(f, rect_of(sizes, pl, order, u))
}

/// No free space is lost: every nonempty rectangle of the sheet that is clear of the
/// first `t` shapes on sheet `cur` lies inside one of the free rectangles.
pub open spec fn free_complete(
    free: Seq<FreeRect>,
    sizes: Seq<SpriteData>,
    pl: Seq<Placement>,
    order: Seq<usize>,
    t: int,
    cur: int,
    max_w: u32,
    max_h: u32,
) -> bool {
    forall|f: Rect|
        f.w > 0 && f.h > 0 && within(f, rect_at(0, 0, max_w, max_h)) && clear_of(f, sizes, pl, order, t, cur)
            ==> #[trigger] covered(f, free)
}

/// Sheet `s` was opened by one of the first `t` shapes, which, if not empty, fits
/// nowhere on sheet `s - 1` among the shapes placed there before it.
pub open spec fn opened_full_by(
    sizes: Seq<SpriteData>,
    pl: Seq<Placement>,
    order: Seq<usize>,
    t: int,
    s: int,
    max_w: u32,
    max_h: u32,
) -> bool {
    exists|u: int|
        0 <= u < t && sheet_of(pl, order, u) == s && (sizes[order[u] as int].width > 0
            && sizes[order[u] as int].height > 0 ==> forall|f: Rect|
            f.w == sizes[order[u] as int].width && f.h == sizes[order[u] as int].height && within(
                f,
                rect_at(0, 0, max_w, max_h),
            ) ==> !#[trigger] clear_of(f, sizes, pl, order, u, s - 1))
}

/// `f` meets no shape on sheet `s`.
pub open spec fn clear_on(f: Rect, sizes: Seq<SpriteData>, pl: Seq<Placement>, s: int) -> bool {
    forall|k: int| 0 <= k < pl.len() && #[trigger] pl[k].sheet == s ==> disjoint(f, placed_rect(sizes, pl, k))
}

/// Sheet `s` holds a shape that, if not empty, fits nowhere on sheet `s - 1`: a sheet
/// is opened only for a shape that the sheet before it cannot take.
pub open spec fn opened_when_full(sizes: Seq<SpriteData>, pl: Seq<Placement>, s: int, max_w: u32, max_h: u32) -> bool {
    exists|j: int|
        0 <= j < pl.len() && pl[j].sheet == s && (sizes[j].width > 0 && sizes[j].height > 0 ==> forall|f: Rect|
            f.w == sizes[j].width && f.h == sizes[j].height && within(f, rect_at(0, 0, max_w, max_h))
                ==> !#[trigger] clear_on(f, sizes, pl, s - 1))
}

proof fn lemma_clear_of_same(
    f: Rect,
    sizes: Seq<SpriteData>,
    pl1: Seq<Placement>,
    pl2: Seq<Placement>,
    order: Seq<usize>,
    t: int,
    cur: int,
)
    requires
        forall|u: int| 0 <= u < t ==> pl1[order[u] as int] == pl2[order[u] as int],
    ensures
        clear_of(f, sizes, pl1, order, t, cur) == clear_of(f, sizes, pl2, order, t, cur),
{
    assert forall|u: int| 0 <= u < t implies sheet_of(pl1, order, u) == sheet_of(pl2, order, u) && rect_of(
        sizes,
        pl1,
        order,
        u,
    ) == rect_of(sizes, pl2, order, u) by {
        assert(pl1[order[u] as int] == pl2[order[u] as int]);
    }
}

proof fn lemma_swap_perm(order: Seq<usize>, m: int, a: int, b: int)
    requires
        is_perm(order, m),
        0 <= a < m,
        0 <= b < m,
    ensures
        is_perm(order.update(a, order[b]).update(b, order[a]), m),
{
    let s = order.update(a, order[b]).update(b, order[a]);
    assert forall|j: int| 0 <= j < m implies #[trigger] occurs(s, j) by {
        assert(occurs(order, j));
        let t = choose|t: int| 0 <= t < order.len() && order[t] == j;
        if t == a {
            assert(s[b] == j);
        } else if t == b {
            assert(s[a] == j);
        } else {
            assert(s[t] == j);
        }
    }
}

/// The indices `0..sizes.len()`, longest side first; equal sides keep input order.
fn largest_first(sizes: &Vec<SpriteData>) -> (r: Vec<usize>)
    ensures
        is_perm(r@, sizes@.len() as int),
        forall|t: int|
            0 < t < r@.len() ==> max_side(sizes@[r@[t - 1] as int]) >= max_side(
                sizes@[#[trigger] r@[t] as int],
            ),
{
    let m = sizes.len();
    let mut order: Vec<usize> = Vec::new();
    let mut i: usize = 0;
    while i < m
        invariant
            i <= m,
            m == sizes@.len(),
            order@.len() == i,
            forall|t: int| 0 <= t < i ==> order@[t] == t,
        decreases m - i,
    {
        order.push(i);
        i = i + 1;
    }
    proof {
        assert forall|j: int| 0 <= j < m implies #[trigger] occurs(order@, j) by {
            assert(order@[j] == j);
        }
    }
    let mut i: usize = 1;
    while i < m
        invariant
            m == sizes@.len(),
            1 <= i,
            is_perm(order@, m as int),
            forall|t: int|
                0 < t < i && t < m ==> max_side(sizes@[order@[t - 1] as int]) >= max_side(
                    sizes@[#[trigger] order@[t] as int],
                ),
        decreases m - i,
    {
        let mut j: usize = i;
        while j > 0 && side_of(&sizes[order[j - 1]]) < side_of(&sizes[order[j]])
            invariant
                m == sizes@.len(),
                0 < i < m,
                j <= i,
                is_perm(order@, m as int),
                forall|t: int|
                    0 < t <= i && t != j ==> max_side(sizes@[order@[t - 1] as int]) >= max_side(
                        sizes@[#[trigger] order@[t] as int],
                    ),
                0 < j < i ==> max_side(sizes@[order@[j - 1] as int]) >= max_side(
                    sizes@[order@[j + 1] as int],
                ),
            decreases j,
        {
            let a = order[j - 1];
            let b = order[j];
            proof {
                lemma_swap_perm(order@, m as int, j - 1, j as int);
            }
            order.set(j - 1, b);
            order.set(j, a);
            j = j - 1;
        }
        i = i + 1;
    }
    order
}

pub open spec fn max_side(d: SpriteData) -> u32 {
    if d.width >= d.height {
        d.width
    } else {
        d.height
    }
}

fn side_of(d: &SpriteData) -> (r: u32)
    ensures
        r == max_side(*d),
{
    if d.width >= d.height {
        d.width
    } else {
        d.height
    }
}

/// MaxRects packing: shapes are taken longest side first; each goes to the corner of
/// the free rectangle that fits it most tightly along its shorter side, the free
/// rectangles that it meets are split round it, and a free rectangle that lies inside
/// one kept before it is dropped; no free area is lost. A shape that no free
/// rectangle holds closes the sheet and opens a new one.
#[verifier::rlimit(60)]
#[verifier::spinoff_prover]
pub fn pack_maxrects(sizes: &Vec<SpriteData>, max_w: u32, max_h: u32) -> (r: Packing)
    requires
        fits_max(sizes@, max_w, max_h),
    ensures
        valid_packing(sizes@, r.placements@, r.sheets as nat, max_w, max_h),
        forall|s: int| 1 <= s < r.sheets ==> #[trigger] opened_when_full(sizes@, r.placements@, s, max_w, max_h),
{
    let m = sizes.len();
    let order = largest_first(sizes);
    let mut pl: Vec<Placement> = Vec::new();
    let mut i: usize = 0;
    while i < m
        invariant
            i <= m,
            m == sizes@.len(),
            pl@.len() == i,
        decreases m - i,
    {
        pl.push(Placement { sheet: 0, x: 0, y: 0 });
        i = i + 1;
    }
    let mut sheets: usize = 0;
    let mut free: Vec<FreeRect> = Vec::new();
    let mut t: usize = 0;
    while t < m
        invariant
            t <= m,
            m == sizes@.len(),
            fits_max(sizes@, max_w, max_h),
            is_perm(order@, m as int),
            pl@.len() == m,
            sheets <= t,
            t > 0 ==> sheets > 0,
            sheets == 0 ==> free@.len() == 0,
            forall|u: int|
                0 <= u < t ==> #[trigger] sheet_of(pl@, order@, u) < sheets && placed_within(
                    sizes@,
                    pl@,
                    order@[u] as int,
                    max_w,
                    max_h,
                ),
            forall|u1: int, u2: int|
                0 <= u1 < t && 0 <= u2 < t && u1 != u2 && sheet_of(pl@, order@, u1) == sheet_of(
                    pl@,
                    order@,
                    u2,
                ) ==> disjoint(
                    #[trigger] rect_of(sizes@, pl@, order@, u1),
                    #[trigger] rect_of(sizes@, pl@, order@, u2),
                ),
            forall|s: int| 0 <= s < sheets ==> #[trigger] sheet_used_by(pl@, order@, t as int, s),
            forall|k: int|
                0 <= k < free@.len() ==> clear(
                    #[trigger] free@[k]@,
                    sizes@,
                    pl@,
                    order@,
                    t as int,
                    sheets - 1,
                    max_w,
                    max_h,
                ),
            sheets > 0 ==> free_complete(free@, sizes@, pl@, order@, t as int, sheets - 1, max_w, max_h),
            forall|s: int|
                1 <= s < sheets ==> #[trigger] opened_full_by(sizes@, pl@, order@, t as int, s, max_w, max_h),
        decreases m - t,
    {
        let idx = order[t];
        let w = sizes[idx].width;
        let h = sizes[idx].height;
        let mut choice = best_short_side_fit(&free, w, h);
        let ghost sheets0 = sheets;
        let ghost opened = choice is None;
        if choice.is_none() {
            proof {
                if sheets > 0 && w > 0 && h > 0 {
                    assert forall|f: Rect|
                        f.w == w && f.h == h && within(f, rect_at(0, 0, max_w, max_h)) implies !#[trigger] clear_of(
                        f,
                        sizes@,
                        pl@,
                        order@,
                        t as int,
                        sheets - 1,
                    ) by {
                        if clear_of(f, sizes@, pl@, order@, t as int, sheets - 1) {
                            assert(covered(f, free@));
                            let q = choose|q: int| 0 <= q < free@.len() && within(f, free@[q]@);
                            assert(free@[q].w < w || free@[q].h < h);
                        }
                    }
                }
            }
            sheets = sheets + 1;
            free = vec![FreeRect { x: 0, y: 0, w: max_w, h: max_h }];
            choice = Some(0);
            proof {
                assert forall|u: int|
                    0 <= u < t && #[trigger] sheet_of(pl@, order@, u) == sheets - 1 implies disjoint(
                    free@[0]@,
                    rect_of(sizes@, pl@, order@, u),
                ) by {
                    assert(sheet_of(pl@, order@, u) < sheets - 1);
                }
                assert(clear(free@[0]@, sizes@, pl@, order@, t as int, sheets - 1, max_w, max_h));
                assert forall|f: Rect|
                    f.w > 0 && f.h > 0 && within(f, rect_at(0, 0, max_w, max_h)) && clear_of(f, sizes@, pl@, order@, t as int, sheets - 1)
                        implies #[trigger] covered(f, free@) by {
                    assert(within(f, free@[0]@));
                }
            }
        }
        let b: usize = match choice {
            Some(b) => b,
            None => 0,
        };
        let f = free[b];
        let p = FreeRect { x: f.x, y: f.y, w, h };
        let ghost old_pl = pl@;
        let ghost old_free = free@;
        proof {
            assert(clear(free@[b as int]@, sizes@, old_pl, order@, t as int, sheets - 1, max_w, max_h));
        }
        pl.set(idx, Placement { sheet: sheets - 1, x: f.x, y: f.y });
        proof {
            assert forall|u: int| 0 <= u < t implies old_pl[order@[u] as int] == pl@[order@[u] as int] by {
                assert(order@[u] != order@[t as int]);
            }
            assert(rect_of(sizes@, pl@, order@, t as int) == p@);
            assert forall|k: int| 0 <= k < free@.len() implies #[trigger] free@[k].x as int
                + free@[k].w as int <= u32::MAX && free@[k].y as int + free@[k].h as int
                <= u32::MAX by {
                assert(clear(free@[k]@, sizes@, old_pl, order@, t as int, sheets - 1, max_w, max_h));
            }
        }
        let split = split_free(&free, p);
        free = prune_free(&split);
        t = t + 1;
        proof {
            assert forall|f: Rect|
                f.w > 0 && f.h > 0 && within(f, rect_at(0, 0, max_w, max_h)) && clear_of(f, sizes@, pl@, order@, t as int, sheets - 1)
                    implies #[trigger] covered(f, free@) by {
                lemma_clear_of_same(f, sizes@, old_pl, pl@, order@, t - 1, sheets - 1);
                assert(sheet_of(pl@, order@, t - 1) == sheets - 1);
                assert(disjoint(f, p@));
                assert(covered(f, old_free));
                let q = choose|q: int| 0 <= q < old_free.len() && within(f, old_free[q]@);
                assert(covered(f, split@));
                let q2 = choose|q: int| 0 <= q < split@.len() && within(f, split@[q]@);
                assert(covered(split@[q2]@, free@));
                let k = choose|k: int| 0 <= k < free@.len() && within(split@[q2]@, free@[k]@);
                assert(within(f, free@[k]@));
            }
            assert forall|s: int| 1 <= s < sheets implies #[trigger] opened_full_by(sizes@, pl@, order@, t as int, s, max_w, max_h) by {
                if opened && s == sheets - 1 {
                    let u = t - 1;
                    assert(sheet_of(pl@, order@, u) == s);
                    assert(sheets0 + 1 == sheets);
                    assert forall|f: Rect|
                        sizes@[order@[u] as int].width > 0 && sizes@[order@[u] as int].height > 0 &&
                        f.w == sizes@[order@[u] as int].width && f.h == sizes@[order@[u] as int].height && within(f, rect_at(0, 0, max_w, max_h))
                            implies !#[trigger] clear_of(f, sizes@, pl@, order@, u, s - 1) by {
                        lemma_clear_of_same(f, sizes@, old_pl, pl@, order@, u, s - 1);
                        assert(!clear_of(f, sizes@, old_pl, order@, u, s - 1));
                    }
                } else {
                    assert(opened_full_by(sizes@, old_pl, order@, t - 1, s, max_w, max_h));
                    let u = choose|u: int|
                        0 <= u < t - 1 && sheet_of(old_pl, order@, u) == s && (sizes@[order@[u] as int].width > 0
                            && sizes@[order@[u] as int].height > 0 ==> forall|f: Rect|
                            f.w == sizes@[order@[u] as int].width && f.h == sizes@[order@[u] as int].height && within(
                                f,
                                rect_at(0, 0, max_w, max_h),
                            ) ==> !#[trigger] clear_of(f, sizes@, old_pl, order@, u, s - 1));
                    assert(sheet_of(pl@, order@, u) == s);
                    assert forall|f: Rect|
                        sizes@[order@[u] as int].width > 0 && sizes@[order@[u] as int].height > 0 &&
                        f.w == sizes@[order@[u] as int].width && f.h == sizes@[order@[u] as int].height && within(f, rect_at(0, 0, max_w, max_h))
                            implies !#[trigger] clear_of(f, sizes@, pl@, order@, u, s - 1) by {
                        lemma_clear_of_same(f, sizes@, old_pl, pl@, order@, u, s - 1);
                    }
                }
            }
            assert forall|u: int| 0 <= u < t implies #[trigger] sheet_of(pl@, order@, u) < sheets
                && placed_within(sizes@, pl@, order@[u] as int, max_w, max_h) by {
                if u < t - 1 {
                    assert(sheet_of(old_pl, order@, u) < sheets);
                }
            }
            assert forall|u1: int, u2: int|
                0 <= u1 < t && 0 <= u2 < t && u1 != u2 && sheet_of(pl@, order@, u1) == sheet_of(
                    pl@,
                    order@,
                    u2,
                ) implies disjoint(
                #[trigger] rect_of(sizes@, pl@, order@, u1),
                #[trigger] rect_of(sizes@, pl@, order@, u2),
            ) by {
                if u1 < t - 1 && u2 < t - 1 {
                    assert(rect_of(sizes@, pl@, order@, u1) == rect_of(sizes@, old_pl, order@, u1));
                    assert(rect_of(sizes@, pl@, order@, u2) == rect_of(sizes@, old_pl, order@, u2));
                    assert(sheet_of(pl@, order@, u1) == sheet_of(old_pl, order@, u1));
                    assert(sheet_of(pl@, order@, u2) == sheet_of(old_pl, order@, u2));
                } else if u1 < t - 1 {
                    assert(sheet_of(old_pl, order@, u1) == sheets - 1);
                    assert(disjoint(f@, rect_of(sizes@, old_pl, order@, u1)));
                } else {
                    assert(sheet_of(old_pl, order@, u2) == sheets - 1);
                    assert(disjoint(f@, rect_of(sizes@, old_pl, order@, u2)));
                }
            }
            assert forall|s: int| 0 <= s < sheets implies #[trigger] sheet_used_by(
                pl@,
                order@,
                t as int,
                s,
            ) by {
                if s == sheets - 1 {
                    assert(sheet_of(pl@, order@, t - 1) == s);
                } else {
                    assert(sheet_used_by(old_pl, order@, t - 1, s));
                    let u = choose|u: int| 0 <= u < t - 1 && sheet_of(old_pl, order@, u) == s;
                    assert(sheet_of(pl@, order@, u) == s);
                }
            }
            assert forall|k: int| 0 <= k < free@.len() implies clear(
                #[trigger] free@[k]@,
                sizes@,
                pl@,
                order@,
                t as int,
                sheets - 1,
                max_w,
                max_h,
            ) by {
                assert(covered(free@[k]@, split@));
                let i1 = choose|i: int| 0 <= i < split@.len() && within(free@[k]@, split@[i]@);
                assert(covered(split@[i1]@, old_free));
                let i2 = choose|i: int| 0 <= i < old_free.len() && within(split@[i1]@, old_free[i]@);
                assert(clear(old_free[i2]@, sizes@, old_pl, order@, t - 1, sheets - 1, max_w, max_h));
                assert forall|u: int|
                    0 <= u < t && #[trigger] sheet_of(pl@, order@, u) == sheets - 1 implies disjoint(
                    free@[k]@,
                    rect_of(sizes@, pl@, order@, u),
                ) by {
                    if u < t - 1 {
                        assert(sheet_of(old_pl, order@, u) == sheets - 1);
                        assert(rect_of(sizes@, pl@, order@, u) == rect_of(sizes@, old_pl, order@, u));
                    }
                }
            }
        }
    }
    proof {
        let sz = sizes@;
        let pls = pl@;
        assert forall|j: int| 0 <= j < pls.len() implies #[trigger] pls[j].sheet < sheets
            && placed_within(sz, pls, j, max_w, max_h) by {
            assert(occurs(order@, j));
            let u = choose|u: int| 0 <= u < order@.len() && order@[u] == j;
            assert(sheet_of(pls, order@, u) < sheets);
        }
        assert forall|j: int, k: int|
            0 <= j < pls.len() && 0 <= k < pls.len() && j != k && pls[j].sheet == pls[k].sheet
                implies disjoint(#[trigger] placed_rect(sz, pls, j), #[trigger] placed_rect(sz, pls, k)) by {
            assert(occurs(order@, j));
            assert(occurs(order@, k));
            let u1 = choose|u: int| 0 <= u < order@.len() && order@[u] == j;
            let u2 = choose|u: int| 0 <= u < order@.len() && order@[u] == k;
            assert(rect_of(sz, pls, order@, u1) == placed_rect(sz, pls, j));
            assert(rect_of(sz, pls, order@, u2) == placed_rect(sz, pls, k));
            assert(sheet_of(pls, order@, u1) == sheet_of(pls, order@, u2));
        }
        assert forall|s: int| 0 <= s < sheets implies #[trigger] sheet_used(pls, s) by {
            assert(sheet_used_by(pls, order@, m as int, s));
            let u = choose|u: int| 0 <= u < m && sheet_of(pls, order@, u) == s;
            assert(pls[order@[u] as int].sheet == s);
        }
        assert forall|s: int| 1 <= s < sheets implies #[trigger] opened_when_full(sz, pls, s, max_w, max_h) by {
            assert(opened_full_by(sz, pls, order@, m as int, s, max_w, max_h));
            let u = choose|u: int|
                0 <= u < m && sheet_of(pls, order@, u) == s && (sz[order@[u] as int].width > 0
                    && sz[order@[u] as int].height > 0 ==> forall|f: Rect|
                    f.w == sz[order@[u] as int].width && f.h == sz[order@[u] as int].height && within(
                        f,
                        rect_at(0, 0, max_w, max_h),
                    ) ==> !#[trigger] clear_of(f, sz, pls, order@, u, s - 1));
            let j = order@[u] as int;
            assert forall|f: Rect|
                sz[j].width > 0 && sz[j].height > 0 && f.w == sz[j].width && f.h == sz[j].height && within(f, rect_at(0, 0, max_w, max_h))
                    implies !#[trigger] clear_on(f, sz, pls, s - 1) by {
                assert(!clear_of(f, sz, pls, order@, u, s - 1));
                if clear_on(f, sz, pls, s - 1) {
                    assert forall|v: int| 0 <= v < u && #[trigger] sheet_of(pls, order@, v) == s - 1 implies disjoint(
                        f,
                        rect_of(sz, pls, order@, v),
                    ) by {
                        assert(pls[order@[v] as int].sheet == s - 1);
                    }
                }
            }
            assert(pls[j].sheet == s);
        }
    }
    Packing { placements: pl, sheets }
}

/// Index of the free rectangle that holds a `w` by `h` shape with the least leftover
/// along its shorter side, the first one on a tie; `None` when none holds it.
fn best_short_side_fit(free: &Vec<FreeRect>, w: u32, h: u32) -> (r: Option<usize>)
    ensures
        r is None ==> forall|i: int| 0 <= i < free@.len() ==> free@[i].w < w || free@[i].h < h,
        r matches Some(i) ==> i < free@.len() && free@[i as int].w >= w && free@[i as int].h >= h,
{
    let mut best: Option<usize> = None;
    let mut best_score: u32 = 0;
    let mut i: usize = 0;
    while i < free.len()
        invariant
            i <= free@.len(),
            best is None ==> forall|k: int| 0 <= k < i ==> free@[k].w < w || free@[k].h < h,
            best matches Some(b) ==> b < free@.len() && free@[b as int].w >= w && free@[b as int].h
                >= h,
        decreases free.len() - i,
    {
        let f = free[i];
        if f.w >= w && f.h >= h {
            let dw = f.w - w;
            let dh = f.h - h;
            let score = if dw < dh { dw } else { dh };
            if best.is_none() || score < best_score {
                best = Some(i);
                best_score = score;
            }
        }
        i = i + 1;
    }
    best
}

/// Cuts the placed rectangle `p` out of every free rectangle: a free rectangle that
/// meets `p` gives way to its parts left of, right of, above and below `p`.
fn split_free(free: &Vec<FreeRect>, p: FreeRect) -> (r: Vec<FreeRect>)
    requires
        p.x as int + p.w as int <= u32::MAX,
        p.y as int + p.h as int <= u32::MAX,
        forall|i: int|
            0 <= i < free@.len() ==> #[trigger] free@[i].x as int + free@[i].w as int <= u32::MAX
                && free@[i].y as int + free@[i].h as int <= u32::MAX,
    ensures
        forall|k: int| 0 <= k < r@.len() ==> disjoint(#[trigger] r@[k]@, p@),
        forall|k: int| 0 <= k < r@.len() ==> covered(#[trigger] r@[k]@, free@),
        forall|q: int, f: Rect|
            0 <= q < free@.len() && #[trigger] within(f, free@[q]@) && f.w > 0 && f.h > 0 && disjoint(f, p@)
                ==> covered(f, r@),
{
    let mut out: Vec<FreeRect> = Vec::new();
    let mut i: usize = 0;
    let px2 = p.x + p.w;
    let py2 = p.y + p.h;
    while i < free.len()
        invariant
            i <= free@.len(),
            forall|i: int|
                0 <= i < free@.len() ==> #[trigger] free@[i].x as int + free@[i].w as int
                    <= u32::MAX && free@[i].y as int + free@[i].h as int <= u32::MAX,
            px2 == p.x + p.w,
            py2 == p.y + p.h,
            forall|k: int| 0 <= k < out@.len() ==> disjoint(#[trigger] out@[k]@, p@),
            forall|k: int| 0 <= k < out@.len() ==> covered(#[trigger] out@[k]@, free@),
            forall|q: int, f: Rect|
                0 <= q < i && #[trigger] within(f, free@[q]@) && f.w > 0 && f.h > 0 && disjoint(f, p@)
                    ==> covered(f, out@),
        decreases free.len() - i,
    {
        let g = free[i];
        let ghost gi = i as int;
        let ghost start = out@;
        let ghost mut li: int = -1;
        let ghost mut ri: int = -1;
        let ghost mut ti: int = -1;
        let ghost mut bi: int = -1;
        let ghost whole = false;
        if g.x as u64 + g.w as u64 <= p.x as u64 || px2 <= g.x || g.y as u64 + g.h as u64
            <= p.y as u64 || py2 <= g.y {
            out.push(g);
            proof {
                whole = true;
                li = out@.len() - 1;
                assert(within(g@, free@[gi]@));
                assert(covered(g@, free@));
            }
        } else {
            if g.x < p.x {
                let left = FreeRect { x: g.x, y: g.y, w: p.x - g.x, h: g.h };
                out.push(left);
                proof {
                    li = out@.len() - 1;
                    assert(within(left@, free@[gi]@));
                    assert(covered(left@, free@));
                }
            }
            if px2 < g.x + g.w {
                let right = FreeRect { x: px2, y: g.y, w: g.x + g.w - px2, h: g.h };
                out.push(right);
                proof {
                    ri = out@.len() - 1;
                    assert(within(right@, free@[gi]@));
                    assert(covered(right@, free@));
                }
            }
            if g.y < p.y {
                let top = FreeRect { x: g.x, y: g.y, w: g.w, h: p.y - g.y };
                out.push(top);
                proof {
                    ti = out@.len() - 1;
                    assert(within(top@, free@[gi]@));
                    assert(covered(top@, free@));
                }
            }
            if py2 < g.y + g.h {
                let bottom = FreeRect { x: g.x, y: py2, w: g.w, h: g.y + g.h - py2 };
                out.push(bottom);
                proof {
                    bi = out@.len() - 1;
                    assert(within(bottom@, free@[gi]@));
                    assert(covered(bottom@, free@));
                }
            }
        }
        proof {
            assert forall|q: int, f: Rect|
                0 <= q < i + 1 && #[trigger] within(f, free@[q]@) && f.w > 0 && f.h > 0 && disjoint(f, p@)
                    implies covered(f, out@) by {
                if q < i {
                    assert(covered(f, start));
                    let k = choose|k: int| 0 <= k < start.len() && within(f, start[k]@);
                    assert(out@[k] == start[k]);
                } else if whole {
                    assert(within(f, out@[li]@));
                } else if f.x + f.w <= p.x {
                    assert(within(f, out@[li]@));
                } else if p.x + p.w <= f.x {
                    assert(within(f, out@[ri]@));
                } else if f.y + f.h <= p.y {
                    assert(within(f, out@[ti]@));
                } else {
                    assert(within(f, out@[bi]@));
                }
            }
        }
        i = i + 1;
    }
    out
}

/// Drops every free rectangle that lies inside one kept before it.
fn prune_free(free: &Vec<FreeRect>) -> (r: Vec<FreeRect>)
    ensures
        forall|k: int| 0 <= k < r@.len() ==> covered(#[trigger] r@[k]@, free@),
        forall|q: int| 0 <= q < free@.len() ==> covered(#[trigger] free@[q]@, r@),
{
    let mut out: Vec<FreeRect> = Vec::new();
    let mut i: usize = 0;
    while i < free.len()
        invariant
            i <= free@.len(),
            forall|k: int| 0 <= k < out@.len() ==> covered(#[trigger] out@[k]@, free@),
            forall|q: int| 0 <= q < i ==> covered(#[trigger] free@[q]@, out@),
        decreases free.len() - i,
    {
        let g = free[i];
        let mut inside = false;
        let mut j: usize = 0;
        while j < out.len() && !inside
            invariant
                i < free@.len(),
                g == free@[i as int],
                j <= out@.len(),
                inside ==> covered(g@, out@),
            decreases out.len() - j,
        {
            let f = out[j];
            if f.x <= g.x && f.y <= g.y && g.x as u64 + g.w as u64 <= f.x as u64 + f.w as u64
                && g.y as u64 + g.h as u64 <= f.y as u64 + f.h as u64 {
                proof {
                    assert(within(g@, out@[j as int]@));
                }
                inside = true;
            }
            j = j + 1;
        }
        if !inside {
            let ghost start = out@;
            out.push(g);
            proof {
                assert(within(free@[i as int]@, free@[i as int]@));
                assert(covered(g@, free@));
                assert(within(g@, out@[start.len() as int]@));
                assert forall|q: int| 0 <= q < i + 1 implies covered(#[trigger] free@[q]@, out@) by {
                    if q < i {
                        assert(covered(free@[q]@, start));
                        let k = choose|k: int| 0 <= k < start.len() && within(free@[q]@, start[k]@);
                        assert(out@[k] == start[k]);
                    }
                }
            }
        }
        i = i + 1;
    }
    out
}

} // verus!
