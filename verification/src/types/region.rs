//! The pixels that a list of rectangles covers, and what masking does to them.

use vstd::prelude::*;
use super::rect::{Rect, SplitRect, spec_bounds, spec_hull, spec_mask, spec_mask_rect, spec_residual};

verus! {

/// Some member of `rects` holds the pixel `(x, y)`.
pub open spec fn in_region(rects: Seq<Rect>, x: int, y: int) -> bool {
    exists|i: int| 0 <= i < rects.len() && #[trigger] rects[i].contains(x, y)
}

/// The two lists cover the same pixels.
pub open spec fn same_region(a: Seq<Rect>, b: Seq<Rect>) -> bool {
    forall|x: int, y: int| in_region(a, x, y) == in_region(b, x, y)
}

/// Every member holds at least one pixel.
pub open spec fn all_nonempty(rects: Seq<Rect>) -> bool {
    forall|i: int| 0 <= i < rects.len() ==> !(#[trigger] rects[i]).spec_is_empty()
}

/// No two members share a pixel.
pub open spec fn pairwise_disjoint(rects: Seq<Rect>) -> bool {
    forall|i: int, j: int|
        0 <= i < j < rects.len() ==> !(#[trigger] rects[i]).spec_intersect(#[trigger] rects[j])
}

/// `r` lies within some member of `outer`.
pub open spec fn within_some(r: Rect, outer: Seq<Rect>) -> bool {
    exists|i: int| 0 <= i < outer.len() && (#[trigger] outer[i]).spec_cover(r)
}

/// Every member of `inner` lies within some member of `outer`.
pub open spec fn refines(inner: Seq<Rect>, outer: Seq<Rect>) -> bool {
    forall|k: int| 0 <= k < inner.len() ==> within_some(#[trigger] inner[k], outer)
}

impl SplitRect {
    /// The members hold at least one pixel each and no two of them overlap.
    pub open spec fn wf(&self) -> bool {
        all_nonempty(self@) && pairwise_disjoint(self@)
    }
}

pub proof fn lemma_region_concat(a: Seq<Rect>, b: Seq<Rect>, x: int, y: int)
    ensures
        in_region(a + b, x, y) == (in_region(a, x, y) || in_region(b, x, y)),
{
    if in_region(a + b, x, y) {
        let i = choose|i: int| 0 <= i < (a + b).len() && #[trigger] (a + b)[i].contains(x, y);
        if i < a.len() {
            assert(a[i].contains(x, y));
        } else {
            assert(b[i - a.len()].contains(x, y));
        }
    }
    if in_region(a, x, y) {
        let i = choose|i: int| 0 <= i < a.len() && #[trigger] a[i].contains(x, y);
        assert((a + b)[i].contains(x, y));
    }
    if in_region(b, x, y) {
        let i = choose|i: int| 0 <= i < b.len() && #[trigger] b[i].contains(x, y);
        assert((a + b)[i + a.len()].contains(x, y));
    }
}

pub proof fn lemma_region_residual(r: Rect, x: int, y: int)
    ensures
        in_region(spec_residual(r), x, y) == r.contains(x, y),
{
    if r.contains(x, y) {
        assert(spec_residual(r)[0].contains(x, y));
    }
}

/// Masking one rectangle removes exactly the pixels of the mask.
pub proof fn lemma_mask_rect_region(r: Rect, mask: Rect, x: int, y: int)
    ensures
        in_region(spec_mask_rect(r, mask), x, y) == (r.contains(x, y) && !mask.contains(x, y)),
{
    match r.spec_intersection(mask) {
        None => {
            if r.contains(x, y) {
                assert(seq![r][0].contains(x, y));
            }
        },
        Some(inter) => {
            let left = Rect { x1: r.x1, y1: r.y1, x2: inter.x1, y2: inter.y2 };
            let top = Rect { x1: inter.x1, y1: r.y1, x2: r.x2, y2: inter.y1 };
            let right = Rect { x1: inter.x2, y1: inter.y1, x2: r.x2, y2: r.y2 };
            let bottom = Rect { x1: r.x1, y1: inter.y2, x2: inter.x2, y2: r.y2 };
            let a = spec_residual(left);
            let b = spec_residual(top);
            let c = spec_residual(right);
            let d = spec_residual(bottom);
            lemma_region_residual(left, x, y);
            lemma_region_residual(top, x, y);
            lemma_region_residual(right, x, y);
            lemma_region_residual(bottom, x, y);
            lemma_region_concat(a, b, x, y);
            lemma_region_concat(a + b, c, x, y);
            lemma_region_concat(a + b + c, d, x, y);
        },
    }
}

/// Masking removes exactly the pixels of the mask, and nothing else.
pub proof fn lemma_mask_region(rects: Seq<Rect>, mask: Rect, x: int, y: int)
    ensures
        in_region(spec_mask(rects, mask), x, y) == (in_region(rects, x, y) && !mask.contains(x, y)),
    decreases rects.len(),
{
    if rects.len() > 0 {
        let head = rects.drop_last();
        lemma_mask_region(head, mask, x, y);
        lemma_mask_rect_region(rects.last(), mask, x, y);
        lemma_region_concat(spec_mask(head, mask), spec_mask_rect(rects.last(), mask), x, y);
        assert(rects =~= head + seq![rects.last()]);
        lemma_region_concat(head, seq![rects.last()], x, y);
        if rects.last().contains(x, y) {
            assert(seq![rects.last()][0].contains(x, y));
        }
    }
}

/// What masking leaves of `r` lies within `r`, misses the mask, and is made
/// of rectangles that do not overlap; they hold a pixel each if `r` does.
pub proof fn lemma_mask_rect_members(r: Rect, mask: Rect)
    ensures
        forall|k: int|
            0 <= k < spec_mask_rect(r, mask).len() ==> r.spec_cover(
                #[trigger] spec_mask_rect(r, mask)[k],
            ),
        forall|k: int|
            0 <= k < spec_mask_rect(r, mask).len() ==> !(#[trigger] spec_mask_rect(
                r,
                mask,
            )[k]).spec_intersect(mask),
        !r.spec_is_empty() ==> all_nonempty(spec_mask_rect(r, mask)),
        pairwise_disjoint(spec_mask_rect(r, mask)),
        spec_mask_rect(r, mask).len() <= 4,
{
    match r.spec_intersection(mask) {
        None => {},
        Some(inter) => {
            let left = Rect { x1: r.x1, y1: r.y1, x2: inter.x1, y2: inter.y2 };
            let top = Rect { x1: inter.x1, y1: r.y1, x2: r.x2, y2: inter.y1 };
            let right = Rect { x1: inter.x2, y1: inter.y1, x2: r.x2, y2: r.y2 };
            let bottom = Rect { x1: r.x1, y1: inter.y2, x2: inter.x2, y2: r.y2 };
            let out = spec_mask_rect(r, mask);
            assert(out == spec_residual(left) + spec_residual(top) + spec_residual(right)
                + spec_residual(bottom));
            assert forall|k: int| 0 <= k < out.len() implies (out[k] == left || out[k] == top
                || out[k] == right || out[k] == bottom) && !out[k].spec_is_empty() by {}
            assert forall|i: int, j: int| 0 <= i < j < out.len() implies !(#[trigger] out[i]).spec_intersect(
                #[trigger] out[j],
            ) by {
                lemma_residual_order(left, top, right, bottom, i, j);
            }
        },
    }
}

/// In the concatenation of four residual lists, a later member comes from
/// a later one of the four rectangles.
proof fn lemma_residual_order(a: Rect, b: Rect, c: Rect, d: Rect, i: int, j: int)
    requires
        0 <= i < j < (spec_residual(a) + spec_residual(b) + spec_residual(c) + spec_residual(
            d,
        )).len(),
    ensures
        ({
            let out = spec_residual(a) + spec_residual(b) + spec_residual(c) + spec_residual(d);
            ||| out[i] == a && (out[j] == b || out[j] == c || out[j] == d)
            ||| out[i] == b && (out[j] == c || out[j] == d)
            ||| out[i] == c && out[j] == d
        }),
{
}


/// Every member of the masked list lies within a member of the list,
/// and misses the mask.
pub proof fn lemma_mask_refines(rects: Seq<Rect>, mask: Rect)
    ensures
        refines(spec_mask(rects, mask), rects),
        forall|k: int|
            0 <= k < spec_mask(rects, mask).len() ==> !(#[trigger] spec_mask(
                rects,
                mask,
            )[k]).spec_intersect(mask),
    decreases rects.len(),
{
    if rects.len() > 0 {
        let head = rects.drop_last();
        let out = spec_mask(rects, mask);
        lemma_mask_refines(head, mask);
        lemma_mask_rect_members(rects.last(), mask);
        let a = spec_mask(head, mask);
        let b = spec_mask_rect(rects.last(), mask);
        assert forall|k: int| 0 <= k < out.len() implies within_some(#[trigger] out[k], rects) by {
            if k < a.len() {
                assert(within_some(a[k], head));
                let i = choose|i: int|
                    0 <= i < head.len() && (#[trigger] head[i]).spec_cover(a[k]);
                assert(rects[i].spec_cover(out[k]));
            } else {
                assert(out[k] == b[k - a.len()]);
                assert(rects[rects.len() - 1].spec_cover(out[k]));
            }
        }
        assert forall|k: int| 0 <= k < out.len() implies !(#[trigger] out[k]).spec_intersect(
            mask,
        ) by {
            if k < a.len() {
                assert(out[k] == a[k]);
            } else {
                assert(out[k] == b[k - a.len()]);
            }
        }
    }
}

/// Masking keeps a well-formed list well formed.
pub proof fn lemma_mask_well_formed(rects: Seq<Rect>, mask: Rect)
    requires
        all_nonempty(rects),
        pairwise_disjoint(rects),
    ensures
        all_nonempty(spec_mask(rects, mask)),
        pairwise_disjoint(spec_mask(rects, mask)),
    decreases rects.len(),
{
    if rects.len() > 0 {
        let head = rects.drop_last();
        let last = rects.last();
        let out = spec_mask(rects, mask);
        assert forall|i: int| 0 <= i < head.len() implies !(#[trigger] head[i]).spec_is_empty() by {
            assert(head[i] == rects[i]);
        }
        assert forall|i: int, j: int| 0 <= i < j < head.len() implies !(#[trigger] head[i]).spec_intersect(
            #[trigger] head[j],
        ) by {
            assert(head[i] == rects[i] && head[j] == rects[j]);
        }
        lemma_mask_well_formed(head, mask);
        lemma_mask_refines(head, mask);
        lemma_mask_rect_members(last, mask);
        let a = spec_mask(head, mask);
        let b = spec_mask_rect(last, mask);
        assert(!rects[rects.len() - 1].spec_is_empty());
        assert forall|k: int| 0 <= k < out.len() implies !(#[trigger] out[k]).spec_is_empty() by {
            if k < a.len() {
                assert(out[k] == a[k]);
            } else {
                assert(out[k] == b[k - a.len()]);
            }
        }
        assert forall|i: int, j: int| 0 <= i < j < out.len() implies !(#[trigger] out[i]).spec_intersect(
            #[trigger] out[j],
        ) by {
            if j < a.len() {
                assert(out[i] == a[i] && out[j] == a[j]);
            } else if i >= a.len() {
                assert(out[i] == b[i - a.len()] && out[j] == b[j - a.len()]);
            } else {
                assert(out[i] == a[i] && out[j] == b[j - a.len()]);
                assert(within_some(a[i], head));
                let s = choose|s: int| 0 <= s < head.len() && (#[trigger] head[s]).spec_cover(a[i]);
                assert(head[s] == rects[s]);
                assert(!rects[s].spec_intersect(rects[rects.len() - 1]));
                assert(last.spec_cover(b[j - a.len()]));
            }
        }
    }
}

/// Masking with a rectangle that holds no pixel changes nothing.
pub proof fn lemma_mask_with_empty_is_identity(rects: Seq<Rect>, mask: Rect)
    requires
        mask.spec_is_empty(),
    ensures
        spec_mask(rects, mask) == rects,
    decreases rects.len(),
{
    if rects.len() > 0 {
        lemma_mask_with_empty_is_identity(rects.drop_last(), mask);
        assert(rects.last().spec_intersection(mask) is None);
        assert(rects =~= rects.drop_last() + seq![rects.last()]);
    } else {
        assert(spec_mask(rects, mask) =~= rects);
    }
}

/// The bounding box covers every member.
pub proof fn lemma_hull_covers_members(rects: Seq<Rect>)
    requires
        rects.len() > 0,
    ensures
        forall|i: int| 0 <= i < rects.len() ==> spec_hull(rects).spec_cover(#[trigger] rects[i]),
    decreases rects.len(),
{
    if rects.len() > 1 {
        let head = rects.drop_last();
        lemma_hull_covers_members(head);
        assert forall|i: int| 0 <= i < rects.len() implies spec_hull(rects).spec_cover(
            #[trigger] rects[i],
        ) by {
            if i < head.len() {
                assert(spec_hull(head).spec_cover(head[i]));
            }
        }
    }
}

/// The bounding box lies within every rectangle that covers all members.
pub proof fn lemma_hull_is_least(rects: Seq<Rect>, outer: Rect)
    requires
        rects.len() > 0,
        forall|i: int| 0 <= i < rects.len() ==> outer.spec_cover(#[trigger] rects[i]),
    ensures
        outer.spec_cover(spec_hull(rects)),
    decreases rects.len(),
{
    if rects.len() > 1 {
        let head = rects.drop_last();
        assert forall|i: int| 0 <= i < head.len() implies outer.spec_cover(#[trigger] head[i]) by {
            assert(head[i] == rects[i]);
        }
        lemma_hull_is_least(head, outer);
        assert(outer.spec_cover(rects[rects.len() - 1]));
    } else {
        assert(outer.spec_cover(rects[0]));
    }
}

/// The bounding box of what masking leaves lies within the bounding box
/// of the list.
pub proof fn lemma_mask_bounds_shrink(rects: Seq<Rect>, mask: Rect)
    ensures
        spec_bounds(spec_mask(rects, mask)) is Some ==> spec_bounds(rects) is Some && spec_bounds(
            rects,
        ).unwrap().spec_cover(spec_bounds(spec_mask(rects, mask)).unwrap()),
{
    let out = spec_mask(rects, mask);
    if out.len() > 0 {
        lemma_mask_refines(rects, mask);
        assert(within_some(out[0], rects));
        lemma_hull_covers_members(rects);
        let outer = spec_hull(rects);
        assert forall|k: int| 0 <= k < out.len() implies outer.spec_cover(#[trigger] out[k]) by {
            assert(within_some(out[k], rects));
            let i = choose|i: int| 0 <= i < rects.len() && (#[trigger] rects[i]).spec_cover(out[k]);
            assert(outer.spec_cover(rects[i]));
        }
        lemma_hull_is_least(out, outer);
    }
}

/// A mask that covers the bounding box of a list of non-empty rectangles
/// leaves nothing of the list.
pub proof fn lemma_mask_by_cover_is_empty(rects: Seq<Rect>, mask: Rect)
    requires
        all_nonempty(rects),
        spec_bounds(rects) matches Some(b) ==> mask.spec_cover(b),
    ensures
        spec_mask(rects, mask).len() == 0,
    decreases rects.len(),
{
    if rects.len() > 0 {
        let head = rects.drop_last();
        lemma_hull_covers_members(rects);
        assert forall|i: int| 0 <= i < head.len() implies !(#[trigger] head[i]).spec_is_empty()
            && mask.spec_cover(head[i]) by {
            assert(head[i] == rects[i]);
            assert(spec_hull(rects).spec_cover(rects[i]));
        }
        if head.len() > 0 {
            lemma_hull_is_least(head, mask);
        }
        lemma_mask_by_cover_is_empty(head, mask);
        let last = rects[rects.len() - 1];
        assert(spec_hull(rects).spec_cover(last));
        assert(!last.spec_is_empty());
        assert(spec_mask_rect(last, mask) =~= Seq::<Rect>::empty());
    }
}

/// A list of non-empty rectangles covers no pixel exactly when it has no
/// member.
pub proof fn lemma_nonempty_list_has_pixel(rects: Seq<Rect>)
    requires
        all_nonempty(rects),
    ensures
        (rects.len() > 0) == exists|x: int, y: int| in_region(rects, x, y),
{
    if rects.len() > 0 {
        assert(rects[0].contains(rects[0].x1 as int, rects[0].y1 as int));
        assert(in_region(rects, rects[0].x1 as int, rects[0].y1 as int));
    }
}

/// The bounding box of a list of non-empty rectangles depends only on the
/// pixels that the list covers.
pub proof fn lemma_hull_of_same_region(a: Seq<Rect>, b: Seq<Rect>)
    requires
        all_nonempty(a),
        all_nonempty(b),
        same_region(a, b),
        a.len() > 0,
    ensures
        b.len() > 0,
        spec_hull(a) == spec_hull(b),
{
    lemma_nonempty_list_has_pixel(a);
    lemma_nonempty_list_has_pixel(b);
    let (px, py) = choose|x: int, y: int| in_region(a, x, y);
    assert(in_region(b, px, py));
    lemma_hull_within(a, b);
    lemma_hull_within(b, a);
}

/// If every pixel of `a` is a pixel of `b`, the bounding box of `a` lies
/// within that of `b`.
proof fn lemma_hull_within(a: Seq<Rect>, b: Seq<Rect>)
    requires
        all_nonempty(a),
        a.len() > 0,
        b.len() > 0,
        forall|x: int, y: int| in_region(a, x, y) ==> in_region(b, x, y),
    ensures
        spec_hull(b).spec_cover(spec_hull(a)),
{
    let hb = spec_hull(b);
    lemma_hull_covers_members(b);
    assert forall|i: int| 0 <= i < a.len() implies hb.spec_cover(#[trigger] a[i]) by {
        let r = a[i];
        assert(r.contains(r.x1 as int, r.y1 as int));
        assert(in_region(a, r.x1 as int, r.y1 as int));
        let j = choose|j: int| 0 <= j < b.len() && (#[trigger] b[j]).contains(r.x1 as int, r.y1 as int);
        assert(hb.spec_cover(b[j]));
        assert(r.contains(r.x2 - 1, r.y2 - 1));
        assert(in_region(a, r.x2 - 1, r.y2 - 1));
        let k = choose|k: int| 0 <= k < b.len() && (#[trigger] b[k]).contains(r.x2 - 1, r.y2 - 1);
        assert(hb.spec_cover(b[k]));
    }
    lemma_hull_is_least(a, hb);
}

} // verus!
