//! What holds of a tree that was built by inserting surfaces one by one.

use vstd::prelude::*;
use super::rect::{Rect, spec_bounds, spec_hull, spec_mask};
use super::region::{
    all_nonempty, in_region, lemma_hull_covers_members, lemma_hull_is_least, lemma_mask_refines,
    lemma_mask_region, lemma_nonempty_list_has_pixel, refines, within_some,
};
use super::ztree::{
    LeafView, SurfaceView, lemma_flatten_wf, lemma_insert_wf, lemma_lower_members,
    lemma_upper_members, spec_flatten, spec_insert, spec_lower, spec_mask_above, spec_tree_wf,
    spec_upper, spec_visible,
};

verus! {

/// The tree that inserting `surfaces` one after the other into an empty
/// tree gives.
pub open spec fn spec_build(surfaces: Seq<SurfaceView>) -> Seq<LeafView>
    decreases surfaces.len(),
{
    if surfaces.len() == 0 {
        Seq::empty()
    } else {
        spec_insert(spec_build(surfaces.drop_last()), surfaces.last())
    }
}

/// The leaf is what is left of the surface: it has the surface's z-index
/// and reference, and lies within the surface's area.
pub open spec fn leaf_from(leaf: LeafView, surface: SurfaceView) -> bool {
    &&& leaf.z_index == surface.z_index
    &&& leaf.reference == surface.reference
    &&& refines(leaf.rects, seq![surface.area])
}

/// Every leaf is what is left of one of the surfaces.
pub open spec fn tree_from(leaves: Seq<LeafView>, surfaces: Seq<SurfaceView>) -> bool {
    forall|l: int|
        0 <= l < leaves.len() ==> exists|i: int|
            0 <= i < surfaces.len() && leaf_from(#[trigger] leaves[l], #[trigger] surfaces[i])
}

pub proof fn lemma_refines_trans(a: Seq<Rect>, b: Seq<Rect>, c: Seq<Rect>)
    requires
        refines(a, b),
        refines(b, c),
    ensures
        refines(a, c),
{
    assert forall|k: int| 0 <= k < a.len() implies within_some(#[trigger] a[k], c) by {
        assert(within_some(a[k], b));
        let j = choose|j: int| 0 <= j < b.len() && (#[trigger] b[j]).spec_cover(a[k]);
        assert(within_some(b[j], c));
        let i = choose|i: int| 0 <= i < c.len() && (#[trigger] c[i]).spec_cover(b[j]);
        assert(c[i].spec_cover(a[k]));
    }
}

pub proof fn lemma_refines_self(a: Seq<Rect>)
    ensures
        refines(a, a),
{
    assert forall|k: int| 0 <= k < a.len() implies within_some(#[trigger] a[k], a) by {
        assert(a[k].spec_cover(a[k]));
    }
}

/// What is visible of a surface lies within the surface.
pub proof fn lemma_mask_above_refines(leaves: Seq<LeafView>, z: i32, rects: Seq<Rect>)
    ensures
        refines(spec_mask_above(leaves, z, rects), rects),
    decreases leaves.len(),
{
    if leaves.len() == 0 {
        lemma_refines_self(rects);
    } else {
        lemma_mask_above_refines(leaves.drop_last(), z, rects);
        let prev = spec_mask_above(leaves.drop_last(), z, rects);
        match spec_bounds(leaves.last().rects) {
            Some(b) => {
                if leaves.last().z_index > z {
                    lemma_mask_refines(prev, b);
                    lemma_refines_trans(spec_mask(prev, b), prev, rects);
                }
            },
            None => {},
        }
    }
}

/// After an insertion every leaf is what is left of a surface inserted
/// before or of the new one, and the tree has grown by one leaf at most.
pub proof fn lemma_insert_from(
    leaves: Seq<LeafView>,
    surfaces: Seq<SurfaceView>,
    surface: SurfaceView,
)
    requires
        tree_from(leaves, surfaces),
    ensures
        tree_from(spec_insert(leaves, surface), surfaces.push(surface)),
        spec_insert(leaves, surface).len() <= leaves.len() + 1,
{
    let out = spec_insert(leaves, surface);
    let all = surfaces.push(surface);
    let area = spec_visible(leaves, surface);
    let z = surface.z_index;
    assert forall|i: int| 0 <= i < surfaces.len() implies all[i] == surfaces[i] by {}
    if area.len() == 0 {
        assert forall|l: int| 0 <= l < out.len() implies exists|i: int|
            0 <= i < all.len() && leaf_from(#[trigger] out[l], #[trigger] all[i]) by {
            let i = choose|i: int|
                0 <= i < surfaces.len() && leaf_from(leaves[l], #[trigger] surfaces[i]);
            assert(leaf_from(out[l], all[i]));
        }
    } else {
        let mask = spec_hull(area);
        let lower = spec_lower(leaves, z, mask);
        let upper = spec_upper(leaves, z);
        let leaf = LeafView { z_index: z, reference: surface.reference, rects: area };
        lemma_lower_members(leaves, z, mask);
        lemma_upper_members(leaves, z);
        lemma_mask_above_refines(leaves, z, seq![surface.area]);
        assert(out == lower + seq![leaf] + upper);
        assert(out.len() == lower.len() + 1 + upper.len());
        lemma_split_len(leaves, z, mask);
        assert forall|l: int| 0 <= l < out.len() implies exists|i: int|
            0 <= i < all.len() && leaf_from(#[trigger] out[l], #[trigger] all[i]) by {
            if l < lower.len() {
                assert(out[l] == lower[l]);
                let s = choose|s: int|
                    0 <= s < leaves.len() && (#[trigger] leaves[s]).z_index == lower[l].z_index
                        && leaves[s].reference == lower[l].reference && lower[l].rects
                        == spec_mask(leaves[s].rects, mask);
                let i = choose|i: int|
                    0 <= i < surfaces.len() && leaf_from(leaves[s], #[trigger] surfaces[i]);
                lemma_mask_refines(leaves[s].rects, mask);
                lemma_refines_trans(lower[l].rects, leaves[s].rects, seq![surfaces[i].area]);
                assert(leaf_from(out[l], all[i]));
            } else if l == lower.len() {
                assert(out[l] == leaf);
                assert(leaf_from(out[l], all[surfaces.len() as int]));
            } else {
                let u = upper[l - lower.len() - 1];
                assert(out[l] == u);
                let s = choose|s: int| 0 <= s < leaves.len() && #[trigger] leaves[s] == u;
                let i = choose|i: int|
                    0 <= i < surfaces.len() && leaf_from(leaves[s], #[trigger] surfaces[i]);
                assert(leaf_from(out[l], all[i]));
            }
        }
    }
}

/// The leaves kept below and the leaves kept above are no more than the
/// leaves that there were.
proof fn lemma_split_len(leaves: Seq<LeafView>, z: i32, mask: Rect)
    ensures
        spec_lower(leaves, z, mask).len() + spec_upper(leaves, z).len() <= leaves.len(),
    decreases leaves.len(),
{
    if leaves.len() > 0 {
        lemma_split_len(leaves.drop_last(), z, mask);
    }
}

/// A tree built from surfaces is in ascending order of z-index, holds no
/// empty leaf, has at most as many leaves as there were surfaces, and
/// every leaf of it is what is left of one of the surfaces.
pub proof fn lemma_build(surfaces: Seq<SurfaceView>)
    ensures
        spec_tree_wf(spec_build(surfaces)),
        tree_from(spec_build(surfaces), surfaces),
        spec_build(surfaces).len() <= surfaces.len(),
    decreases surfaces.len(),
{
    if surfaces.len() > 0 {
        let head = surfaces.drop_last();
        lemma_build(head);
        lemma_insert_wf(spec_build(head), surfaces.last());
        lemma_insert_from(spec_build(head), head, surfaces.last());
        assert(head.push(surfaces.last()) =~= surfaces);
    }
}

/// Flattening a tree built from surfaces gives, in ascending order of
/// z-index, at most one entry for each surface: the entry has the z-index
/// and the reference of a surface and lies within that surface's area.
pub proof fn lemma_build_flatten(surfaces: Seq<SurfaceView>)
    ensures
        spec_flatten(spec_build(surfaces)).len() <= surfaces.len(),
        forall|i: int, j: int|
            0 <= i < j < spec_flatten(spec_build(surfaces)).len() ==> (#[trigger] spec_flatten(
                spec_build(surfaces),
            )[i]).z_index <= (#[trigger] spec_flatten(spec_build(surfaces))[j]).z_index,
        forall|k: int|
            0 <= k < spec_flatten(spec_build(surfaces)).len() ==> exists|i: int|
                0 <= i < surfaces.len() && entry_from(
                    #[trigger] spec_flatten(spec_build(surfaces))[k],
                    #[trigger] surfaces[i],
                ),
{
    let tree = spec_build(surfaces);
    let flat = spec_flatten(tree);
    lemma_build(surfaces);
    lemma_flatten_wf(tree);
    assert forall|k: int| 0 <= k < flat.len() implies exists|i: int|
        0 <= i < surfaces.len() && entry_from(#[trigger] flat[k], #[trigger] surfaces[i]) by {
        let i = choose|i: int| 0 <= i < surfaces.len() && leaf_from(tree[k], #[trigger] surfaces[i]);
        assert(tree[k].rects.len() > 0);
        assert forall|m: int| 0 <= m < tree[k].rects.len() implies surfaces[i].area.spec_cover(
            #[trigger] tree[k].rects[m],
        ) by {
            assert(within_some(tree[k].rects[m], seq![surfaces[i].area]));
        }
        lemma_hull_is_least(tree[k].rects, surfaces[i].area);
        assert(entry_from(flat[k], surfaces[i]));
    }
}

/// The flattened entry stands for the surface: it has the surface's z-index
/// and reference, and lies within the surface's area.
pub open spec fn entry_from(entry: SurfaceView, surface: SurfaceView) -> bool {
    &&& entry.z_index == surface.z_index
    &&& entry.reference == surface.reference
    &&& surface.area.spec_cover(entry.area)
}


/// The leaf lies above `z` and its bounding box holds the pixel `(x, y)`.
pub open spec fn box_holds(leaf: LeafView, z: i32, x: int, y: int) -> bool {
    leaf.z_index > z && leaf.rects.len() > 0 && spec_hull(leaf.rects).contains(x, y)
}

/// The bounding box of some leaf above `z` holds the pixel `(x, y)`.
pub open spec fn boxed_above(leaves: Seq<LeafView>, z: i32, x: int, y: int) -> bool {
    exists|l: int| 0 <= l < leaves.len() && box_holds(#[trigger] leaves[l], z, x, y)
}

/// Some leaf above `z` shows the pixel `(x, y)`.
pub open spec fn shown_above(leaves: Seq<LeafView>, z: i32, x: int, y: int) -> bool {
    exists|l: int|
        0 <= l < leaves.len() && (#[trigger] leaves[l]).z_index > z && in_region(
            leaves[l].rects,
            x,
            y,
        )
}

/// A pixel that a list of rectangles covers lies in the list's bounding
/// box.
pub proof fn lemma_region_in_hull(rects: Seq<Rect>, x: int, y: int)
    requires
        in_region(rects, x, y),
    ensures
        rects.len() > 0,
        spec_hull(rects).contains(x, y),
{
    let i = choose|i: int| 0 <= i < rects.len() && #[trigger] rects[i].contains(x, y);
    lemma_hull_covers_members(rects);
    assert(spec_hull(rects).spec_cover(rects[i]));
}

/// What is visible of a list of rectangles below the leaves above `z`:
/// the pixels of the list that no bounding box of such a leaf holds.
pub proof fn lemma_mask_above_region(
    leaves: Seq<LeafView>,
    z: i32,
    rects: Seq<Rect>,
    x: int,
    y: int,
)
    ensures
        in_region(spec_mask_above(leaves, z, rects), x, y) == (in_region(rects, x, y)
            && !boxed_above(leaves, z, x, y)),
    decreases leaves.len(),
{
    if leaves.len() > 0 {
        let head = leaves.drop_last();
        let last = leaves.last();
        lemma_mask_above_region(head, z, rects, x, y);
        let prev = spec_mask_above(head, z, rects);
        match spec_bounds(last.rects) {
            Some(b) => {
                if last.z_index > z {
                    lemma_mask_region(prev, b, x, y);
                }
            },
            None => {},
        }
        if boxed_above(head, z, x, y) {
            let l = choose|l: int| 0 <= l < head.len() && box_holds(#[trigger] head[l], z, x, y);
            assert(box_holds(leaves[l], z, x, y));
        }
        if box_holds(last, z, x, y) {
            assert(box_holds(leaves[leaves.len() - 1], z, x, y));
        }
        if boxed_above(leaves, z, x, y) {
            let l = choose|l: int| 0 <= l < leaves.len() && box_holds(#[trigger] leaves[l], z, x, y);
            if l < head.len() {
                assert(box_holds(head[l], z, x, y));
            }
        }
    }
}

/// Masking keeps every member non-empty.
pub proof fn lemma_mask_nonempty(rects: Seq<Rect>, mask: Rect)
    requires
        all_nonempty(rects),
    ensures
        all_nonempty(spec_mask(rects, mask)),
    decreases rects.len(),
{
    if rects.len() > 0 {
        let head = rects.drop_last();
        assert forall|i: int| 0 <= i < head.len() implies !(#[trigger] head[i]).spec_is_empty() by {
            assert(head[i] == rects[i]);
        }
        lemma_mask_nonempty(head, mask);
        assert(!rects[rects.len() - 1].spec_is_empty());
        super::region::lemma_mask_rect_members(rects.last(), mask);
        let a = spec_mask(head, mask);
        let b = super::rect::spec_mask_rect(rects.last(), mask);
        let out = spec_mask(rects, mask);
        assert forall|k: int| 0 <= k < out.len() implies !(#[trigger] out[k]).spec_is_empty() by {
            if k < a.len() {
                assert(out[k] == a[k]);
            } else {
                assert(out[k] == b[k - a.len()]);
            }
        }
    }
}

/// What is visible of a list of non-empty rectangles is made of non-empty
/// rectangles.
pub proof fn lemma_mask_above_nonempty(leaves: Seq<LeafView>, z: i32, rects: Seq<Rect>)
    requires
        all_nonempty(rects),
    ensures
        all_nonempty(spec_mask_above(leaves, z, rects)),
    decreases leaves.len(),
{
    if leaves.len() > 0 {
        lemma_mask_above_nonempty(leaves.drop_last(), z, rects);
        let prev = spec_mask_above(leaves.drop_last(), z, rects);
        match spec_bounds(leaves.last().rects) {
            Some(b) => {
                lemma_mask_nonempty(prev, b);
            },
            None => {},
        }
    }
}

/// A surface every pixel of which lies in the bounding box of a leaf above
/// it is not inserted: nothing of it is visible, and the tree stays as it
/// is.
pub proof fn lemma_insert_boxed(leaves: Seq<LeafView>, surface: SurfaceView)
    requires
        !surface.area.spec_is_empty(),
        forall|x: int, y: int|
            surface.area.contains(x, y) ==> boxed_above(leaves, surface.z_index, x, y),
    ensures
        spec_visible(leaves, surface).len() == 0,
        spec_insert(leaves, surface) == leaves,
{
    let visible = spec_visible(leaves, surface);
    lemma_mask_above_nonempty(leaves, surface.z_index, seq![surface.area]);
    lemma_nonempty_list_has_pixel(visible);
    if visible.len() > 0 {
        let (x, y) = choose|x: int, y: int| in_region(visible, x, y);
        lemma_mask_above_region(leaves, surface.z_index, seq![surface.area], x, y);
        let i = choose|i: int|
            0 <= i < seq![surface.area].len() && #[trigger] seq![surface.area][i].contains(x, y);
        assert(surface.area.contains(x, y));
    }
}

/// A surface whose area is covered by what the leaves above it show is
/// not inserted: nothing of it is visible, and the tree stays as it is.
pub proof fn lemma_insert_covered(leaves: Seq<LeafView>, surface: SurfaceView)
    requires
        !surface.area.spec_is_empty(),
        forall|x: int, y: int|
            surface.area.contains(x, y) ==> shown_above(leaves, surface.z_index, x, y),
    ensures
        spec_visible(leaves, surface).len() == 0,
        spec_insert(leaves, surface) == leaves,
{
    assert forall|x: int, y: int| surface.area.contains(x, y) implies boxed_above(
        leaves,
        surface.z_index,
        x,
        y,
    ) by {
        let l = choose|l: int|
            0 <= l < leaves.len() && (#[trigger] leaves[l]).z_index > surface.z_index && in_region(
                leaves[l].rects,
                x,
                y,
            );
        lemma_region_in_hull(leaves[l].rects, x, y);
        assert(box_holds(leaves[l], surface.z_index, x, y));
    }
    lemma_insert_boxed(leaves, surface);
}

/// A surface of which something is visible, inserted under a reference
/// that no leaf has yet, gives exactly one entry with that reference when
/// the tree is flattened: the bounding box of its visible part, at its
/// z-index.
pub proof fn lemma_insert_emits_once(leaves: Seq<LeafView>, surface: SurfaceView)
    requires
        spec_tree_wf(leaves),
        forall|l: int| 0 <= l < leaves.len() ==> (#[trigger] leaves[l]).reference != surface.reference,
        spec_visible(leaves, surface).len() > 0,
    ensures
        exists|k: int|
            {
                &&& 0 <= k < spec_flatten(spec_insert(leaves, surface)).len()
                &&& #[trigger] spec_flatten(spec_insert(leaves, surface))[k] == (SurfaceView {
                    z_index: surface.z_index,
                    reference: surface.reference,
                    area: spec_hull(spec_visible(leaves, surface)),
                })
                &&& forall|j: int|
                    0 <= j < spec_flatten(spec_insert(leaves, surface)).len() && j != k ==> (
                    #[trigger] spec_flatten(spec_insert(leaves, surface))[j]).reference
                        != surface.reference
            },
{
    let area = spec_visible(leaves, surface);
    let z = surface.z_index;
    let mask = spec_hull(area);
    let lower = spec_lower(leaves, z, mask);
    let upper = spec_upper(leaves, z);
    let leaf = LeafView { z_index: z, reference: surface.reference, rects: area };
    let out = spec_insert(leaves, surface);
    let flat = spec_flatten(out);
    lemma_insert_wf(leaves, surface);
    lemma_flatten_wf(out);
    lemma_lower_members(leaves, z, mask);
    lemma_upper_members(leaves, z);
    assert(out == lower + seq![leaf] + upper);
    let k = lower.len() as int;
    assert(out[k] == leaf);
    assert forall|j: int| 0 <= j < flat.len() && j != k implies (#[trigger] flat[j]).reference
        != surface.reference by {
        if j < k {
            assert(out[j] == lower[j]);
            let s = choose|s: int|
                0 <= s < leaves.len() && (#[trigger] leaves[s]).z_index == lower[j].z_index
                    && leaves[s].reference == lower[j].reference && lower[j].rects == spec_mask(
                    leaves[s].rects,
                    mask,
                );
        } else {
            let u = upper[j - k - 1];
            assert(out[j] == u);
            let s = choose|s: int| 0 <= s < leaves.len() && #[trigger] leaves[s] == u;
        }
    }
    assert(flat[k] == (SurfaceView {
        z_index: surface.z_index,
        reference: surface.reference,
        area: spec_hull(area),
    }));
}

} // verus!
