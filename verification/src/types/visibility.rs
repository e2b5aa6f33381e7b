//! What a tree built from surfaces with distinct z-indices holds, told
//! without reference to the order of insertion.

use vstd::prelude::*;
use super::rect::{Rect, spec_hull, spec_mask};
use super::region::{
    all_nonempty, in_region, lemma_hull_is_least, lemma_hull_of_same_region, lemma_mask_region,
    lemma_mask_with_empty_is_identity, lemma_nonempty_list_has_pixel, same_region,
};
use super::stacking::{
    box_holds, boxed_above, lemma_mask_above_nonempty, lemma_mask_above_region,
    lemma_mask_nonempty, lemma_region_in_hull, spec_build,
};
use super::ztree::{
    LeafView, SurfaceView, lemma_flatten_wf, lemma_insert_wf, lemma_lower_members,
    lemma_upper_members, spec_flatten, spec_insert, spec_lower, spec_mask_above, spec_tree_wf,
    spec_upper, spec_visible,
};

verus! {

/// No two surfaces share a z-index.
pub open spec fn distinct_z(surfaces: Seq<SurfaceView>) -> bool {
    forall|i: int, j: int|
        0 <= i < j < surfaces.len() ==> (#[trigger] surfaces[i]).z_index != (
        #[trigger] surfaces[j]).z_index
}

/// The surface lies above `z` and holds the pixel `(x, y)`.
pub open spec fn covers_above(surface: SurfaceView, z: i32, x: int, y: int) -> bool {
    surface.z_index > z && surface.area.contains(x, y)
}

/// Some surface above `z` holds the pixel `(x, y)`.
pub open spec fn covered_above(surfaces: Seq<SurfaceView>, z: i32, x: int, y: int) -> bool {
    exists|j: int| 0 <= j < surfaces.len() && covers_above(#[trigger] surfaces[j], z, x, y)
}

/// The pixel `(x, y)` belongs to `surface` and no surface above holds it.
pub open spec fn visible_at(surfaces: Seq<SurfaceView>, surface: SurfaceView, x: int, y: int) -> bool {
    surface.area.contains(x, y) && !covered_above(surfaces, surface.z_index, x, y)
}

/// The surface is kept in the tree: its area holds no pixel at all, or one
/// of its pixels is visible.
pub open spec fn kept(surfaces: Seq<SurfaceView>, surface: SurfaceView) -> bool {
    surface.area.spec_is_empty() || exists|x: int, y: int| visible_at(surfaces, surface, x, y)
}

/// The leaf is what the stack leaves visible of `surface`: for a surface
/// with pixels, non-empty rectangles that cover exactly its visible
/// pixels; for one without, its area as it is.
pub open spec fn leaf_shows(leaf: LeafView, surfaces: Seq<SurfaceView>, surface: SurfaceView) -> bool {
    &&& leaf.z_index == surface.z_index
    &&& leaf.reference == surface.reference
    &&& if surface.area.spec_is_empty() {
        leaf.rects == seq![surface.area]
    } else {
        all_nonempty(leaf.rects) && forall|x: int, y: int|
            in_region(leaf.rects, x, y) == visible_at(surfaces, surface, x, y)
    }
}

/// The leaf is what the stack leaves visible of one of the surfaces.
pub open spec fn leaf_known(leaf: LeafView, surfaces: Seq<SurfaceView>) -> bool {
    exists|i: int| 0 <= i < surfaces.len() && leaf_shows(leaf, surfaces, #[trigger] surfaces[i])
}

/// Some leaf lies at `z`.
pub open spec fn has_leaf_at(leaves: Seq<LeafView>, z: i32) -> bool {
    exists|l: int| 0 <= l < leaves.len() && (#[trigger] leaves[l]).z_index == z
}

/// The leaves are in strictly ascending order of z-index.
pub open spec fn strictly_sorted(leaves: Seq<LeafView>) -> bool {
    forall|i: int, j: int|
        0 <= i < j < leaves.len() ==> (#[trigger] leaves[i]).z_index < (#[trigger] leaves[j]).z_index
}

/// The tree holds, in strictly ascending order of z-index, one leaf for
/// each surface that is kept, and each leaf is what the stack leaves
/// visible of its surface.
pub open spec fn tree_shows(leaves: Seq<LeafView>, surfaces: Seq<SurfaceView>) -> bool {
    &&& spec_tree_wf(leaves)
    &&& strictly_sorted(leaves)
    &&& forall|l: int| 0 <= l < leaves.len() ==> leaf_known(#[trigger] leaves[l], surfaces)
    &&& forall|i: int|
        0 <= i < surfaces.len() && kept(surfaces, #[trigger] surfaces[i]) ==> has_leaf_at(
            leaves,
            surfaces[i].z_index,
        )
}

/// Among the surfaces above `z` that hold a pixel, one is on top.
proof fn lemma_top_cover(surfaces: Seq<SurfaceView>, z: i32, x: int, y: int) -> (j: int)
    requires
        covered_above(surfaces, z, x, y),
    ensures
        0 <= j < surfaces.len(),
        covers_above(surfaces[j], z, x, y),
        !covered_above(surfaces, surfaces[j].z_index, x, y),
    decreases surfaces.len(),
{
    let n = surfaces.len() - 1;
    let head = surfaces.drop_last();
    let last = surfaces[n];
    assert forall|k: int| 0 <= k < head.len() implies head[k] == surfaces[k] by {}
    if covered_above(head, z, x, y) {
        let j0 = lemma_top_cover(head, z, x, y);
        if covers_above(last, surfaces[j0].z_index, x, y) {
            if covered_above(surfaces, last.z_index, x, y) {
                let k = choose|k: int|
                    0 <= k < surfaces.len() && covers_above(
                        #[trigger] surfaces[k],
                        last.z_index,
                        x,
                        y,
                    );
                assert(covers_above(head[k], surfaces[j0].z_index, x, y));
            }
            n
        } else {
            if covered_above(surfaces, surfaces[j0].z_index, x, y) {
                let k = choose|k: int|
                    0 <= k < surfaces.len() && covers_above(
                        #[trigger] surfaces[k],
                        surfaces[j0].z_index,
                        x,
                        y,
                    );
                assert(covers_above(head[k], surfaces[j0].z_index, x, y));
            }
            j0
        }
    } else {
        let k = choose|k: int| 0 <= k < surfaces.len() && covers_above(#[trigger] surfaces[k], z, x, y);
        if k < n {
            assert(covers_above(head[k], z, x, y));
        }
        if covered_above(surfaces, last.z_index, x, y) {
            let m = choose|m: int|
                0 <= m < surfaces.len() && covers_above(#[trigger] surfaces[m], last.z_index, x, y);
            assert(covers_above(head[m], z, x, y));
        }
        n
    }
}

/// A leaf that shows a surface lies within the surface.
proof fn lemma_leaf_within(leaf: LeafView, surfaces: Seq<SurfaceView>, surface: SurfaceView)
    requires
        leaf_shows(leaf, surfaces, surface),
        leaf.rects.len() > 0,
    ensures
        surface.area.spec_cover(spec_hull(leaf.rects)),
        surface.area.spec_is_empty() ==> spec_hull(leaf.rects) == surface.area,
{
    if !surface.area.spec_is_empty() {
        assert forall|k: int| 0 <= k < leaf.rects.len() implies surface.area.spec_cover(
            #[trigger] leaf.rects[k],
        ) by {
            let r = leaf.rects[k];
            assert(r.contains(r.x1 as int, r.y1 as int));
            assert(in_region(leaf.rects, r.x1 as int, r.y1 as int));
            assert(visible_at(surfaces, surface, r.x1 as int, r.y1 as int));
            assert(r.contains(r.x2 - 1, r.y2 - 1));
            assert(in_region(leaf.rects, r.x2 - 1, r.y2 - 1));
            assert(visible_at(surfaces, surface, r.x2 - 1, r.y2 - 1));
        }
        lemma_hull_is_least(leaf.rects, surface.area);
    }
}

/// The two surfaces of a list with distinct z-indices that share a
/// z-index are one and the same.
proof fn lemma_same_z(surfaces: Seq<SurfaceView>, i: int, j: int)
    requires
        distinct_z(surfaces),
        0 <= i < surfaces.len(),
        0 <= j < surfaces.len(),
        surfaces[i].z_index == surfaces[j].z_index,
    ensures
        i == j,
{
    if i < j {
        assert(surfaces[i].z_index != surfaces[j].z_index);
    } else if j < i {
        assert(surfaces[j].z_index != surfaces[i].z_index);
    }
}

/// In a tree that shows the surfaces, the bounding boxes of the leaves
/// above `z` hold the same pixels as the surfaces above `z`.
proof fn lemma_boxes_are_covers(
    leaves: Seq<LeafView>,
    surfaces: Seq<SurfaceView>,
    z: i32,
    x: int,
    y: int,
)
    requires
        tree_shows(leaves, surfaces),
        distinct_z(surfaces),
    ensures
        boxed_above(leaves, z, x, y) == covered_above(surfaces, z, x, y),
{
    if boxed_above(leaves, z, x, y) {
        let l = choose|l: int| 0 <= l < leaves.len() && box_holds(#[trigger] leaves[l], z, x, y);
        assert(leaf_known(leaves[l], surfaces));
        let i = choose|i: int|
            0 <= i < surfaces.len() && leaf_shows(leaves[l], surfaces, #[trigger] surfaces[i]);
        lemma_leaf_within(leaves[l], surfaces, surfaces[i]);
        assert(covers_above(surfaces[i], z, x, y));
    }
    if covered_above(surfaces, z, x, y) {
        let j = lemma_top_cover(surfaces, z, x, y);
        assert(visible_at(surfaces, surfaces[j], x, y));
        assert(kept(surfaces, surfaces[j]));
        assert(has_leaf_at(leaves, surfaces[j].z_index));
        let l = choose|l: int|
            0 <= l < leaves.len() && (#[trigger] leaves[l]).z_index == surfaces[j].z_index;
        assert(leaf_known(leaves[l], surfaces));
        let i = choose|i: int|
            0 <= i < surfaces.len() && leaf_shows(leaves[l], surfaces, #[trigger] surfaces[i]);
        lemma_same_z(surfaces, i, j);
        assert(in_region(leaves[l].rects, x, y));
        lemma_region_in_hull(leaves[l].rects, x, y);
        assert(box_holds(leaves[l], z, x, y));
    }
}

/// Masking does nothing to a rectangle without pixels.
proof fn lemma_mask_degenerate(r: Rect, mask: Rect)
    requires
        r.spec_is_empty(),
    ensures
        spec_mask(seq![r], mask) == seq![r],
{
    assert(seq![r].drop_last() =~= Seq::<Rect>::empty());
    assert(spec_mask(seq![r].drop_last(), mask) =~= Seq::<Rect>::empty());
    assert(r.spec_intersection(mask) is None);
    assert(spec_mask(seq![r], mask) =~= seq![r]);
}

/// A rectangle without pixels is visible as it is, whatever lies above.
proof fn lemma_mask_above_degenerate(leaves: Seq<LeafView>, z: i32, r: Rect)
    requires
        r.spec_is_empty(),
    ensures
        spec_mask_above(leaves, z, seq![r]) == seq![r],
    decreases leaves.len(),
{
    if leaves.len() > 0 {
        lemma_mask_above_degenerate(leaves.drop_last(), z, r);
        match super::rect::spec_bounds(leaves.last().rects) {
            Some(b) => {
                lemma_mask_degenerate(r, b);
            },
            None => {},
        }
    }
}

/// The leaves kept below stay in strictly ascending order, and so do the
/// leaves kept above.
proof fn lemma_split_strict(leaves: Seq<LeafView>, z: i32, mask: Rect)
    requires
        strictly_sorted(leaves),
    ensures
        strictly_sorted(spec_lower(leaves, z, mask)),
        strictly_sorted(spec_upper(leaves, z)),
    decreases leaves.len(),
{
    if leaves.len() > 0 {
        let head = leaves.drop_last();
        let n = leaves.len() - 1;
        assert forall|i: int| 0 <= i < head.len() implies head[i] == leaves[i] by {}
        assert(strictly_sorted(head)) by {
            assert forall|i: int, j: int| 0 <= i < j < head.len() implies (
            #[trigger] head[i]).z_index < (#[trigger] head[j]).z_index by {
                assert(leaves[i].z_index < leaves[j].z_index);
            }
        }
        lemma_split_strict(head, z, mask);
        lemma_lower_members(head, z, mask);
        lemma_upper_members(head, z);
        let a = spec_lower(head, z, mask);
        let out = spec_lower(leaves, z, mask);
        assert forall|i: int, j: int| 0 <= i < j < out.len() implies (#[trigger] out[i]).z_index < (
        #[trigger] out[j]).z_index by {
            if j < a.len() {
                assert(out[i] == a[i] && out[j] == a[j]);
            } else {
                assert(out[i] == a[i]);
                let s = choose|s: int|
                    0 <= s < head.len() && (#[trigger] head[s]).z_index == a[i].z_index
                        && head[s].reference == a[i].reference && a[i].rects == spec_mask(
                        head[s].rects,
                        mask,
                    );
                assert(leaves[s].z_index < leaves[n].z_index);
            }
        }
        let b = spec_upper(head, z);
        let up = spec_upper(leaves, z);
        assert forall|i: int, j: int| 0 <= i < j < up.len() implies (#[trigger] up[i]).z_index < (
        #[trigger] up[j]).z_index by {
            if j < b.len() {
                assert(up[i] == b[i] && up[j] == b[j]);
            } else {
                assert(up[i] == b[i]);
                let s = choose|s: int| 0 <= s < head.len() && #[trigger] head[s] == b[i];
                assert(leaves[s].z_index < leaves[n].z_index);
            }
        }
    }
}

/// Every leaf above `z` is kept above, and every leaf at or below `z` of
/// which the mask leaves something is kept below.
proof fn lemma_split_complete(leaves: Seq<LeafView>, z: i32, mask: Rect, t: int)
    requires
        0 <= t < leaves.len(),
    ensures
        leaves[t].z_index > z ==> exists|k: int|
            0 <= k < spec_upper(leaves, z).len() && #[trigger] spec_upper(leaves, z)[k] == leaves[t],
        leaves[t].z_index <= z && spec_mask(leaves[t].rects, mask).len() > 0 ==> exists|k: int|
            0 <= k < spec_lower(leaves, z, mask).len() && #[trigger] spec_lower(leaves, z, mask)[k]
                == (LeafView { rects: spec_mask(leaves[t].rects, mask), ..leaves[t] }),
    decreases leaves.len(),
{
    let head = leaves.drop_last();
    let n = leaves.len() - 1;
    let up = spec_upper(leaves, z);
    let low = spec_lower(leaves, z, mask);
    if t < n {
        lemma_split_complete(head, z, mask, t);
        assert(head[t] == leaves[t]);
        if leaves[t].z_index > z {
            let k = choose|k: int|
                0 <= k < spec_upper(head, z).len() && #[trigger] spec_upper(head, z)[k] == head[t];
            assert(up[k] == leaves[t]);
        }
        if leaves[t].z_index <= z && spec_mask(leaves[t].rects, mask).len() > 0 {
            let want = LeafView { rects: spec_mask(leaves[t].rects, mask), ..leaves[t] };
            let k = choose|k: int|
                0 <= k < spec_lower(head, z, mask).len() && #[trigger] spec_lower(head, z, mask)[k]
                    == want;
            assert(low[k] == want);
        }
    } else {
        if leaves[t].z_index > z {
            assert(up[up.len() - 1] == leaves[t]);
        }
        if leaves[t].z_index <= z && spec_mask(leaves[t].rects, mask).len() > 0 {
            assert(low[low.len() - 1] == (LeafView {
                rects: spec_mask(leaves[t].rects, mask),
                ..leaves[t]
            }));
        }
    }
}


/// One more surface covers what was covered, and what the new surface
/// covers.
proof fn lemma_covered_push(
    surfaces: Seq<SurfaceView>,
    surface: SurfaceView,
    z: i32,
    x: int,
    y: int,
)
    ensures
        covered_above(surfaces.push(surface), z, x, y) == (covered_above(surfaces, z, x, y)
            || covers_above(surface, z, x, y)),
{
    let all = surfaces.push(surface);
    if covered_above(surfaces, z, x, y) {
        let j = choose|j: int| 0 <= j < surfaces.len() && covers_above(#[trigger] surfaces[j], z, x, y);
        assert(covers_above(all[j], z, x, y));
    }
    if covers_above(surface, z, x, y) {
        assert(covers_above(all[surfaces.len() as int], z, x, y));
    }
    if covered_above(all, z, x, y) {
        let j = choose|j: int| 0 <= j < all.len() && covers_above(#[trigger] all[j], z, x, y);
        if j < surfaces.len() {
            assert(covers_above(surfaces[j], z, x, y));
        }
    }
}

/// What the tree leaves visible of a new surface with pixels is what the
/// surfaces that were inserted leave visible of it.
proof fn lemma_visible_region(
    leaves: Seq<LeafView>,
    surfaces: Seq<SurfaceView>,
    surface: SurfaceView,
    x: int,
    y: int,
)
    requires
        tree_shows(leaves, surfaces),
        distinct_z(surfaces),
    ensures
        in_region(spec_visible(leaves, surface), x, y) == visible_at(
            surfaces.push(surface),
            surface,
            x,
            y,
        ),
{
    let z = surface.z_index;
    lemma_mask_above_region(leaves, z, seq![surface.area], x, y);
    lemma_boxes_are_covers(leaves, surfaces, z, x, y);
    lemma_covered_push(surfaces, surface, z, x, y);
    if surface.area.contains(x, y) {
        assert(seq![surface.area][0].contains(x, y));
    }
}

/// A leaf above a new surface shows its surface as before.
proof fn lemma_shows_upper(
    leaf: LeafView,
    surfaces: Seq<SurfaceView>,
    surface: SurfaceView,
    source: SurfaceView,
)
    requires
        leaf_shows(leaf, surfaces, source),
        source.z_index >= surface.z_index,
    ensures
        leaf_shows(leaf, surfaces.push(surface), source),
{
    if !source.area.spec_is_empty() {
        assert forall|x: int, y: int|
            in_region(leaf.rects, x, y) == visible_at(surfaces.push(surface), source, x, y) by {
            lemma_covered_push(surfaces, surface, source.z_index, x, y);
        }
    }
}

/// A leaf below a new surface of which something is visible shows its
/// surface once the bounding box of that visible part is cut out of it.
proof fn lemma_shows_lower_masked(
    leaves: Seq<LeafView>,
    surfaces: Seq<SurfaceView>,
    surface: SurfaceView,
    leaf: LeafView,
    source: SurfaceView,
)
    requires
        tree_shows(leaves, surfaces),
        distinct_z(surfaces),
        leaf_shows(leaf, surfaces, source),
        source.z_index < surface.z_index,
        spec_visible(leaves, surface).len() > 0,
    ensures
        leaf_shows(
            LeafView {
                rects: spec_mask(leaf.rects, spec_hull(spec_visible(leaves, surface))),
                ..leaf
            },
            surfaces.push(surface),
            source,
        ),
{
    let visible = spec_visible(leaves, surface);
    let mask = spec_hull(visible);
    let all = surfaces.push(surface);
    let masked = spec_mask(leaf.rects, mask);
    if source.area.spec_is_empty() {
        lemma_mask_degenerate(source.area, mask);
    } else {
        lemma_mask_nonempty(leaf.rects, mask);
        if surface.area.spec_is_empty() {
            lemma_mask_above_degenerate(leaves, surface.z_index, surface.area);
            assert(visible[0] == surface.area);
            assert(mask.spec_is_empty());
            lemma_mask_with_empty_is_identity(leaf.rects, mask);
        } else {
            lemma_mask_above_nonempty(leaves, surface.z_index, seq![surface.area]);
            assert forall|k: int| 0 <= k < visible.len() implies surface.area.spec_cover(
                #[trigger] visible[k],
            ) by {
                let r = visible[k];
                assert(r.contains(r.x1 as int, r.y1 as int));
                assert(in_region(visible, r.x1 as int, r.y1 as int));
                lemma_visible_region(leaves, surfaces, surface, r.x1 as int, r.y1 as int);
                assert(r.contains(r.x2 - 1, r.y2 - 1));
                assert(in_region(visible, r.x2 - 1, r.y2 - 1));
                lemma_visible_region(leaves, surfaces, surface, r.x2 - 1, r.y2 - 1);
            }
            lemma_hull_is_least(visible, surface.area);
        }
        assert forall|x: int, y: int| in_region(masked, x, y) == visible_at(all, source, x, y) by {
            lemma_mask_region(leaf.rects, mask, x, y);
            lemma_covered_push(surfaces, surface, source.z_index, x, y);
            lemma_visible_region(leaves, surfaces, surface, x, y);
            lemma_covered_push(surfaces, surface, surface.z_index, x, y);
            if visible_at(surfaces, source, x, y) && surface.area.contains(x, y) {
                if covered_above(surfaces, surface.z_index, x, y) {
                    let j = choose|j: int|
                        0 <= j < surfaces.len() && covers_above(
                            #[trigger] surfaces[j],
                            surface.z_index,
                            x,
                            y,
                        );
                    assert(covers_above(surfaces[j], source.z_index, x, y));
                }
                assert(in_region(visible, x, y));
                lemma_region_in_hull(visible, x, y);
            }
        }
    }
}

/// A leaf below a new surface of which nothing is visible shows its
/// surface as before.
proof fn lemma_shows_lower_hidden(
    leaves: Seq<LeafView>,
    surfaces: Seq<SurfaceView>,
    surface: SurfaceView,
    leaf: LeafView,
    source: SurfaceView,
)
    requires
        tree_shows(leaves, surfaces),
        distinct_z(surfaces),
        leaf_shows(leaf, surfaces, source),
        source.z_index < surface.z_index,
        spec_visible(leaves, surface).len() == 0,
    ensures
        leaf_shows(leaf, surfaces.push(surface), source),
{
    let visible = spec_visible(leaves, surface);
    let all = surfaces.push(surface);
    if !source.area.spec_is_empty() {
        assert forall|x: int, y: int| in_region(leaf.rects, x, y) == visible_at(all, source, x, y) by {
            lemma_covered_push(surfaces, surface, source.z_index, x, y);
            lemma_visible_region(leaves, surfaces, surface, x, y);
            lemma_covered_push(surfaces, surface, surface.z_index, x, y);
            if visible_at(surfaces, source, x, y) && surface.area.contains(x, y) {
                if covered_above(surfaces, surface.z_index, x, y) {
                    let j = choose|j: int|
                        0 <= j < surfaces.len() && covers_above(
                            #[trigger] surfaces[j],
                            surface.z_index,
                            x,
                            y,
                        );
                    assert(covers_above(surfaces[j], source.z_index, x, y));
                }
                assert(in_region(visible, x, y));
                let i = choose|i: int| 0 <= i < visible.len() && #[trigger] visible[i].contains(x, y);
            }
        }
    }
}

/// The visible part of a new surface shows that surface.
proof fn lemma_shows_new(leaves: Seq<LeafView>, surfaces: Seq<SurfaceView>, surface: SurfaceView)
    requires
        tree_shows(leaves, surfaces),
        distinct_z(surfaces),
    ensures
        leaf_shows(
            LeafView {
                z_index: surface.z_index,
                reference: surface.reference,
                rects: spec_visible(leaves, surface),
            },
            surfaces.push(surface),
            surface,
        ),
{
    if surface.area.spec_is_empty() {
        lemma_mask_above_degenerate(leaves, surface.z_index, surface.area);
    } else {
        lemma_mask_above_nonempty(leaves, surface.z_index, seq![surface.area]);
        assert forall|x: int, y: int|
            in_region(spec_visible(leaves, surface), x, y) == visible_at(
                surfaces.push(surface),
                surface,
                x,
                y,
            ) by {
            lemma_visible_region(leaves, surfaces, surface, x, y);
        }
    }
}

/// A surface that is kept among more surfaces was kept among fewer.
proof fn lemma_kept_before(surfaces: Seq<SurfaceView>, surface: SurfaceView, source: SurfaceView)
    requires
        kept(surfaces.push(surface), source),
    ensures
        kept(surfaces, source),
{
    if !source.area.spec_is_empty() {
        let (x, y) = choose|x: int, y: int| visible_at(surfaces.push(surface), source, x, y);
        lemma_covered_push(surfaces, surface, source.z_index, x, y);
        assert(visible_at(surfaces, source, x, y));
    }
}


/// The leaf of a tree that lies at the z-index of a surface shows that
/// surface.
proof fn lemma_leaf_source(leaves: Seq<LeafView>, surfaces: Seq<SurfaceView>, l: int, i: int)
    requires
        tree_shows(leaves, surfaces),
        distinct_z(surfaces),
        0 <= l < leaves.len(),
        0 <= i < surfaces.len(),
        leaves[l].z_index == surfaces[i].z_index,
    ensures
        leaf_shows(leaves[l], surfaces, surfaces[i]),
{
    assert(leaf_known(leaves[l], surfaces));
    let k = choose|k: int|
        0 <= k < surfaces.len() && leaf_shows(leaves[l], surfaces, #[trigger] surfaces[k]);
    lemma_same_z(surfaces, k, i);
}

/// Inserting a surface whose z-index is new keeps the tree one that shows
/// the surfaces inserted: the case of a surface of which nothing is
/// visible.
proof fn lemma_insert_shows_hidden(
    leaves: Seq<LeafView>,
    surfaces: Seq<SurfaceView>,
    surface: SurfaceView,
)
    requires
        tree_shows(leaves, surfaces),
        distinct_z(surfaces.push(surface)),
        distinct_z(surfaces),
        spec_visible(leaves, surface).len() == 0,
    ensures
        tree_shows(leaves, surfaces.push(surface)),
{
    let all = surfaces.push(surface);
    let n = surfaces.len() as int;
    assert forall|i: int| 0 <= i < n implies all[i] == surfaces[i] by {}
    assert(all[n] == surface);
    if surface.area.spec_is_empty() {
        lemma_mask_above_degenerate(leaves, surface.z_index, surface.area);
    }
    assert forall|l: int| 0 <= l < leaves.len() implies leaf_known(#[trigger] leaves[l], all) by {
        assert(leaf_known(leaves[l], surfaces));
        let i = choose|i: int|
            0 <= i < surfaces.len() && leaf_shows(leaves[l], surfaces, #[trigger] surfaces[i]);
        assert(all[i].z_index != all[n].z_index);
        if surfaces[i].z_index > surface.z_index {
            lemma_shows_upper(leaves[l], surfaces, surface, surfaces[i]);
        } else {
            lemma_shows_lower_hidden(leaves, surfaces, surface, leaves[l], surfaces[i]);
        }
        assert(leaf_shows(leaves[l], all, all[i]));
    }
    assert forall|i: int| 0 <= i < all.len() && kept(all, #[trigger] all[i]) implies has_leaf_at(
        leaves,
        all[i].z_index,
    ) by {
        if i < n {
            lemma_kept_before(surfaces, surface, surfaces[i]);
            assert(kept(surfaces, surfaces[i]));
        } else {
            let (x, y) = choose|x: int, y: int| visible_at(all, surface, x, y);
            lemma_visible_region(leaves, surfaces, surface, x, y);
            let k = choose|k: int|
                0 <= k < spec_visible(leaves, surface).len() && #[trigger] spec_visible(
                    leaves,
                    surface,
                )[k].contains(x, y);
        }
    }
}

/// Inserting a surface whose z-index is new keeps the tree one that shows
/// the surfaces inserted: that every leaf shows its surface, where
/// something of the new surface is visible.
proof fn lemma_insert_shows_leaves(
    leaves: Seq<LeafView>,
    surfaces: Seq<SurfaceView>,
    surface: SurfaceView,
)
    requires
        tree_shows(leaves, surfaces),
        distinct_z(surfaces.push(surface)),
        distinct_z(surfaces),
        spec_visible(leaves, surface).len() > 0,
    ensures
        forall|l: int|
            0 <= l < spec_insert(leaves, surface).len() ==> leaf_known(
                #[trigger] spec_insert(leaves, surface)[l],
                surfaces.push(surface),
            ),
        strictly_sorted(spec_insert(leaves, surface)),
{
    let all = surfaces.push(surface);
    let n = surfaces.len() as int;
    let z = surface.z_index;
    let visible = spec_visible(leaves, surface);
    let mask = spec_hull(visible);
    let lower = spec_lower(leaves, z, mask);
    let upper = spec_upper(leaves, z);
    let leaf = LeafView { z_index: z, reference: surface.reference, rects: visible };
    let out = spec_insert(leaves, surface);
    assert forall|i: int| 0 <= i < n implies all[i] == surfaces[i] by {}
    assert(all[n] == surface);
    assert(out == lower + seq![leaf] + upper);
    lemma_lower_members(leaves, z, mask);
    lemma_upper_members(leaves, z);
    lemma_split_strict(leaves, z, mask);
    assert forall|l: int| 0 <= l < out.len() implies leaf_known(#[trigger] out[l], all) && if l
        < lower.len() {
        out[l].z_index < z
    } else if l == lower.len() {
        out[l].z_index == z
    } else {
        out[l].z_index > z
    } by {
        if l < lower.len() {
            assert(out[l] == lower[l]);
            let t = choose|t: int|
                0 <= t < leaves.len() && (#[trigger] leaves[t]).z_index == lower[l].z_index
                    && leaves[t].reference == lower[l].reference && lower[l].rects == spec_mask(
                    leaves[t].rects,
                    mask,
                );
            assert(leaf_known(leaves[t], surfaces));
            let i = choose|i: int|
                0 <= i < surfaces.len() && leaf_shows(leaves[t], surfaces, #[trigger] surfaces[i]);
            assert(all[i].z_index != all[n].z_index);
            lemma_shows_lower_masked(leaves, surfaces, surface, leaves[t], surfaces[i]);
            assert(out[l] == (LeafView { rects: spec_mask(leaves[t].rects, mask), ..leaves[t] }));
            assert(leaf_shows(out[l], all, all[i]));
        } else if l == lower.len() {
            assert(out[l] == leaf);
            lemma_shows_new(leaves, surfaces, surface);
            assert(leaf_shows(out[l], all, all[n]));
        } else {
            let u = upper[l - lower.len() - 1];
            assert(out[l] == u);
            let t = choose|t: int| 0 <= t < leaves.len() && #[trigger] leaves[t] == u;
            assert(leaf_known(leaves[t], surfaces));
            let i = choose|i: int|
                0 <= i < surfaces.len() && leaf_shows(leaves[t], surfaces, #[trigger] surfaces[i]);
            lemma_shows_upper(leaves[t], surfaces, surface, surfaces[i]);
            assert(leaf_shows(out[l], all, all[i]));
        }
    }
    assert forall|i: int, j: int| 0 <= i < j < out.len() implies (#[trigger] out[i]).z_index < (
    #[trigger] out[j]).z_index by {
        if j < lower.len() {
            assert(out[i] == lower[i] && out[j] == lower[j]);
        } else if i > lower.len() {
            assert(out[i] == upper[i - lower.len() - 1] && out[j] == upper[j - lower.len() - 1]);
        }
    }
}

/// Inserting a surface whose z-index is new keeps the tree one that shows
/// the surfaces inserted: that every surface that is kept has its leaf,
/// where something of the new surface is visible.
proof fn lemma_insert_shows_kept(
    leaves: Seq<LeafView>,
    surfaces: Seq<SurfaceView>,
    surface: SurfaceView,
    i: int,
)
    requires
        tree_shows(leaves, surfaces),
        distinct_z(surfaces.push(surface)),
        distinct_z(surfaces),
        spec_visible(leaves, surface).len() > 0,
        0 <= i <= surfaces.len(),
        kept(surfaces.push(surface), surfaces.push(surface)[i]),
    ensures
        has_leaf_at(spec_insert(leaves, surface), surfaces.push(surface)[i].z_index),
{
    let all = surfaces.push(surface);
    let n = surfaces.len() as int;
    let z = surface.z_index;
    let visible = spec_visible(leaves, surface);
    let mask = spec_hull(visible);
    let lower = spec_lower(leaves, z, mask);
    let upper = spec_upper(leaves, z);
    let leaf = LeafView { z_index: z, reference: surface.reference, rects: visible };
    let out = spec_insert(leaves, surface);
    assert(out == lower + seq![leaf] + upper);
    if i == n {
        assert(out[lower.len() as int] == leaf);
    } else {
        assert(all[i] == surfaces[i]);
        assert(all[n] == surface);
        assert(all[i].z_index != all[n].z_index);
        lemma_kept_before(surfaces, surface, surfaces[i]);
        assert(has_leaf_at(leaves, surfaces[i].z_index));
        let t = choose|t: int|
            0 <= t < leaves.len() && (#[trigger] leaves[t]).z_index == surfaces[i].z_index;
        lemma_leaf_source(leaves, surfaces, t, i);
        lemma_split_complete(leaves, z, mask, t);
        if surfaces[i].z_index > z {
            let k = choose|k: int| 0 <= k < upper.len() && #[trigger] upper[k] == leaves[t];
            assert(out[lower.len() + 1 + k] == upper[k]);
        } else {
            let masked = LeafView { rects: spec_mask(leaves[t].rects, mask), ..leaves[t] };
            lemma_shows_lower_masked(leaves, surfaces, surface, leaves[t], surfaces[i]);
            if !surfaces[i].area.spec_is_empty() {
                let (x, y) = choose|x: int, y: int| visible_at(all, surfaces[i], x, y);
                assert(in_region(masked.rects, x, y));
                let m = choose|m: int|
                    0 <= m < masked.rects.len() && #[trigger] masked.rects[m].contains(x, y);
            }
            let k = choose|k: int| 0 <= k < lower.len() && #[trigger] lower[k] == masked;
            assert(out[k] == lower[k]);
        }
    }
}

/// Inserting a surface whose z-index is new keeps the tree one that shows
/// the surfaces inserted.
pub proof fn lemma_insert_shows(
    leaves: Seq<LeafView>,
    surfaces: Seq<SurfaceView>,
    surface: SurfaceView,
)
    requires
        tree_shows(leaves, surfaces),
        distinct_z(surfaces.push(surface)),
    ensures
        tree_shows(spec_insert(leaves, surface), surfaces.push(surface)),
{
    let all = surfaces.push(surface);
    assert(distinct_z(surfaces)) by {
        assert forall|i: int, j: int| 0 <= i < j < surfaces.len() implies (
        #[trigger] surfaces[i]).z_index != (#[trigger] surfaces[j]).z_index by {
            assert(all[i].z_index != all[j].z_index);
        }
    }
    lemma_insert_wf(leaves, surface);
    if spec_visible(leaves, surface).len() == 0 {
        lemma_insert_shows_hidden(leaves, surfaces, surface);
    } else {
        lemma_insert_shows_leaves(leaves, surfaces, surface);
        assert forall|i: int| 0 <= i < all.len() && kept(all, #[trigger] all[i]) implies has_leaf_at(
            spec_insert(leaves, surface),
            all[i].z_index,
        ) by {
            lemma_insert_shows_kept(leaves, surfaces, surface, i);
        }
    }
}

/// The tree built from surfaces with distinct z-indices shows them.
pub proof fn lemma_build_shows(surfaces: Seq<SurfaceView>)
    requires
        distinct_z(surfaces),
    ensures
        tree_shows(spec_build(surfaces), surfaces),
    decreases surfaces.len(),
{
    if surfaces.len() > 0 {
        let head = surfaces.drop_last();
        assert(distinct_z(head)) by {
            assert forall|i: int, j: int| 0 <= i < j < head.len() implies (
            #[trigger] head[i]).z_index != (#[trigger] head[j]).z_index by {
                assert(surfaces[i].z_index != surfaces[j].z_index);
            }
        }
        lemma_build_shows(head);
        assert(head.push(surfaces.last()) =~= surfaces);
        lemma_insert_shows(spec_build(head), head, surfaces.last());
    }
}

/// The two lists hold the same surfaces, in whatever order.
pub open spec fn same_surfaces(a: Seq<SurfaceView>, b: Seq<SurfaceView>) -> bool {
    &&& forall|i: int| 0 <= i < a.len() ==> b.contains(#[trigger] a[i])
    &&& forall|j: int| 0 <= j < b.len() ==> a.contains(#[trigger] b[j])
}

/// What is covered from above depends on the surfaces, not on their
/// order.
proof fn lemma_covered_same(a: Seq<SurfaceView>, b: Seq<SurfaceView>, z: i32, x: int, y: int)
    requires
        same_surfaces(a, b),
    ensures
        covered_above(a, z, x, y) == covered_above(b, z, x, y),
{
    if covered_above(a, z, x, y) {
        let j = choose|j: int| 0 <= j < a.len() && covers_above(#[trigger] a[j], z, x, y);
        assert(b.contains(a[j]));
        let k = choose|k: int| 0 <= k < b.len() && b[k] == a[j];
        assert(covers_above(b[k], z, x, y));
    }
    if covered_above(b, z, x, y) {
        let j = choose|j: int| 0 <= j < b.len() && covers_above(#[trigger] b[j], z, x, y);
        assert(a.contains(b[j]));
        let k = choose|k: int| 0 <= k < a.len() && a[k] == b[j];
        assert(covers_above(a[k], z, x, y));
    }
}

/// A tree that shows a list of surfaces shows the same surfaces in any
/// other order.
proof fn lemma_shows_same(leaves: Seq<LeafView>, a: Seq<SurfaceView>, b: Seq<SurfaceView>)
    requires
        tree_shows(leaves, a),
        same_surfaces(a, b),
    ensures
        tree_shows(leaves, b),
{
    assert forall|l: int| 0 <= l < leaves.len() implies leaf_known(#[trigger] leaves[l], b) by {
        assert(leaf_known(leaves[l], a));
        let i = choose|i: int| 0 <= i < a.len() && leaf_shows(leaves[l], a, #[trigger] a[i]);
        assert(b.contains(a[i]));
        let k = choose|k: int| 0 <= k < b.len() && b[k] == a[i];
        if !a[i].area.spec_is_empty() {
            assert forall|x: int, y: int|
                in_region(leaves[l].rects, x, y) == visible_at(b, a[i], x, y) by {
                lemma_covered_same(a, b, a[i].z_index, x, y);
            }
        }
        assert(leaf_shows(leaves[l], b, b[k]));
    }
    assert forall|j: int| 0 <= j < b.len() && kept(b, #[trigger] b[j]) implies has_leaf_at(
        leaves,
        b[j].z_index,
    ) by {
        assert(a.contains(b[j]));
        let k = choose|k: int| 0 <= k < a.len() && a[k] == b[j];
        if !b[j].area.spec_is_empty() {
            let (x, y) = choose|x: int, y: int| visible_at(b, b[j], x, y);
            lemma_covered_same(a, b, b[j].z_index, x, y);
            assert(visible_at(a, a[k], x, y));
        }
        assert(kept(a, a[k]));
    }
}

/// Two lists of leaves in strictly ascending order that lie at the same
/// z-indices have the same z-index at every place.
proof fn lemma_same_levels(one: Seq<LeafView>, two: Seq<LeafView>)
    requires
        strictly_sorted(one),
        strictly_sorted(two),
        forall|l: int| 0 <= l < one.len() ==> has_leaf_at(two, (#[trigger] one[l]).z_index),
        forall|l: int| 0 <= l < two.len() ==> has_leaf_at(one, (#[trigger] two[l]).z_index),
    ensures
        one.len() == two.len(),
        forall|l: int| 0 <= l < one.len() ==> (#[trigger] one[l]).z_index == two[l].z_index,
    decreases one.len(),
{
    if one.len() == 0 {
        if two.len() > 0 {
            assert(has_leaf_at(one, two[0].z_index));
        }
    } else {
        let n1 = one.len() - 1;
        assert(has_leaf_at(two, one[n1].z_index));
        let m = choose|m: int| 0 <= m < two.len() && (#[trigger] two[m]).z_index == one[n1].z_index;
        let n2 = two.len() - 1;
        assert(has_leaf_at(one, two[n2].z_index));
        let k = choose|k: int| 0 <= k < one.len() && (#[trigger] one[k]).z_index == two[n2].z_index;
        if k < n1 {
            assert(one[k].z_index < one[n1].z_index);
        }
        if m < n2 {
            assert(two[m].z_index < two[n2].z_index);
        }
        assert(one[n1].z_index == two[n2].z_index);
        let head1 = one.drop_last();
        let head2 = two.drop_last();
        assert forall|i: int| 0 <= i < head1.len() implies head1[i] == one[i] by {}
        assert forall|i: int| 0 <= i < head2.len() implies head2[i] == two[i] by {}
        assert(strictly_sorted(head1)) by {
            assert forall|i: int, j: int| 0 <= i < j < head1.len() implies (
            #[trigger] head1[i]).z_index < (#[trigger] head1[j]).z_index by {
                assert(one[i].z_index < one[j].z_index);
            }
        }
        assert(strictly_sorted(head2)) by {
            assert forall|i: int, j: int| 0 <= i < j < head2.len() implies (
            #[trigger] head2[i]).z_index < (#[trigger] head2[j]).z_index by {
                assert(two[i].z_index < two[j].z_index);
            }
        }
        assert forall|l: int| 0 <= l < head1.len() implies has_leaf_at(
            head2,
            (#[trigger] head1[l]).z_index,
        ) by {
            assert(has_leaf_at(two, one[l].z_index));
            let q = choose|q: int| 0 <= q < two.len() && (#[trigger] two[q]).z_index == one[l].z_index;
            assert(one[l].z_index < one[n1].z_index);
            assert(head2[q].z_index == head1[l].z_index);
        }
        assert forall|l: int| 0 <= l < head2.len() implies has_leaf_at(
            head1,
            (#[trigger] head2[l]).z_index,
        ) by {
            assert(has_leaf_at(one, two[l].z_index));
            let q = choose|q: int| 0 <= q < one.len() && (#[trigger] one[q]).z_index == two[l].z_index;
            assert(two[l].z_index < two[n2].z_index);
            assert(head1[q].z_index == head2[l].z_index);
        }
        lemma_same_levels(head1, head2);
        assert forall|l: int| 0 <= l < one.len() implies (#[trigger] one[l]).z_index
            == two[l].z_index by {
            if l < n1 {
                assert(head1[l].z_index == head2[l].z_index);
            }
        }
    }
}

/// A leaf that shows a surface has pixels to show, or the surface has no
/// pixels at all: either way the surface is kept.
proof fn lemma_leaf_kept(leaves: Seq<LeafView>, surfaces: Seq<SurfaceView>, l: int) -> (i: int)
    requires
        tree_shows(leaves, surfaces),
        0 <= l < leaves.len(),
    ensures
        0 <= i < surfaces.len(),
        leaf_shows(leaves[l], surfaces, surfaces[i]),
        kept(surfaces, surfaces[i]),
{
    assert(leaf_known(leaves[l], surfaces));
    let i = choose|i: int|
        0 <= i < surfaces.len() && leaf_shows(leaves[l], surfaces, #[trigger] surfaces[i]);
    if !surfaces[i].area.spec_is_empty() {
        assert(leaves[l].rects.len() > 0);
        lemma_nonempty_list_has_pixel(leaves[l].rects);
        let (x, y) = choose|x: int, y: int| in_region(leaves[l].rects, x, y);
        assert(visible_at(surfaces, surfaces[i], x, y));
    }
    i
}

/// Two trees that show the same surfaces flatten to the same list.
proof fn lemma_shows_unique(one: Seq<LeafView>, two: Seq<LeafView>, surfaces: Seq<SurfaceView>)
    requires
        tree_shows(one, surfaces),
        tree_shows(two, surfaces),
        distinct_z(surfaces),
    ensures
        spec_flatten(one) == spec_flatten(two),
{
    assert forall|l: int| 0 <= l < one.len() implies has_leaf_at(two, (#[trigger] one[l]).z_index) by {
        let i = lemma_leaf_kept(one, surfaces, l);
    }
    assert forall|l: int| 0 <= l < two.len() implies has_leaf_at(one, (#[trigger] two[l]).z_index) by {
        let i = lemma_leaf_kept(two, surfaces, l);
    }
    lemma_same_levels(one, two);
    lemma_flatten_wf(one);
    lemma_flatten_wf(two);
    let f1 = spec_flatten(one);
    let f2 = spec_flatten(two);
    assert forall|l: int| 0 <= l < f1.len() implies f1[l] == f2[l] by {
        let i = lemma_leaf_kept(one, surfaces, l);
        lemma_leaf_source(two, surfaces, l, i);
        if surfaces[i].area.spec_is_empty() {
            assert(one[l].rects == two[l].rects);
        } else {
            assert(same_region(one[l].rects, two[l].rects));
            lemma_hull_of_same_region(one[l].rects, two[l].rects);
        }
    }
    assert(f1 =~= f2);
}

/// The order in which surfaces with distinct z-indices are inserted does
/// not matter: the flattened tree is the same.
pub proof fn lemma_flatten_order_independent(a: Seq<SurfaceView>, b: Seq<SurfaceView>)
    requires
        distinct_z(a),
        distinct_z(b),
        same_surfaces(a, b),
    ensures
        spec_flatten(spec_build(a)) == spec_flatten(spec_build(b)),
{
    lemma_build_shows(a);
    lemma_build_shows(b);
    lemma_shows_same(spec_build(a), a, b);
    lemma_shows_unique(spec_build(a), spec_build(b), b);
}


/// No two surfaces share a reference.
pub open spec fn distinct_references(surfaces: Seq<SurfaceView>) -> bool {
    forall|i: int, j: int|
        0 <= i < j < surfaces.len() ==> (#[trigger] surfaces[i]).reference != (
        #[trigger] surfaces[j]).reference
}

/// Of surfaces with distinct z-indices and distinct references, each one
/// that is not wholly hidden has exactly one entry in the flattened tree,
/// at its z-index; a surface that is wholly hidden has none.
pub proof fn lemma_build_emits_once(surfaces: Seq<SurfaceView>, i: int)
    requires
        distinct_z(surfaces),
        distinct_references(surfaces),
        0 <= i < surfaces.len(),
    ensures
        kept(surfaces, surfaces[i]) ==> exists|k: int|
            {
                &&& 0 <= k < spec_flatten(spec_build(surfaces)).len()
                &&& (#[trigger] spec_flatten(spec_build(surfaces))[k]).reference
                    == surfaces[i].reference
                &&& spec_flatten(spec_build(surfaces))[k].z_index == surfaces[i].z_index
                &&& forall|j: int|
                    0 <= j < spec_flatten(spec_build(surfaces)).len() && j != k ==> (
                    #[trigger] spec_flatten(spec_build(surfaces))[j]).reference
                        != surfaces[i].reference
            },
        !kept(surfaces, surfaces[i]) ==> forall|j: int|
            0 <= j < spec_flatten(spec_build(surfaces)).len() ==> (#[trigger] spec_flatten(
                spec_build(surfaces),
            )[j]).reference != surfaces[i].reference,
{
    let tree = spec_build(surfaces);
    let flat = spec_flatten(tree);
    lemma_build_shows(surfaces);
    lemma_flatten_wf(tree);
    assert forall|j: int| 0 <= j < flat.len() && (#[trigger] flat[j]).reference
        == surfaces[i].reference implies leaf_shows(tree[j], surfaces, surfaces[i]) && kept(
        surfaces,
        surfaces[i],
    ) by {
        let q = lemma_leaf_kept(tree, surfaces, j);
        if q < i {
            assert(surfaces[q].reference != surfaces[i].reference);
        } else if i < q {
            assert(surfaces[i].reference != surfaces[q].reference);
        }
    }
    if kept(surfaces, surfaces[i]) {
        assert(has_leaf_at(tree, surfaces[i].z_index));
        let k = choose|k: int|
            0 <= k < tree.len() && (#[trigger] tree[k]).z_index == surfaces[i].z_index;
        lemma_leaf_source(tree, surfaces, k, i);
        assert(flat[k].reference == surfaces[i].reference);
        assert forall|j: int| 0 <= j < flat.len() && j != k implies (#[trigger] flat[j]).reference
            != surfaces[i].reference by {
            if flat[j].reference == surfaces[i].reference {
                assert(leaf_shows(tree[j], surfaces, surfaces[i]));
                if j < k {
                    assert(tree[j].z_index < tree[k].z_index);
                } else {
                    assert(tree[k].z_index < tree[j].z_index);
                }
            }
        }
    }
}

} // verus!
