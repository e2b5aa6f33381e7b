//! Surfaces stacked by z-index, each cut down to what the surfaces above it
//! leave visible.

use vstd::prelude::*;
use vstd::string::*;
use super::rect::{Rect, SplitRect, spec_bounds, spec_hull, spec_mask};

verus! {

/// A rectangle on a layer, with a name for whoever owns it. A higher
/// z-index lies on top.
#[derive(Debug, PartialEq)]
pub struct ZSurface {
    pub z_index: i32,
    pub reference: String,
    pub area: Rect,
}

/// A surface as contracts see it.
pub struct SurfaceView {
    pub z_index: i32,
    pub reference: Seq<char>,
    pub area: Rect,
}

impl View for ZSurface {
    type V = SurfaceView;

    open spec fn view(&self) -> SurfaceView {
        SurfaceView { z_index: self.z_index, reference: self.reference@, area: self.area }
    }
}

impl DeepView for ZSurface {
    type V = SurfaceView;

    open spec fn deep_view(&self) -> SurfaceView {
        self@
    }
}

impl Clone for ZSurface {
    fn clone(&self) -> (r: Self)
        ensures
            r@ == self@,
    {
        Self { z_index: self.z_index, reference: self.reference.clone(), area: self.area }
    }
}

impl ZSurface {
    pub fn new(z_index: i32, reference: &str, area: Rect) -> (r: Self)
        ensures
            r@ == (SurfaceView { z_index, reference: reference@, area }),
    {
        Self { z_index, reference: reference.to_owned(), area }
    }
}

/// A surface in the tree: what is left visible of it.
#[derive(Debug)]
struct ZLeaf {
    z_index: i32,
    reference: String,
    area: SplitRect,
}

/// A leaf as contracts see it.
pub struct LeafView {
    pub z_index: i32,
    pub reference: Seq<char>,
    pub rects: Seq<Rect>,
}

impl View for ZLeaf {
    type V = LeafView;

    closed spec fn view(&self) -> LeafView {
        LeafView { z_index: self.z_index, reference: self.reference@, rects: self.area@ }
    }
}

impl DeepView for ZLeaf {
    type V = LeafView;

    closed spec fn deep_view(&self) -> LeafView {
        self@
    }
}

/// `rects` with the bounding box of `by` cut out; `rects` as they are
/// where `by` has no bounding box.
pub open spec fn spec_mask_by(rects: Seq<Rect>, by: Seq<Rect>) -> Seq<Rect> {
    match spec_bounds(by) {
        Some(b) => spec_mask(rects, b),
        None => rects,
    }
}

impl ZLeaf {
    /// The leaf of a surface of which everything is visible.
    fn new(z_index: i32, reference: String, area: Rect) -> (r: Self)
        ensures
            r@ == (LeafView { z_index, reference: reference@, rects: seq![area] }),
    {
        Self { z_index, reference, area: SplitRect::from(area) }
    }

    /// The leaf with the bounding box of `other` cut out of it, or `None`
    /// when that leaves nothing.
    fn mask(self, other: &Self) -> (r: Option<Self>)
        ensures
            match r {
                Some(leaf) => leaf@ == (LeafView {
                    rects: spec_mask_by(self@.rects, other@.rects),
                    ..self@
                }) && leaf@.rects.len() > 0,
                None => spec_mask_by(self@.rects, other@.rects).len() == 0,
            },
    {
        let Self { z_index, reference, area } = self;
        let area = match other.area.bounds() {
            Some(b) => area.mask_with(&b),
            None => area,
        };
        if area.is_empty() {
            None
        } else {
            Some(Self { z_index, reference, area })
        }
    }

    /// Cuts the bounding box of `other` out of the leaf and tells whether
    /// anything is left.
    fn mask_in_place(&mut self, other: &Self) -> (r: bool)
        ensures
            final(self)@ == (LeafView {
                rects: spec_mask_by(old(self)@.rects, other@.rects),
                ..old(self)@
            }),
            r == (final(self)@.rects.len() > 0),
    {
        match other.area.bounds() {
            Some(b) => {
                let mut area = SplitRect::from_rects(Vec::new());
                core::mem::swap(&mut self.area, &mut area);
                self.area = area.mask_with(&b);
            },
            None => {},
        }
        !self.area.is_empty()
    }
}

/// `rects` with the bounding box of every leaf above `z` cut out, the
/// leaves taken in order.
pub open spec fn spec_mask_above(leaves: Seq<LeafView>, z: i32, rects: Seq<Rect>) -> Seq<Rect>
    decreases leaves.len(),
{
    if leaves.len() == 0 {
        rects
    } else {
        let prev = spec_mask_above(leaves.drop_last(), z, rects);
        match spec_bounds(leaves.last().rects) {
            Some(b) => if leaves.last().z_index > z {
                spec_mask(prev, b)
            } else {
                prev
            },
            None => prev,
        }
    }
}

/// What `mask`, lying at `z`, leaves of one leaf: nothing when the leaf is
/// above `z`, or at most `z` and wholly masked.
pub open spec fn spec_mask_leaf(leaf: LeafView, z: i32, mask: Rect) -> Seq<LeafView> {
    if leaf.z_index <= z && spec_mask(leaf.rects, mask).len() > 0 {
        seq![LeafView { rects: spec_mask(leaf.rects, mask), ..leaf }]
    } else {
        Seq::empty()
    }
}

/// The leaves at or below `z` with `mask` cut out of each; those of which
/// nothing is left are dropped.
pub open spec fn spec_lower(leaves: Seq<LeafView>, z: i32, mask: Rect) -> Seq<LeafView>
    decreases leaves.len(),
{
    if leaves.len() == 0 {
        Seq::empty()
    } else {
        spec_lower(leaves.drop_last(), z, mask) + spec_mask_leaf(leaves.last(), z, mask)
    }
}

/// The leaves above `z`, as they are.
pub open spec fn spec_upper(leaves: Seq<LeafView>, z: i32) -> Seq<LeafView>
    decreases leaves.len(),
{
    if leaves.len() == 0 {
        Seq::empty()
    } else if leaves.last().z_index > z {
        spec_upper(leaves.drop_last(), z).push(leaves.last())
    } else {
        spec_upper(leaves.drop_last(), z)
    }
}

/// What is visible of a new surface below the leaves that lie above it.
pub open spec fn spec_visible(leaves: Seq<LeafView>, surface: SurfaceView) -> Seq<Rect> {
    spec_mask_above(leaves, surface.z_index, seq![surface.area])
}

/// The tree after an attempt to insert `surface`. A surface of which
/// nothing is visible leaves the tree as it is. Otherwise the bounding box
/// of its visible part is cut out of the leaves at or below its z-index,
/// and the surface takes its place after them and before the leaves above.
pub open spec fn spec_insert(leaves: Seq<LeafView>, surface: SurfaceView) -> Seq<LeafView> {
    let area = spec_visible(leaves, surface);
    if area.len() == 0 {
        leaves
    } else {
        spec_lower(leaves, surface.z_index, spec_hull(area)) + seq![
            LeafView { z_index: surface.z_index, reference: surface.reference, rects: area },
        ] + spec_upper(leaves, surface.z_index)
    }
}

/// The surface that a leaf is flattened to: its bounding box. A leaf
/// without rectangles gives none.
pub open spec fn spec_flatten_leaf(leaf: LeafView) -> Seq<SurfaceView> {
    match spec_bounds(leaf.rects) {
        Some(b) => seq![SurfaceView { z_index: leaf.z_index, reference: leaf.reference, area: b }],
        None => Seq::empty(),
    }
}

/// One surface for each leaf, in the order of the leaves.
pub open spec fn spec_flatten(leaves: Seq<LeafView>) -> Seq<SurfaceView>
    decreases leaves.len(),
{
    if leaves.len() == 0 {
        Seq::empty()
    } else {
        spec_flatten(leaves.drop_last()) + spec_flatten_leaf(leaves.last())
    }
}

/// The leaves are in ascending order of z-index and none is empty.
pub open spec fn spec_tree_wf(leaves: Seq<LeafView>) -> bool {
    &&& forall|i: int, j: int|
        0 <= i < j < leaves.len() ==> (#[trigger] leaves[i]).z_index <= (#[trigger] leaves[j]).z_index
    &&& forall|i: int| 0 <= i < leaves.len() ==> (#[trigger] leaves[i]).rects.len() > 0
}

/// The surfaces are in ascending order of z-index.
pub open spec fn spec_sorted(surfaces: Seq<SurfaceView>) -> bool {
    forall|i: int, j: int|
        0 <= i < j < surfaces.len() ==> (#[trigger] surfaces[i]).z_index <= (
        #[trigger] surfaces[j]).z_index
}


/// Once nothing is visible, nothing becomes visible again.
proof fn lemma_mask_above_stays_empty(leaves: Seq<LeafView>, z: i32, rects: Seq<Rect>, k: int)
    requires
        0 <= k <= leaves.len(),
        spec_mask_above(leaves.take(k), z, rects).len() == 0,
    ensures
        spec_mask_above(leaves, z, rects).len() == 0,
    decreases leaves.len() - k,
{
    if k < leaves.len() {
        assert(leaves.take(k + 1).drop_last() =~= leaves.take(k));
        assert(leaves.take(k + 1).last() == leaves[k]);
        match spec_bounds(leaves[k].rects) {
            Some(b) => {
                assert(spec_mask(spec_mask_above(leaves.take(k), z, rects), b).len() == 0);
            },
            None => {},
        }
        lemma_mask_above_stays_empty(leaves, z, rects, k + 1);
    } else {
        assert(leaves.take(k) =~= leaves);
    }
}

/// Every leaf kept below comes from a leaf of the tree, keeps its z-index,
/// which is at most `z`, and holds a rectangle.
pub proof fn lemma_lower_members(leaves: Seq<LeafView>, z: i32, mask: Rect)
    ensures
        forall|k: int|
            0 <= k < spec_lower(leaves, z, mask).len() ==> {
                let l = #[trigger] spec_lower(leaves, z, mask)[k];
                l.z_index <= z && l.rects.len() > 0 && exists|i: int|
                    0 <= i < leaves.len() && (#[trigger] leaves[i]).z_index == l.z_index
                        && leaves[i].reference == l.reference && l.rects == spec_mask(
                        leaves[i].rects,
                        mask,
                    )
            },
        spec_lower(leaves, z, mask).len() <= leaves.len(),
    decreases leaves.len(),
{
    if leaves.len() > 0 {
        let head = leaves.drop_last();
        lemma_lower_members(head, z, mask);
        let a = spec_lower(head, z, mask);
        let out = spec_lower(leaves, z, mask);
        assert forall|k: int| 0 <= k < out.len() implies {
            let l = #[trigger] out[k];
            l.z_index <= z && l.rects.len() > 0 && exists|i: int|
                0 <= i < leaves.len() && (#[trigger] leaves[i]).z_index == l.z_index
                    && leaves[i].reference == l.reference && l.rects == spec_mask(
                    leaves[i].rects,
                    mask,
                )
        } by {
            let l = out[k];
            if k < a.len() {
                assert(l == a[k]);
                let i = choose|i: int|
                    0 <= i < head.len() && (#[trigger] head[i]).z_index == l.z_index
                        && head[i].reference == l.reference && l.rects == spec_mask(
                        head[i].rects,
                        mask,
                    );
                assert(leaves[i] == head[i]);
            } else {
                let i = leaves.len() - 1;
                assert(leaves[i].z_index == l.z_index);
            }
        }
    }
}

/// Every leaf kept above is a leaf of the tree whose z-index is over `z`.
pub proof fn lemma_upper_members(leaves: Seq<LeafView>, z: i32)
    ensures
        forall|k: int|
            0 <= k < spec_upper(leaves, z).len() ==> {
                let l = #[trigger] spec_upper(leaves, z)[k];
                l.z_index > z && exists|i: int| 0 <= i < leaves.len() && #[trigger] leaves[i] == l
            },
        spec_upper(leaves, z).len() <= leaves.len(),
    decreases leaves.len(),
{
    if leaves.len() > 0 {
        let head = leaves.drop_last();
        lemma_upper_members(head, z);
        let a = spec_upper(head, z);
        let out = spec_upper(leaves, z);
        assert forall|k: int| 0 <= k < out.len() implies {
            let l = #[trigger] out[k];
            l.z_index > z && exists|i: int| 0 <= i < leaves.len() && #[trigger] leaves[i] == l
        } by {
            let l = out[k];
            if k < a.len() {
                assert(l == a[k]);
                let i = choose|i: int| 0 <= i < head.len() && #[trigger] head[i] == l;
                assert(leaves[i] == head[i]);
            } else {
                assert(leaves[leaves.len() - 1] == l);
            }
        }
    }
}

proof fn lemma_lower_sorted(leaves: Seq<LeafView>, z: i32, mask: Rect)
    requires
        spec_tree_wf(leaves),
    ensures
        spec_tree_wf(spec_lower(leaves, z, mask)),
    decreases leaves.len(),
{
    if leaves.len() > 0 {
        let head = leaves.drop_last();
        assert(spec_tree_wf(head)) by {
            assert forall|i: int| 0 <= i < head.len() implies head[i] == leaves[i] by {}
        }
        lemma_lower_sorted(head, z, mask);
        lemma_lower_members(head, z, mask);
        lemma_lower_members(leaves, z, mask);
        let a = spec_lower(head, z, mask);
        let out = spec_lower(leaves, z, mask);
        assert forall|i: int, j: int| 0 <= i < j < out.len() implies (#[trigger] out[i]).z_index
            <= (#[trigger] out[j]).z_index by {
            if j < a.len() {
                assert(out[i] == a[i] && out[j] == a[j]);
            } else {
                assert(out[i] == a[i]);
                let s = choose|s: int|
                    0 <= s < head.len() && (#[trigger] head[s]).z_index == a[i].z_index;
                assert(head[s] == leaves[s]);
                assert(leaves[s].z_index <= leaves[leaves.len() - 1].z_index);
            }
        }
    }
}

proof fn lemma_upper_sorted(leaves: Seq<LeafView>, z: i32)
    requires
        spec_tree_wf(leaves),
    ensures
        spec_tree_wf(spec_upper(leaves, z)),
    decreases leaves.len(),
{
    if leaves.len() > 0 {
        let head = leaves.drop_last();
        assert(spec_tree_wf(head)) by {
            assert forall|i: int| 0 <= i < head.len() implies head[i] == leaves[i] by {}
        }
        lemma_upper_sorted(head, z);
        lemma_upper_members(head, z);
        let a = spec_upper(head, z);
        let out = spec_upper(leaves, z);
        assert forall|i: int, j: int| 0 <= i < j < out.len() implies (#[trigger] out[i]).z_index
            <= (#[trigger] out[j]).z_index by {
            if j < a.len() {
                assert(out[i] == a[i] && out[j] == a[j]);
            } else {
                assert(out[i] == a[i]);
                let s = choose|s: int| 0 <= s < head.len() && #[trigger] head[s] == a[i];
                assert(head[s] == leaves[s]);
                assert(leaves[s].z_index <= leaves[leaves.len() - 1].z_index);
            }
        }
        assert forall|i: int| 0 <= i < out.len() implies (#[trigger] out[i]).rects.len() > 0 by {
            if i < a.len() {
                assert(out[i] == a[i]);
            } else {
                assert(out[i] == leaves[leaves.len() - 1]);
            }
        }
    }
}

/// Inserting a surface keeps the leaves in ascending order of z-index, and
/// leaves no leaf empty.
pub proof fn lemma_insert_wf(leaves: Seq<LeafView>, surface: SurfaceView)
    requires
        spec_tree_wf(leaves),
    ensures
        spec_tree_wf(spec_insert(leaves, surface)),
{
    let area = spec_visible(leaves, surface);
    if area.len() > 0 {
        let z = surface.z_index;
        let mask = spec_hull(area);
        let lower = spec_lower(leaves, z, mask);
        let upper = spec_upper(leaves, z);
        let leaf = LeafView { z_index: z, reference: surface.reference, rects: area };
        lemma_lower_sorted(leaves, z, mask);
        lemma_upper_sorted(leaves, z);
        lemma_lower_members(leaves, z, mask);
        lemma_upper_members(leaves, z);
        let out = spec_insert(leaves, surface);
        assert(out == lower + seq![leaf] + upper);
        assert forall|i: int| 0 <= i < out.len() implies (#[trigger] out[i]).rects.len() > 0
            && if i < lower.len() {
            out[i] == lower[i] && out[i].z_index <= z
        } else if i == lower.len() {
            out[i] == leaf
        } else {
            out[i] == upper[i - lower.len() - 1] && out[i].z_index > z
        } by {}
        assert forall|i: int, j: int| 0 <= i < j < out.len() implies (#[trigger] out[i]).z_index
            <= (#[trigger] out[j]).z_index by {
            if j < lower.len() {
                assert(out[i] == lower[i] && out[j] == lower[j]);
            } else if i > lower.len() {
                assert(out[i] == upper[i - lower.len() - 1] && out[j] == upper[j - lower.len()
                    - 1]);
            }
        }
    }
}

/// Flattening a well-formed tree gives one surface for each leaf, in
/// ascending order of z-index.
pub proof fn lemma_flatten_wf(leaves: Seq<LeafView>)
    requires
        spec_tree_wf(leaves),
    ensures
        spec_flatten(leaves).len() == leaves.len(),
        forall|i: int|
            0 <= i < leaves.len() ==> #[trigger] spec_flatten(leaves)[i] == (SurfaceView {
                z_index: leaves[i].z_index,
                reference: leaves[i].reference,
                area: spec_hull(leaves[i].rects),
            }),
        spec_sorted(spec_flatten(leaves)),
    decreases leaves.len(),
{
    if leaves.len() > 0 {
        let head = leaves.drop_last();
        assert(spec_tree_wf(head)) by {
            assert forall|i: int| 0 <= i < head.len() implies head[i] == leaves[i] by {}
        }
        lemma_flatten_wf(head);
        let out = spec_flatten(leaves);
        assert(leaves[leaves.len() - 1].rects.len() > 0);
        assert forall|i: int| 0 <= i < leaves.len() implies #[trigger] out[i] == (SurfaceView {
            z_index: leaves[i].z_index,
            reference: leaves[i].reference,
            area: spec_hull(leaves[i].rects),
        }) by {
            if i < head.len() {
                assert(out[i] == spec_flatten(head)[i]);
                assert(head[i] == leaves[i]);
            }
        }
    }
}

/// Surfaces stacked by z-index. Each surface is kept as the part of it that
/// the surfaces above leave visible; a surface of which nothing is visible
/// is not kept at all.
#[derive(Debug)]
pub struct ZTree {
    leaves: Vec<ZLeaf>,
}

impl View for ZTree {
    type V = Seq<LeafView>;

    closed spec fn view(&self) -> Seq<LeafView> {
        self.leaves.deep_view()
    }
}

impl ZTree {
    #[verifier::type_invariant]
    closed spec fn inv(&self) -> bool {
        spec_tree_wf(self@)
    }

    /// An empty tree.
    pub fn new() -> (r: Self)
        ensures
            r@ == Seq::<LeafView>::empty(),
    {
        let leaves: Vec<ZLeaf> = Vec::new();
        proof {
            assert(leaves.deep_view() =~= Seq::<LeafView>::empty());
        }
        Self { leaves }
    }

    /// Inserts a surface at its z-index.
    ///
    /// The bounding box of every leaf above is cut out of the surface. If
    /// nothing is left, the tree stays as it is and the result is `false`.
    /// Otherwise the bounding box of what is left is cut out of every leaf
    /// at or below the surface's z-index, the leaves that this empties are
    /// dropped, and the surface is added above them.
    pub fn insert(&mut self, surface: ZSurface) -> (r: bool)
        ensures
            r == (spec_visible(old(self)@, surface@).len() > 0),
            final(self)@ == spec_insert(old(self)@, surface@),
            spec_tree_wf(old(self)@),
            spec_tree_wf(final(self)@),
    {
        proof {
            use_type_invariant(&*self);
            lemma_insert_wf(self@, surface@);
        }
        let ghost before = self@;
        let ZSurface { z_index, reference, area } = surface;
        let mut new_leaf = ZLeaf::new(z_index, reference, area);
        let mut i: usize = 0;
        proof {
            assert(before.take(0) =~= Seq::<LeafView>::empty());
        }
        while i < self.leaves.len()
            invariant
                i <= self.leaves.len(),
                self@ == before,
                before.len() == self.leaves.len(),
                new_leaf@ == (LeafView {
                    z_index,
                    reference: surface@.reference,
                    rects: spec_mask_above(before.take(i as int), z_index, seq![area]),
                }),
                new_leaf@.rects.len() > 0,
                before == old(self)@,
                spec_tree_wf(before),
                surface@.z_index == z_index,
                surface@.area == area,
            decreases self.leaves.len() - i,
        {
            proof {
                assert(before.take(i + 1).drop_last() =~= before.take(i as int));
                assert(before.take(i + 1).last() == self.leaves[i as int]@);
            }
            if self.leaves[i].z_index > z_index {
                new_leaf = match new_leaf.mask(&self.leaves[i]) {
                    Some(leaf) => leaf,
                    None => {
                        proof {
                            lemma_mask_above_stays_empty(before, z_index, seq![area], i + 1);
                        }
                        return false;
                    },
                };
            }
            i += 1;
        }
        proof {
            assert(before.take(i as int) =~= before);
        }
        let ghost visible = new_leaf@.rects;
        let ghost mask = spec_hull(visible);
        let mut old_leaves: Vec<ZLeaf> = Vec::new();
        proof {
            assert(old_leaves.deep_view() =~= Seq::<LeafView>::empty());
        }
        core::mem::swap(&mut self.leaves, &mut old_leaves);
        let ghost all = old_leaves@;
        let mut lower: Vec<ZLeaf> = Vec::new();
        let mut upper: Vec<ZLeaf> = Vec::new();
        proof {
            assert(before.take(0) =~= Seq::<LeafView>::empty());
            assert(lower.deep_view() =~= Seq::<LeafView>::empty());
            assert(upper.deep_view() =~= Seq::<LeafView>::empty());
        }
        for leaf in it: old_leaves
            invariant
                it.seq() == all,
                before.len() == all.len(),
                forall|k: int| 0 <= k < all.len() ==> before[k] == (#[trigger] all[k])@,
                new_leaf@.rects == visible,
                visible.len() > 0,
                mask == spec_hull(visible),
                lower.deep_view() == spec_lower(before.take(it.index()), z_index, mask),
                upper.deep_view() == spec_upper(before.take(it.index()), z_index),
        {
            let ghost done = before.take(it.index());
            let ghost next = before.take(it.index() + 1);
            let ghost low = lower.deep_view();
            let ghost up = upper.deep_view();
            proof {
                assert(next.drop_last() =~= done);
                assert(next.last() == leaf@);
            }
            if leaf.z_index > z_index {
                upper.push(leaf);
                proof {
                    assert(upper.deep_view() =~= up.push(leaf@));
                }
            } else {
                let mut kept = leaf;
                if kept.mask_in_place(&new_leaf) {
                    lower.push(kept);
                    proof {
                        assert(lower.deep_view() =~= low.push(kept@));
                        assert(low.push(kept@) =~= low + spec_mask_leaf(leaf@, z_index, mask));
                    }
                } else {
                    proof {
                        assert(low =~= low + spec_mask_leaf(leaf@, z_index, mask));
                    }
                }
            }
        }
        proof {
            assert(before.take(all.len() as int) =~= before);
        }
        let ghost low = lower.deep_view();
        let ghost up = upper.deep_view();
        let ghost added = new_leaf;
        lower.push(new_leaf);
        proof {
            assert(lower.deep_view() =~= low.push(added@));
        }
        let ghost mid = lower.deep_view();
        lower.append(&mut upper);
        proof {
            assert(lower.deep_view() =~= mid + up);
            assert(mid + up =~= low + seq![added@] + up);
        }
        self.leaves = lower;
        true
    }

    /// One surface for each leaf: its z-index, its reference and the
    /// bounding box of what is visible of it, in ascending order of
    /// z-index, and within one z-index in the order of insertion.
    pub fn flatten(self) -> (r: Vec<ZSurface>)
        ensures
            r.deep_view() == spec_flatten(self@),
            spec_sorted(r.deep_view()),
            r.len() == self@.len(),
    {
        proof {
            use_type_invariant(&self);
            lemma_flatten_wf(self@);
        }
        let ghost before = self@;
        let ghost all = self.leaves@;
        let mut out: Vec<ZSurface> = Vec::new();
        proof {
            assert(before.take(0) =~= Seq::<LeafView>::empty());
            assert(out.deep_view() =~= Seq::<SurfaceView>::empty());
        }
        for leaf in it: self.leaves
            invariant
                it.seq() == all,
                before.len() == all.len(),
                forall|k: int| 0 <= k < all.len() ==> before[k] == (#[trigger] all[k])@,
                out.deep_view() == spec_flatten(before.take(it.index())),
        {
            let ghost done = before.take(it.index());
            let ghost next = before.take(it.index() + 1);
            let ghost so_far = out.deep_view();
            proof {
                assert(next.drop_last() =~= done);
                assert(next.last() == leaf@);
            }
            match leaf.area.bounds() {
                Some(area) => {
                    let surface = ZSurface { z_index: leaf.z_index, reference: leaf.reference, area };
                    out.push(surface);
                    proof {
                        assert(out.deep_view() =~= so_far.push(surface@));
                        assert(so_far.push(surface@) =~= so_far + spec_flatten_leaf(leaf@));
                    }
                },
                None => {
                    proof {
                        assert(so_far =~= so_far + spec_flatten_leaf(leaf@));
                    }
                },
            }
        }
        proof {
            assert(before.take(all.len() as int) =~= before);
        }
        out
    }
}

impl Default for ZTree {
    fn default() -> (r: Self)
        ensures
            r@ == Seq::<LeafView>::empty(),
    {
        ZTree::new()
    }
}

impl From<ZTree> for Vec<ZSurface> {
    /// The flattened tree.
    fn from(value: ZTree) -> (r: Self)
        ensures
            r.deep_view() == spec_flatten(value@),
    {
        value.flatten()
    }
}

impl vstd::std_specs::convert::FromSpecImpl<ZTree> for Vec<ZSurface> {
    open spec fn obeys_from_spec() -> bool {
        false
    }

    open spec fn from_spec(value: ZTree) -> Self {
        arbitrary()
    }
}

} // verus!
