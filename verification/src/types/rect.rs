//! Integer rectangles and rectangles with parts masked out.

use vstd::prelude::*;
use super::region::{
    all_nonempty, lemma_hull_covers_members, lemma_mask_bounds_shrink,
    lemma_mask_by_cover_is_empty, lemma_mask_well_formed, lemma_mask_with_empty_is_identity,
};

verus! {

/// Axis-aligned rectangle. `(x1, y1)` is the first pixel inside, `(x2, y2)`
/// the first pixel outside.
#[derive(Debug, PartialEq, Eq, Clone, Copy, Structural)]
pub struct Rect {
    pub x1: i32,
    pub y1: i32,
    pub x2: i32,
    pub y2: i32,
}

pub open spec fn spec_min(a: int, b: int) -> int {
    if a <= b { a } else { b }
}

pub open spec fn spec_max(a: int, b: int) -> int {
    if a >= b { a } else { b }
}

fn min_i32(a: i32, b: i32) -> (r: i32)
    ensures
        r == spec_min(a as int, b as int),
{
    if a <= b { a } else { b }
}

fn max_i32(a: i32, b: i32) -> (r: i32)
    ensures
        r == spec_max(a as int, b as int),
{
    if a >= b { a } else { b }
}

impl Rect {
    /// The corners are ordered: neither dimension is negative.
    pub open spec fn valid(self) -> bool {
        self.x1 <= self.x2 && self.y1 <= self.y2
    }

    /// The rectangle holds no pixel: one of its dimensions is not positive.
    pub open spec fn spec_is_empty(self) -> bool {
        self.x2 <= self.x1 || self.y2 <= self.y1
    }

    /// The pixel `(x, y)` lies inside the rectangle.
    pub open spec fn contains(self, x: int, y: int) -> bool {
        self.x1 <= x < self.x2 && self.y1 <= y < self.y2
    }

    /// The overlap of two rectangles, whether or not it holds a pixel.
    pub open spec fn overlap(self, other: Rect) -> Rect {
        Rect {
            x1: spec_max(self.x1 as int, other.x1 as int) as i32,
            y1: spec_max(self.y1 as int, other.y1 as int) as i32,
            x2: spec_min(self.x2 as int, other.x2 as int) as i32,
            y2: spec_min(self.y2 as int, other.y2 as int) as i32,
        }
    }

    /// The overlap, provided it holds at least one pixel.
    pub open spec fn spec_intersection(self, other: Rect) -> Option<Rect> {
        if self.overlap(other).spec_is_empty() {
            None
        } else {
            Some(self.overlap(other))
        }
    }

    /// The two rectangles share at least one pixel.
    pub open spec fn spec_intersect(self, rhs: Rect) -> bool {
        !self.overlap(rhs).spec_is_empty()
    }

    /// Every corner of `other` lies within `self`.
    pub open spec fn spec_cover(self, other: Rect) -> bool {
        self.x1 <= other.x1 && self.y1 <= other.y1 && self.x2 >= other.x2 && self.y2 >= other.y2
    }

    pub fn new(x1: i32, y1: i32, x2: i32, y2: i32) -> (r: Self)
        ensures
            r == (Rect { x1, y1, x2, y2 }),
    {
        Self { x1, y1, x2, y2 }
    }

    /// Whether the rectangle holds no pixel.
    pub fn is_empty(&self) -> (r: bool)
        ensures
            r == self.spec_is_empty(),
    {
        self.x2 <= self.x1 || self.y2 <= self.y1
    }

    /// Whether the two rectangles share at least one pixel.
    pub fn intersect(&self, rhs: &Self) -> (r: bool)
        ensures
            r == self.spec_intersect(*rhs),
            r == exists|x: int, y: int| self.contains(x, y) && rhs.contains(x, y),
    {
        let inter = Rect::new(
            max_i32(self.x1, rhs.x1),
            max_i32(self.y1, rhs.y1),
            min_i32(self.x2, rhs.x2),
            min_i32(self.y2, rhs.y2),
        );
        let r = !inter.is_empty();
        proof {
            if r {
                assert(self.contains(inter.x1 as int, inter.y1 as int) && rhs.contains(
                    inter.x1 as int,
                    inter.y1 as int,
                ));
            }
        }
        r
    }

    /// Whether `other` lies within `self`: for a rectangle with pixels,
    /// whether each of its pixels is one of `self`.
    pub fn cover(&self, other: &Self) -> (r: bool)
        ensures
            r == self.spec_cover(*other),
            !other.spec_is_empty() ==> r == forall|x: int, y: int|
                other.contains(x, y) ==> self.contains(x, y),
    {
        proof {
            if !other.spec_is_empty() && (forall|x: int, y: int|
                other.contains(x, y) ==> self.contains(x, y)) {
                assert(other.contains(other.x1 as int, other.y1 as int));
                assert(other.contains(other.x2 - 1, other.y2 - 1));
            }
        }
        self.x1 <= other.x1 && self.y1 <= other.y1 && self.x2 >= other.x2 && self.y2 >= other.y2
    }

    /// The part of the rectangle that lies on a screen of the given width
    /// and height, or `None` when no pixel of it does.
    pub fn clip_to_screen(&self, width: i32, height: i32) -> (r: Option<Self>)
        ensures
            r == self.spec_intersection(Rect { x1: 0, y1: 0, x2: width, y2: height }),
    {
        self.intersection(&Rect::new(0, 0, width, height))
    }

    /// The overlap of the two rectangles, or `None` when they share no pixel.
    pub fn intersection(&self, other: &Self) -> (r: Option<Self>)
        ensures
            r == self.spec_intersection(*other),
    {
        let inter = Rect::new(
            max_i32(self.x1, other.x1),
            max_i32(self.y1, other.y1),
            min_i32(self.x2, other.x2),
            min_i32(self.y2, other.y2),
        );
        if inter.is_empty() {
            None
        } else {
            Some(inter)
        }
    }
}


/// The smallest rectangle that holds both `a` and `b`.
pub open spec fn spec_join(a: Rect, b: Rect) -> Rect {
    Rect {
        x1: spec_min(a.x1 as int, b.x1 as int) as i32,
        y1: spec_min(a.y1 as int, b.y1 as int) as i32,
        x2: spec_max(a.x2 as int, b.x2 as int) as i32,
        y2: spec_max(a.y2 as int, b.y2 as int) as i32,
    }
}

/// The smallest rectangle that holds every member of a non-empty list.
pub open spec fn spec_hull(rects: Seq<Rect>) -> Rect
    recommends
        rects.len() > 0,
    decreases rects.len(),
{
    if rects.len() <= 1 {
        rects[0]
    } else {
        spec_join(spec_hull(rects.drop_last()), rects.last())
    }
}

/// The bounding box of a list of rectangles; an empty list has none.
pub open spec fn spec_bounds(rects: Seq<Rect>) -> Option<Rect> {
    if rects.len() == 0 {
        None
    } else {
        Some(spec_hull(rects))
    }
}

/// `r` as a one-element list, or nothing when `r` holds no pixel.
pub open spec fn spec_residual(r: Rect) -> Seq<Rect> {
    if r.spec_is_empty() {
        Seq::empty()
    } else {
        seq![r]
    }
}

/// What is left of `r` once `mask` is cut out of it: `r` itself when the two
/// share no pixel, otherwise the strips to the left of, above, to the right
/// of and below the overlap, in that order, without those that hold no pixel.
pub open spec fn spec_mask_rect(r: Rect, mask: Rect) -> Seq<Rect> {
    match r.spec_intersection(mask) {
        None => seq![r],
        Some(inter) => spec_residual(Rect { x1: r.x1, y1: r.y1, x2: inter.x1, y2: inter.y2 })
            + spec_residual(Rect { x1: inter.x1, y1: r.y1, x2: r.x2, y2: inter.y1 })
            + spec_residual(Rect { x1: inter.x2, y1: inter.y1, x2: r.x2, y2: r.y2 })
            + spec_residual(Rect { x1: r.x1, y1: inter.y2, x2: inter.x2, y2: r.y2 }),
    }
}

/// `mask` cut out of every member of `rects`, the results in member order.
pub open spec fn spec_mask(rects: Seq<Rect>, mask: Rect) -> Seq<Rect>
    decreases rects.len(),
{
    if rects.len() == 0 {
        Seq::empty()
    } else {
        spec_mask(rects.drop_last(), mask) + spec_mask_rect(rects.last(), mask)
    }
}

/// A rectangle of which parts may have been masked out: the list of the
/// rectangles that remain.
#[derive(Debug, PartialEq)]
pub struct SplitRect(Vec<Rect>);

impl Clone for SplitRect {
    fn clone(&self) -> (r: Self)
        ensures
            r@ == self@,
    {
        let mut rects: Vec<Rect> = Vec::new();
        let mut i: usize = 0;
        while i < self.0.len()
            invariant
                i <= self.0.len(),
                rects@ == self.0@.take(i as int),
            decreases self.0.len() - i,
        {
            rects.push(self.0[i]);
            proof {
                assert(self.0@.take(i + 1) =~= self.0@.take(i as int).push(self.0@[i as int]));
            }
            i += 1;
        }
        proof {
            assert(self.0@.take(i as int) =~= self.0@);
        }
        Self(rects)
    }
}

impl View for SplitRect {
    type V = Seq<Rect>;

    closed spec fn view(&self) -> Seq<Rect> {
        self.0@
    }
}

impl SplitRect {
    /// A split rectangle made of the given members, in the given order.
    pub fn from_rects(rects: Vec<Rect>) -> (r: Self)
        ensures
            r@ == rects@,
    {
        Self(rects)
    }

    /// The members, in order.
    pub fn into_rects(self) -> (r: Vec<Rect>)
        ensures
            r@ == self@,
    {
        self.0
    }

    pub fn is_empty(&self) -> (r: bool)
        ensures
            r == (self@.len() == 0),
    {
        self.0.is_empty()
    }

    /// The bounding box of the members, or `None` when there is none.
    pub fn bounds(&self) -> (r: Option<Rect>)
        ensures
            r == spec_bounds(self@),
            r is Some == (self@.len() > 0),
            r matches Some(b) ==> forall|i: int| 0 <= i < self@.len() ==> b.spec_cover(#[trigger] self@[i]),
    {
        proof {
            if self@.len() > 0 {
                lemma_hull_covers_members(self@);
            }
        }
        if self.0.is_empty() {
            return None;
        }
        let mut acc = self.0[0];
        let mut i: usize = 1;
        while i < self.0.len()
            invariant
                1 <= i <= self.0.len(),
                acc == spec_hull(self.0@.take(i as int)),
            decreases self.0.len() - i,
        {
            let r = self.0[i];
            proof {
                assert(self.0@.take(i + 1).drop_last() =~= self.0@.take(i as int));
            }
            acc = Rect::new(
                min_i32(acc.x1, r.x1),
                min_i32(acc.y1, r.y1),
                max_i32(acc.x2, r.x2),
                max_i32(acc.y2, r.y2),
            );
            i += 1;
        }
        proof {
            assert(self.0@.take(i as int) =~= self.0@);
        }
        Some(acc)
    }

    /// What is left of `r` once `other` is cut out of it.
    fn mask_rect(r: Rect, other: &Rect) -> (res: Self)
        ensures
            res@ == spec_mask_rect(r, *other),
    {
        let mut out: Vec<Rect> = Vec::new();
        match r.intersection(other) {
            None => {
                out.push(r);
            },
            Some(inter) => {
                let left = Rect::new(r.x1, r.y1, inter.x1, inter.y2);
                let top = Rect::new(inter.x1, r.y1, r.x2, inter.y1);
                let right = Rect::new(inter.x2, inter.y1, r.x2, r.y2);
                let bottom = Rect::new(r.x1, inter.y2, inter.x2, r.y2);
                if !left.is_empty() {
                    out.push(left);
                }
                if !top.is_empty() {
                    out.push(top);
                }
                if !right.is_empty() {
                    out.push(right);
                }
                if !bottom.is_empty() {
                    out.push(bottom);
                }
                proof {
                    assert(out@ =~= spec_mask_rect(r, *other));
                }
            },
        }
        Self(out)
    }

    /// A new split rectangle: this one with `other` cut out of every member.
    ///
    /// A mask without pixels changes nothing. The result never reaches
    /// beyond the bounding box that there was, and a mask that covers that
    /// bounding box leaves nothing of a well-formed split rectangle.
    pub fn mask_with(self, other: &Rect) -> (res: SplitRect)
        ensures
            res@ == spec_mask(self@, *other),
            other.spec_is_empty() ==> res@ == self@,
            spec_bounds(res@) matches Some(after) ==> spec_bounds(self@) is Some && spec_bounds(
                self@,
            ).unwrap().spec_cover(after),
            all_nonempty(self@) && (spec_bounds(self@) matches Some(before) ==> other.spec_cover(
                before,
            )) ==> res@.len() == 0,
            self.wf() ==> res.wf(),
    {
        proof {
            if other.spec_is_empty() {
                lemma_mask_with_empty_is_identity(self@, *other);
            }
            lemma_mask_bounds_shrink(self@, *other);
            if all_nonempty(self@) && (spec_bounds(self@) matches Some(before) ==> other.spec_cover(
                before,
            )) {
                lemma_mask_by_cover_is_empty(self@, *other);
            }
            if self.wf() {
                lemma_mask_well_formed(self@, *other);
            }
        }
        let mut out: Vec<Rect> = Vec::new();
        let mut i: usize = 0;
        while i < self.0.len()
            invariant
                i <= self.0.len(),
                out@ == spec_mask(self.0@.take(i as int), *other),
            decreases self.0.len() - i,
        {
            let mut part = Self::mask_rect(self.0[i], other);
            proof {
                assert(self.0@.take(i + 1).drop_last() =~= self.0@.take(i as int));
            }
            out.append(&mut part.0);
            i += 1;
        }
        proof {
            assert(self.0@.take(i as int) =~= self.0@);
        }
        Self(out)
    }
}


impl From<Rect> for SplitRect {
    /// The split rectangle whose only member is `value`.
    fn from(value: Rect) -> (r: Self)
        ensures
            r@ == seq![value],
    {
        let mut rects: Vec<Rect> = Vec::new();
        rects.push(value);
        Self(rects)
    }
}

impl vstd::std_specs::convert::FromSpecImpl<Rect> for SplitRect {
    open spec fn obeys_from_spec() -> bool {
        false
    }

    open spec fn from_spec(value: Rect) -> Self {
        arbitrary()
    }
}

} // verus!
