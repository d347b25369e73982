//! Primitive axis-aligned shapes and the two predicates the packer's
//! free-space bookkeeping is built on: containment and open-interior
//! intersection.

use vstd::prelude::*;

verus! {

/// A width/height pair, as reported for a packed canvas.
#[derive(Clone, Copy, PartialEq, Eq, Structural, Debug)]
pub struct Size {
    pub w: i32,
    pub h: i32,
}

/// An axis-aligned rectangle: origin `(x, y)`, extents `(w, h)`.
#[derive(Clone, Copy, PartialEq, Eq, Structural, Debug)]
pub struct Rect {
    pub x: i32,
    pub y: i32,
    pub w: i32,
    pub h: i32,
}

/// A rectangle the packer works with: non-negative origin and extents,
/// with both far edges still representable in `i32`.
pub open spec fn rect_valid(r: Rect) -> bool {
    &&& r.x >= 0
    &&& r.y >= 0
    &&& r.w >= 0
    &&& r.h >= 0
    &&& r.x + r.w <= i32::MAX
    &&& r.y + r.h <= i32::MAX
}

/// `a` lies entirely within `b` (closed containment: shared edges count).
pub open spec fn spec_contains(a: Rect, b: Rect) -> bool {
    &&& a.x >= b.x
    &&& a.y >= b.y
    &&& a.x + a.w <= b.x + b.w
    &&& a.y + a.h <= b.y + b.h
}

/// The open interiors of `a` and `b` overlap; rectangles that merely touch
/// along an edge do not intersect.
pub open spec fn spec_intersects(a: Rect, b: Rect) -> bool {
    !(a.x >= b.x + b.w || a.x + a.w <= b.x || a.y >= b.y + b.h || a.y + a.h <= b.y)
}

/// True if `a` is contained within `b`.
pub fn rect_contains(a: &Rect, b: &Rect) -> (r: bool)
    requires
        rect_valid(*a),
        rect_valid(*b),
    ensures
        r == spec_contains(*a, *b),
{
    a.x >= b.x && a.y >= b.y && a.x + a.w <= b.x + b.w && a.y + a.h <= b.y + b.h
}

/// True if the open interiors of `a` and `b` overlap.
pub fn rect_intersects(a: &Rect, b: &Rect) -> (r: bool)
    requires
        rect_valid(*a),
        rect_valid(*b),
    ensures
        r == spec_intersects(*a, *b),
{
    !(a.x >= b.x + b.w || a.x + a.w <= b.x || a.y >= b.y + b.h || a.y + a.h <= b.y)
}

/// Containment is transitive.
pub proof fn lemma_contains_transitive(a: Rect, b: Rect, c: Rect)
    requires
        spec_contains(a, b),
        spec_contains(b, c),
    ensures
        spec_contains(a, c),
{
}

/// A rectangle inside one that is interior-disjoint from a third is itself
/// interior-disjoint from that third rectangle.
pub proof fn lemma_contains_preserves_disjoint(a: Rect, b: Rect, c: Rect)
    requires
        spec_contains(a, b),
        !spec_intersects(b, c),
    ensures
        !spec_intersects(a, c),
{
}

} // verus!
