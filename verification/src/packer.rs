//! The rectangle-packing engine.
//!
//! A [`Packer`] owns a canvas (current size and a hard limit), a list of
//! pending items, and the results of the last successful pack.  `pack()`
//! attempts to place the whole pending batch into the current canvas,
//! maintaining a collection of free rectangles; `grow()` doubles the canvas
//! (smaller side first) and retries until the batch fits or the limit is
//! reached.
//!
//! Placement uses the best-short-side-fit heuristic: among all free
//! rectangles that can hold the item (upright, or rotated when rotation is
//! enabled), the one minimising the smaller leftover dimension wins, ties
//! broken by the larger leftover dimension, earlier candidates kept on equal
//! scores.
//!
//! The whole engine is deterministic; its behaviour is pinned by the spec
//! functions below (`spec_try_pack`, `spec_attempt`, `spec_find_best`,
//! `spec_prune`), and every successful pack is proved to yield pairwise
//! non-overlapping placements that lie within the canvas.

use vstd::prelude::*;

use crate::shapes::{
    lemma_contains_preserves_disjoint, lemma_contains_transitive, rect_contains, rect_intersects,
    rect_valid, spec_contains, spec_intersects, Rect,
};

verus! {

/// One placement: the final occupied region (padding already subtracted
/// back out) and whether the original item was rotated by 90 degrees.
#[derive(Clone, Copy, PartialEq, Eq, Structural, Debug)]
pub struct PackResult {
    pub rect: Rect,
    pub rotated: bool,
}

/// The packer's mathematical state: canvas and limit sizes, configuration,
/// the pending items, the current free-space collection and the committed
/// results.
pub ghost struct PackerModel {
    pub canvas_w: int,
    pub canvas_h: int,
    pub limit_w: int,
    pub limit_h: int,
    pub allow_rotate: bool,
    pub padding: int,
    pub items: Seq<Rect>,
    pub free: Seq<Rect>,
    pub results: Seq<PackResult>,
}

/// A pending item: recorded as a rectangle at the origin with non-negative
/// extents that still fit in `i32` after inflation by `padding`.
pub open spec fn item_ok(it: Rect, padding: int) -> bool {
    &&& it.x == 0
    &&& it.y == 0
    &&& 0 <= it.w
    &&& 0 <= it.h
    &&& it.w + padding <= i32::MAX
    &&& it.h + padding <= i32::MAX
}

impl PackerModel {
    /// Well-formedness: the canvas never exceeds its limit, padding is
    /// non-negative, and every pending item is in range.
    pub open spec fn wf(self) -> bool {
        &&& 1 <= self.canvas_w <= self.limit_w <= i32::MAX
        &&& 1 <= self.canvas_h <= self.limit_h <= i32::MAX
        &&& 0 <= self.padding <= i32::MAX
        &&& forall|i: int|
            0 <= i < self.items.len() ==> item_ok(#[trigger] self.items[i], self.padding)
    }
}

/// The single free rectangle a fresh pack starts from: the canvas shrunk on
/// its leading edges by `padding`, extents clamped at zero.
pub open spec fn seed_rect(cw: int, ch: int, pad: int) -> Rect {
    Rect {
        x: pad as i32,
        y: pad as i32,
        w: (if cw - pad > 0 {
            cw - pad
        } else {
            0
        }) as i32,
        h: (if ch - pad > 0 {
            ch - pad
        } else {
            0
        }) as i32,
    }
}

/// The free rectangles that replace `parent` after the placement `hole` is
/// carved out of it: up to four slivers (top, bottom, left, right), each
/// emitted only when both of its extents are strictly positive.
pub open spec fn spec_punch(parent: Rect, hole: Rect) -> Seq<Rect> {
    let overlap_x = hole.x < parent.x + parent.w && hole.x + hole.w > parent.x;
    let overlap_y = hole.y < parent.y + parent.h && hole.y + hole.h > parent.y;
    let top = Rect { x: parent.x, y: parent.y, w: parent.w, h: (hole.y - parent.y) as i32 };
    let bottom = Rect {
        x: parent.x,
        y: (hole.y + hole.h) as i32,
        w: parent.w,
        h: (parent.y + parent.h - hole.y - hole.h) as i32,
    };
    let left = Rect { x: parent.x, y: parent.y, w: (hole.x - parent.x) as i32, h: parent.h };
    let right = Rect {
        x: (hole.x + hole.w) as i32,
        y: parent.y,
        w: (parent.x + parent.w - hole.x - hole.w) as i32,
        h: parent.h,
    };
    (if overlap_x && hole.y > parent.y && hole.y < parent.y + parent.h && parent.w > 0 {
        seq![top]
    } else {
        Seq::<Rect>::empty()
    }) + (if overlap_x && hole.y + hole.h < parent.y + parent.h && parent.w > 0 {
        seq![bottom]
    } else {
        Seq::<Rect>::empty()
    }) + (if overlap_y && hole.x > parent.x && hole.x < parent.x + parent.w && parent.h > 0 {
        seq![left]
    } else {
        Seq::<Rect>::empty()
    }) + (if overlap_y && hole.x + hole.w < parent.x + parent.w && parent.h > 0 {
        seq![right]
    } else {
        Seq::<Rect>::empty()
    })
}

/// Split `parent` around `hole`, appending the surviving slivers to
/// `new_rects`.  Degenerate (zero-extent) slivers are discarded.
pub fn punch_hole_in_rect(parent: &Rect, hole: &Rect, new_rects: &mut Vec<Rect>)
    requires
        rect_valid(*parent),
        rect_valid(*hole),
    ensures
        final(new_rects)@ == old(new_rects)@ + spec_punch(*parent, *hole),
{
    if hole.x < parent.x + parent.w && hole.x + hole.w > parent.x {
        // sliver above the hole
        if hole.y > parent.y && hole.y < parent.y + parent.h && parent.w > 0 {
            new_rects.push(Rect { x: parent.x, y: parent.y, w: parent.w, h: hole.y - parent.y });
        }
        // sliver below the hole
        if hole.y + hole.h < parent.y + parent.h && parent.w > 0 {
            new_rects.push(
                Rect {
                    x: parent.x,
                    y: hole.y + hole.h,
                    w: parent.w,
                    h: parent.y + parent.h - hole.y - hole.h,
                },
            );
        }
    }
    if hole.y < parent.y + parent.h && hole.y + hole.h > parent.y {
        // sliver to the left of the hole
        if hole.x > parent.x && hole.x < parent.x + parent.w && parent.h > 0 {
            new_rects.push(Rect { x: parent.x, y: parent.y, w: hole.x - parent.x, h: parent.h });
        }
        // sliver to the right of the hole
        if hole.x + hole.w < parent.x + parent.w && parent.h > 0 {
            new_rects.push(
                Rect {
                    x: hole.x + hole.w,
                    y: parent.y,
                    w: parent.x + parent.w - hole.x - hole.w,
                    h: parent.h,
                },
            );
        }
    }
    proof {
        assert(new_rects@ =~= old(new_rects)@ + spec_punch(*parent, *hole));
    }
}

/// Every sliver emitted by a punch is a valid rectangle of strictly
/// positive extents, lies within its parent, and is interior-disjoint from
/// the hole.
pub proof fn lemma_punch_props(parent: Rect, hole: Rect)
    requires
        rect_valid(parent),
        rect_valid(hole),
        spec_intersects(parent, hole),
    ensures
        forall|k: int|
            0 <= k < spec_punch(parent, hole).len() ==> {
                let c = #[trigger] spec_punch(parent, hole)[k];
                &&& rect_valid(c)
                &&& c.w > 0
                &&& c.h > 0
                &&& spec_contains(c, parent)
                &&& !spec_intersects(c, hole)
            },
{
}

/// Running state of the best-short-side-fit scan: the best score seen so
/// far and the placement that achieved it.
pub ghost struct FbState {
    pub short: int,
    pub long: int,
    pub rect: Rect,
    pub rotated: bool,
}

/// Before any candidate is examined: worst possible score, zero-extent
/// placement (the zero width doubles as the "nothing found" marker).
pub open spec fn fb_init() -> FbState {
    FbState { short: i32::MAX as int, long: i32::MAX as int, rect: Rect { x: 0, y: 0, w: 0, h: 0 }, rotated: false }
}

/// A candidate score beats the current best when its short side fit is
/// smaller, ties broken by the long side fit; equal scores keep the
/// incumbent.
pub open spec fn fb_better(s: int, l: int, st: FbState) -> bool {
    s < st.short || (s == st.short && l < st.long)
}

/// Examine one free rectangle: try the item upright, then (if allowed)
/// rotated, updating the running best.
pub open spec fn fb_consider(st: FbState, r: Rect, w: int, h: int, allow_rotate: bool) -> FbState {
    let st1 = if r.w >= w && r.h >= h {
        let lh = r.w - w;
        let lv = r.h - h;
        let s = if lh < lv {
            lh
        } else {
            lv
        };
        let l = if lh < lv {
            lv
        } else {
            lh
        };
        if fb_better(s, l, st) {
            FbState {
                short: s,
                long: l,
                rect: Rect { x: r.x, y: r.y, w: w as i32, h: h as i32 },
                rotated: false,
            }
        } else {
            st
        }
    } else {
        st
    };
    if allow_rotate && r.w >= h && r.h >= w {
        let lh = r.w - h;
        let lv = r.h - w;
        let s = if lh < lv {
            lh
        } else {
            lv
        };
        let l = if lh < lv {
            lv
        } else {
            lh
        };
        if fb_better(s, l, st1) {
            FbState {
                short: s,
                long: l,
                rect: Rect { x: r.x, y: r.y, w: h as i32, h: w as i32 },
                rotated: true,
            }
        } else {
            st1
        }
    } else {
        st1
    }
}

/// Scan the free rectangles in order, earliest candidate kept on ties.
pub open spec fn fb_fold(frees: Seq<Rect>, w: int, h: int, allow_rotate: bool) -> FbState
    decreases frees.len(),
{
    if frees.len() == 0 {
        fb_init()
    } else {
        fb_consider(fb_fold(frees.drop_last(), w, h, allow_rotate), frees.last(), w, h, allow_rotate)
    }
}

/// The placement chosen for an item of (already inflated) extents `w` by
/// `h`, or `None` when no free rectangle can hold it.  A winning placement
/// of zero width counts as "no space": this mirrors the zero-extent
/// marker in the scan, so a degenerate item never places upright.
pub open spec fn spec_find_best(w: int, h: int, frees: Seq<Rect>, allow_rotate: bool) -> Option<
    PackResult,
> {
    let st = fb_fold(frees, w, h, allow_rotate);
    if st.rect.w == 0 {
        None
    } else {
        Some(PackResult { rect: st.rect, rotated: st.rotated })
    }
}

/// A scan outcome other than the initial state records a placement taken
/// from one of the free rectangles, anchored at its origin, upright or
/// rotated, that fits inside it.
pub proof fn lemma_fb_fold_props(frees: Seq<Rect>, w: int, h: int, allow_rotate: bool)
    requires
        0 <= w <= i32::MAX,
        0 <= h <= i32::MAX,
    ensures
        fb_fold(frees, w, h, allow_rotate) == fb_init() || exists|i: int|
            0 <= i < frees.len() && fb_from(fb_fold(frees, w, h, allow_rotate), #[trigger] frees[i], w, h),
        fb_fold(frees, w, h, allow_rotate).rotated ==> allow_rotate,
    decreases frees.len(),
{
    if frees.len() > 0 {
        lemma_fb_fold_props(frees.drop_last(), w, h, allow_rotate);
        let prev = fb_fold(frees.drop_last(), w, h, allow_rotate);
        let st = fb_fold(frees, w, h, allow_rotate);
        let last = frees.last();
        if st == prev {
            if prev != fb_init() {
                let i = choose|i: int|
                    0 <= i < frees.drop_last().len() && fb_from(prev, #[trigger] frees.drop_last()[i], w, h);
                assert(frees[i] == frees.drop_last()[i]);
                assert(fb_from(st, frees[i], w, h));
            }
        } else {
            assert(fb_from(st, frees[frees.len() - 1], w, h));
        }
    }
}

/// The free rectangle `r` can hold an item of extents `w` by `h`, upright
/// or (when rotation is allowed) rotated.
pub open spec fn rect_fits(r: Rect, w: int, h: int, allow_rotate: bool) -> bool {
    (r.w >= w && r.h >= h) || (allow_rotate && r.w >= h && r.h >= w)
}

proof fn lemma_fb_fold_found(frees: Seq<Rect>, w: int, h: int, allow_rotate: bool)
    requires
        0 < w <= i32::MAX,
        0 < h <= i32::MAX,
        forall|i: int| 0 <= i < frees.len() ==> rect_valid(#[trigger] frees[i]),
        exists|i: int| 0 <= i < frees.len() && rect_fits(#[trigger] frees[i], w, h, allow_rotate),
    ensures
        fb_fold(frees, w, h, allow_rotate) != fb_init(),
    decreases frees.len(),
{
    let st = fb_fold(frees, w, h, allow_rotate);
    let prev = fb_fold(frees.drop_last(), w, h, allow_rotate);
    let i = choose|i: int| 0 <= i < frees.len() && rect_fits(#[trigger] frees[i], w, h, allow_rotate);
    if i < frees.len() - 1 {
        assert(frees.drop_last()[i] == frees[i]);
        assert forall|k: int| 0 <= k < frees.drop_last().len() implies rect_valid(
            #[trigger] frees.drop_last()[k],
        ) by {
            assert(frees.drop_last()[k] == frees[k]);
        }
        lemma_fb_fold_props(frees.drop_last(), w, h, allow_rotate);
        lemma_fb_fold_found(frees.drop_last(), w, h, allow_rotate);
        // a non-initial state survives the last step: any later acceptance
        // again records a positive width
        lemma_fb_fold_props(frees, w, h, allow_rotate);
        if st == prev {
        } else {
            assert(fb_from(st, frees[frees.len() - 1], w, h));
        }
    } else {
        // the fitting rectangle is the last one scanned: from the initial
        // state, a feasible candidate always scores below the sentinel
        let last = frees.last();
        if prev == fb_init() {
            assert(st != fb_init());
        } else {
            lemma_fb_fold_props(frees.drop_last(), w, h, allow_rotate);
            lemma_fb_fold_props(frees, w, h, allow_rotate);
            if st == prev {
            } else {
                assert(fb_from(st, frees[frees.len() - 1], w, h));
            }
        }
    }
}

/// Success owed: for an item of strictly positive extents, the scan finds
/// a placement exactly when some free rectangle can hold the item, upright
/// or (when rotation is allowed) rotated.
pub proof fn lemma_find_best_complete(frees: Seq<Rect>, w: int, h: int, allow_rotate: bool)
    requires
        0 < w <= i32::MAX,
        0 < h <= i32::MAX,
        forall|i: int| 0 <= i < frees.len() ==> rect_valid(#[trigger] frees[i]),
    ensures
        spec_find_best(w, h, frees, allow_rotate) is Some <==> exists|i: int|
            0 <= i < frees.len() && rect_fits(#[trigger] frees[i], w, h, allow_rotate),
{
    lemma_fb_fold_props(frees, w, h, allow_rotate);
    let st = fb_fold(frees, w, h, allow_rotate);
    if st.rect.w != 0 {
        assert(st != fb_init());
        let i = choose|i: int| 0 <= i < frees.len() && fb_from(st, #[trigger] frees[i], w, h);
        assert(rect_fits(frees[i], w, h, allow_rotate));
    }
    if exists|i: int| 0 <= i < frees.len() && rect_fits(#[trigger] frees[i], w, h, allow_rotate) {
        lemma_fb_fold_found(frees, w, h, allow_rotate);
        if st != fb_init() {
            let i = choose|i: int| 0 <= i < frees.len() && fb_from(st, #[trigger] frees[i], w, h);
            assert(st.rect.w != 0);
        }
    }
}

/// The scan state `st` records a placement taken from the free rectangle
/// `r`: anchored at its origin, with the item's extents upright or swapped,
/// fitting inside `r`.
pub open spec fn fb_from(st: FbState, r: Rect, w: int, h: int) -> bool {
    &&& st.rect.x == r.x
    &&& st.rect.y == r.y
    &&& if st.rotated {
        st.rect.w == h && st.rect.h == w && r.w >= h && r.h >= w
    } else {
        st.rect.w == w && st.rect.h == h && r.w >= w && r.h >= h
    }
}

/// Indices marked for removal by the pruning pass, scanning partners `j`
/// of the fixed index `i`: when rectangle `i` is (still unmarked and) fully
/// inside rectangle `j`, `i` is marked and the scan for this `i` stops;
/// when rectangle `j` is (still unmarked and) fully inside rectangle `i`,
/// `j` is marked and the scan continues.
pub open spec fn prune_marks_inner(s: Seq<Rect>, i: int, j: int, marked: Set<int>) -> Set<int>
    decreases s.len() - j,
{
    if j >= s.len() {
        marked
    } else if !marked.contains(i) && spec_contains(s[i], s[j]) {
        marked.insert(i)
    } else if !marked.contains(j) && spec_contains(s[j], s[i]) {
        prune_marks_inner(s, i, j + 1, marked.insert(j))
    } else {
        prune_marks_inner(s, i, j + 1, marked)
    }
}

/// Run the inner scan for every index `i` in turn.
pub open spec fn prune_marks_outer(s: Seq<Rect>, i: int, marked: Set<int>) -> Set<int>
    decreases s.len() - i,
{
    if i >= s.len() {
        marked
    } else {
        prune_marks_outer(s, i + 1, prune_marks_inner(s, i, i + 1, marked))
    }
}

/// All indices the pruning pass removes.
pub open spec fn prune_marks(s: Seq<Rect>) -> Set<int> {
    prune_marks_outer(s, 0, Set::empty())
}

/// The elements of `s` whose indices are unmarked, in their original order.
pub open spec fn filter_unmarked(s: Seq<Rect>, marked: Set<int>) -> Seq<Rect>
    decreases s.len(),
{
    if s.len() == 0 {
        Seq::<Rect>::empty()
    } else {
        filter_unmarked(s.drop_last(), marked) + (if marked.contains(s.len() - 1) {
            Seq::<Rect>::empty()
        } else {
            seq![s.last()]
        })
    }
}

/// The free-rect collection after pruning: rectangles fully covered by
/// another are removed; of two identical rectangles exactly one survives.
pub open spec fn spec_prune(s: Seq<Rect>) -> Seq<Rect> {
    filter_unmarked(s, prune_marks(s))
}

proof fn lemma_inner_mono(s: Seq<Rect>, i: int, j: int, m: Set<int>)
    ensures
        m.subset_of(prune_marks_inner(s, i, j, m)),
    decreases s.len() - j,
{
    if j >= s.len() {
    } else if !m.contains(i) && spec_contains(s[i], s[j]) {
    } else if !m.contains(j) && spec_contains(s[j], s[i]) {
        lemma_inner_mono(s, i, j + 1, m.insert(j));
    } else {
        lemma_inner_mono(s, i, j + 1, m);
    }
}

proof fn lemma_outer_mono(s: Seq<Rect>, i: int, m: Set<int>)
    ensures
        m.subset_of(prune_marks_outer(s, i, m)),
    decreases s.len() - i,
{
    if i >= s.len() {
    } else {
        lemma_inner_mono(s, i, i + 1, m);
        lemma_outer_mono(s, i + 1, prune_marks_inner(s, i, i + 1, m));
    }
}

proof fn lemma_inner_pairs(s: Seq<Rect>, i: int, j: int, m: Set<int>)
    requires
        0 <= i < s.len(),
        i < j,
    ensures
        forall|b: int|
            j <= b < s.len() && !prune_marks_inner(s, i, j, m).contains(i)
                && !prune_marks_inner(s, i, j, m).contains(b) ==> !spec_contains(s[i], #[trigger] s[b])
                && !spec_contains(s[b], s[i]),
    decreases s.len() - j,
{
    if j >= s.len() {
    } else if !m.contains(i) && spec_contains(s[i], s[j]) {
    } else if !m.contains(j) && spec_contains(s[j], s[i]) {
        lemma_inner_pairs(s, i, j + 1, m.insert(j));
        lemma_inner_mono(s, i, j + 1, m.insert(j));
    } else {
        lemma_inner_pairs(s, i, j + 1, m);
        lemma_inner_mono(s, i, j + 1, m);
    }
}

proof fn lemma_outer_pairs(s: Seq<Rect>, i: int, m: Set<int>)
    requires
        0 <= i,
    ensures
        forall|a: int, b: int|
            i <= a < b < s.len() && !prune_marks_outer(s, i, m).contains(a)
                && !prune_marks_outer(s, i, m).contains(b) ==> !spec_contains(
                #[trigger] s[a],
                #[trigger] s[b],
            ) && !spec_contains(s[b], s[a]),
    decreases s.len() - i,
{
    if i >= s.len() {
    } else {
        let m1 = prune_marks_inner(s, i, i + 1, m);
        lemma_inner_pairs(s, i, i + 1, m);
        lemma_outer_pairs(s, i + 1, m1);
        lemma_outer_mono(s, i + 1, m1);
    }
}

proof fn lemma_filter_membership(s: Seq<Rect>, m: Set<int>)
    ensures
        forall|j: int|
            0 <= j < filter_unmarked(s, m).len() ==> exists|k: int|
                0 <= k < s.len() && !m.contains(k) && #[trigger] filter_unmarked(s, m)[j] == s[k],
    decreases s.len(),
{
    if s.len() == 0 {
    } else {
        lemma_filter_membership(s.drop_last(), m);
        let f = filter_unmarked(s, m);
        let fd = filter_unmarked(s.drop_last(), m);
        assert forall|j: int| 0 <= j < f.len() implies exists|k: int|
            0 <= k < s.len() && !m.contains(k) && #[trigger] f[j] == s[k] by {
            if j < fd.len() {
                let k = choose|k: int|
                    0 <= k < s.drop_last().len() && !m.contains(k) && #[trigger] fd[j] == s.drop_last()[k];
                assert(s.drop_last()[k] == s[k]);
                assert(f[j] == s[k]);
            } else {
                assert(!m.contains(s.len() - 1) && f[j] == s[s.len() - 1]);
            }
        }
    }
}

proof fn lemma_filter_no_contain(s: Seq<Rect>, m: Set<int>)
    requires
        forall|a: int, b: int|
            0 <= a < s.len() && 0 <= b < s.len() && a != b && !m.contains(a) && !m.contains(b)
                ==> !spec_contains(#[trigger] s[a], #[trigger] s[b]),
    ensures
        forall|j1: int, j2: int|
            0 <= j1 < filter_unmarked(s, m).len() && 0 <= j2 < filter_unmarked(s, m).len() && j1
                != j2 ==> !spec_contains(
                #[trigger] filter_unmarked(s, m)[j1],
                #[trigger] filter_unmarked(s, m)[j2],
            ),
    decreases s.len(),
{
    if s.len() == 0 {
    } else {
        assert forall|a: int, b: int|
            0 <= a < s.drop_last().len() && 0 <= b < s.drop_last().len() && a != b && !m.contains(a)
                && !m.contains(b) implies !spec_contains(
            #[trigger] s.drop_last()[a],
            #[trigger] s.drop_last()[b],
        ) by {
            assert(s.drop_last()[a] == s[a] && s.drop_last()[b] == s[b]);
        }
        lemma_filter_no_contain(s.drop_last(), m);
        lemma_filter_membership(s.drop_last(), m);
        let f = filter_unmarked(s, m);
        let fd = filter_unmarked(s.drop_last(), m);
        assert forall|j1: int, j2: int|
            0 <= j1 < f.len() && 0 <= j2 < f.len() && j1 != j2 implies !spec_contains(
            #[trigger] f[j1],
            #[trigger] f[j2],
        ) by {
            if j1 < fd.len() && j2 < fd.len() {
                assert(f[j1] == fd[j1] && f[j2] == fd[j2]);
            } else if j1 < fd.len() {
                // j2 is the kept last element
                let k = choose|k: int|
                    0 <= k < s.drop_last().len() && !m.contains(k) && #[trigger] fd[j1] == s.drop_last()[k];
                assert(s.drop_last()[k] == s[k]);
                assert(f[j2] == s[s.len() - 1] && !m.contains(s.len() - 1));
            } else {
                // j1 is the kept last element, j2 comes from the prefix
                let k = choose|k: int|
                    0 <= k < s.drop_last().len() && !m.contains(k) && #[trigger] fd[j2] == s.drop_last()[k];
                assert(s.drop_last()[k] == s[k]);
                assert(f[j1] == s[s.len() - 1] && !m.contains(s.len() - 1));
            }
        }
    }
}

/// After pruning, no free rectangle is fully contained in another.
pub proof fn lemma_prune_no_contain(s: Seq<Rect>)
    ensures
        forall|j1: int, j2: int|
            0 <= j1 < spec_prune(s).len() && 0 <= j2 < spec_prune(s).len() && j1 != j2
                ==> !spec_contains(#[trigger] spec_prune(s)[j1], #[trigger] spec_prune(s)[j2]),
{
    lemma_outer_pairs(s, 0, Set::empty());
    lemma_filter_no_contain(s, prune_marks(s));
}

/// Pruning only removes rectangles: every survivor is an element of the
/// original collection.
pub proof fn lemma_prune_membership(s: Seq<Rect>)
    ensures
        forall|j: int|
            0 <= j < spec_prune(s).len() ==> exists|k: int|
                0 <= k < s.len() && #[trigger] spec_prune(s)[j] == s[k],
{
    lemma_filter_membership(s, prune_marks(s));
    assert forall|j: int| 0 <= j < spec_prune(s).len() implies exists|k: int|
        0 <= k < s.len() && #[trigger] spec_prune(s)[j] == s[k] by {
        let k = choose|k: int|
            0 <= k < s.len() && !prune_marks(s).contains(k) && #[trigger] filter_unmarked(
                s,
                prune_marks(s),
            )[j] == s[k];
        assert(spec_prune(s)[j] == s[k]);
    }
}

/// The free rectangles that survive a placement untouched: those whose
/// interior does not meet the placement, in their original order.
pub open spec fn spec_kept(frees: Seq<Rect>, hole: Rect) -> Seq<Rect>
    decreases frees.len(),
{
    if frees.len() == 0 {
        Seq::<Rect>::empty()
    } else {
        spec_kept(frees.drop_last(), hole) + (if !spec_intersects(frees.last(), hole) {
            seq![frees.last()]
        } else {
            Seq::<Rect>::empty()
        })
    }
}

/// The slivers produced by punching the placement out of every free
/// rectangle it intersects, in scan order.
pub open spec fn spec_children(frees: Seq<Rect>, hole: Rect) -> Seq<Rect>
    decreases frees.len(),
{
    if frees.len() == 0 {
        Seq::<Rect>::empty()
    } else {
        spec_children(frees.drop_last(), hole) + (if spec_intersects(frees.last(), hole) {
            spec_punch(frees.last(), hole)
        } else {
            Seq::<Rect>::empty()
        })
    }
}

/// `r` grown by `pad` on its trailing edges: the region a recorded
/// placement actually consumes.
pub open spec fn inflate(r: Rect, pad: int) -> Rect {
    Rect { x: r.x, y: r.y, w: (r.w + pad) as i32, h: (r.h + pad) as i32 }
}

/// One placement attempt for an item of extents `w` by `h` against the
/// free-rect collection: find the best fit for the padded item; on success
/// split every intersected free rectangle around it, prune, and report the
/// placement with the padding subtracted back out.
pub open spec fn spec_attempt(w: int, h: int, frees: Seq<Rect>, pad: int, rot: bool) -> (Option<
    PackResult,
>, Seq<Rect>) {
    match spec_find_best(w + pad, h + pad, frees, rot) {
        None => (None::<PackResult>, frees),
        Some(found) => {
            let frees2 = spec_prune(
                spec_kept(frees, found.rect) + spec_children(frees, found.rect),
            );
            let deflated = PackResult {
                rect: Rect {
                    x: found.rect.x,
                    y: found.rect.y,
                    w: (found.rect.w - pad) as i32,
                    h: (found.rect.h - pad) as i32,
                },
                rotated: found.rotated,
            };
            (Some(deflated), frees2)
        },
    }
}

proof fn lemma_kept_props(frees: Seq<Rect>, hole: Rect)
    ensures
        forall|j: int|
            0 <= j < spec_kept(frees, hole).len() ==> !spec_intersects(
                #[trigger] spec_kept(frees, hole)[j],
                hole,
            ) && exists|k: int| 0 <= k < frees.len() && spec_kept(frees, hole)[j] == #[trigger] frees[k],
    decreases frees.len(),
{
    if frees.len() == 0 {
    } else {
        lemma_kept_props(frees.drop_last(), hole);
        let f = spec_kept(frees, hole);
        let fd = spec_kept(frees.drop_last(), hole);
        assert forall|j: int| 0 <= j < f.len() implies !spec_intersects(#[trigger] f[j], hole)
            && exists|k: int| 0 <= k < frees.len() && f[j] == #[trigger] frees[k] by {
            if j < fd.len() {
                assert(f[j] == fd[j]);
                let k = choose|k: int|
                    0 <= k < frees.drop_last().len() && fd[j] == #[trigger] frees.drop_last()[k];
                assert(frees.drop_last()[k] == frees[k]);
                assert(f[j] == frees[k]);
            } else {
                assert(f[j] == frees.last());
                assert(f[j] == frees[frees.len() - 1]);
            }
        }
    }
}

proof fn lemma_children_props(frees: Seq<Rect>, hole: Rect)
    requires
        rect_valid(hole),
        forall|k: int| 0 <= k < frees.len() ==> rect_valid(#[trigger] frees[k]),
    ensures
        forall|j: int|
            0 <= j < spec_children(frees, hole).len() ==> {
                let c = #[trigger] spec_children(frees, hole)[j];
                &&& rect_valid(c)
                &&& !spec_intersects(c, hole)
                &&& exists|k: int| 0 <= k < frees.len() && spec_contains(c, #[trigger] frees[k])
            },
    decreases frees.len(),
{
    if frees.len() == 0 {
    } else {
        assert forall|k: int| 0 <= k < frees.drop_last().len() implies rect_valid(
            #[trigger] frees.drop_last()[k],
        ) by {
            assert(frees.drop_last()[k] == frees[k]);
        }
        lemma_children_props(frees.drop_last(), hole);
        let f = spec_children(frees, hole);
        let fd = spec_children(frees.drop_last(), hole);
        if spec_intersects(frees.last(), hole) {
            lemma_punch_props(frees.last(), hole);
        }
        assert forall|j: int| 0 <= j < f.len() implies {
            let c = #[trigger] f[j];
            &&& rect_valid(c)
            &&& !spec_intersects(c, hole)
            &&& exists|k: int| 0 <= k < frees.len() && spec_contains(c, #[trigger] frees[k])
        } by {
            if j < fd.len() {
                assert(f[j] == fd[j]);
                let k = choose|k: int|
                    0 <= k < frees.drop_last().len() && spec_contains(fd[j], #[trigger] frees.drop_last()[k]);
                assert(frees.drop_last()[k] == frees[k]);
                assert(spec_contains(f[j], frees[k]));
            } else {
                let p = spec_punch(frees.last(), hole);
                assert(f[j] == p[j - fd.len()]);
                assert(spec_contains(f[j], frees[frees.len() - 1]));
            }
        }
    }
}

/// The whole-batch packing pass, one item at a time in list order; `None`
/// as soon as any item fails to place.
pub open spec fn spec_pack_loop(
    items: Seq<Rect>,
    i: int,
    results: Seq<PackResult>,
    frees: Seq<Rect>,
    pad: int,
    rot: bool,
) -> Option<(Seq<PackResult>, Seq<Rect>)>
    decreases items.len() - i,
{
    if i >= items.len() {
        Some((results, frees))
    } else {
        let step = spec_attempt(items[i].w as int, items[i].h as int, frees, pad, rot);
        match step.0 {
            None => None,
            Some(res) => spec_pack_loop(items, i + 1, results.push(res), step.1, pad, rot),
        }
    }
}

/// One atomic attempt to pack the entire pending list into a canvas of the
/// given size: the placements and the remaining free space on success,
/// `None` if any item does not fit.
pub open spec fn spec_try_pack(items: Seq<Rect>, cw: int, ch: int, pad: int, rot: bool) -> Option<
    (Seq<PackResult>, Seq<Rect>),
> {
    spec_pack_loop(items, 0, Seq::<PackResult>::empty(), seq![seed_rect(cw, ch, pad)], pad, rot)
}

/// A committed placement for `item`: it sits inside the canvas with room
/// for its trailing padding, and its extents are the item's, swapped
/// exactly when the placement is rotated.
pub open spec fn placement_ok(res: PackResult, item: Rect, pad: int, cw: int, ch: int) -> bool {
    &&& pad <= res.rect.x
    &&& pad <= res.rect.y
    &&& res.rect.x + res.rect.w + pad <= cw
    &&& res.rect.y + res.rect.h + pad <= ch
    &&& (res.rotated ==> res.rect.w == item.h && res.rect.h == item.w)
    &&& (!res.rotated ==> res.rect.w == item.w && res.rect.h == item.h)
}

/// The committed results are aligned 1:1 with the pending items, each
/// placement lies within the canvas, and the padded placements are
/// pairwise interior-disjoint.
pub open spec fn placements_ok(m: PackerModel) -> bool {
    &&& m.results.len() == m.items.len()
    &&& forall|k: int|
        0 <= k < m.results.len() ==> placement_ok(
            #[trigger] m.results[k],
            m.items[k],
            m.padding,
            m.canvas_w,
            m.canvas_h,
        )
    &&& forall|k1: int, k2: int|
        0 <= k1 < m.results.len() && 0 <= k2 < m.results.len() && k1 != k2 ==> !spec_intersects(
            inflate((#[trigger] m.results[k1]).rect, m.padding),
            inflate((#[trigger] m.results[k2]).rect, m.padding),
        )
}

/// The observable effect of one `pack()` call: `pre` is the model before
/// the call, `post` the model after it, `ok` the returned flag.  The
/// canvas, configuration and pending items are untouched; the call
/// succeeds exactly when the whole batch fits, committing the new results
/// and free space; a failed call leaves the previous results untouched.
pub open spec fn pack_effect(pre: PackerModel, post: PackerModel, ok: bool) -> bool {
    &&& post.canvas_w == pre.canvas_w
    &&& post.canvas_h == pre.canvas_h
    &&& post.limit_w == pre.limit_w
    &&& post.limit_h == pre.limit_h
    &&& post.allow_rotate == pre.allow_rotate
    &&& post.padding == pre.padding
    &&& post.items == pre.items
    &&& ok == spec_try_pack(pre.items, pre.canvas_w, pre.canvas_h, pre.padding, pre.allow_rotate)
        is Some
    &&& ok ==> (spec_try_pack(pre.items, pre.canvas_w, pre.canvas_h, pre.padding, pre.allow_rotate)
        matches Some(out) && post.results == out.0 && post.free == out.1)
    &&& !ok ==> post.results == pre.results && post.free == pre.free
}

/// Idempotence of `pack`: after a successful call, calling it again with
/// no intervening `add` (and no canvas change) succeeds as well and
/// commits identical placements and free space.
pub proof fn lemma_pack_idempotent(
    s0: PackerModel,
    s1: PackerModel,
    s2: PackerModel,
    ok1: bool,
    ok2: bool,
)
    requires
        pack_effect(s0, s1, ok1),
        pack_effect(s1, s2, ok2),
        ok1,
    ensures
        ok2,
        s2.results == s1.results,
        s2.free == s1.free,
{
}

/// One growth step: double whichever canvas side is below its limit and
/// currently the smaller (ties grow the height, a width at its limit grows
/// the height and vice versa), clamping to the limit.
pub open spec fn spec_grow_step(w: int, h: int, wl: int, hl: int) -> (int, int) {
    if w >= wl {
        (w, if 2 * h < hl {
            2 * h
        } else {
            hl
        })
    } else if h >= hl {
        (if 2 * w < wl {
            2 * w
        } else {
            wl
        }, h)
    } else if w < h {
        (if 2 * w < wl {
            2 * w
        } else {
            wl
        }, h)
    } else {
        (w, if 2 * h < hl {
            2 * h
        } else {
            hl
        })
    }
}

/// The growth loop: keep doubling (and re-packing the whole batch) until a
/// pack succeeds or both sides have reached their limits.  Returns the
/// final canvas extents and whether a pack succeeded.
pub open spec fn spec_grow(
    items: Seq<Rect>,
    w: int,
    h: int,
    wl: int,
    hl: int,
    pad: int,
    rot: bool,
) -> (int, int, bool)
    decreases (wl - w) + (hl - h),
        when 1 <= w <= wl && 1 <= h <= hl
{
    if w >= wl && h >= hl {
        (w, h, false)
    } else {
        let s = spec_grow_step(w, h, wl, hl);
        if spec_try_pack(items, s.0, s.1, pad, rot) is Some {
            (s.0, s.1, true)
        } else {
            spec_grow(items, s.0, s.1, wl, hl, pad, rot)
        }
    }
}

/// Packs a batch of rectangles into a growable canvas.
pub struct Packer {
    w: i32,
    h: i32,
    w_limit: i32,
    h_limit: i32,
    allow_rotate: bool,
    used_rects: Vec<Rect>,
    free_rects: Vec<Rect>,
    padding: i32,
    results: Vec<PackResult>,
}

impl View for Packer {
    type V = PackerModel;

    closed spec fn view(&self) -> PackerModel {
        PackerModel {
            canvas_w: self.w as int,
            canvas_h: self.h as int,
            limit_w: self.w_limit as int,
            limit_h: self.h_limit as int,
            allow_rotate: self.allow_rotate,
            padding: self.padding as int,
            items: self.used_rects@,
            free: self.free_rects@,
            results: self.results@,
        }
    }
}

impl Packer {
    /// The abstract state is well formed.
    pub open spec fn wf(&self) -> bool {
        self@.wf()
    }

    /// A new packer for a canvas limited to `w` by `h`.  With `allow_grow`
    /// the canvas starts from a small seed (128, clamped to the limit) and
    /// is enlarged on demand; otherwise it starts, and stays, at the limit.
    pub fn new(w: i32, h: i32, allow_grow: bool, allow_rotate: bool, padding: i32) -> (p: Packer)
        requires
            1 <= w,
            1 <= h,
            0 <= padding,
        ensures
            p.wf(),
            p@.canvas_w == if allow_grow {
                if w < 128 {
                    w as int
                } else {
                    128int
                }
            } else {
                w as int
            },
            p@.canvas_h == if allow_grow {
                if h < 128 {
                    h as int
                } else {
                    128int
                }
            } else {
                h as int
            },
            p@.limit_w == w as int,
            p@.limit_h == h as int,
            p@.allow_rotate == allow_rotate,
            p@.padding == padding as int,
            p@.items == Seq::<Rect>::empty(),
            p@.results == Seq::<PackResult>::empty(),
            p@.free == seq![seed_rect(p@.canvas_w, p@.canvas_h, padding as int)],
    {
        let w_use = if allow_grow {
            if w < 128 {
                w
            } else {
                128
            }
        } else {
            w
        };
        let h_use = if allow_grow {
            if h < 128 {
                h
            } else {
                128
            }
        } else {
            h
        };
        let seed_w = if w_use - padding > 0 {
            w_use - padding
        } else {
            0
        };
        let seed_h = if h_use - padding > 0 {
            h_use - padding
        } else {
            0
        };
        let mut free: Vec<Rect> = Vec::new();
        free.push(Rect { x: padding, y: padding, w: seed_w, h: seed_h });
        let p = Packer {
            w: w_use,
            h: h_use,
            w_limit: w,
            h_limit: h,
            used_rects: Vec::new(),
            free_rects: free,
            allow_rotate,
            padding,
            results: Vec::new(),
        };
        proof {
            assert(p@.free =~= seq![seed_rect(p@.canvas_w, p@.canvas_h, padding as int)]);
            assert(p@.items =~= Seq::<Rect>::empty());
            assert(p@.results =~= Seq::<PackResult>::empty());
        }
        p
    }

    /// Append a pending item of the given extents; no placement is
    /// attempted until the next `pack()`.
    pub fn add(&mut self, w: i32, h: i32)
        requires
            old(self).wf(),
            0 <= w,
            0 <= h,
            w + old(self)@.padding <= i32::MAX,
            h + old(self)@.padding <= i32::MAX,
        ensures
            final(self).wf(),
            final(self)@.items == old(self)@.items.push(Rect { x: 0, y: 0, w, h }),
            final(self)@.canvas_w == old(self)@.canvas_w,
            final(self)@.canvas_h == old(self)@.canvas_h,
            final(self)@.limit_w == old(self)@.limit_w,
            final(self)@.limit_h == old(self)@.limit_h,
            final(self)@.allow_rotate == old(self)@.allow_rotate,
            final(self)@.padding == old(self)@.padding,
            final(self)@.free == old(self)@.free,
            final(self)@.results == old(self)@.results,
    {
        self.used_rects.push(Rect { x: 0, y: 0, w, h });
        proof {
            assert forall|i: int| 0 <= i < self@.items.len() implies item_ok(
                #[trigger] self@.items[i],
                self@.padding,
            ) by {
                if i < old(self)@.items.len() {
                    assert(self@.items[i] == old(self)@.items[i]);
                }
            }
        }
    }

    /// Best-short-side-fit scan over the free rectangles for an item of
    /// (already inflated) extents `w` by `h`.
    #[verifier::loop_isolation(false)]
    fn find_best_free_rect(&self, w: i32, h: i32, free_rects: &Vec<Rect>) -> (r: Option<
        PackResult,
    >)
        requires
            0 <= w,
            0 <= h,
            forall|i: int| 0 <= i < free_rects@.len() ==> rect_valid(#[trigger] free_rects@[i]),
        ensures
            r == spec_find_best(w as int, h as int, free_rects@, self@.allow_rotate),
    {
        let mut best_short_side_fit: i32 = i32::MAX;
        let mut best_long_side_fit: i32 = i32::MAX;
        let mut best_rect: Rect = Rect { x: 0, y: 0, w: 0, h: 0 };
        let mut best_rotated: bool = false;

        let n = free_rects.len();
        let mut idx: usize = 0;
        while idx < n
            invariant
                0 <= idx <= n,
                (FbState {
                    short: best_short_side_fit as int,
                    long: best_long_side_fit as int,
                    rect: best_rect,
                    rotated: best_rotated,
                }) == fb_fold(free_rects@.take(idx as int), w as int, h as int, self@.allow_rotate),
            decreases n - idx,
        {
            let rect = free_rects[idx];
            proof {
                assert(free_rects@.take(idx as int + 1).drop_last() =~= free_rects@.take(
                    idx as int,
                ));
                assert(free_rects@.take(idx as int + 1).last() == rect);
            }
            // upright orientation
            if rect.w >= w && rect.h >= h {
                let leftover_horiz = rect.w - w;
                let leftover_vert = rect.h - h;
                let short_side_fit = if leftover_horiz < leftover_vert {
                    leftover_horiz
                } else {
                    leftover_vert
                };
                let long_side_fit = if leftover_horiz < leftover_vert {
                    leftover_vert
                } else {
                    leftover_horiz
                };
                if short_side_fit < best_short_side_fit || (short_side_fit == best_short_side_fit
                    && long_side_fit < best_long_side_fit) {
                    best_rect = Rect { x: rect.x, y: rect.y, w, h };
                    best_short_side_fit = short_side_fit;
                    best_long_side_fit = long_side_fit;
                    best_rotated = false;
                }
            }
            // rotated orientation
            if self.allow_rotate && rect.w >= h && rect.h >= w {
                let leftover_horiz = rect.w - h;
                let leftover_vert = rect.h - w;
                let short_side_fit = if leftover_horiz < leftover_vert {
                    leftover_horiz
                } else {
                    leftover_vert
                };
                let long_side_fit = if leftover_horiz < leftover_vert {
                    leftover_vert
                } else {
                    leftover_horiz
                };
                if short_side_fit < best_short_side_fit || (short_side_fit == best_short_side_fit
                    && long_side_fit < best_long_side_fit) {
                    best_rect = Rect { x: rect.x, y: rect.y, w: h, h: w };
                    best_short_side_fit = short_side_fit;
                    best_long_side_fit = long_side_fit;
                    best_rotated = true;
                }
            }
            idx += 1;
        }
        proof {
            assert(free_rects@.take(n as int) =~= free_rects@);
        }
        if best_rect.w == 0 {
            None
        } else {
            Some(PackResult { rect: best_rect, rotated: best_rotated })
        }
    }

    /// Remove every free rectangle that is fully contained in another
    /// (identical rectangles: exactly one survives), keeping the rest in
    /// order.
    pub fn prune_free_rects(&self, free_rects: &mut Vec<Rect>)
        requires
            forall|k: int|
                0 <= k < old(free_rects)@.len() ==> rect_valid(#[trigger] old(free_rects)@[k]),
        ensures
            final(free_rects)@ == spec_prune(old(free_rects)@),
    {
        let ghost s = free_rects@;
        let n = free_rects.len();
        let mut marked: Vec<bool> = vec![false; n];
        let ghost mut m: Set<int> = Set::empty();
        let mut i: usize = 0;
        while i < n
            invariant
                0 <= i <= n,
                n == s.len(),
                free_rects@ == s,
                forall|k: int| 0 <= k < s.len() ==> rect_valid(#[trigger] s[k]),
                marked@.len() == n,
                forall|k: int| 0 <= k < n ==> #[trigger] marked@[k] == m.contains(k),
                prune_marks_outer(s, i as int, m) == prune_marks(s),
            decreases n - i,
        {
            let ghost m0 = m;
            let mut j: usize = i + 1;
            while j < n
                invariant_except_break
                    i < j <= n,
                    i < n,
                    n == s.len(),
                    free_rects@ == s,
                    forall|k: int| 0 <= k < s.len() ==> rect_valid(#[trigger] s[k]),
                    marked@.len() == n,
                    forall|k: int| 0 <= k < n ==> #[trigger] marked@[k] == m.contains(k),
                    prune_marks_inner(s, i as int, j as int, m) == prune_marks_inner(
                        s,
                        i as int,
                        i as int + 1,
                        m0,
                    ),
                ensures
                    i < n <= s.len(),
                    free_rects@ == s,
                    marked@.len() == n,
                    forall|k: int| 0 <= k < n ==> #[trigger] marked@[k] == m.contains(k),
                    m == prune_marks_inner(s, i as int, i as int + 1, m0),
                decreases n - j,
            {
                if !marked[i] && rect_contains(&free_rects[i], &free_rects[j]) {
                    marked[i] = true;
                    proof {
                        m = m.insert(i as int);
                    }
                    break ;
                }
                if !marked[j] && rect_contains(&free_rects[j], &free_rects[i]) {
                    marked[j] = true;
                    proof {
                        m = m.insert(j as int);
                    }
                }
                j += 1;
            }
            i += 1;
        }
        let mut out: Vec<Rect> = Vec::new();
        let mut k: usize = 0;
        while k < n
            invariant
                0 <= k <= n,
                n == s.len(),
                free_rects@ == s,
                marked@.len() == n,
                forall|q: int| 0 <= q < n ==> #[trigger] marked@[q] == m.contains(q),
                out@ == filter_unmarked(s.take(k as int), m),
            decreases n - k,
        {
            proof {
                assert(s.take(k as int + 1).drop_last() =~= s.take(k as int));
                assert(s.take(k as int + 1).last() == s[k as int]);
            }
            if !marked[k] {
                out.push(free_rects[k]);
                proof {
                    assert(out@ =~= filter_unmarked(s.take(k as int + 1), m));
                }
            } else {
                proof {
                    assert(out@ =~= filter_unmarked(s.take(k as int + 1), m));
                }
            }
            k += 1;
        }
        proof {
            assert(s.take(n as int) =~= s);
            assert(prune_marks_outer(s, n as int, m) == m);
        }
        *free_rects = out;
    }

    /// Try to place one item of extents `w` by `h` (pre-padding) against
    /// the live free-rect collection, updating the collection on success.
    fn attempt_pack(&self, w: i32, h: i32, free_rects: &mut Vec<Rect>) -> (r: Option<PackResult>)
        requires
            self.wf(),
            0 <= w,
            0 <= h,
            w + self@.padding <= i32::MAX,
            h + self@.padding <= i32::MAX,
            forall|k: int|
                0 <= k < old(free_rects)@.len() ==> rect_valid(#[trigger] old(free_rects)@[k]),
        ensures
            r == spec_attempt(
                w as int,
                h as int,
                old(free_rects)@,
                self@.padding,
                self@.allow_rotate,
            ).0,
            final(free_rects)@ == spec_attempt(
                w as int,
                h as int,
                old(free_rects)@,
                self@.padding,
                self@.allow_rotate,
            ).1,
            r is None ==> final(free_rects)@ == old(free_rects)@,
            forall|j: int|
                0 <= j < final(free_rects)@.len() ==> rect_valid(#[trigger] final(free_rects)@[j])
                    && exists|k: int|
                    0 <= k < old(free_rects)@.len() && spec_contains(
                        final(free_rects)@[j],
                        #[trigger] old(free_rects)@[k],
                    ),
            r matches Some(res) ==> {
                let ir = inflate(res.rect, self@.padding);
                &&& rect_valid(ir)
                &&& (res.rotated ==> res.rect.w == h && res.rect.h == w)
                &&& (!res.rotated ==> res.rect.w == w && res.rect.h == h)
                &&& exists|k: int|
                    0 <= k < old(free_rects)@.len() && spec_contains(
                        ir,
                        #[trigger] old(free_rects)@[k],
                    )
                &&& forall|j: int|
                    0 <= j < final(free_rects)@.len() ==> !spec_intersects(
                        #[trigger] final(free_rects)@[j],
                        ir,
                    )
                &&& forall|j1: int, j2: int|
                    0 <= j1 < final(free_rects)@.len() && 0 <= j2 < final(free_rects)@.len() && j1
                        != j2 ==> !spec_contains(
                        #[trigger] final(free_rects)@[j1],
                        #[trigger] final(free_rects)@[j2],
                    )
            },
    {
        let ghost frees0 = free_rects@;
        let ghost pad = self@.padding;
        let result_option = self.find_best_free_rect(
            w + self.padding,
            h + self.padding,
            free_rects,
        );
        match result_option {
            Some(result) => {
                let ghost wi = w as int + pad;
                let ghost hi = h as int + pad;
                proof {
                    lemma_fb_fold_props(frees0, wi, hi, self@.allow_rotate);
                    let st = fb_fold(frees0, wi, hi, self@.allow_rotate);
                    assert(st != fb_init());
                    let k = choose|k: int| 0 <= k < frees0.len() && fb_from(st, #[trigger] frees0[k], wi, hi);
                    assert(rect_valid(st.rect) && spec_contains(st.rect, frees0[k]));
                }
                let hole = result.rect;
                let mut kept: Vec<Rect> = Vec::new();
                let mut new_rects: Vec<Rect> = Vec::new();
                let n = free_rects.len();
                let mut i: usize = 0;
                while i < n
                    invariant
                        0 <= i <= n,
                        n == frees0.len(),
                        free_rects@ == frees0,
                        rect_valid(hole),
                        forall|k: int| 0 <= k < frees0.len() ==> rect_valid(#[trigger] frees0[k]),
                        kept@ == spec_kept(frees0.take(i as int), hole),
                        new_rects@ == spec_children(frees0.take(i as int), hole),
                    decreases n - i,
                {
                    proof {
                        assert(frees0.take(i as int + 1).drop_last() =~= frees0.take(i as int));
                        assert(frees0.take(i as int + 1).last() == frees0[i as int]);
                    }
                    let f = free_rects[i];
                    if !rect_intersects(&f, &hole) {
                        kept.push(f);
                        proof {
                            assert(kept@ =~= spec_kept(frees0.take(i as int + 1), hole));
                            assert(new_rects@ =~= spec_children(frees0.take(i as int + 1), hole));
                        }
                    } else {
                        punch_hole_in_rect(&f, &hole, &mut new_rects);
                        proof {
                            assert(kept@ =~= spec_kept(frees0.take(i as int + 1), hole));
                            assert(new_rects@ =~= spec_children(frees0.take(i as int + 1), hole));
                        }
                    }
                    i += 1;
                }
                proof {
                    assert(frees0.take(n as int) =~= frees0);
                }
                kept.append(&mut new_rects);
                let ghost combined = spec_kept(frees0, hole) + spec_children(frees0, hole);
                proof {
                    lemma_kept_props(frees0, hole);
                    lemma_children_props(frees0, hole);
                    assert forall|j: int| 0 <= j < combined.len() implies rect_valid(
                        #[trigger] combined[j],
                    ) by {
                        if j < spec_kept(frees0, hole).len() {
                            let k = choose|k: int|
                                0 <= k < frees0.len() && spec_kept(frees0, hole)[j]
                                    == #[trigger] frees0[k];
                            assert(combined[j] == frees0[k]);
                        } else {
                            assert(combined[j] == spec_children(frees0, hole)[j - spec_kept(
                                frees0,
                                hole,
                            ).len()]);
                        }
                    }
                }
                self.prune_free_rects(&mut kept);
                proof {
                    lemma_prune_membership(combined);
                    lemma_prune_no_contain(combined);
                    assert forall|j: int| 0 <= j < kept@.len() implies {
                        &&& rect_valid(#[trigger] kept@[j])
                        &&& !spec_intersects(kept@[j], hole)
                        &&& exists|k: int|
                            0 <= k < frees0.len() && spec_contains(kept@[j], #[trigger] frees0[k])
                    } by {
                        let idx = choose|idx: int|
                            0 <= idx < combined.len() && #[trigger] spec_prune(combined)[j]
                                == combined[idx];
                        assert(kept@[j] == combined[idx]);
                        if idx < spec_kept(frees0, hole).len() {
                            assert(combined[idx] == spec_kept(frees0, hole)[idx]);
                            let k = choose|k: int|
                                0 <= k < frees0.len() && spec_kept(frees0, hole)[idx]
                                    == #[trigger] frees0[k];
                            assert(spec_contains(kept@[j], frees0[k]));
                        } else {
                            let jj = idx - spec_kept(frees0, hole).len();
                            assert(combined[idx] == spec_children(frees0, hole)[jj]);
                        }
                    }
                }
                *free_rects = kept;
                let deflated = PackResult {
                    rect: Rect {
                        x: hole.x,
                        y: hole.y,
                        w: hole.w - self.padding,
                        h: hole.h - self.padding,
                    },
                    rotated: result.rotated,
                };
                proof {
                    assert(inflate(deflated.rect, pad) == hole);
                }
                Some(deflated)
            },
            None => None,
        }
    }

    /// One atomic packing attempt over the entire pending list, in list
    /// order, against a fresh free-space collection covering the current
    /// canvas.  All-or-nothing: on success the results and the free space
    /// are committed wholesale; on failure the previous results are left
    /// untouched.  On success the committed placements are pairwise
    /// interior-disjoint (padding included), lie within the canvas, and
    /// carry the items' extents, swapped exactly where `rotated` is set.
    #[verifier::loop_isolation(false)]
    pub fn pack(&mut self) -> (ok: bool)
        requires
            old(self).wf(),
        ensures
            final(self).wf(),
            pack_effect(old(self)@, final(self)@, ok),
            ok ==> placements_ok(final(self)@),
            ok ==> forall|j1: int, j2: int|
                0 <= j1 < final(self)@.free.len() && 0 <= j2 < final(self)@.free.len() && j1 != j2
                    ==> !spec_contains(
                    #[trigger] final(self)@.free[j1],
                    #[trigger] final(self)@.free[j2],
                ),
    {
        let ghost items = old(self)@.items;
        let ghost cw = old(self)@.canvas_w;
        let ghost ch = old(self)@.canvas_h;
        let ghost pad = old(self)@.padding;
        let ghost rot = old(self)@.allow_rotate;
        let ghost seedr = seed_rect(cw, ch, pad);

        let mut new_results: Vec<PackResult> = Vec::new();
        let mut free_rects: Vec<Rect> = Vec::new();
        let seed_w = if self.w - self.padding > 0 {
            self.w - self.padding
        } else {
            0
        };
        let seed_h = if self.h - self.padding > 0 {
            self.h - self.padding
        } else {
            0
        };
        free_rects.push(Rect { x: self.padding, y: self.padding, w: seed_w, h: seed_h });
        proof {
            assert(free_rects@ =~= seq![seedr]);
        }
        let n = self.used_rects.len();
        let mut i: usize = 0;
        while i < n
            invariant
                0 <= i <= n,
                *self == *old(self),
                n == items.len(),
                new_results@.len() == i,
                spec_pack_loop(items, i as int, new_results@, free_rects@, pad, rot)
                    == spec_try_pack(items, cw, ch, pad, rot),
                forall|j: int|
                    0 <= j < free_rects@.len() ==> rect_valid(#[trigger] free_rects@[j])
                        && spec_contains(free_rects@[j], seedr),
                forall|k: int|
                    0 <= k < i ==> placement_ok(#[trigger] new_results@[k], items[k], pad, cw, ch),
                forall|k1: int, k2: int|
                    0 <= k1 < i && 0 <= k2 < i && k1 != k2 ==> !spec_intersects(
                        inflate((#[trigger] new_results@[k1]).rect, pad),
                        inflate((#[trigger] new_results@[k2]).rect, pad),
                    ),
                forall|j: int, k: int|
                    0 <= j < free_rects@.len() && 0 <= k < i ==> !spec_intersects(
                        #[trigger] free_rects@[j],
                        inflate((#[trigger] new_results@[k]).rect, pad),
                    ),
                forall|j1: int, j2: int|
                    0 <= j1 < free_rects@.len() && 0 <= j2 < free_rects@.len() && j1 != j2
                        ==> !spec_contains(
                        #[trigger] free_rects@[j1],
                        #[trigger] free_rects@[j2],
                    ),
            decreases n - i,
        {
            let ghost frees_before = free_rects@;
            let it = self.used_rects[i];
            proof {
                assert(item_ok(items[i as int], pad));
            }
            let result = self.attempt_pack(it.w, it.h, &mut free_rects);
            match result {
                None => {
                    return false;
                },
                Some(res) => {
                    proof {
                        let ir = inflate(res.rect, pad);
                        let f = choose|k: int|
                            0 <= k < frees_before.len() && spec_contains(
                                ir,
                                #[trigger] frees_before[k],
                            );
                        lemma_contains_transitive(ir, frees_before[f], seedr);
                        assert(spec_contains(ir, seedr));
                        // the inflated placement is disjoint from everything
                        // already placed, because it sits inside a free rect
                        assert forall|k: int| 0 <= k < i implies !spec_intersects(
                            ir,
                            inflate((#[trigger] new_results@[k]).rect, pad),
                        ) by {
                            lemma_contains_preserves_disjoint(
                                ir,
                                frees_before[f],
                                inflate(new_results@[k].rect, pad),
                            );
                        }
                        // the surviving free rects stay inside the seed and
                        // disjoint from everything placed
                        assert forall|j: int| 0 <= j < free_rects@.len() implies spec_contains(
                            #[trigger] free_rects@[j],
                            seedr,
                        ) by {
                            let k = choose|k: int|
                                0 <= k < frees_before.len() && spec_contains(
                                    free_rects@[j],
                                    #[trigger] frees_before[k],
                                );
                            lemma_contains_transitive(free_rects@[j], frees_before[k], seedr);
                        }
                        assert forall|j: int, k: int|
                            0 <= j < free_rects@.len() && 0 <= k < i implies !spec_intersects(
                            #[trigger] free_rects@[j],
                            inflate((#[trigger] new_results@[k]).rect, pad),
                        ) by {
                            let q = choose|q: int|
                                0 <= q < frees_before.len() && spec_contains(
                                    free_rects@[j],
                                    #[trigger] frees_before[q],
                                );
                            lemma_contains_preserves_disjoint(
                                free_rects@[j],
                                frees_before[q],
                                inflate(new_results@[k].rect, pad),
                            );
                        }
                    }
                    new_results.push(res);
                },
            }
            i += 1;
        }
        proof {
            assert(spec_pack_loop(items, n as int, new_results@, free_rects@, pad, rot) == Some(
                (new_results@, free_rects@),
            ));
        }
        self.results = new_results;
        self.free_rects = free_rects;
        true
    }

    /// Grow the canvas and retry the whole batch, doubling the smaller
    /// below-limit side each round, until a pack succeeds (`true`) or both
    /// sides have reached their limits (`false`).  The canvas never
    /// shrinks and never exceeds its limits; on failure the canvas stands
    /// at the limits and the previous results are untouched.
    pub fn grow(&mut self) -> (ok: bool)
        requires
            old(self).wf(),
        ensures
            final(self).wf(),
            final(self)@.limit_w == old(self)@.limit_w,
            final(self)@.limit_h == old(self)@.limit_h,
            final(self)@.allow_rotate == old(self)@.allow_rotate,
            final(self)@.padding == old(self)@.padding,
            final(self)@.items == old(self)@.items,
            final(self)@.canvas_w >= old(self)@.canvas_w,
            final(self)@.canvas_h >= old(self)@.canvas_h,
            final(self)@.canvas_w <= final(self)@.limit_w,
            final(self)@.canvas_h <= final(self)@.limit_h,
            ({
                let g = spec_grow(
                    old(self)@.items,
                    old(self)@.canvas_w,
                    old(self)@.canvas_h,
                    old(self)@.limit_w,
                    old(self)@.limit_h,
                    old(self)@.padding,
                    old(self)@.allow_rotate,
                );
                ok == g.2 && final(self)@.canvas_w == g.0 && final(self)@.canvas_h == g.1
            }),
            ok ==> (spec_try_pack(
                old(self)@.items,
                final(self)@.canvas_w,
                final(self)@.canvas_h,
                old(self)@.padding,
                old(self)@.allow_rotate,
            ) matches Some(out) && final(self)@.results == out.0 && final(self)@.free == out.1),
            ok ==> placements_ok(final(self)@),
            !ok ==> final(self)@.canvas_w == old(self)@.limit_w && final(self)@.canvas_h == old(
                self,
            )@.limit_h && final(self)@.results == old(self)@.results && final(self)@.free == old(
                self,
            )@.free,
    {
        let ghost items = old(self)@.items;
        let ghost w0 = old(self)@.canvas_w;
        let ghost h0 = old(self)@.canvas_h;
        let ghost wl = old(self)@.limit_w;
        let ghost hl = old(self)@.limit_h;
        let ghost pad = old(self)@.padding;
        let ghost rot = old(self)@.allow_rotate;
        let ghost target = spec_grow(items, w0, h0, wl, hl, pad, rot);
        loop
            invariant_except_break
                self.wf(),
                items == old(self)@.items,
                w0 == old(self)@.canvas_w,
                h0 == old(self)@.canvas_h,
                wl == old(self)@.limit_w,
                hl == old(self)@.limit_h,
                pad == old(self)@.padding,
                rot == old(self)@.allow_rotate,
                self@.limit_w == wl,
                self@.limit_h == hl,
                self@.allow_rotate == rot,
                self@.padding == pad,
                self@.items == items,
                self@.results == old(self)@.results,
                self@.free == old(self)@.free,
                self@.canvas_w >= w0,
                self@.canvas_h >= h0,
                spec_grow(items, self@.canvas_w, self@.canvas_h, wl, hl, pad, rot) == target,
                target == spec_grow(items, w0, h0, wl, hl, pad, rot),
            ensures
                self.wf(),
                items == old(self)@.items,
                w0 == old(self)@.canvas_w,
                h0 == old(self)@.canvas_h,
                wl == old(self)@.limit_w,
                hl == old(self)@.limit_h,
                pad == old(self)@.padding,
                rot == old(self)@.allow_rotate,
                self@.limit_w == wl,
                self@.limit_h == hl,
                self@.allow_rotate == rot,
                self@.padding == pad,
                self@.items == items,
                self@.canvas_w >= w0,
                self@.canvas_h >= h0,
                target == spec_grow(items, w0, h0, wl, hl, pad, rot),
                target.2 && self@.canvas_w == target.0 && self@.canvas_h == target.1,
                spec_try_pack(items, self@.canvas_w, self@.canvas_h, pad, rot) matches Some(out)
                    && self@.results == out.0 && self@.free == out.1,
                placements_ok(self@),
            decreases (wl - self@.canvas_w) + (hl - self@.canvas_h),
        {
            if self.w >= self.w_limit && self.h >= self.h_limit {
                return false;
            }
            let ghost w_before = self@.canvas_w;
            let ghost h_before = self@.canvas_h;
            if self.w >= self.w_limit {
                self.h = if self.h < self.h_limit - self.h {
                    self.h * 2
                } else {
                    self.h_limit
                };
            } else if self.h >= self.h_limit {
                self.w = if self.w < self.w_limit - self.w {
                    self.w * 2
                } else {
                    self.w_limit
                };
            } else {
                if self.w < self.h {
                    self.w = if self.w < self.w_limit - self.w {
                        self.w * 2
                    } else {
                        self.w_limit
                    };
                } else {
                    self.h = if self.h < self.h_limit - self.h {
                        self.h * 2
                    } else {
                        self.h_limit
                    };
                }
            }
            proof {
                assert((self@.canvas_w, self@.canvas_h) == spec_grow_step(
                    w_before,
                    h_before,
                    wl,
                    hl,
                ));
            }
            if self.pack() {
                break ;
            }
        }
        true
    }

    /// The placements committed by the last successful `pack()`, aligned by
    /// index with the pending items.
    pub fn get_results(&self) -> (r: &Vec<PackResult>)
        ensures
            r@ == self@.results,
    {
        &self.results
    }

    /// Current canvas width.
    pub fn get_w(&self) -> (r: i32)
        ensures
            r as int == self@.canvas_w,
    {
        self.w
    }

    /// Current canvas height.
    pub fn get_h(&self) -> (r: i32)
        ensures
            r as int == self@.canvas_h,
    {
        self.h
    }
}

} // verus!
