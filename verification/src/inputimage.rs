//! A decoded source image (RGBA bytes) and alpha-bounds trimming: finding
//! the extent of the non-transparent pixels so only that region needs to
//! be packed.  Decoding image files is the caller's business; this module
//! works on the raw pixel buffer.

use vstd::prelude::*;

verus! {

/// A source image: `w` by `h` RGBA pixels in `data` (4 bytes per pixel,
/// row-major), plus the trim window `(vx, vy, vw, vh)` computed by
/// [`InputImage::trim`].
pub struct InputImage {
    pub name: String,
    pub data: Vec<u8>,
    pub w: i32,
    pub h: i32,
    pub vx: i32,
    pub vy: i32,
    pub vw: i32,
    pub vh: i32,
}

/// Byte offset of the alpha channel of pixel `(x, row)`.
pub open spec fn alpha_idx(w: int, row: int, x: int) -> int {
    (row * w + x) * 4 + 3
}

/// The leftmost `x` at or after `from` whose pixel in `row` has non-zero
/// alpha, if any.
pub open spec fn spec_row_first(data: Seq<u8>, w: int, row: int, from: int) -> Option<int>
    decreases w - from,
{
    if from >= w {
        None
    } else if 0 <= alpha_idx(w, row, from) < data.len() && data[alpha_idx(w, row, from)] != 0 {
        Some(from)
    } else {
        spec_row_first(data, w, row, from + 1)
    }
}

/// The rightmost `x` at or before `from` whose pixel in `row` has non-zero
/// alpha, if any.
pub open spec fn spec_row_last(data: Seq<u8>, w: int, row: int, from: int) -> Option<int>
    decreases from + 1,
{
    if from < 0 {
        None
    } else if 0 <= alpha_idx(w, row, from) < data.len() && data[alpha_idx(w, row, from)] != 0 {
        Some(from)
    } else {
        spec_row_last(data, w, row, from - 1)
    }
}

/// The topmost `y` at or after `from` whose pixel in column `col` has
/// non-zero alpha, if any.
pub open spec fn spec_col_first(data: Seq<u8>, w: int, h: int, col: int, from: int) -> Option<int>
    decreases h - from,
{
    if from >= h {
        None
    } else if 0 <= alpha_idx(w, from, col) < data.len() && data[alpha_idx(w, from, col)] != 0 {
        Some(from)
    } else {
        spec_col_first(data, w, h, col, from + 1)
    }
}

/// The bottommost `y` at or before `from` whose pixel in column `col` has
/// non-zero alpha, if any.
pub open spec fn spec_col_last(data: Seq<u8>, w: int, col: int, from: int) -> Option<int>
    decreases from + 1,
{
    if from < 0 {
        None
    } else if 0 <= alpha_idx(w, from, col) < data.len() && data[alpha_idx(w, from, col)] != 0 {
        Some(from)
    } else {
        spec_col_last(data, w, col, from - 1)
    }
}

/// The running-minimum update used for the left and top edges: a freshly
/// found coordinate replaces the accumulator when it is smaller, or
/// whenever the accumulator still reads zero.
pub open spec fn min_update(acc: int, found: Option<int>) -> int {
    match found {
        None => acc,
        Some(x) => if acc == 0 || x < acc {
            x
        } else {
            acc
        },
    }
}

/// The running-maximum update used for the right and bottom edges.
pub open spec fn max_update(acc: int, found: Option<int>) -> int {
    match found {
        None => acc,
        Some(x) => if acc == 0 || x > acc {
            x
        } else {
            acc
        },
    }
}

/// Fold of the left edge over rows `from..h`.
pub open spec fn spec_left(data: Seq<u8>, w: int, h: int, from: int, acc: int) -> int
    decreases h - from,
{
    if from >= h {
        acc
    } else {
        spec_left(data, w, h, from + 1, min_update(acc, spec_row_first(data, w, from, 0)))
    }
}

/// Fold of the right edge over rows `from..h`.
pub open spec fn spec_right(data: Seq<u8>, w: int, h: int, from: int, acc: int) -> int
    decreases h - from,
{
    if from >= h {
        acc
    } else {
        spec_right(data, w, h, from + 1, max_update(acc, spec_row_last(data, w, from, w - 1)))
    }
}

/// Fold of the top edge over columns `from..w`.
pub open spec fn spec_top(data: Seq<u8>, w: int, h: int, from: int, acc: int) -> int
    decreases w - from,
{
    if from >= w {
        acc
    } else {
        spec_top(data, w, h, from + 1, min_update(acc, spec_col_first(data, w, h, from, 0)))
    }
}

/// Fold of the bottom edge over columns `from..w`.
pub open spec fn spec_bottom(data: Seq<u8>, w: int, h: int, from: int, acc: int) -> int
    decreases w - from,
{
    if from >= w {
        acc
    } else {
        spec_bottom(data, w, h, from + 1, max_update(acc, spec_col_last(data, w, from, h - 1)))
    }
}

impl InputImage {
    /// The pixel buffer holds exactly `w * h` RGBA pixels, with the total
    /// byte count still representable in `i32`.
    pub open spec fn buffer_ok(&self) -> bool {
        &&& 0 <= self.w
        &&& 0 <= self.h
        &&& self.w * self.h * 4 <= i32::MAX
        &&& self.data@.len() == self.w * self.h * 4
    }

    /// Compute the trim window from the alpha channel: the extremal
    /// opaque coordinates, folded row by row (left/right edges) and
    /// column by column (top/bottom edges), each edge updated with the
    /// zero-resets-the-accumulator rule of `min_update`/`max_update`.
    /// `vw` and `vh` are the differences of the two edges.
    pub fn trim(&mut self)
        requires
            old(self).buffer_ok(),
        ensures
            final(self).name == old(self).name,
            final(self).data == old(self).data,
            final(self).w == old(self).w,
            final(self).h == old(self).h,
            final(self).vx as int == spec_left(old(self).data@, old(self).w as int, old(self).h as int, 0, 0),
            final(self).vw as int == spec_right(old(self).data@, old(self).w as int, old(self).h as int, 0, 0)
                - spec_left(old(self).data@, old(self).w as int, old(self).h as int, 0, 0),
            final(self).vy as int == spec_top(old(self).data@, old(self).w as int, old(self).h as int, 0, 0),
            final(self).vh as int == spec_bottom(old(self).data@, old(self).w as int, old(self).h as int, 0, 0)
                - spec_top(old(self).data@, old(self).w as int, old(self).h as int, 0, 0),
            0 <= final(self).vx,
            0 <= final(self).vy,
            final(self).vx + final(self).vw < if old(self).w > 0 {
                old(self).w as int
            } else {
                1
            },
            final(self).vy + final(self).vh < if old(self).h > 0 {
                old(self).h as int
            } else {
                1
            },
    {
        let ghost gd = self.data@;
        let w = self.w;
        let h = self.h;
        let mut left: i32 = 0;
        let mut right: i32 = 0;
        let mut row: i32 = 0;
        while row < h
            invariant
                0 <= row <= h,
                *self == *old(self),
                w == self.w,
                h == self.h,
                self.buffer_ok(),
                gd == self.data@,
                0 <= left < if w > 0 {
                    w
                } else {
                    1
                },
                0 <= right < if w > 0 {
                    w
                } else {
                    1
                },
                spec_left(gd, w as int, h as int, row as int, left as int) == spec_left(
                    gd,
                    w as int,
                    h as int,
                    0,
                    0,
                ),
                spec_right(gd, w as int, h as int, row as int, right as int) == spec_right(
                    gd,
                    w as int,
                    h as int,
                    0,
                    0,
                ),
            decreases h - row,
        {
            let found_l = scan_row_left(&self.data, w, h, row);
            match found_l {
                Some(x) => {
                    if left == 0 || x < left {
                        left = x;
                    }
                },
                None => {},
            }
            let found_r = scan_row_right(&self.data, w, h, row);
            match found_r {
                Some(x) => {
                    if right == 0 || x > right {
                        right = x;
                    }
                },
                None => {},
            }
            row += 1;
        }
        let mut top: i32 = 0;
        let mut bottom: i32 = 0;
        let mut col: i32 = 0;
        while col < w
            invariant
                0 <= col <= w,
                *self == *old(self),
                w == self.w,
                h == self.h,
                self.buffer_ok(),
                gd == self.data@,
                0 <= top < if h > 0 {
                    h
                } else {
                    1
                },
                0 <= bottom < if h > 0 {
                    h
                } else {
                    1
                },
                spec_top(gd, w as int, h as int, col as int, top as int) == spec_top(
                    gd,
                    w as int,
                    h as int,
                    0,
                    0,
                ),
                spec_bottom(gd, w as int, h as int, col as int, bottom as int) == spec_bottom(
                    gd,
                    w as int,
                    h as int,
                    0,
                    0,
                ),
            decreases w - col,
        {
            let found_t = scan_col_top(&self.data, w, h, col);
            match found_t {
                Some(y) => {
                    if top == 0 || y < top {
                        top = y;
                    }
                },
                None => {},
            }
            let found_b = scan_col_bottom(&self.data, w, h, col);
            match found_b {
                Some(y) => {
                    if bottom == 0 || y > bottom {
                        bottom = y;
                    }
                },
                None => {},
            }
            col += 1;
        }
        self.vx = left;
        self.vw = right - left;
        self.vy = top;
        self.vh = bottom - top;
    }
}

/// Leftmost non-transparent pixel of `row`, if any.
#[verifier::loop_isolation(false)]
fn scan_row_left(data: &Vec<u8>, w: i32, h: i32, row: i32) -> (r: Option<i32>)
    requires
        0 <= row < h,
        0 <= w,
        w * h * 4 <= i32::MAX,
        data@.len() == w * h * 4,
    ensures
        r is None ==> spec_row_first(data@, w as int, row as int, 0) is None,
        r matches Some(v) ==> spec_row_first(data@, w as int, row as int, 0) == Some(v as int) && 0
            <= v < w,
{
    let mut x: i32 = 0;
    while x < w
        invariant
            0 <= x <= w,
            spec_row_first(data@, w as int, row as int, x as int) == spec_row_first(
                data@,
                w as int,
                row as int,
                0,
            ),
        decreases w - x,
    {
        proof {
            assert(0 <= (row * w + x) * 4 + 3 < w * h * 4) by (nonlinear_arith)
                requires
                    0 <= x < w,
                    0 <= row < h,
            ;
        }
        let alpha = data[((row * w + x) * 4 + 3) as usize];
        if alpha != 0 {
            return Some(x);
        }
        x += 1;
    }
    None
}

/// Rightmost non-transparent pixel of `row`, if any.
#[verifier::loop_isolation(false)]
fn scan_row_right(data: &Vec<u8>, w: i32, h: i32, row: i32) -> (r: Option<i32>)
    requires
        0 <= row < h,
        0 <= w,
        w * h * 4 <= i32::MAX,
        data@.len() == w * h * 4,
    ensures
        r is None ==> spec_row_last(data@, w as int, row as int, w as int - 1) is None,
        r matches Some(v) ==> spec_row_last(data@, w as int, row as int, w as int - 1) == Some(
            v as int,
        ) && 0 <= v < w,
{
    let mut x: i32 = w - 1;
    while x >= 0
        invariant
            -1 <= x <= w - 1,
            spec_row_last(data@, w as int, row as int, x as int) == spec_row_last(
                data@,
                w as int,
                row as int,
                w as int - 1,
            ),
        decreases x + 1,
    {
        proof {
            assert(0 <= (row * w + x) * 4 + 3 < w * h * 4) by (nonlinear_arith)
                requires
                    0 <= x < w,
                    0 <= row < h,
            ;
        }
        let alpha = data[((row * w + x) * 4 + 3) as usize];
        if alpha != 0 {
            return Some(x);
        }
        x -= 1;
    }
    None
}

/// Topmost non-transparent pixel of column `col`, if any.
#[verifier::loop_isolation(false)]
fn scan_col_top(data: &Vec<u8>, w: i32, h: i32, col: i32) -> (r: Option<i32>)
    requires
        0 <= col < w,
        0 <= h,
        w * h * 4 <= i32::MAX,
        data@.len() == w * h * 4,
    ensures
        r is None ==> spec_col_first(data@, w as int, h as int, col as int, 0) is None,
        r matches Some(v) ==> spec_col_first(data@, w as int, h as int, col as int, 0) == Some(
            v as int,
        ) && 0 <= v < h,
{
    let mut y: i32 = 0;
    while y < h
        invariant
            0 <= y <= h,
            spec_col_first(data@, w as int, h as int, col as int, y as int) == spec_col_first(
                data@,
                w as int,
                h as int,
                col as int,
                0,
            ),
        decreases h - y,
    {
        proof {
            assert(0 <= (y * w + col) * 4 + 3 < w * h * 4) by (nonlinear_arith)
                requires
                    0 <= col < w,
                    0 <= y < h,
            ;
        }
        let alpha = data[((y * w + col) * 4 + 3) as usize];
        if alpha != 0 {
            return Some(y);
        }
        y += 1;
    }
    None
}

/// Bottommost non-transparent pixel of column `col`, if any.
#[verifier::loop_isolation(false)]
fn scan_col_bottom(data: &Vec<u8>, w: i32, h: i32, col: i32) -> (r: Option<i32>)
    requires
        0 <= col < w,
        0 <= h,
        w * h * 4 <= i32::MAX,
        data@.len() == w * h * 4,
    ensures
        r is None ==> spec_col_last(data@, w as int, col as int, h as int - 1) is None,
        r matches Some(v) ==> spec_col_last(data@, w as int, col as int, h as int - 1) == Some(
            v as int,
        ) && 0 <= v < h,
{
    let mut y: i32 = h - 1;
    while y >= 0
        invariant
            -1 <= y <= h - 1,
            spec_col_last(data@, w as int, col as int, y as int) == spec_col_last(
                data@,
                w as int,
                col as int,
                h as int - 1,
            ),
        decreases y + 1,
    {
        proof {
            assert(0 <= (y * w + col) * 4 + 3 < w * h * 4) by (nonlinear_arith)
                requires
                    0 <= col < w,
                    0 <= y < h,
            ;
        }
        let alpha = data[((y * w + col) * 4 + 3) as usize];
        if alpha != 0 {
            return Some(y);
        }
        y -= 1;
    }
    None
}

} // verus!
