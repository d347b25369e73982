//! The output atlas pixel buffer and sub-image compositing: copying a
//! trimmed input image into the atlas at its placement, upright or rotated
//! a quarter turn.  Encoding the buffer to a file is the caller's
//! business.

use vstd::prelude::*;

use crate::inputimage::InputImage;
use crate::pixelbuf::{pixel_byte, pixel_pos, put_pixel};

verus! {

/// The atlas image being composed: `w` by `h` RGBA pixels.
pub struct OutputImage {
    pub data: Vec<u8>,
    pub w: i32,
    pub h: i32,
}

impl OutputImage {
    /// The pixel buffer holds exactly `w * h` RGBA pixels, with the total
    /// byte count still representable in `i32`.
    pub open spec fn buffer_ok(&self) -> bool {
        &&& 0 < self.w
        &&& 0 < self.h
        &&& self.w * self.h * 4 <= i32::MAX
        &&& self.data@.len() == self.w * self.h * 4
    }

    /// A transparent atlas buffer of the given extents.
    pub fn new(w: i32, h: i32) -> (r: OutputImage)
        requires
            0 < w,
            0 < h,
            w * h * 4 <= i32::MAX,
        ensures
            r.buffer_ok(),
            r.w == w,
            r.h == h,
            forall|i: int| 0 <= i < r.data@.len() ==> r.data@[i] == 0u8,
    {
        proof {
            assert(0 <= w * h && w * h * 4 == (w * h) * 4) by (nonlinear_arith)
                requires
                    0 < w,
                    0 < h,
            ;
        }
        let size = w * h * 4;
        OutputImage { w, h, data: vec![0u8; size as usize] }
    }

    /// Copy the trimmed window of `img` into the atlas with its top-left
    /// corner at `(dx, dy)`.  Upright, each copied row carries `img.w`
    /// pixels starting at the window's origin; rotated, the window is
    /// transposed so that source row `r` becomes destination column
    /// `dx + r`, with source columns mapped bottom-up.
    #[verifier::loop_isolation(false)]
    pub fn add_input(&mut self, img: &InputImage, dx: i32, dy: i32, rotated: bool)
        requires
            old(self).buffer_ok(),
            0 <= dx,
            0 <= dy,
            0 <= img.vx,
            0 <= img.vy,
            0 <= img.vw,
            0 <= img.vh,
            0 < img.w,
            img.data@.len() <= i32::MAX,
            rotated ==> {
                &&& img.vx + img.vw <= img.w
                &&& (img.vy + img.vh) * img.w * 4 <= img.data@.len()
                &&& dx + img.vh <= old(self).w
                &&& dy + img.vw <= old(self).h
            },
            !rotated ==> {
                &&& (img.vh > 0 ==> ((img.vy + img.vh - 1) * img.w + img.vx + img.w) * 4
                    <= img.data@.len())
                &&& dx + img.w <= old(self).w
                &&& dy + img.vh <= old(self).h
            },
        ensures
            final(self).buffer_ok(),
            final(self).w == old(self).w,
            final(self).h == old(self).h,
            final(self).data@.len() == old(self).data@.len(),
            rotated ==> forall|px: int, py: int, c: int|
                0 <= px < old(self).w && 0 <= py < old(self).h && 0 <= c < 4
                    ==> #[trigger] pixel_byte(final(self).data@, px, py, old(self).w as int, c) == (
                if dx <= px < dx + img.vh && dy <= py < dy + img.vw {
                    pixel_byte(
                        img.data@,
                        img.vx + (dy + img.vw - 1 - py),
                        img.vy + (px - dx),
                        img.w as int,
                        c,
                    )
                } else {
                    pixel_byte(old(self).data@, px, py, old(self).w as int, c)
                }),
            !rotated ==> forall|px: int, py: int, c: int|
                0 <= px < old(self).w && 0 <= py < old(self).h && 0 <= c < 4
                    ==> #[trigger] pixel_byte(final(self).data@, px, py, old(self).w as int, c) == (
                if dx <= px < dx + img.w && dy <= py < dy + img.vh {
                    pixel_byte(
                        img.data@,
                        img.vx + (px - dx),
                        img.vy + (py - dy),
                        img.w as int,
                        c,
                    )
                } else {
                    pixel_byte(old(self).data@, px, py, old(self).w as int, c)
                }),
    {
        let ghost d0 = self.data@;
        let ghost pw = self.w as int;
        let ghost ph = self.h as int;
        proof {
            let len0 = d0.len() as int;
            assert forall|px: int, py: int|
                0 <= px < pw && 0 <= py < ph implies pixel_pos(px, py, pw) + 3 < len0 by {
                assert((px + py * pw) * 4 + 3 < pw * ph * 4) by (nonlinear_arith)
                    requires
                        0 <= px < pw,
                        0 <= py < ph,
                ;
            }
        }
        if rotated {
            let ghost slen = img.data@.len() as int;
            proof {
                assert forall|sx: int, sy: int|
                    0 <= sx < img.w && 0 <= sy < img.vy + img.vh implies pixel_pos(
                    sx,
                    sy,
                    img.w as int,
                ) + 3 < slen by {
                    assert((sx + sy * img.w) * 4 + 3 < (img.vy + img.vh) * img.w * 4)
                        by (nonlinear_arith)
                        requires
                            0 <= sx < img.w,
                            0 <= sy,
                            sy < img.vy + img.vh,
                    ;
                }
            }
            let mut row: i32 = 0;
            while row < img.vh
                invariant
                    0 <= row <= img.vh,
                    self.w == old(self).w,
                    self.h == old(self).h,
                    self.data@.len() == d0.len(),
                    forall|px: int, py: int, c: int|
                        0 <= px < pw && 0 <= py < ph && 0 <= c < 4 ==> #[trigger] pixel_byte(
                            self.data@,
                            px,
                            py,
                            pw,
                            c,
                        ) == (if dx <= px < dx + row && dy <= py < dy + img.vw {
                            pixel_byte(
                                img.data@,
                                img.vx + (dy + img.vw - 1 - py),
                                img.vy + (px - dx),
                                img.w as int,
                                c,
                            )
                        } else {
                            pixel_byte(d0, px, py, pw, c)
                        }),
                decreases img.vh - row,
            {
                let mut col: i32 = 0;
                while col < img.vw
                    invariant
                        0 <= row < img.vh,
                        0 <= col <= img.vw,
                        self.w == old(self).w,
                        self.h == old(self).h,
                        self.data@.len() == d0.len(),
                        forall|px: int, py: int, c: int|
                            0 <= px < pw && 0 <= py < ph && 0 <= c < 4 ==> #[trigger] pixel_byte(
                                self.data@,
                                px,
                                py,
                                pw,
                                c,
                            ) == (if (dx <= px < dx + row && dy <= py < dy + img.vw) || (px == dx
                                + row && dy + img.vw - col <= py < dy + img.vw) {
                                pixel_byte(
                                    img.data@,
                                    img.vx + (dy + img.vw - 1 - py),
                                    img.vy + (px - dx),
                                    img.w as int,
                                    c,
                                )
                            } else {
                                pixel_byte(d0, px, py, pw, c)
                            }),
                    decreases img.vw - col,
                {
                    proof {
                        assert(0 <= (img.vy + row) * img.w && img.vy + row <= (img.vy + row)
                            * img.w && ((img.vy + row) * img.w + img.vx + col) * 4 + 3 < slen)
                            by (nonlinear_arith)
                            requires
                                0 <= img.vy,
                                0 <= row < img.vh,
                                0 < img.w,
                                0 <= img.vx,
                                0 <= col < img.vw,
                                img.vx + img.vw <= img.w,
                                (img.vy + img.vh) * img.w * 4 <= slen,
                        ;
                    }
                    let sp = (img.vy + row) * img.w + img.vx + col;
                    let b0 = img.data[(sp * 4) as usize];
                    let b1 = img.data[(sp * 4 + 1) as usize];
                    let b2 = img.data[(sp * 4 + 2) as usize];
                    let b3 = img.data[(sp * 4 + 3) as usize];
                    put_pixel(
                        &mut self.data,
                        dx + row,
                        dy + img.vw - col - 1,
                        self.w,
                        b0,
                        b1,
                        b2,
                        b3,
                    );
                    col += 1;
                }
                row += 1;
            }
        } else {
            let ghost slen = img.data@.len() as int;
            proof {
                if img.vh > 0 {
                    assert forall|k: int, sy: int|
                        0 <= k < img.w && img.vy <= sy < img.vy + img.vh implies #[trigger] pixel_pos(
                        img.vx + k,
                        sy,
                        img.w as int,
                    ) + 3 < slen by {
                        assert((img.vx + k + sy * img.w) * 4 + 3 < ((img.vy + img.vh - 1) * img.w
                            + img.vx + img.w) * 4) by (nonlinear_arith)
                            requires
                                0 <= k < img.w,
                                0 < img.w,
                                0 <= img.vx,
                                img.vy <= sy,
                                sy < img.vy + img.vh,
                        ;
                    }
                }
            }
            let mut row: i32 = 0;
            while row < img.vh
                invariant
                    0 <= row <= img.vh,
                    self.w == old(self).w,
                    self.h == old(self).h,
                    self.data@.len() == d0.len(),
                    forall|px: int, py: int, c: int|
                        0 <= px < pw && 0 <= py < ph && 0 <= c < 4 ==> #[trigger] pixel_byte(
                            self.data@,
                            px,
                            py,
                            pw,
                            c,
                        ) == (if dx <= px < dx + img.w && dy <= py < dy + row {
                            pixel_byte(
                                img.data@,
                                img.vx + (px - dx),
                                img.vy + (py - dy),
                                img.w as int,
                                c,
                            )
                        } else {
                            pixel_byte(d0, px, py, pw, c)
                        }),
                decreases img.vh - row,
            {
                let mut col: i32 = 0;
                while col < img.w
                    invariant
                        0 <= row < img.vh,
                        0 <= col <= img.w,
                        self.w == old(self).w,
                        self.h == old(self).h,
                        self.data@.len() == d0.len(),
                        forall|px: int, py: int, c: int|
                            0 <= px < pw && 0 <= py < ph && 0 <= c < 4 ==> #[trigger] pixel_byte(
                                self.data@,
                                px,
                                py,
                                pw,
                                c,
                            ) == (if (dx <= px < dx + img.w && dy <= py < dy + row) || (py == dy
                                + row && dx <= px < dx + col) {
                                pixel_byte(
                                    img.data@,
                                    img.vx + (px - dx),
                                    img.vy + (py - dy),
                                    img.w as int,
                                    c,
                                )
                            } else {
                                pixel_byte(d0, px, py, pw, c)
                            }),
                    decreases img.w - col,
                {
                    proof {
                        assert(0 <= (img.vy + row) * img.w && img.vy + row <= (img.vy + row)
                            * img.w && ((img.vy + row) * img.w + img.vx + col) * 4 + 3 < slen)
                            by (nonlinear_arith)
                            requires
                                0 <= img.vy,
                                0 <= row < img.vh,
                                0 < img.w,
                                0 <= img.vx,
                                0 <= col < img.w,
                                ((img.vy + img.vh - 1) * img.w + img.vx + img.w) * 4 <= slen,
                        ;
                    }
                    let sp = (img.vy + row) * img.w + img.vx + col;
                    let b0 = img.data[(sp * 4) as usize];
                    let b1 = img.data[(sp * 4 + 1) as usize];
                    let b2 = img.data[(sp * 4 + 2) as usize];
                    let b3 = img.data[(sp * 4 + 3) as usize];
                    put_pixel(&mut self.data, dx + col, dy + row, self.w, b0, b1, b2, b3);
                    col += 1;
                }
                row += 1;
            }
        }
    }
}

} // verus!
