//! Debug drawing of rectangle outlines into an RGBA pixel buffer, used to
//! visualise the free-space collection.  Saving the buffer to disk is the
//! caller's business; this module only writes pixels.

use vstd::prelude::*;

use crate::pixelbuf::{pixel_byte, pixel_pos, put_pixel};
use crate::shapes::Rect;

verus! {

/// Write one opaque pixel at `(x, y)`.
pub fn write_pixel(data: &mut Vec<u8>, x: i32, y: i32, pitch: i32, r: u8, g: u8, b: u8)
    requires
        0 < pitch,
        0 <= x < pitch,
        0 <= y,
        pixel_pos(x as int, y as int, pitch as int) + 3 < old(data)@.len(),
        old(data)@.len() <= i32::MAX,
    ensures
        final(data)@.len() == old(data)@.len(),
        final(data)@[pixel_pos(x as int, y as int, pitch as int)] == r,
        final(data)@[pixel_pos(x as int, y as int, pitch as int) + 1] == g,
        final(data)@[pixel_pos(x as int, y as int, pitch as int) + 2] == b,
        final(data)@[pixel_pos(x as int, y as int, pitch as int) + 3] == 255u8,
        forall|px: int, py: int, c: int|
            0 <= px < pitch && 0 <= py && (px, py) != (x as int, y as int) && pixel_pos(
                px,
                py,
                pitch as int,
            ) + 3 < old(data)@.len() && 0 <= c < 4 ==> #[trigger] pixel_byte(
                final(data)@,
                px,
                py,
                pitch as int,
                c,
            ) == pixel_byte(old(data)@, px, py, pitch as int, c),
{
    put_pixel(data, x, y, pitch, r, g, b, 255);
}

/// Pixel `(px, py)` lies on one of the two-pixel-thick top or bottom edges
/// of `rect`.
pub open spec fn tb_border(rect: Rect, px: int, py: int) -> bool {
    rect.x <= px < rect.x + rect.w && (py == rect.y || py == rect.y + 1 || py == rect.y + rect.h
        - 1 || py == rect.y + rect.h - 2)
}

/// Pixel `(px, py)` lies on one of the two-pixel-thick left or right edges
/// of `rect`.
pub open spec fn lr_border(rect: Rect, px: int, py: int) -> bool {
    rect.y <= py < rect.y + rect.h && (px == rect.x || px == rect.x + 1 || px == rect.x + rect.w
        - 1 || px == rect.x + rect.w - 2)
}

/// Pixel `(px, py)` lies on the drawn outline of `rect`.
pub open spec fn on_border(rect: Rect, px: int, py: int) -> bool {
    tb_border(rect, px, py) || lr_border(rect, px, py)
}

/// Draw the outline of `rect` (two pixels thick) in the given colour:
/// every border pixel becomes `(r, g, b, 255)`, every other pixel is
/// untouched.
#[verifier::loop_isolation(false)]
pub fn draw_rect_colored(data: &mut Vec<u8>, pitch: i32, rect: &Rect, r: u8, g: u8, b: u8)
    requires
        0 < pitch,
        0 <= rect.x,
        0 <= rect.y,
        2 <= rect.w,
        2 <= rect.h,
        rect.x + rect.w <= pitch,
        (rect.y + rect.h) * pitch * 4 <= old(data)@.len(),
        old(data)@.len() <= i32::MAX,
    ensures
        final(data)@.len() == old(data)@.len(),
        forall|px: int, py: int, c: int|
            0 <= px < pitch && 0 <= py && pixel_pos(px, py, pitch as int) + 3 < old(data)@.len()
                && 0 <= c < 4 ==> #[trigger] pixel_byte(final(data)@, px, py, pitch as int, c) == (
            if on_border(*rect, px, py) {
                border_byte(r, g, b, c)
            } else {
                pixel_byte(old(data)@, px, py, pitch as int, c)
            }),
{
    let ghost d0 = data@;
    proof {
        let len0 = d0.len() as int;
        assert(rect.y + rect.h <= i32::MAX) by (nonlinear_arith)
            requires
                0 < pitch,
                0 <= rect.y,
                2 <= rect.h,
                (rect.y + rect.h) * pitch * 4 <= len0,
                len0 <= i32::MAX,
        ;
        assert forall|px: int, py: int|
            0 <= px < pitch && py < rect.y + rect.h && 0 <= py implies pixel_pos(
            px,
            py,
            pitch as int,
        ) + 3 < d0.len() by {
            assert((px + py * pitch) * 4 + 3 < (rect.y + rect.h) * pitch * 4) by (nonlinear_arith)
                requires
                    0 <= px < pitch,
                    0 <= py,
                    py < rect.y + rect.h,
            ;
        }
    }
    let mut x: i32 = 0;
    while x < rect.w
        invariant
            0 <= x <= rect.w,
            data@.len() == d0.len(),
            forall|px: int, py: int, c: int|
                0 <= px < pitch && 0 <= py && pixel_pos(px, py, pitch as int) + 3 < d0.len() && 0
                    <= c < 4 ==> #[trigger] pixel_byte(data@, px, py, pitch as int, c) == (
                if tb_border(*rect, px, py) && px < rect.x + x {
                    border_byte(r, g, b, c)
                } else {
                    pixel_byte(d0, px, py, pitch as int, c)
                }),
        decreases rect.w - x,
    {
        write_pixel(data, x + rect.x, rect.y, pitch, r, g, b);
        write_pixel(data, x + rect.x, rect.y + 1, pitch, r, g, b);
        write_pixel(data, x + rect.x, rect.y + rect.h - 1, pitch, r, g, b);
        write_pixel(data, x + rect.x, rect.y + rect.h - 2, pitch, r, g, b);
        x += 1;
    }
    let mut y: i32 = 0;
    while y < rect.h
        invariant
            0 <= y <= rect.h,
            data@.len() == d0.len(),
            forall|px: int, py: int, c: int|
                0 <= px < pitch && 0 <= py && pixel_pos(px, py, pitch as int) + 3 < d0.len() && 0
                    <= c < 4 ==> #[trigger] pixel_byte(data@, px, py, pitch as int, c) == (
                if tb_border(*rect, px, py) || (lr_border(*rect, px, py) && py < rect.y + y) {
                    border_byte(r, g, b, c)
                } else {
                    pixel_byte(d0, px, py, pitch as int, c)
                }),
        decreases rect.h - y,
    {
        write_pixel(data, rect.x, rect.y + y, pitch, r, g, b);
        write_pixel(data, rect.x + 1, rect.y + y, pitch, r, g, b);
        write_pixel(data, rect.x + rect.w - 1, rect.y + y, pitch, r, g, b);
        write_pixel(data, rect.x + rect.w - 2, rect.y + y, pitch, r, g, b);
        y += 1;
    }
}

/// The byte a border pixel carries in channel `c`: the colour components,
/// then full alpha.
pub open spec fn border_byte(r: u8, g: u8, b: u8, c: int) -> u8 {
    if c == 0 {
        r
    } else if c == 1 {
        g
    } else if c == 2 {
        b
    } else {
        255u8
    }
}

/// Relies on rand's `thread_rng` and `Uniform::from(0..255)`: sampling the
/// half-open range yields a value below 255.
#[verifier::external_body]
fn random_color_component() -> (r: u8)
    ensures
        r < 255,
{
    let mut rng = rand::thread_rng();
    let range = rand::distributions::Uniform::from(0..255);
    rand::distributions::Distribution::sample(&range, &mut rng) as u8
}

/// The buffer `new` is `old` with the outline of `rect` drawn in colour
/// `(r, g, b)`: every border pixel carries the colour with full alpha,
/// every other pixel is untouched.
pub open spec fn drawn(
    old_data: Seq<u8>,
    new_data: Seq<u8>,
    pitch: int,
    rect: Rect,
    r: u8,
    g: u8,
    b: u8,
) -> bool {
    forall|px: int, py: int, c: int|
        0 <= px < pitch && 0 <= py && pixel_pos(px, py, pitch) + 3 < old_data.len() && 0 <= c < 4
            ==> #[trigger] pixel_byte(new_data, px, py, pitch, c) == (if on_border(rect, px, py) {
            border_byte(r, g, b, c)
        } else {
            pixel_byte(old_data, px, py, pitch, c)
        })
}

/// Draw the outline of `rect` in a randomly chosen colour: for some colour
/// components below 255, every border pixel carries them with full alpha
/// and every other pixel is untouched.
pub fn draw_rect(data: &mut Vec<u8>, pitch: i32, rect: &Rect)
    requires
        0 < pitch,
        0 <= rect.x,
        0 <= rect.y,
        2 <= rect.w,
        2 <= rect.h,
        rect.x + rect.w <= pitch,
        (rect.y + rect.h) * pitch * 4 <= old(data)@.len(),
        old(data)@.len() <= i32::MAX,
    ensures
        final(data)@.len() == old(data)@.len(),
        exists|r: u8, g: u8, b: u8|
            r < 255 && g < 255 && b < 255 && #[trigger] drawn(
                old(data)@,
                final(data)@,
                pitch as int,
                *rect,
                r,
                g,
                b,
            ),
{
    let r = random_color_component();
    let g = random_color_component();
    let b = random_color_component();
    draw_rect_colored(data, pitch, rect, r, g, b);
    proof {
        assert(drawn(old(data)@, data@, pitch as int, *rect, r, g, b));
    }
}

} // verus!
