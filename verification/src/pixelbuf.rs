//! Row-major RGBA pixel buffers: byte addressing and single-pixel writes,
//! shared by the compositing and debug-drawing modules.

use vstd::prelude::*;

verus! {

/// Byte offset of pixel `(x, y)` in a row-major RGBA buffer of row length
/// `pitch`.
pub open spec fn pixel_pos(x: int, y: int, pitch: int) -> int {
    (x + y * pitch) * 4
}

/// Byte `c` (0..4) of pixel `(px, py)` in the buffer.
pub open spec fn pixel_byte(data: Seq<u8>, px: int, py: int, pitch: int, c: int) -> u8 {
    data[pixel_pos(px, py, pitch) + c]
}

/// Distinct pixel coordinates occupy disjoint 4-byte cells.
pub proof fn lemma_pixel_pos_disjoint(x1: int, y1: int, x2: int, y2: int, pitch: int)
    requires
        0 < pitch,
        0 <= x1 < pitch,
        0 <= x2 < pitch,
        0 <= y1,
        0 <= y2,
        (x1, y1) != (x2, y2),
    ensures
        pixel_pos(x1, y1, pitch) + 3 < pixel_pos(x2, y2, pitch) || pixel_pos(x2, y2, pitch) + 3
            < pixel_pos(x1, y1, pitch),
{
    assert((x1 + y1 * pitch) != (x2 + y2 * pitch)) by (nonlinear_arith)
        requires
            0 < pitch,
            0 <= x1 < pitch,
            0 <= x2 < pitch,
            0 <= y1,
            0 <= y2,
            (x1, y1) != (x2, y2),
    ;
}

/// Store the four channel bytes of pixel `(x, y)`; every other pixel is
/// untouched.
pub fn put_pixel(data: &mut Vec<u8>, x: i32, y: i32, pitch: i32, b0: u8, b1: u8, b2: u8, b3: u8)
    requires
        0 < pitch,
        0 <= x < pitch,
        0 <= y,
        pixel_pos(x as int, y as int, pitch as int) + 3 < old(data)@.len(),
        old(data)@.len() <= i32::MAX,
    ensures
        final(data)@.len() == old(data)@.len(),
        final(data)@[pixel_pos(x as int, y as int, pitch as int)] == b0,
        final(data)@[pixel_pos(x as int, y as int, pitch as int) + 1] == b1,
        final(data)@[pixel_pos(x as int, y as int, pitch as int) + 2] == b2,
        final(data)@[pixel_pos(x as int, y as int, pitch as int) + 3] == b3,
        forall|px: int, py: int, c: int|
            0 <= px < pitch && 0 <= py && (px, py) != (x as int, y as int) && pixel_pos(
                px,
                py,
                pitch as int,
            ) + 3 < old(data)@.len() && 0 <= c < 4 ==> #[trigger] pixel_byte(
                final(data)@,
                px,
                py,
                pitch as int,
                c,
            ) == pixel_byte(old(data)@, px, py, pitch as int, c),
{
    proof {
        assert(0 <= y * pitch && (x + y * pitch) * 4 == pixel_pos(x as int, y as int, pitch as int))
            by (nonlinear_arith)
            requires
                0 < pitch,
                0 <= x,
                0 <= y,
        ;
    }
    let pos = (x + y * pitch) * 4;
    data[(pos + 0) as usize] = b0;
    data[(pos + 1) as usize] = b1;
    data[(pos + 2) as usize] = b2;
    data[(pos + 3) as usize] = b3;
    proof {
        assert forall|px: int, py: int, c: int|
            0 <= px < pitch && 0 <= py && (px, py) != (x as int, y as int) && pixel_pos(
                px,
                py,
                pitch as int,
            ) + 3 < old(data)@.len() && 0 <= c < 4 implies #[trigger] pixel_byte(
            data@,
            px,
            py,
            pitch as int,
            c,
        ) == pixel_byte(old(data)@, px, py, pitch as int, c) by {
            lemma_pixel_pos_disjoint(px, py, x as int, y as int, pitch as int);
        }
    }
}

} // verus!
