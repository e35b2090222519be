//! Pixel arithmetic for composing the atlas buffer.
//!
//! A pixel buffer of extent `(w, h)` is a byte vector of length
//! `4 * w * h`, row after row, four bytes per pixel. The spec functions
//! here name the byte position of a pixel's channel and, conversely, the
//! pixel coordinates a byte position belongs to; [`blit`] copies one image
//! into a larger buffer at a given origin and touches nothing else.

use vstd::arithmetic::div_mod::{
    lemma_fundamental_div_mod, lemma_fundamental_div_mod_converse, lemma_mod_pos_bound,
};
use vstd::prelude::*;

use crate::builder::StoredImage;
use crate::geometry::{Extent, MAX_DIM};

verus! {

/// Byte position of channel `k` of the pixel at `(px, py)` in a buffer
/// `width` pixels wide.
pub open spec fn pixel_byte_index(width: int, px: int, py: int, k: int) -> int {
    4 * (py * width + px) + k
}

/// Horizontal pixel coordinate that byte position `p` belongs to, in a
/// buffer `width` pixels wide.
pub open spec fn byte_pos_x(width: int, p: int) -> int {
    (p / 4) % width
}

/// Vertical pixel coordinate that byte position `p` belongs to.
pub open spec fn byte_pos_y(width: int, p: int) -> int {
    (p / 4) / width
}

/// Byte position `p` lies in the region of `extent` pixels anchored at
/// `(x, y)`, in a buffer `width` pixels wide.
pub open spec fn region_covers(width: int, x: int, y: int, extent: Extent, p: int) -> bool {
    &&& x <= byte_pos_x(width, p) < x + extent.width
    &&& y <= byte_pos_y(width, p) < y + extent.height
}

/// The byte positions of a pixel's channels decode back to that pixel's
/// coordinates.
pub proof fn lemma_pixel_coords(width: int, px: int, py: int, k: int)
    requires
        0 <= px < width,
        0 <= py,
        0 <= k < 4,
    ensures
        byte_pos_x(width, pixel_byte_index(width, px, py, k)) == px,
        byte_pos_y(width, pixel_byte_index(width, px, py, k)) == py,
    decreases 0int,
{
    let p = pixel_byte_index(width, px, py, k);
    lemma_fundamental_div_mod_converse(p, 4, py * width + px, k);
    lemma_fundamental_div_mod_converse(py * width + px, width, py, px);
}

/// A pixel's channel bytes lie inside a buffer of its extent.
pub proof fn lemma_pixel_index_bounds(width: int, height: int, px: int, py: int, k: int)
    requires
        0 <= px < width,
        0 <= py < height,
        0 <= k < 4,
    ensures
        0 <= pixel_byte_index(width, px, py, k) < 4 * width * height,
{
    assert(0 <= pixel_byte_index(width, px, py, k) < 4 * width * height) by (nonlinear_arith)
        requires
            0 <= px < width,
            0 <= py < height,
            0 <= k < 4,
    {}
}

/// Every byte position decomposes into the pixel coordinates and channel
/// it belongs to.
pub proof fn lemma_byte_pos_decompose(width: int, p: int)
    requires
        p >= 0,
        width >= 1,
    ensures
        p == pixel_byte_index(width, byte_pos_x(width, p), byte_pos_y(width, p), p % 4),
        0 <= p % 4 < 4,
        0 <= byte_pos_x(width, p) < width,
        0 <= byte_pos_y(width, p),
{
    lemma_fundamental_div_mod(p, 4);
    lemma_mod_pos_bound(p, 4);
    lemma_fundamental_div_mod(p / 4, width);
    lemma_mod_pos_bound(p / 4, width);
    assert(byte_pos_y(width, p) * width == width * byte_pos_y(width, p)) by (nonlinear_arith);
}

/// Every pixel of `img` appears unmodified in `atlas` at the region
/// anchored at `rect`'s origin, channel for channel.
pub open spec fn region_matches(atlas: StoredImage, rect: crate::geometry::Rect, img: StoredImage) -> bool {
    forall|c: int, r: int, k: int|
        0 <= c < img.width && 0 <= r < img.height && 0 <= k < 4 ==> atlas.pixels@[pixel_byte_index(
            atlas.width as int,
            rect.x + c,
            rect.y + r,
            k,
        )] == img.pixels@[#[trigger] pixel_byte_index(img.width as int, c, r, k)]
}

/// Regions anchored inside two disjoint rectangles share no byte position.
pub proof fn lemma_disjoint_regions(
    width: int,
    ra: crate::geometry::Rect,
    rb: crate::geometry::Rect,
    ea: Extent,
    eb: Extent,
    p: int,
)
    requires
        ea.width <= ra.width,
        ea.height <= ra.height,
        eb.width <= rb.width,
        eb.height <= rb.height,
        crate::geometry::disjoint(ra, rb),
    ensures
        !(region_covers(width, ra.x as int, ra.y as int, ea, p) && region_covers(
            width,
            rb.x as int,
            rb.y as int,
            eb,
            p,
        )),
{
}

/// Copy `img` into `buf` with its top-left pixel at `(x, y)`.
///
/// Afterwards every byte of the covered region holds the corresponding
/// image byte and every byte outside it is exactly what it was.
pub(crate) fn blit(buf: &mut Vec<u8>, canvas: Extent, img: &StoredImage, x: u32, y: u32)
    requires
        canvas.width <= MAX_DIM,
        canvas.height <= MAX_DIM,
        old(buf)@.len() == 4 * canvas.width * canvas.height,
        img.wf(),
        x + img.width <= canvas.width,
        y + img.height <= canvas.height,
    ensures
        final(buf)@.len() == old(buf)@.len(),
        forall|c: int, r: int, k: int|
            0 <= c < img.width && 0 <= r < img.height && 0 <= k < 4 ==> final(buf)@[
                pixel_byte_index(canvas.width as int, x + c, y + r, k)
            ] == img.pixels@[pixel_byte_index(img.width as int, c, r, k)],
        forall|p: int|
            0 <= p < old(buf)@.len() && !region_covers(
                canvas.width as int,
                x as int,
                y as int,
                img.extent(),
                p,
            ) ==> final(buf)@[p] == old(buf)@[p],
{
    let ghost buf0 = buf@;
    let cw = canvas.width as usize;
    let iw = img.width as usize;
    let mut r: usize = 0;
    while r < img.height as usize
        invariant
            canvas.width <= MAX_DIM,
            canvas.height <= MAX_DIM,
            img.wf(),
            x + img.width <= canvas.width,
            y + img.height <= canvas.height,
            cw == canvas.width,
            iw == img.width,
            r <= img.height,
            buf@.len() == 4 * canvas.width * canvas.height,
            buf0.len() == buf@.len(),
            forall|c: int, rr: int, k: int|
                0 <= c < img.width && 0 <= rr < r && 0 <= k < 4 ==> buf@[pixel_byte_index(
                    canvas.width as int,
                    x + c,
                    y + rr,
                    k,
                )] == img.pixels@[pixel_byte_index(img.width as int, c, rr, k)],
            forall|p: int|
                0 <= p < buf@.len() && !(region_covers(
                    canvas.width as int,
                    x as int,
                    y as int,
                    img.extent(),
                    p,
                ) && byte_pos_y(canvas.width as int, p) < y + r) ==> buf@[p] == buf0[p],
        decreases img.height - r,
    {
        let ghost row_start = buf@;
        let mut c: usize = 0;
        while c < iw
            invariant
                canvas.width <= MAX_DIM,
                canvas.height <= MAX_DIM,
                img.wf(),
                x + img.width <= canvas.width,
                y + img.height <= canvas.height,
                cw == canvas.width,
                iw == img.width,
                r < img.height,
                c <= img.width,
                buf@.len() == 4 * canvas.width * canvas.height,
                row_start.len() == buf@.len(),
                forall|cc: int, k: int|
                    0 <= cc < c && 0 <= k < 4 ==> buf@[pixel_byte_index(
                        canvas.width as int,
                        x + cc,
                        y + r,
                        k,
                    )] == img.pixels@[pixel_byte_index(img.width as int, cc, r as int, k)],
                forall|p: int|
                    0 <= p < buf@.len() && !(region_covers(
                        canvas.width as int,
                        x as int,
                        y as int,
                        img.extent(),
                        p,
                    ) && byte_pos_y(canvas.width as int, p) == y + r && byte_pos_x(
                        canvas.width as int,
                        p,
                    ) < x + c) ==> buf@[p] == row_start[p],
            decreases iw - c,
        {
            proof {
                assert((y + r) * canvas.width + (x + c) < MAX_DIM * MAX_DIM) by (nonlinear_arith)
                    requires
                        0 <= y + r < canvas.height,
                        0 <= x + c < canvas.width,
                        canvas.width <= MAX_DIM,
                        canvas.height <= MAX_DIM,
                {}
                assert(r * img.width + c < MAX_DIM * MAX_DIM) by (nonlinear_arith)
                    requires
                        0 <= r < img.height,
                        0 <= c < img.width,
                        img.width <= MAX_DIM,
                        img.height <= MAX_DIM,
                {}
            }
            let dst_base: usize = 4 * ((y as usize + r) * cw + (x as usize + c));
            let src_base: usize = 4 * (r * iw + c);
            proof {
                lemma_pixel_index_bounds(
                    canvas.width as int,
                    canvas.height as int,
                    x + c,
                    y + r,
                    0,
                );
                lemma_pixel_index_bounds(img.width as int, img.height as int, c as int, r as int, 0);
                assert(4 * ((y + r) * canvas.width + (x + c)) + 3 < 4 * canvas.width
                    * canvas.height) by {
                    lemma_pixel_index_bounds(
                        canvas.width as int,
                        canvas.height as int,
                        x + c,
                        y + r,
                        3,
                    );
                }
                assert(4 * (r * img.width + c) + 3 < 4 * img.width * img.height) by {
                    lemma_pixel_index_bounds(
                        img.width as int,
                        img.height as int,
                        c as int,
                        r as int,
                        3,
                    );
                }
            }
            let ghost before_pixel = buf@;
            buf[dst_base] = img.pixels[src_base];
            buf[dst_base + 1] = img.pixels[src_base + 1];
            buf[dst_base + 2] = img.pixels[src_base + 2];
            buf[dst_base + 3] = img.pixels[src_base + 3];
            proof {
                lemma_pixel_coords(canvas.width as int, x + c, y + r, 0);
                assert forall|p: int|
                    0 <= p < buf@.len() && !(region_covers(
                        canvas.width as int,
                        x as int,
                        y as int,
                        img.extent(),
                        p,
                    ) && byte_pos_y(canvas.width as int, p) == y + r && byte_pos_x(
                        canvas.width as int,
                        p,
                    ) < x + c + 1) implies buf@[p] == row_start[p] by {
                    if dst_base <= p < dst_base + 4 {
                        let k = p - dst_base;
                        lemma_pixel_coords(canvas.width as int, x + c, y + r, k);
                        assert(p == pixel_byte_index(canvas.width as int, x + c, y + r, k));
                        assert(false);
                    } else {
                        assert(buf@[p] == before_pixel[p]);
                    }
                }
                assert forall|cc: int, k: int| 0 <= cc < c + 1 && 0 <= k < 4 implies buf@[
                    pixel_byte_index(canvas.width as int, x + cc, y + r, k)
                ] == img.pixels@[pixel_byte_index(img.width as int, cc, r as int, k)] by {
                    let p = pixel_byte_index(canvas.width as int, x + cc, y + r, k);
                    if cc == c {
                        assert(p == dst_base + k);
                    } else {
                        lemma_pixel_coords(canvas.width as int, x + cc, y + r, k);
                        assert(!(dst_base <= p < dst_base + 4)) by {
                            if dst_base <= p < dst_base + 4 {
                                lemma_pixel_coords(canvas.width as int, x + c, y + r, p - dst_base);
                            }
                        }
                        assert(buf@[p] == before_pixel[p]);
                    }
                }
            }
            c = c + 1;
        }
        proof {
            assert forall|p: int|
                0 <= p < buf@.len() && !(region_covers(
                    canvas.width as int,
                    x as int,
                    y as int,
                    img.extent(),
                    p,
                ) && byte_pos_y(canvas.width as int, p) < y + r + 1) implies buf@[p] == buf0[p] by {
                if region_covers(canvas.width as int, x as int, y as int, img.extent(), p)
                    && byte_pos_y(canvas.width as int, p) == y + r {
                    assert(byte_pos_x(canvas.width as int, p) < x + img.width);
                } else {
                    assert(buf@[p] == row_start[p]);
                }
            }
            assert forall|cx: int, rr: int, k: int|
                0 <= cx < img.width && 0 <= rr < r + 1 && 0 <= k < 4 implies buf@[pixel_byte_index(
                canvas.width as int,
                x + cx,
                y + rr,
                k,
            )] == img.pixels@[pixel_byte_index(img.width as int, cx, rr, k)] by {
                if rr < r {
                    let p = pixel_byte_index(canvas.width as int, x + cx, y + rr, k);
                    lemma_pixel_coords(canvas.width as int, x + cx, y + rr, k);
                    lemma_pixel_index_bounds(
                        canvas.width as int,
                        canvas.height as int,
                        x + cx,
                        y + rr,
                        k,
                    );
                    assert(buf@[p] == row_start[p]);
                }
            }
        }
        r = r + 1;
    }
}

} // verus!
