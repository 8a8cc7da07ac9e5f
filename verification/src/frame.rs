//! Packed RGBA8 frames: row-major, four bytes per pixel.

use vstd::prelude::*;
use crate::color::{packed, Rgb, OPAQUE};

verus! {

/// Bytes taken by one pixel.
pub const BYTES_PER_PIXEL: usize = 4;

/// Where the pixel in column `x` of row `y` starts in a frame `width` wide.
pub open spec fn offset_of(x: int, y: int, width: int) -> int {
    y * 4 * width + 4 * x
}

/// The four bytes of `frame` that start at `offset`.
pub open spec fn pixel_at(frame: Seq<u8>, offset: int) -> Seq<u8> {
    frame.subrange(offset, offset + 4)
}

/// `frame` with the pixel that starts at `offset` replaced by `color`.
pub open spec fn with_pixel(frame: Seq<u8>, offset: int, color: Rgb) -> Seq<u8> {
    Seq::new(
        frame.len(),
        |i: int|
            if offset <= i < offset + 4 {
                packed(color)[i - offset]
            } else {
                frame[i]
            },
    )
}

/// Bytes in a frame of `width` by `height` pixels.
pub open spec fn frame_size(width: int, height: int) -> int {
    width * height * 4
}

/// `shade` can return `c` for pixel (`x`, `y`).
pub open spec fn may_shade<F: Fn(usize, usize) -> Rgb>(shade: F, x: int, y: int, c: Rgb) -> bool {
    call_ensures(shade, (x as usize, y as usize), c)
}

/// Pixel (`x`, `y`) of `frame` holds a colour that `shade` can return for it.
pub open spec fn pixel_shaded<F: Fn(usize, usize) -> Rgb>(
    frame: Seq<u8>,
    width: int,
    x: int,
    y: int,
    shade: F,
) -> bool {
    exists|c: Rgb| #[trigger]
        may_shade(shade, x, y, c) && pixel_at(frame, offset_of(x, y, width)) == packed(c)
}

/// `frame` is a whole image of `width` by `height` pixels, each of them
/// holding a colour that `shade` can return for its coordinates.
pub open spec fn shaded<F: Fn(usize, usize) -> Rgb>(
    frame: Seq<u8>,
    width: int,
    height: int,
    shade: F,
) -> bool {
    &&& frame.len() == frame_size(width, height)
    &&& forall|x: int, y: int|
        0 <= x < width && 0 <= y < height ==> #[trigger] pixel_shaded(frame, width, x, y, shade)
}

/// The frame that shows `image`: pixel (`x`, `y`) holds the bytes of
/// `image(x, y)`, rows one after the other from the top.
pub open spec fn frame_of(width: int, height: int, image: spec_fn(int, int) -> Rgb) -> Seq<u8> {
    Seq::new(
        frame_size(width, height) as nat,
        |i: int| packed(image((i / 4) % width, (i / 4) / width))[i % 4],
    )
}

/// The length of a frame of `width` by `height` pixels, or `None` where that
/// many bytes cannot be addressed.
pub fn frame_len(width: usize, height: usize) -> (len: Option<usize>)
    ensures
        match len {
            Some(n) => n == frame_size(width as int, height as int),
            None => frame_size(width as int, height as int) > usize::MAX,
        },
{
    assert(width * height <= width * height * 4) by (nonlinear_arith)
        requires
            0 <= width,
            0 <= height,
    ;
    match width.checked_mul(height) {
        Some(pixels) => pixels.checked_mul(BYTES_PER_PIXEL),
        None => None,
    }
}

/// Stores `color` at pixel (`x`, `y`) and touches nothing else.
pub fn write_pixel(frame: &mut [u8], x: usize, y: usize, width: usize, color: Rgb)
    requires
        offset_of(x as int, y as int, width as int) + 4 <= old(frame)@.len(),
    ensures
        final(frame)@ == with_pixel(old(frame)@, offset_of(x as int, y as int, width as int), color),
{
    let ghost before = frame@;
    let ghost at = offset_of(x as int, y as int, width as int);
    assert(y * 4 * width == 4 * (y * width) && 0 <= y * width) by (nonlinear_arith)
        requires
            0 <= y,
            0 <= width,
    ;
    let len: usize = frame.len();
    assert(4 * (y * width) + 4 * x + 4 <= len);
    let row: usize = 4 * (y * width);
    let offset: usize = row + 4 * x;
    let bytes: [u8; 4] = color.to_bytes();
    frame[offset] = bytes[0];
    frame[offset + 1] = bytes[1];
    frame[offset + 2] = bytes[2];
    frame[offset + 3] = bytes[3];
    assert(frame@ =~= with_pixel(before, at, color));
}

/// Fills the whole frame: every pixel is asked of `shade` once and stored.
///
/// Columns are walked left to right and each column top to bottom. What the
/// frame held before does not show in the result.
pub fn render<F: Fn(usize, usize) -> Rgb>(frame: &mut [u8], width: usize, height: usize, shade: F)
    requires
        old(frame)@.len() == frame_size(width as int, height as int),
        forall|x: usize, y: usize| x < width && y < height ==> call_requires(shade, (x, y)),
    ensures
        shaded(final(frame)@, width as int, height as int, shade),
{
    let mut x: usize = 0;
    while x < width
        invariant
            x <= width,
            frame@.len() == frame_size(width as int, height as int),
            forall|i: usize, j: usize| i < width && j < height ==> call_requires(shade, (i, j)),
            forall|px: int, py: int|
                0 <= px < x && 0 <= py < height ==> #[trigger] pixel_shaded(
                    frame@,
                    width as int,
                    px,
                    py,
                    shade,
                ),
        decreases width - x,
    {
        let mut y: usize = 0;
        while y < height
            invariant
                x < width,
                y <= height,
                frame@.len() == frame_size(width as int, height as int),
                forall|i: usize, j: usize| i < width && j < height ==> call_requires(shade, (i, j)),
                forall|px: int, py: int|
                    0 <= px < width && 0 <= py < height && (px < x || (px == x && py < y))
                        ==> #[trigger] pixel_shaded(frame@, width as int, px, py, shade),
            decreases height - y,
        {
            let color: Rgb = shade(x, y);
            let ghost before = frame@;
            let ghost at = offset_of(x as int, y as int, width as int);
            proof {
                lemma_pixel_in_frame(x as int, y as int, width as int, height as int);
            }
            write_pixel(frame, x, y, width, color);
            proof {
                assert(pixel_at(frame@, at) =~= packed(color));
                assert(may_shade(shade, x as int, y as int, color));
                assert(pixel_shaded(frame@, width as int, x as int, y as int, shade));
                assert forall|px: int, py: int|
                    0 <= px < width && 0 <= py < height && (px < x || (px == x && py < y))
                    implies #[trigger] pixel_shaded(frame@, width as int, px, py, shade) by {
                    let there = offset_of(px, py, width as int);
                    lemma_pixels_apart(px, py, x as int, y as int, width as int);
                    lemma_pixel_in_frame(px, py, width as int, height as int);
                    assert(pixel_shaded(before, width as int, px, py, shade));
                    assert(pixel_at(frame@, there) =~= pixel_at(before, there));
                }
            }
            y += 1;
        }
        x += 1;
    }
}

/// Every pixel of a frame lies inside the frame.
pub proof fn lemma_pixel_in_frame(x: int, y: int, width: int, height: int)
    requires
        0 <= x < width,
        0 <= y < height,
    ensures
        0 <= offset_of(x, y, width),
        offset_of(x, y, width) + 4 <= frame_size(width, height),
{
    assert(0 <= y * width && y * width + width <= height * width) by (nonlinear_arith)
        requires
            0 <= y < height,
            0 <= width,
    ;
    assert(y * 4 * width == 4 * (y * width) && width * height * 4 == 4 * (height * width))
        by (nonlinear_arith);
}

/// Two different pixels of a frame share no byte.
pub proof fn lemma_pixels_apart(x1: int, y1: int, x2: int, y2: int, width: int)
    requires
        0 <= x1 < width,
        0 <= x2 < width,
        0 <= y1,
        0 <= y2,
        x1 != x2 || y1 != y2,
    ensures
        offset_of(x1, y1, width) + 4 <= offset_of(x2, y2, width) || offset_of(x2, y2, width) + 4
            <= offset_of(x1, y1, width),
{
    assert(y1 * 4 * width == 4 * (y1 * width) && y2 * 4 * width == 4 * (y2 * width))
        by (nonlinear_arith);
    if y1 < y2 {
        assert(y1 * width + width <= y2 * width) by (nonlinear_arith)
            requires
                y1 < y2,
                0 <= width,
        ;
    } else if y2 < y1 {
        assert(y2 * width + width <= y1 * width) by (nonlinear_arith)
            requires
                y2 < y1,
                0 <= width,
        ;
    }
}

/// Byte `i` of a frame belongs to the pixel in column `(i / 4) % width` of
/// row `(i / 4) / width`.
proof fn lemma_pixel_of_byte(i: int, width: int, height: int)
    requires
        0 <= i < frame_size(width, height),
        0 <= width,
        0 <= height,
    ensures
        0 <= (i / 4) % width < width,
        0 <= (i / 4) / width < height,
        offset_of((i / 4) % width, (i / 4) / width, width) == i - i % 4,
{
    let p = i / 4;
    assert(0 < width) by (nonlinear_arith)
        requires
            0 <= i < width * height * 4,
            0 <= width,
            0 <= height,
    ;
    assert(p < width * height) by (nonlinear_arith)
        requires
            i < width * height * 4,
            p == i / 4,
    ;
    assert(0 <= p % width < width && p == width * (p / width) + p % width && 0 <= p / width)
        by (nonlinear_arith)
        requires
            0 < width,
            0 <= p,
    ;
    assert(p / width < height) by (nonlinear_arith)
        requires
            0 < width,
            0 <= p < width * height,
            p == width * (p / width) + p % width,
            0 <= p % width,
    ;
    assert((p / width) * 4 * width + 4 * (p % width) == 4 * p) by (nonlinear_arith)
        requires
            p == width * (p / width) + p % width,
    ;
}

/// Where a shader can return only one colour for each pixel, the frame that
/// it shades is the frame of that image, byte for byte.
pub proof fn lemma_shaded_frame<F: Fn(usize, usize) -> Rgb>(
    frame: Seq<u8>,
    width: usize,
    height: usize,
    shade: F,
    image: spec_fn(int, int) -> Rgb,
)
    requires
        shaded(frame, width as int, height as int, shade),
        forall|x: usize, y: usize, c: Rgb|
            x < width && y < height && call_ensures(shade, (x, y), c) ==> c == image(
                x as int,
                y as int,
            ),
    ensures
        frame == frame_of(width as int, height as int, image),
{
    let w = width as int;
    let h = height as int;
    let target = frame_of(w, h, image);
    assert(frame.len() == target.len());
    assert forall|i: int| 0 <= i < frame.len() implies frame[i] == target[i] by {
        lemma_pixel_of_byte(i, w, h);
        let x = (i / 4) % w;
        let y = (i / 4) / w;
        let at = offset_of(x, y, w);
        assert(pixel_shaded(frame, w, x, y, shade));
        let c = choose|c: Rgb| #[trigger]
            may_shade(shade, x, y, c) && pixel_at(frame, at) == packed(c);
        assert(c == image(x, y));
        assert(pixel_at(frame, at)[i % 4] == frame[at + i % 4]);
    }
    assert(frame =~= target);
}

/// In the frame of an image, pixel (`x`, `y`) holds the bytes of
/// `image(x, y)`.
pub proof fn lemma_frame_of_pixel(
    width: int,
    height: int,
    image: spec_fn(int, int) -> Rgb,
    x: int,
    y: int,
)
    requires
        0 <= x < width,
        0 <= y < height,
    ensures
        pixel_at(frame_of(width, height, image), offset_of(x, y, width)) == packed(image(x, y)),
{
    let frame = frame_of(width, height, image);
    let at = offset_of(x, y, width);
    lemma_pixel_in_frame(x, y, width, height);
    assert(at == 4 * (y * width + x)) by (nonlinear_arith)
        requires
            at == y * 4 * width + 4 * x,
    ;
    assert forall|k: int| 0 <= k < 4 implies #[trigger] pixel_at(frame, at)[k] == packed(
        image(x, y),
    )[k] by {
        let i = at + k;
        let p = y * width + x;
        assert(i / 4 == p && i % 4 == k);
        assert(p % width == x && p / width == y) by (nonlinear_arith)
            requires
                p == y * width + x,
                0 <= x < width,
                0 <= y,
        ;
    }
    assert(pixel_at(frame, at) =~= packed(image(x, y)));
}

/// Every pixel of a shaded frame is fully opaque.
pub proof fn lemma_shaded_opaque<F: Fn(usize, usize) -> Rgb>(
    frame: Seq<u8>,
    width: usize,
    height: usize,
    shade: F,
    i: int,
)
    requires
        shaded(frame, width as int, height as int, shade),
        0 <= i < frame.len(),
        i % 4 == 3,
    ensures
        frame[i] == OPAQUE,
{
    let w = width as int;
    lemma_pixel_of_byte(i, w, height as int);
    let x = (i / 4) % w;
    let y = (i / 4) / w;
    let at = offset_of(x, y, w);
    assert(pixel_shaded(frame, w, x, y, shade));
    let c = choose|c: Rgb| #[trigger]
        may_shade(shade, x, y, c) && pixel_at(frame, at) == packed(c);
    assert(pixel_at(frame, at)[3] == frame[at + 3]);
}

/// Rendering is repeatable: two frames of one size, shaded by one shader
/// that can return only one colour for each pixel, are the same bytes,
/// whatever either buffer held before.
pub proof fn lemma_render_repeatable<F: Fn(usize, usize) -> Rgb>(
    first: Seq<u8>,
    second: Seq<u8>,
    width: usize,
    height: usize,
    shade: F,
)
    requires
        shaded(first, width as int, height as int, shade),
        shaded(second, width as int, height as int, shade),
        forall|x: usize, y: usize, c: Rgb, d: Rgb|
            x < width && y < height && call_ensures(shade, (x, y), c) && call_ensures(
                shade,
                (x, y),
                d,
            ) ==> c == d,
    ensures
        first == second,
{
    let image = |x: int, y: int| choose|c: Rgb| #[trigger] may_shade(shade, x, y, c);
    assert forall|x: usize, y: usize, c: Rgb|
        x < width && y < height && call_ensures(shade, (x, y), c) implies c == image(
        x as int,
        y as int,
    ) by {
        assert(may_shade(shade, x as int, y as int, c));
        assert(may_shade(shade, x as int, y as int, image(x as int, y as int)));
    }
    lemma_shaded_frame(first, width, height, shade, image);
    lemma_shaded_frame(second, width, height, shade, image);
}

} // verus!
