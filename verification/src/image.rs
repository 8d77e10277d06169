//! Pixel sums over rectangles of BGRA8 images, and the box-filter
//! downscale used before OCR on oversized regions.
//!
//! An image is a byte sequence, `stride` bytes per row, 4 bytes per pixel in
//! the order blue, green, red, alpha.
use vstd::prelude::*;

verus! {

/// Sum of channel `c` over the pixels `x0..x` of the row starting at byte `base`.
pub open spec fn row_sum(px: Seq<u8>, base: int, x0: int, x: int, c: int) -> int
    decreases x - x0,
{
    if x <= x0 {
        0
    } else {
        row_sum(px, base, x0, x - 1, c) + px[base + (x - 1) * 4 + c]
    }
}

/// Sum of channel `c` over columns `x0..x1` of rows `y0..y`.
pub open spec fn box_sum(px: Seq<u8>, stride: int, x0: int, x1: int, y0: int, y: int, c: int) -> int
    decreases y - y0,
{
    if y <= y0 {
        0
    } else {
        box_sum(px, stride, x0, x1, y0, y - 1, c) + row_sum(px, (y - 1) * stride, x0, x1, c)
    }
}

/// The number of pixels in columns `x0..x1` of rows `y0..y1`.
pub open spec fn box_count(x0: int, x1: int, y0: int, y1: int) -> int {
    (if x1 > x0 {
        x1 - x0
    } else {
        0
    }) * (if y1 > y0 {
        y1 - y0
    } else {
        0
    })
}

/// Every byte of a row is at most 255, so a row sum is at most 255 per pixel.
pub proof fn lemma_row_sum_bounds(px: Seq<u8>, base: int, x0: int, x: int, c: int)
    ensures
        0 <= row_sum(px, base, x0, x, c) <= 255 * (if x > x0 {
            x - x0
        } else {
            0
        }),
    decreases x - x0,
{
    if x > x0 {
        lemma_row_sum_bounds(px, base, x0, x - 1, c);
    }
}

/// A box sum is at most 255 per pixel.
pub proof fn lemma_box_sum_bounds(px: Seq<u8>, stride: int, x0: int, x1: int, y0: int, y: int, c: int)
    ensures
        0 <= box_sum(px, stride, x0, x1, y0, y, c) <= 255 * box_count(x0, x1, y0, y),
    decreases y - y0,
{
    if y > y0 {
        lemma_box_sum_bounds(px, stride, x0, x1, y0, y - 1, c);
        lemma_row_sum_bounds(px, (y - 1) * stride, x0, x1, c);
        let w = if x1 > x0 {
            x1 - x0
        } else {
            0
        };
        assert(box_count(x0, x1, y0, y) == box_count(x0, x1, y0, y - 1) + w) by (nonlinear_arith)
            requires
                y > y0,
                box_count(x0, x1, y0, y) == w * (y - y0),
                box_count(x0, x1, y0, y - 1) == w * (if y - 1 > y0 {
                    y - 1 - y0
                } else {
                    0
                }),
        ;
    }
}

/// Byte offset of pixel `(x, y)` stays inside an image of `height` rows of
/// `width` pixels.
pub proof fn lemma_pixel_offset(x: int, y: int, width: int, height: int)
    requires
        0 <= x < width,
        0 <= y < height,
    ensures
        0 <= y * (width * 4) + x * 4,
        y * (width * 4) + x * 4 + 4 <= height * width * 4,
{
    assert(y * (width * 4) + x * 4 + 4 <= height * width * 4) by (nonlinear_arith)
        requires
            0 <= x < width,
            0 <= y < height,
    ;
    assert(0 <= y * (width * 4)) by (nonlinear_arith)
        requires
            0 <= y,
            0 <= width,
    ;
}

/// The blue, green and red sums and the pixel count of columns `x0..x1` of
/// rows `y0..y1` of an image of rows `width` pixels wide.
pub fn box_sums(px: &[u8], width: u32, height: u32, x0: u32, x1: u32, y0: u32, y1: u32) -> (r: (
    u64,
    u64,
    u64,
    u64,
))
    requires
        x1 > x0 && y1 > y0 ==> x1 <= width && y1 <= height,
        px.len() >= height as int * width as int * 4,
        width as int * height as int <= 0x1_0000_0000_0000,
    ensures
        r.0 == box_sum(px@, width * 4, x0 as int, x1 as int, y0 as int, y1 as int, 0),
        r.1 == box_sum(px@, width * 4, x0 as int, x1 as int, y0 as int, y1 as int, 1),
        r.2 == box_sum(px@, width * 4, x0 as int, x1 as int, y0 as int, y1 as int, 2),
        r.3 == box_count(x0 as int, x1 as int, y0 as int, y1 as int),
{
    let ghost stride = width * 4;
    let mut b: u64 = 0;
    let mut g: u64 = 0;
    let mut r: u64 = 0;
    let mut count: u64 = 0;
    if x1 <= x0 || y1 <= y0 {
        proof {
            if y1 > y0 {
                assert forall|y: int| y0 < y <= y1 implies #[trigger] box_sum(px@, stride, x0 as int, x1 as int, y0 as int, y, 0) == 0
                    && box_sum(px@, stride, x0 as int, x1 as int, y0 as int, y, 1) == 0
                    && box_sum(px@, stride, x0 as int, x1 as int, y0 as int, y, 2) == 0 by {
                    lemma_box_sum_bounds(px@, stride, x0 as int, x1 as int, y0 as int, y, 0);
                    lemma_box_sum_bounds(px@, stride, x0 as int, x1 as int, y0 as int, y, 1);
                    lemma_box_sum_bounds(px@, stride, x0 as int, x1 as int, y0 as int, y, 2);
                    assert(box_count(x0 as int, x1 as int, y0 as int, y) == 0);
                }
            }
        }
        return (0, 0, 0, 0);
    }
    assert((x1 - x0) * (y1 - y0) <= width as int * height as int) by (nonlinear_arith)
        requires
            x0 < x1 <= width,
            y0 < y1 <= height,
    ;
    let mut y = y0;
    while y < y1
        invariant
            x0 < x1 <= width,
            y0 <= y <= y1 <= height,
            px.len() >= height as int * width as int * 4,
            width as int * height as int <= 0x1_0000_0000_0000,
            (x1 - x0) * (y1 - y0) <= width as int * height as int,
            stride == width * 4,
            b == box_sum(px@, stride, x0 as int, x1 as int, y0 as int, y as int, 0),
            g == box_sum(px@, stride, x0 as int, x1 as int, y0 as int, y as int, 1),
            r == box_sum(px@, stride, x0 as int, x1 as int, y0 as int, y as int, 2),
            count == box_count(x0 as int, x1 as int, y0 as int, y as int),
        decreases y1 - y,
    {
        let ghost (b0, g0, r0) = (b, g, r);
        proof {
            lemma_box_sum_bounds(px@, stride, x0 as int, x1 as int, y0 as int, y + 1, 0);
            lemma_box_sum_bounds(px@, stride, x0 as int, x1 as int, y0 as int, y + 1, 1);
            lemma_box_sum_bounds(px@, stride, x0 as int, x1 as int, y0 as int, y + 1, 2);
            assert(box_count(x0 as int, x1 as int, y0 as int, y + 1) <= (x1 - x0) * (y1 - y0)) by (nonlinear_arith)
                requires
                    x0 < x1,
                    y0 <= y < y1,
                    box_count(x0 as int, x1 as int, y0 as int, y + 1) == (x1 - x0) * (y + 1 - y0),
            ;
        }
        let mut x = x0;
        while x < x1
            invariant
                x0 <= x <= x1 <= width,
                y0 <= y < y1 <= height,
                px.len() >= height as int * width as int * 4,
                (x1 - x0) * (y1 - y0) <= width as int * height as int,
                width as int * height as int <= 0x1_0000_0000_0000,
                stride == width * 4,
                b == b0 + row_sum(px@, y * stride, x0 as int, x as int, 0),
                g == g0 + row_sum(px@, y * stride, x0 as int, x as int, 1),
                r == r0 + row_sum(px@, y * stride, x0 as int, x as int, 2),
                b0 + row_sum(px@, y * stride, x0 as int, x1 as int, 0) <= 255 * box_count(
                    x0 as int,
                    x1 as int,
                    y0 as int,
                    y + 1,
                ),
                g0 + row_sum(px@, y * stride, x0 as int, x1 as int, 1) <= 255 * box_count(
                    x0 as int,
                    x1 as int,
                    y0 as int,
                    y + 1,
                ),
                r0 + row_sum(px@, y * stride, x0 as int, x1 as int, 2) <= 255 * box_count(
                    x0 as int,
                    x1 as int,
                    y0 as int,
                    y + 1,
                ),
                box_count(x0 as int, x1 as int, y0 as int, y + 1) <= (x1 - x0) * (y1 - y0),
                count == box_count(x0 as int, x1 as int, y0 as int, y as int) + (x - x0),
            decreases x1 - x,
        {
            proof {
                lemma_pixel_offset(x as int, y as int, width as int, height as int);
                lemma_row_sum_bounds(px@, y * stride, x0 as int, x as int + 1, 0);
                lemma_row_sum_bounds(px@, y * stride, x0 as int, x as int + 1, 1);
                lemma_row_sum_bounds(px@, y * stride, x0 as int, x as int + 1, 2);
                assert(row_sum(px@, y * stride, x0 as int, x1 as int, 0) >= row_sum(px@, y * stride, x0 as int, x + 1, 0)) by {
                    lemma_row_sum_monotone(px@, y * stride, x0 as int, x + 1, x1 as int, 0);
                }
                assert(row_sum(px@, y * stride, x0 as int, x1 as int, 1) >= row_sum(px@, y * stride, x0 as int, x + 1, 1)) by {
                    lemma_row_sum_monotone(px@, y * stride, x0 as int, x + 1, x1 as int, 1);
                }
                assert(row_sum(px@, y * stride, x0 as int, x1 as int, 2) >= row_sum(px@, y * stride, x0 as int, x + 1, 2)) by {
                    lemma_row_sum_monotone(px@, y * stride, x0 as int, x + 1, x1 as int, 2);
                }
                assert(box_count(x0 as int, x1 as int, y0 as int, y as int) + (x - x0) + 1 <= box_count(x0 as int, x1 as int, y0 as int, y + 1)) by (nonlinear_arith)
                    requires
                        x0 <= x < x1,
                        y0 <= y,
                        box_count(x0 as int, x1 as int, y0 as int, y as int) == (x1 - x0) * (y - y0),
                        box_count(x0 as int, x1 as int, y0 as int, y + 1) == (x1 - x0) * (y + 1 - y0),
                ;
            }
            assert(width as int * 4 <= height as int * width as int * 4) by (nonlinear_arith)
                requires
                    y < height,
            ;
            assert(y as int * (width as int * 4) <= height as int * width as int * 4) by (nonlinear_arith)
                requires
                    y < height,
            ;
            let i = (y as usize) * (width as usize * 4) + (x as usize) * 4;
            b = b + px[i] as u64;
            g = g + px[i + 1] as u64;
            r = r + px[i + 2] as u64;
            count = count + 1;
            x = x + 1;
        }
        proof {
            assert(box_count(x0 as int, x1 as int, y0 as int, y + 1) == box_count(x0 as int, x1 as int, y0 as int, y as int) + (x1 - x0)) by (nonlinear_arith)
                requires
                    x0 < x1,
                    y0 <= y,
                    box_count(x0 as int, x1 as int, y0 as int, y as int) == (x1 - x0) * (y - y0),
                    box_count(x0 as int, x1 as int, y0 as int, y + 1) == (x1 - x0) * (y + 1 - y0),
            ;
        }
        y = y + 1;
    }
    (b, g, r, count)
}

/// Row sums grow with the column range.
pub proof fn lemma_row_sum_monotone(px: Seq<u8>, base: int, x0: int, x: int, x1: int, c: int)
    requires
        x <= x1,
    ensures
        row_sum(px, base, x0, x, c) <= row_sum(px, base, x0, x1, c),
    decreases x1 - x,
{
    if x < x1 {
        lemma_row_sum_monotone(px, base, x0, x, x1 - 1, c);
        if x1 - 1 >= x0 {
        }
    }
}

/// First source column (or row) covered by destination column `d` when `s`
/// source pixels shrink to `n`.
pub open spec fn span_start(d: int, s: int, n: int) -> int {
    d * s / n
}

/// One past the last source column (or row) covered by destination column `d`.
pub open spec fn span_end(d: int, s: int, n: int) -> int {
    let e = (d + 1) * s / n;
    if e < s {
        e
    } else {
        s
    }
}

/// Channel `c` of destination pixel `(dx, dy)` of the box-filter downscale
/// of an `sw`×`sh` image to `dw`×`dh`: the average of the covered source
/// pixels for blue, green and red (0 when none is covered), 255 for alpha.
pub open spec fn downscaled_channel(
    src: Seq<u8>,
    sw: int,
    sh: int,
    dw: int,
    dh: int,
    dx: int,
    dy: int,
    c: int,
) -> int {
    if c == 3 {
        255
    } else {
        let x0 = span_start(dx, sw, dw);
        let x1 = span_end(dx, sw, dw);
        let y0 = span_start(dy, sh, dh);
        let y1 = span_end(dy, sh, dh);
        let n = box_count(x0, x1, y0, y1);
        box_sum(src, sw * 4, x0, x1, y0, y1, c) / (if n > 0 {
            n
        } else {
            1
        })
    }
}

/// The source span of one destination column: `d*s/n .. min((d+1)*s/n, s)`.
fn span(d: u32, s: u32, n: u32) -> (r: (u32, u32))
    requires
        d < n,
    ensures
        r.0 == span_start(d as int, s as int, n as int),
        r.1 == span_end(d as int, s as int, n as int),
        r.0 <= r.1 <= s,
{
    proof {
        assert(d as int * s as int <= 0xFFFF_FFFF * 0xFFFF_FFFF) by (nonlinear_arith)
            requires
                d <= 0xFFFF_FFFF,
                s <= 0xFFFF_FFFF,
        ;
        assert((d as int + 1) * s as int <= 0x1_0000_0000 * 0xFFFF_FFFF) by (nonlinear_arith)
            requires
                d + 1 <= 0x1_0000_0000,
                s <= 0xFFFF_FFFF,
        ;
        assert(d as int * s as int / n as int <= s) by (nonlinear_arith)
            requires
                d < n,
                0 <= s,
        ;
        assert((d as int + 1) * s as int / n as int <= s) by (nonlinear_arith)
            requires
                d < n,
                0 <= s,
        ;
        assert(d as int * s as int / n as int <= (d as int + 1) * s as int / n as int) by (nonlinear_arith)
            requires
                0 <= d < n,
                0 <= s,
        ;
    }
    let p0 = d as u64 * s as u64;
    let p1 = (d as u64 + 1) * s as u64;
    let q0 = p0 / n as u64;
    let q1 = p1 / n as u64;
    let start = q0 as u32;
    let e = q1 as u32;
    let end = if e < s {
        e
    } else {
        s
    };
    (start, end)
}

/// Destination pixel `(px, py)` was written before `(dx, dy)`: its bytes
/// come first.
pub proof fn lemma_pixel_index(px: int, py: int, dx: int, dy: int, dw: int)
    requires
        0 <= px < dw,
        0 <= dx <= dw,
        0 <= py,
        py < dy || (py == dy && px < dx),
    ensures
        0 <= (py * dw + px) * 4,
        (py * dw + px) * 4 + 4 <= (dy * dw + dx) * 4,
{
    assert((py * dw + px) * 4 + 4 <= (dy * dw + dx) * 4) by (nonlinear_arith)
        requires
            0 <= px < dw,
            0 <= dx <= dw,
            0 <= py,
            py < dy || (py == dy && px < dx),
    ;
    assert(0 <= py * dw) by (nonlinear_arith)
        requires
            0 <= py,
            0 <= dw,
    ;
}

/// Simple box-filter downscale of a BGRA8 image of `sw`×`sh` pixels to
/// `dw`×`dh`. When the target is not smaller in either direction the image
/// is returned unchanged.
pub fn downscale(src: &[u8], sw: u32, sh: u32, dw: u32, dh: u32) -> (out: Vec<u8>)
    requires
        !(dw >= sw && dh >= sh) ==> {
            &&& dw as int * dh as int * 4 <= u32::MAX
            &&& src.len() >= sh as int * sw as int * 4
            &&& sw as int * sh as int <= 0x1_0000_0000_0000
        },
    ensures
        dw >= sw && dh >= sh ==> out@ == src@,
        !(dw >= sw && dh >= sh) ==> {
            &&& out.len() == dw * dh * 4
            &&& forall|dx: int, dy: int, c: int|
                0 <= dx < dw && 0 <= dy < dh && 0 <= c < 4 ==> out@[(dy * dw + dx) * 4 + c]
                    == downscaled_channel(
                    src@,
                    sw as int,
                    sh as int,
                    dw as int,
                    dh as int,
                    dx,
                    dy,
                    c,
                )
        },
{
    if dw >= sw && dh >= sh {
        return vstd::slice::slice_to_vec(src);
    }
    let mut out: Vec<u8> = Vec::new();
    let mut dy: u32 = 0;
    proof {
        assert(0 * dw as int * 4 == 0);
    }
    while dy < dh
        invariant
            dy <= dh,
            dw as int * dh as int * 4 <= u32::MAX,
            src.len() >= sh as int * sw as int * 4,
            sw as int * sh as int <= 0x1_0000_0000_0000,
            out.len() == dy as int * dw as int * 4,
            forall|px: int, py: int, c: int|
                0 <= px < dw && 0 <= py < dy && 0 <= c < 4 ==> out@[(py * dw + px) * 4 + c]
                    == downscaled_channel(
                    src@,
                    sw as int,
                    sh as int,
                    dw as int,
                    dh as int,
                    px,
                    py,
                    c,
                ),
        decreases dh - dy,
    {
        let (sy0, sy1) = span(dy, sh, dh);
        let mut dx: u32 = 0;
        while dx < dw
            invariant
                dx <= dw,
                dy < dh,
                dw as int * dh as int * 4 <= u32::MAX,
                src.len() >= sh as int * sw as int * 4,
                sw as int * sh as int <= 0x1_0000_0000_0000,
                sy0 == span_start(dy as int, sh as int, dh as int),
                sy1 == span_end(dy as int, sh as int, dh as int),
                sy0 <= sy1 <= sh,
                out.len() == (dy as int * dw as int + dx) * 4,
                forall|px: int, py: int, c: int|
                    0 <= px < dw && 0 <= py && (py < dy || (py == dy && px < dx)) && 0 <= c < 4
                        ==> out@[(py * dw + px) * 4 + c] == downscaled_channel(
                        src@,
                        sw as int,
                        sh as int,
                        dw as int,
                        dh as int,
                        px,
                        py,
                        c,
                    ),
            decreases dw - dx,
        {
            let (sx0, sx1) = span(dx, sw, dw);
            let (b, g, r, n) = box_sums(src, sw, sh, sx0, sx1, sy0, sy1);
            let d = if n > 0 {
                n
            } else {
                1
            };
            proof {
                lemma_box_sum_bounds(src@, sw * 4, sx0 as int, sx1 as int, sy0 as int, sy1 as int, 0);
                lemma_box_sum_bounds(src@, sw * 4, sx0 as int, sx1 as int, sy0 as int, sy1 as int, 1);
                lemma_box_sum_bounds(src@, sw * 4, sx0 as int, sx1 as int, sy0 as int, sy1 as int, 2);
                assert(b / d <= 255) by (nonlinear_arith)
                    requires
                        b <= 255 * n,
                        d == (if n > 0 { n } else { 1 }),
                        n >= 0,
                ;
                assert(g / d <= 255) by (nonlinear_arith)
                    requires
                        g <= 255 * n,
                        d == (if n > 0 { n } else { 1 }),
                        n >= 0,
                ;
                assert(r / d <= 255) by (nonlinear_arith)
                    requires
                        r <= 255 * n,
                        d == (if n > 0 { n } else { 1 }),
                        n >= 0,
                ;
                assert((dy as int * dw as int + dx) * 4 + 4 <= dw as int * dh as int * 4) by (nonlinear_arith)
                    requires
                        dx < dw,
                        dy < dh,
                ;
            }
            let ghost base = out.len() as int;
            let ghost before = out@;
            out.push((b / d) as u8);
            out.push((g / d) as u8);
            out.push((r / d) as u8);
            out.push(255);
            proof {
                assert forall|px: int, py: int, c: int|
                    0 <= px < dw && 0 <= py && (py < dy || (py == dy && px < dx + 1)) && 0 <= c < 4
                        implies out@[(py * dw + px) * 4 + c] == downscaled_channel(
                        src@,
                        sw as int,
                        sh as int,
                        dw as int,
                        dh as int,
                        px,
                        py,
                        c,
                    ) by {
                    if py == dy && px == dx {
                        assert((py * dw + px) * 4 == base);
                    } else {
                        lemma_pixel_index(px, py, dx as int, dy as int, dw as int);
                        assert(out@[(py * dw + px) * 4 + c] == before[(py * dw + px) * 4 + c]);
                    }
                }
            }
            dx = dx + 1;
        }
        proof {
            assert((dy as int * dw as int + dw) * 4 == (dy as int + 1) * dw as int * 4) by (nonlinear_arith);
        }
        dy = dy + 1;
    }
    proof {
        assert(dh as int * dw as int * 4 == dw as int * dh as int * 4) by (nonlinear_arith);
    }
    out
}

/// Whether channel `c` holds `v` at every pixel of an image `w` pixels wide
/// and `h` high, rows `stride` bytes apart.
pub open spec fn uniform_channel(px: Seq<u8>, stride: int, w: int, h: int, c: int, v: int) -> bool {
    forall|x: int, y: int| 0 <= x < w && 0 <= y < h ==> #[trigger] px[y * stride + x * 4 + c] == v
}

proof fn lemma_row_sum_uniform(px: Seq<u8>, stride: int, w: int, h: int, y: int, x0: int, x: int, c: int, v: int)
    requires
        uniform_channel(px, stride, w, h, c, v),
        0 <= y < h,
        0 <= x0,
        x <= w,
    ensures
        row_sum(px, y * stride, x0, x, c) == v * (if x > x0 {
            x - x0
        } else {
            0
        }),
    decreases x - x0,
{
    if x > x0 {
        lemma_row_sum_uniform(px, stride, w, h, y, x0, x - 1, c, v);
        assert(px[y * stride + (x - 1) * 4 + c] == v);
        assert(v * (x - x0) == v * (x - 1 - x0) + v) by (nonlinear_arith);
    }
}

proof fn lemma_box_sum_uniform(
    px: Seq<u8>,
    stride: int,
    w: int,
    h: int,
    x0: int,
    x1: int,
    y0: int,
    y: int,
    c: int,
    v: int,
)
    requires
        uniform_channel(px, stride, w, h, c, v),
        0 <= x0,
        x1 <= w,
        0 <= y0,
        y <= h,
    ensures
        box_sum(px, stride, x0, x1, y0, y, c) == v * box_count(x0, x1, y0, y),
    decreases y - y0,
{
    let cw = if x1 > x0 {
        x1 - x0
    } else {
        0
    };
    assert(cw * 0 == 0 && v * 0 == 0) by (nonlinear_arith);
    if y > y0 {
        lemma_box_sum_uniform(px, stride, w, h, x0, x1, y0, y - 1, c, v);
        lemma_row_sum_uniform(px, stride, w, h, y - 1, x0, x1, c, v);
        assert(v * (cw * (y - y0)) == v * (cw * (y - 1 - y0)) + v * cw) by (nonlinear_arith);
        assert(box_count(x0, x1, y0, y) == cw * (y - y0));
        assert(box_count(x0, x1, y0, y - 1) == cw * (y - 1 - y0));
    }
}

/// A box filter keeps a flat colour flat: where channel `c` holds `v` all
/// over the source, every destination pixel that covers source pixels gets
/// `v` there too.
pub proof fn law_downscale_keeps_uniform_channel(
    src: Seq<u8>,
    sw: int,
    sh: int,
    dw: int,
    dh: int,
    c: int,
    v: int,
    dx: int,
    dy: int,
)
    requires
        0 < dw,
        0 < dh,
        0 <= sw,
        0 <= sh,
        0 <= c < 3,
        uniform_channel(src, sw * 4, sw, sh, c, v),
        0 <= dx < dw,
        0 <= dy < dh,
        box_count(
            span_start(dx, sw, dw),
            span_end(dx, sw, dw),
            span_start(dy, sh, dh),
            span_end(dy, sh, dh),
        ) > 0,
    ensures
        downscaled_channel(src, sw, sh, dw, dh, dx, dy, c) == v,
{
    let x0 = span_start(dx, sw, dw);
    let y0 = span_start(dy, sh, dh);
    assert(x0 >= 0 && y0 >= 0) by (nonlinear_arith)
        requires
            x0 == dx * sw / dw,
            y0 == dy * sh / dh,
            0 <= dx,
            0 <= dy,
            0 <= sw,
            0 <= sh,
            0 < dw,
            0 < dh,
    ;
    let x1 = span_end(dx, sw, dw);
    let y1 = span_end(dy, sh, dh);
    lemma_box_sum_uniform(src, sw * 4, sw, sh, x0, x1, y0, y1, c, v);
    let n = box_count(x0, x1, y0, y1);
    assert(v * n / n == v) by (nonlinear_arith)
        requires
            n > 0,
    ;
}

} // verus!
