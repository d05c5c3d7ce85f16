//! 3x3 mean-filter blur over an RGBA raster.
//!
//! The raster is a flat row-major sequence of unsigned 8-bit samples,
//! four per pixel in the channel order R, G, B, A. Each interior pixel
//! of the result holds, per channel, the truncating mean of the nine
//! samples of that channel in the 3x3 neighborhood around it; border
//! pixels are copied from the input unchanged.

use vstd::arithmetic::div_mod::lemma_fundamental_div_mod;
use vstd::arithmetic::div_mod::lemma_mod_bound;
use vstd::prelude::*;

verus! {

/// Index of channel `c` of the pixel at `(x, y)` in a row-major RGBA
/// raster of the given width.
pub open spec fn pix_idx(width: int, x: int, y: int, c: int) -> int {
    (y * width + x) * 4 + c
}

/// The raster sample at channel `c` of the pixel at `(x, y)`.
pub open spec fn sample(p: Seq<u8>, width: int, x: int, y: int, c: int) -> int {
    p[pix_idx(width, x, y, c)] as int
}

/// A pixel on the outermost row or column of the raster.
pub open spec fn on_border(width: int, height: int, x: int, y: int) -> bool {
    x == 0 || x == width - 1 || y == 0 || y == height - 1
}

/// The sum of the nine samples of channel `c` in the 3x3 neighborhood
/// centered at `(x, y)`.
pub open spec fn neighborhood_sum(p: Seq<u8>, width: int, x: int, y: int, c: int) -> int {
    sample(p, width, x - 1, y - 1, c) + sample(p, width, x, y - 1, c) + sample(
        p,
        width,
        x + 1,
        y - 1,
        c,
    ) + sample(p, width, x - 1, y, c) + sample(p, width, x, y, c) + sample(p, width, x + 1, y, c)
        + sample(p, width, x - 1, y + 1, c) + sample(p, width, x, y + 1, c) + sample(
        p,
        width,
        x + 1,
        y + 1,
        c,
    )
}

/// The blurred value of channel `c` at `(x, y)`: the neighborhood mean
/// with truncating division.
pub open spec fn blurred_sample(p: Seq<u8>, width: int, x: int, y: int, c: int) -> int {
    neighborhood_sum(p, width, x, y, c) / 9
}

/// What `image_blur` returns for input `p`: the same length, border
/// samples copied, interior samples blurred.
pub open spec fn is_blur_of(r: Seq<u8>, p: Seq<u8>, width: int, height: int) -> bool {
    &&& r.len() == p.len()
    &&& p.len() == width * height * 4
    &&& forall|x: int, y: int, c: int|
        0 <= x < width && 0 <= y < height && 0 <= c < 4 && on_border(width, height, x, y)
            ==> #[trigger] r[pix_idx(width, x, y, c)] == p[pix_idx(width, x, y, c)]
    &&& forall|x: int, y: int, c: int|
        1 <= x < width - 1 && 1 <= y < height - 1 && 0 <= c < 4 ==> #[trigger] r[pix_idx(
            width,
            x,
            y,
            c,
        )] as int == blurred_sample(p, width, x, y, c)
}

/// Row-major pixel indices stay inside the raster.
proof fn lemma_pix_idx_bound(width: int, height: int, x: int, y: int, c: int)
    requires
        0 <= x < width,
        0 <= y < height,
        0 <= c < 4,
    ensures
        0 <= y * width + x < width * height,
        0 <= pix_idx(width, x, y, c) < width * height * 4,
{
    assert(0 <= y * width + x < width * height) by (nonlinear_arith)
        requires
            0 <= x < width,
            0 <= y < height,
    ;
}

/// Distinct channel coordinates have distinct raster indices.
proof fn lemma_pix_idx_injective(
    width: int,
    x1: int,
    y1: int,
    c1: int,
    x2: int,
    y2: int,
    c2: int,
)
    requires
        0 <= x1 < width,
        0 <= x2 < width,
        0 <= y1,
        0 <= y2,
        0 <= c1 < 4,
        0 <= c2 < 4,
        !(x1 == x2 && y1 == y2 && c1 == c2),
    ensures
        pix_idx(width, x1, y1, c1) != pix_idx(width, x2, y2, c2),
{
    assert(y1 * width + x1 != y2 * width + x2 || (x1 == x2 && y1 == y2)) by (nonlinear_arith)
        requires
            0 <= x1 < width,
            0 <= x2 < width,
            0 <= y1,
            0 <= y2,
    ;
}

/// Computes the raster index of channel `c` of the pixel at `(x, y)`.
fn pixel_index(width: usize, height: usize, x: usize, y: usize, c: usize) -> (i: usize)
    requires
        x < width,
        y < height,
        c < 4,
        width * height * 4 <= usize::MAX,
    ensures
        i == pix_idx(width as int, x as int, y as int, c as int),
        i < width * height * 4,
{
    proof {
        lemma_pix_idx_bound(width as int, height as int, x as int, y as int, c as int);
    }
    (y * width + x) * 4 + c
}

/// 3x3 box blur: interior pixels receive the mean of their channel
/// neighborhood, border pixels are copied from the input.
pub fn image_blur(pixels: Vec<u8>, width: usize, height: usize) -> (r: Vec<u8>)
    requires
        pixels@.len() == width * height * 4,
    ensures
        is_blur_of(r@, pixels@, width as int, height as int),
{
    let ghost w = width as int;
    let ghost h = height as int;
    let len = pixels.len();
    let mut result: Vec<u8> = Vec::new();
    while result.len() < len
        invariant
            result.len() <= len,
            len == pixels@.len(),
        decreases len - result.len(),
    {
        result.push(0);
    }

    // Interior pass: blur every pixel that has a full 3x3 neighborhood.
    if width >= 2 && height >= 2 {
        let mut y: usize = 1;
        while y < height - 1
            invariant
                w == width as int,
                h == height as int,
                width >= 2,
                height >= 2,
                1 <= y <= h - 1,
                pixels@.len() == w * h * 4,
                pixels@.len() <= usize::MAX,
                result@.len() == pixels@.len(),
                forall|xx: int, yy: int, cc: int|
                    1 <= xx < w - 1 && 1 <= yy < y && 0 <= cc < 4 ==> #[trigger] result@[pix_idx(
                        w,
                        xx,
                        yy,
                        cc,
                    )] as int == blurred_sample(pixels@, w, xx, yy, cc),
            decreases h - 1 - y,
        {
            let mut x: usize = 1;
            while x < width - 1
                invariant
                    w == width as int,
                    h == height as int,
                    width >= 2,
                    height >= 2,
                    1 <= y <= h - 2,
                    1 <= x <= w - 1,
                    pixels@.len() == w * h * 4,
                    pixels@.len() <= usize::MAX,
                    result@.len() == pixels@.len(),
                    forall|xx: int, yy: int, cc: int|
                        1 <= xx < w - 1 && 1 <= yy < y && 0 <= cc < 4 ==> #[trigger] result@[
                        pix_idx(w, xx, yy, cc)] as int == blurred_sample(pixels@, w, xx, yy, cc),
                    forall|xx: int, cc: int|
                        1 <= xx < x && 0 <= cc < 4 ==> #[trigger] result@[pix_idx(
                            w,
                            xx,
                            y as int,
                            cc,
                        )] as int == blurred_sample(pixels@, w, xx, y as int, cc),
                decreases w - 1 - x,
            {
                let mut c: usize = 0;
                while c < 4
                    invariant
                        w == width as int,
                        h == height as int,
                        width >= 2,
                        height >= 2,
                        1 <= y <= h - 2,
                        1 <= x <= w - 2,
                        0 <= c <= 4,
                        pixels@.len() == w * h * 4,
                        pixels@.len() <= usize::MAX,
                        result@.len() == pixels@.len(),
                        forall|xx: int, yy: int, cc: int|
                            1 <= xx < w - 1 && 1 <= yy < y && 0 <= cc < 4 ==> #[trigger] result@[
                            pix_idx(w, xx, yy, cc)] as int == blurred_sample(
                                pixels@,
                                w,
                                xx,
                                yy,
                                cc,
                            ),
                        forall|xx: int, cc: int|
                            1 <= xx < x && 0 <= cc < 4 ==> #[trigger] result@[pix_idx(
                                w,
                                xx,
                                y as int,
                                cc,
                            )] as int == blurred_sample(pixels@, w, xx, y as int, cc),
                        forall|cc: int|
                            0 <= cc < c ==> #[trigger] result@[pix_idx(w, x as int, y as int, cc)]
                                as int == blurred_sample(pixels@, w, x as int, y as int, cc),
                    decreases 4 - c,
                {
                    let i00 = pixel_index(width, height, x - 1, y - 1, c);
                    let i01 = pixel_index(width, height, x, y - 1, c);
                    let i02 = pixel_index(width, height, x + 1, y - 1, c);
                    let i10 = pixel_index(width, height, x - 1, y, c);
                    let i11 = pixel_index(width, height, x, y, c);
                    let i12 = pixel_index(width, height, x + 1, y, c);
                    let i20 = pixel_index(width, height, x - 1, y + 1, c);
                    let i21 = pixel_index(width, height, x, y + 1, c);
                    let i22 = pixel_index(width, height, x + 1, y + 1, c);
                    let sum: u32 = pixels[i00] as u32 + pixels[i01] as u32 + pixels[i02] as u32
                        + pixels[i10] as u32 + pixels[i11] as u32 + pixels[i12] as u32
                        + pixels[i20] as u32 + pixels[i21] as u32 + pixels[i22] as u32;
                    assert(sum as int == neighborhood_sum(pixels@, w, x as int, y as int, c as int));
                    result.set(i11, (sum / 9) as u8);
                    proof {
                        assert(result@[pix_idx(w, x as int, y as int, c as int)] as int
                            == blurred_sample(pixels@, w, x as int, y as int, c as int));
                        assert forall|xx: int, yy: int, cc: int|
                            1 <= xx < w - 1 && 1 <= yy < y && 0 <= cc < 4 implies #[trigger] result@[
                        pix_idx(w, xx, yy, cc)] as int == blurred_sample(
                            pixels@,
                            w,
                            xx,
                            yy,
                            cc,
                        ) by {
                            lemma_pix_idx_bound(w, h, xx, yy, cc);
                            lemma_pix_idx_injective(w, xx, yy, cc, x as int, y as int, c as int);
                        }
                        assert forall|xx: int, cc: int|
                            1 <= xx < x && 0 <= cc < 4 implies #[trigger] result@[pix_idx(
                            w,
                            xx,
                            y as int,
                            cc,
                        )] as int == blurred_sample(pixels@, w, xx, y as int, cc) by {
                            lemma_pix_idx_bound(w, h, xx, y as int, cc);
                            lemma_pix_idx_injective(
                                w,
                                xx,
                                y as int,
                                cc,
                                x as int,
                                y as int,
                                c as int,
                            );
                        }
                        assert forall|cc: int|
                            0 <= cc < c implies #[trigger] result@[pix_idx(w, x as int, y as int, cc)]
                            as int == blurred_sample(pixels@, w, x as int, y as int, cc) by {
                            lemma_pix_idx_bound(w, h, x as int, y as int, cc);
                            lemma_pix_idx_injective(
                                w,
                                x as int,
                                y as int,
                                cc,
                                x as int,
                                y as int,
                                c as int,
                            );
                        }
                    }
                    c = c + 1;
                }
                x = x + 1;
            }
            y = y + 1;
        }
    }
    assert(forall|xx: int, yy: int, cc: int|
        1 <= xx < w - 1 && 1 <= yy < h - 1 && 0 <= cc < 4 ==> #[trigger] result@[pix_idx(
            w,
            xx,
            yy,
            cc,
        )] as int == blurred_sample(pixels@, w, xx, yy, cc));

    // Border pass: copy the outermost rows and columns unchanged.
    let mut y: usize = 0;
    while y < height
        invariant
            w == width as int,
            h == height as int,
            pixels@.len() == w * h * 4,
            pixels@.len() <= usize::MAX,
            result@.len() == pixels@.len(),
            0 <= y <= h,
            forall|xx: int, yy: int, cc: int|
                1 <= xx < w - 1 && 1 <= yy < h - 1 && 0 <= cc < 4 ==> #[trigger] result@[pix_idx(
                    w,
                    xx,
                    yy,
                    cc,
                )] as int == blurred_sample(pixels@, w, xx, yy, cc),
            forall|xx: int, yy: int, cc: int|
                0 <= xx < w && 0 <= yy < y && 0 <= cc < 4 && on_border(w, h, xx, yy)
                    ==> #[trigger] result@[pix_idx(w, xx, yy, cc)] == pixels@[pix_idx(
                    w,
                    xx,
                    yy,
                    cc,
                )],
        decreases h - y,
    {
        let mut x: usize = 0;
        while x < width
            invariant
                w == width as int,
                h == height as int,
                pixels@.len() == w * h * 4,
                pixels@.len() <= usize::MAX,
                result@.len() == pixels@.len(),
                0 <= y < h,
                0 <= x <= w,
                forall|xx: int, yy: int, cc: int|
                    1 <= xx < w - 1 && 1 <= yy < h - 1 && 0 <= cc < 4 ==> #[trigger] result@[
                    pix_idx(w, xx, yy, cc)] as int == blurred_sample(pixels@, w, xx, yy, cc),
                forall|xx: int, yy: int, cc: int|
                    0 <= xx < w && 0 <= yy < y && 0 <= cc < 4 && on_border(w, h, xx, yy)
                        ==> #[trigger] result@[pix_idx(w, xx, yy, cc)] == pixels@[pix_idx(
                        w,
                        xx,
                        yy,
                        cc,
                    )],
                forall|xx: int, cc: int|
                    0 <= xx < x && 0 <= cc < 4 && on_border(w, h, xx, y as int)
                        ==> #[trigger] result@[pix_idx(w, xx, y as int, cc)] == pixels@[pix_idx(
                        w,
                        xx,
                        y as int,
                        cc,
                    )],
            decreases w - x,
        {
            if y == 0 || y == height - 1 || x == 0 || x == width - 1 {
                let mut c: usize = 0;
                while c < 4
                    invariant
                        w == width as int,
                        h == height as int,
                        pixels@.len() == w * h * 4,
                        pixels@.len() <= usize::MAX,
                        result@.len() == pixels@.len(),
                        0 <= y < h,
                        0 <= x < w,
                        0 <= c <= 4,
                        on_border(w, h, x as int, y as int),
                        forall|xx: int, yy: int, cc: int|
                            1 <= xx < w - 1 && 1 <= yy < h - 1 && 0 <= cc < 4 ==> #[trigger] result@[
                            pix_idx(w, xx, yy, cc)] as int == blurred_sample(
                                pixels@,
                                w,
                                xx,
                                yy,
                                cc,
                            ),
                        forall|xx: int, yy: int, cc: int|
                            0 <= xx < w && 0 <= yy < y && 0 <= cc < 4 && on_border(w, h, xx, yy)
                                ==> #[trigger] result@[pix_idx(w, xx, yy, cc)] == pixels@[pix_idx(
                                w,
                                xx,
                                yy,
                                cc,
                            )],
                        forall|xx: int, cc: int|
                            0 <= xx < x && 0 <= cc < 4 && on_border(w, h, xx, y as int)
                                ==> #[trigger] result@[pix_idx(w, xx, y as int, cc)] == pixels@[
                                pix_idx(w, xx, y as int, cc)],
                        forall|cc: int|
                            0 <= cc < c ==> #[trigger] result@[pix_idx(w, x as int, y as int, cc)]
                                == pixels@[pix_idx(w, x as int, y as int, cc)],
                    decreases 4 - c,
                {
                    let i = pixel_index(width, height, x, y, c);
                    result.set(i, pixels[i]);
                    proof {
                        assert forall|xx: int, yy: int, cc: int|
                            1 <= xx < w - 1 && 1 <= yy < h - 1 && 0 <= cc < 4 implies #[trigger] result@[
                        pix_idx(w, xx, yy, cc)] as int == blurred_sample(
                            pixels@,
                            w,
                            xx,
                            yy,
                            cc,
                        ) by {
                            lemma_pix_idx_bound(w, h, xx, yy, cc);
                            lemma_pix_idx_injective(w, xx, yy, cc, x as int, y as int, c as int);
                        }
                        assert forall|xx: int, yy: int, cc: int|
                            0 <= xx < w && 0 <= yy < y && 0 <= cc < 4 && on_border(w, h, xx, yy)
                            implies #[trigger] result@[pix_idx(w, xx, yy, cc)] == pixels@[pix_idx(
                            w,
                            xx,
                            yy,
                            cc,
                        )] by {
                            lemma_pix_idx_bound(w, h, xx, yy, cc);
                            lemma_pix_idx_injective(w, xx, yy, cc, x as int, y as int, c as int);
                        }
                        assert forall|xx: int, cc: int|
                            0 <= xx < x && 0 <= cc < 4 && on_border(w, h, xx, y as int)
                            implies #[trigger] result@[pix_idx(w, xx, y as int, cc)] == pixels@[
                        pix_idx(w, xx, y as int, cc)] by {
                            lemma_pix_idx_bound(w, h, xx, y as int, cc);
                            lemma_pix_idx_injective(
                                w,
                                xx,
                                y as int,
                                cc,
                                x as int,
                                y as int,
                                c as int,
                            );
                        }
                        assert forall|cc: int|
                            0 <= cc < c implies #[trigger] result@[pix_idx(w, x as int, y as int, cc)]
                            == pixels@[pix_idx(w, x as int, y as int, cc)] by {
                            lemma_pix_idx_bound(w, h, x as int, y as int, cc);
                            lemma_pix_idx_injective(
                                w,
                                x as int,
                                y as int,
                                cc,
                                x as int,
                                y as int,
                                c as int,
                            );
                        }
                    }
                    c = c + 1;
                }
            }
            x = x + 1;
        }
        y = y + 1;
    }
    result
}

/// Recovers the channel coordinates of a flat raster index.
proof fn lemma_index_decompose(i: int, width: int, height: int)
    requires
        0 <= width,
        0 <= height,
        0 <= i < width * height * 4,
    ensures
        0 <= i % 4 < 4,
        0 <= (i / 4) % width < width,
        0 <= (i / 4) / width < height,
        i == pix_idx(width, (i / 4) % width, (i / 4) / width, i % 4),
{
    assert(width > 0 && height > 0) by (nonlinear_arith)
        requires
            0 <= width,
            0 <= height,
            0 <= i < width * height * 4,
    ;
    lemma_fundamental_div_mod(i, 4);
    lemma_mod_bound(i, 4);
    let q = i / 4;
    assert(4 * q <= i);
    assert(q < width * height) by (nonlinear_arith)
        requires
            4 * q <= i < width * height * 4,
    ;
    lemma_fundamental_div_mod(q, width);
    lemma_mod_bound(q, width);
    let x = q % width;
    let y = q / width;
    assert(q == width * y + x);
    assert(y < height) by (nonlinear_arith)
        requires
            q == width * y + x,
            0 <= x < width,
            q < width * height,
            0 <= y,
    ;
    assert(y >= 0) by (nonlinear_arith)
        requires
            q == width * y + x,
            0 <= x < width,
            0 <= q,
            width > 0,
    ;
    assert(pix_idx(width, x, y, i % 4) == (y * width + x) * 4 + i % 4);
    assert((y * width + x) * 4 + i % 4 == i) by (nonlinear_arith)
        requires
            q == width * y + x,
            i == 4 * q + i % 4,
    ;
}

/// Blurring a uniform raster returns it unchanged: the mean of nine
/// equal samples is that sample, and border samples are copied.
pub proof fn lemma_blur_uniform(r: Seq<u8>, p: Seq<u8>, width: int, height: int, v: u8)
    requires
        0 <= width,
        0 <= height,
        is_blur_of(r, p, width, height),
        forall|i: int| 0 <= i < p.len() ==> p[i] == v,
    ensures
        r =~= p,
{
    assert forall|i: int| 0 <= i < r.len() implies r[i] == p[i] by {
        lemma_index_decompose(i, width, height);
        let c = i % 4;
        let x = (i / 4) % width;
        let y = (i / 4) / width;
        if on_border(width, height, x, y) {
            assert(r[pix_idx(width, x, y, c)] == p[pix_idx(width, x, y, c)]);
        } else {
            assert(1 <= x < width - 1 && 1 <= y < height - 1);
            assert forall|xx: int, yy: int| x - 1 <= xx <= x + 1 && y - 1 <= yy <= y + 1 implies
                sample(p, width, xx, yy, c) == v as int by {
                lemma_pix_idx_bound(width, height, xx, yy, c);
            }
            assert(neighborhood_sum(p, width, x, y, c) == 9 * (v as int));
            assert(9 * (v as int) / 9 == v as int) by (nonlinear_arith);
            assert(r[pix_idx(width, x, y, c)] as int == blurred_sample(p, width, x, y, c));
        }
    }
}

} // verus!
